//! Dissection providers: the local deterministic splitter and the verified
//! core of the remote streaming protocol.
//!
//! The local splitter cuts a document on a fixed paragraph boundary and
//! labels each part with a bounded prefix. The remote protocol accumulates
//! streamed text fragments and, whenever the buffer holds newline-terminated
//! segments, parses each completed segment as a two-element JSON string
//! array, yielding parts incrementally.

use vstd::prelude::*;
use crate::config::LlmSettings;
use crate::error::Error;
use crate::text::join_with;
use crate::text::lemma_join_split;
use crate::text::split_on;
use crate::text::split_on_str;
use crate::text::take_chars;
use crate::text::trim_spec;
use crate::text::trim_str;

verus! {

/// The blurb of a part: its first fifty characters.
pub open spec fn blurb_of(part: Seq<char>) -> Seq<char> {
    part.take(if part.len() < 50 { part.len() as int } else { 50int })
}

/// The parts of a document as the local splitter produces them: the pieces
/// between paragraph boundaries, in order.
pub open spec fn local_parts(document: Seq<char>) -> Seq<Seq<char>> {
    split_on(document, "\n\n"@)
}

/// Joining the local parts on the paragraph boundary restores the document
/// exactly: the local dissection is lossless.
pub proof fn lemma_local_parts_lossless(document: Seq<char>)
    ensures
        join_with(local_parts(document), "\n\n"@) == document,
{
    reveal_strlit("\n\n");
    lemma_join_split(document, "\n\n"@);
}

/// The local deterministic splitter.
pub struct DummyLlmProvider;

/// The local splitter's iterator over dissected parts.
pub struct DummyIterator {
    parts: Vec<String>,
    index: usize,
}

impl DummyIterator {
    /// The dissected parts, in order.
    pub closed spec fn parts_view(&self) -> Seq<Seq<char>> {
        self.parts.deep_view()
    }

    /// How many parts have been handed out already.
    pub closed spec fn index_view(&self) -> int {
        self.index as int
    }

    pub fn new(content: &str) -> (r: Self)
        ensures
            r.parts_view() == local_parts(content@),
            r.index_view() == 0,
    {
        proof {
            reveal_strlit("\n\n");
        }
        let parts = split_on_str(content, "\n\n");
        DummyIterator { parts, index: 0 }
    }

    /// The next part: a blurb of at most fifty characters, and the part
    /// itself; `None` once every part has been produced.
    pub fn next(&mut self) -> (r: Option<Result<(String, String), Error>>)
        ensures
            final(self).parts_view() == old(self).parts_view(),
            old(self).index_view() < old(self).parts_view().len() ==> {
                &&& final(self).index_view() == old(self).index_view() + 1
                &&& r matches Some(item) && (item matches Ok(p) && p.0@ == blurb_of(
                    old(self).parts_view()[old(self).index_view()],
                ) && p.1@ == old(self).parts_view()[old(self).index_view()])
            },
            old(self).index_view() >= old(self).parts_view().len() ==> {
                &&& final(self).index_view() == old(self).index_view()
                &&& r is None
            },
    {
        if self.index >= self.parts.len() {
            return None;
        }
        let s = &self.parts[self.index];
        self.index = self.index + 1;
        let blurb = take_chars(s.as_str(), 50);
        Some(Ok((blurb, s.clone())))
    }
}

impl DummyLlmProvider {
    /// Dissect a document synchronously into its paragraph parts.
    pub fn dissect_markdown(&self, markdown_content: &str) -> (r: DummyIterator)
        ensures
            r.parts_view() == local_parts(markdown_content@),
            r.index_view() == 0,
    {
        DummyIterator::new(markdown_content)
    }
}

// ---------------------------------------------------------------------------
// The remote streaming protocol
// ---------------------------------------------------------------------------

/// What `serde_json::from_str::<(String, String)>` yields of a line: the
/// two-element JSON string array it holds, if it parses as one; the result
/// depends on the line text alone.
pub uninterp spec fn json_pair_of(line: Seq<char>) -> Option<(Seq<char>, Seq<char>)>;

/// Relies on `serde_json::from_str` with a `(String, String)` target: it
/// accepts exactly a JSON array of two strings.
#[verifier::external_body]
fn parse_json_pair(line: &str) -> (r: Option<(String, String)>)
    ensures
        match r {
            Some(p) => json_pair_of(line@) == Some((p.0@, p.1@)),
            None => json_pair_of(line@) is None,
        },
{
    match serde_json::from_str::<(String, String)>(line) {
        Ok(p) => Some(p),
        Err(_) => None,
    }
}

/// The view of one parsed outcome.
pub open spec fn outcome_view(r: Result<(String, String), Error>) -> Result<
    (Seq<char>, Seq<char>),
    Error,
> {
    match r {
        Ok(p) => Ok((p.0@, p.1@)),
        Err(e) => Err(e),
    }
}

/// The outcome of one streamed segment: nothing for a blank one, the part
/// for a two-element array, a protocol error for anything else.
pub open spec fn line_outcome(line: Seq<char>) -> Option<
    Result<(Seq<char>, Seq<char>), Error>,
> {
    let t = trim_spec(line);
    if t.len() == 0 {
        None
    } else {
        match json_pair_of(t) {
            Some(p) => Some(Ok(p)),
            None => Some(Err(Error::ProtocolError)),
        }
    }
}

/// Parse one completed segment of the stream.
pub fn parse_part_line(line: &str) -> (r: Option<Result<(String, String), Error>>)
    ensures
        match r {
            None => line_outcome(line@) is None,
            Some(o) => line_outcome(line@) == Some(outcome_view(o)),
        },
{
    let t = trim_str(line);
    if t.unicode_len() == 0 {
        return None;
    }
    match parse_json_pair(t.as_str()) {
        Some(p) => Some(Ok(p)),
        None => Some(Err(Error::ProtocolError)),
    }
}

/// The outcomes of a run of completed segments, in order, blank segments
/// yielding nothing.
pub open spec fn outcomes_of_lines(lines: Seq<Seq<char>>) -> Seq<
    Result<(Seq<char>, Seq<char>), Error>,
>
    decreases lines.len(),
{
    if lines.len() == 0 {
        Seq::empty()
    } else {
        outcomes_of_lines(lines.drop_last()) + (match line_outcome(lines.last()) {
            Some(o) => seq![o],
            None => Seq::empty(),
        })
    }
}

/// Accumulates streamed fragments and hands out the outcome of every
/// newline-terminated segment as soon as it is complete.
pub struct StreamSegmenter {
    buffer: String,
}

impl StreamSegmenter {
    /// The text received but not yet terminated by a newline.
    pub closed spec fn buffer_view(&self) -> Seq<char> {
        self.buffer@
    }

    pub fn new() -> (r: Self)
        ensures
            r.buffer_view() == Seq::<char>::empty(),
    {
        StreamSegmenter { buffer: String::new() }
    }

    /// Feed one streamed fragment; returns the newly completed segments.
    /// The concatenation of buffered and new text splits on newlines: every
    /// segment but the last is complete and returned, the last is buffered.
    pub fn push_fragment(&mut self, fragment: &str) -> (lines: Vec<String>)
        ensures
            ({
                let segs = split_on(old(self).buffer_view() + fragment@, "\n"@);
                &&& lines.deep_view() == segs.drop_last()
                &&& final(self).buffer_view() == segs.last()
            }),
    {
        proof {
            reveal_strlit("\n");
        }
        self.buffer.append(fragment);
        let mut segs = split_on_str(self.buffer.as_str(), "\n");
        let ghost segs_view = segs.deep_view();
        proof {
            crate::text::lemma_split_on_len(old(self).buffer_view() + fragment@, "\n"@);
        }
        match segs.pop() {
            Some(last) => {
                self.buffer = last;
            },
            None => {
                proof {
                    assert(false);
                }
            },
        }
        proof {
            assert(segs.deep_view() =~= segs_view.drop_last());
        }
        segs
    }

    /// Feed one fragment and parse every segment it completes.
    pub fn push_and_parse(&mut self, fragment: &str) -> (out: Vec<
        Result<(String, String), Error>,
    >)
        ensures
            ({
                let segs = split_on(old(self).buffer_view() + fragment@, "\n"@);
                &&& out@.map_values(|r: Result<(String, String), Error>| outcome_view(r))
                    == outcomes_of_lines(segs.drop_last())
                &&& final(self).buffer_view() == segs.last()
            }),
    {
        let lines = self.push_fragment(fragment);
        let ghost lv = lines.deep_view();
        let mut out: Vec<Result<(String, String), Error>> = Vec::new();
        let mut i: usize = 0;
        proof {
            assert(lv.take(0) =~= Seq::<Seq<char>>::empty());
            assert(out@.map_values(|r: Result<(String, String), Error>| outcome_view(r))
                =~= outcomes_of_lines(lv.take(0)));
        }
        while i < lines.len()
            invariant
                lv == lines.deep_view(),
                lv.len() == lines@.len(),
                0 <= i <= lines@.len(),
                out@.map_values(|r: Result<(String, String), Error>| outcome_view(r))
                    == outcomes_of_lines(lv.take(i as int)),
            decreases lines@.len() - i,
        {
            let ghost out_before = out@;
            match parse_part_line(lines[i].as_str()) {
                Some(o) => {
                    out.push(o);
                },
                None => {},
            }
            proof {
                assert(lv.take(i + 1).drop_last() =~= lv.take(i as int));
                assert(lv.take(i + 1).last() == lv[i as int]);
                assert(out@.map_values(|r: Result<(String, String), Error>| outcome_view(r))
                    =~= outcomes_of_lines(lv.take(i + 1)));
            }
            i = i + 1;
        }
        proof {
            assert(lv.take(lv.len() as int) =~= lv);
        }
        out
    }

    /// The end of the stream: the outcome of the remaining unterminated
    /// segment, the buffer emptied.
    pub fn finish(&mut self) -> (r: Option<Result<(String, String), Error>>)
        ensures
            final(self).buffer_view() == Seq::<char>::empty(),
            match r {
                None => line_outcome(old(self).buffer_view()) is None,
                Some(o) => line_outcome(old(self).buffer_view()) == Some(outcome_view(o)),
            },
    {
        let r = parse_part_line(self.buffer.as_str());
        self.buffer = String::new();
        r
    }
}

// ---------------------------------------------------------------------------
// Provider selection
// ---------------------------------------------------------------------------

/// The remote streaming endpoint: its connection settings.
#[derive(Debug)]
pub struct OllamaProvider {
    settings: LlmSettings,
}

impl OllamaProvider {
    /// The settings the provider was built with.
    pub closed spec fn spec_settings(&self) -> LlmSettings {
        self.settings
    }

    pub fn new(settings: LlmSettings) -> (r: Self)
        ensures
            r.spec_settings() == settings,
    {
        OllamaProvider { settings }
    }

    /// The connection settings, for the component that issues the request.
    pub fn settings(&self) -> (r: &LlmSettings)
        ensures
            *r == self.spec_settings(),
    {
        &self.settings
    }

    /// The URL this provider will post its generation request to.
    pub fn request_url(&self) -> (r: String)
        ensures
            r@ == request_url_spec(self.spec_settings()),
    {
        let mut r = match &self.settings.location {
            Some(l) => l.clone(),
            None => String::from_str("http://localhost"),
        };
        let port: u16 = match self.settings.port {
            Some(p) => p,
            None => 11434,
        };
        r.append(":");
        let port_dec = crate::text::u32_to_dec(port as u32);
        r.append(port_dec.as_str());
        r.append("/api/generate");
        proof {
            assert(r@ =~= request_url_spec(self.spec_settings()));
        }
        r
    }
}

/// The generation endpoint a provider posts to: its base URL (or the local
/// default), a colon, the port (or the default port) in decimal, and the
/// generate path.
pub open spec fn request_url_spec(s: LlmSettings) -> Seq<char> {
    let base = match s.location {
        Some(l) => l@,
        None => "http://localhost"@,
    };
    let port: u16 = match s.port {
        Some(p) => p,
        None => 11434u16,
    };
    base + ":"@ + crate::text::dec_str_of(port as nat) + "/api/generate"@
}

/// The fixed instructions sent ahead of the document.
pub open spec fn dissection_instructions_spec() -> Seq<char> {
    "You are a helpful assistant that dissects markdown content into its smallest atomic semantic units. For each unit, provide a short blurb (up to 50 characters) and the full content of the unit. For each unit respond with a one-line JSON array that contains two strings: [\"blurb\", \"dissected_unit_content\"] followed by a new line. Do not include any other text in your response, just one two-item array per line."@
}

/// The full dissection prompt for a document: the fixed instructions, one
/// space, the dissection request, a blank line, and the document itself.
pub open spec fn dissection_prompt_spec(markdown: Seq<char>) -> Seq<char> {
    dissection_instructions_spec() + " "@ + "Dissect the following markdown:\n\n"@ + markdown
}

/// Build the dissection prompt for a document.
pub fn dissection_prompt(markdown_content: &str) -> (r: String)
    ensures
        r@ == dissection_prompt_spec(markdown_content@),
{
    let mut r = String::new();
    r.append(
        "You are a helpful assistant that dissects markdown content into its smallest atomic semantic units. For each unit, provide a short blurb (up to 50 characters) and the full content of the unit. For each unit respond with a one-line JSON array that contains two strings: [\"blurb\", \"dissected_unit_content\"] followed by a new line. Do not include any other text in your response, just one two-item array per line.",
    );
    r.append(" ");
    r.append("Dissect the following markdown:\n\n");
    r.append(markdown_content);
    proof {
        assert(r@ =~= dissection_prompt_spec(markdown_content@));
    }
    r
}

/// The configured dissection provider.
pub enum Llm {
    Ollama(OllamaProvider),
    Dummy(DummyLlmProvider),
}

/// Selects the provider that the settings name: the remote endpoint for
/// `"ollama"`, the local splitter for `"dummy"` (and for the vendors that
/// have no implementation yet), an error for an unknown name.
pub fn get_llm_provider(settings: &LlmSettings) -> (r: Result<Llm, Error>)
    ensures
        settings.provider@ == "ollama"@ ==> (r matches Ok(l) && (l matches Llm::Ollama(o)
            && o.spec_settings() == *settings)),
        (settings.provider@ == "dummy"@ || settings.provider@ == "anthropic"@
            || settings.provider@ == "openai"@) ==> (r matches Ok(l) && l matches Llm::Dummy(_)),
        (settings.provider@ != "ollama"@ && settings.provider@ != "dummy"@ && settings.provider@
            != "anthropic"@ && settings.provider@ != "openai"@) ==> r == Err::<Llm, Error>(
            Error::ProtocolError,
        ),
{
    proof {
        broadcast use vstd::string::group_string_axioms;

        reveal_strlit("ollama");
        reveal_strlit("dummy");
        reveal_strlit("anthropic");
        reveal_strlit("openai");
        assert("ollama"@.len() == 6);
        assert("ollama"@ != "dummy"@);
        assert("ollama"@ != "anthropic"@);
        assert("ollama"@[1] == 'l' && "openai"@[1] == 'p');
        assert("ollama"@ != "openai"@);
    }
    let p = settings.provider.as_str();
    if crate::text::str_eq(p, "ollama") {
        Ok(Llm::Ollama(OllamaProvider::new(settings.clone())))
    } else if crate::text::str_eq(p, "dummy") {
        Ok(Llm::Dummy(DummyLlmProvider))
    } else if crate::text::str_eq(p, "anthropic") {
        Ok(Llm::Dummy(DummyLlmProvider))
    } else if crate::text::str_eq(p, "openai") {
        Ok(Llm::Dummy(DummyLlmProvider))
    } else {
        Err(Error::ProtocolError)
    }
}

} // verus!
