//! The persisted unit: a node with an id, a title ("blurb"), an optional
//! `after` predecessor reference, and positional children.

use vstd::prelude::*;
use crate::error::Error;

verus! {

/// Metadata of a node, stored beside its content: the title and the optional
/// id of the sibling that must precede it.
#[derive(Debug)]
pub struct Meta {
    /// The node's title/blurb.
    pub title: String,
    /// Optional id of the sibling node that should precede this one.
    pub after: Option<String>,
}

impl Meta {
    pub fn new(title: String, after: Option<String>) -> (r: Self)
        ensures
            r.title == title,
            r.after == after,
    {
        Meta { title, after }
    }
}

impl Clone for Meta {
    fn clone(&self) -> (r: Self)
        ensures
            r == *self,
    {
        let after = match &self.after {
            Some(a) => Some(a.clone()),
            None => None,
        };
        Meta { title: self.title.clone(), after }
    }
}

/// A node of the tree: id, metadata, and the ordered children.
#[derive(Debug)]
pub struct Node {
    pub id: String,
    pub meta: Meta,
    pub children: Vec<Node>,
}

impl Node {
    /// Accessor for the blurb (delegates to `meta.title`).
    pub fn blurb(&self) -> (r: &str)
        ensures
            r@ == self.meta.title@,
    {
        self.meta.title.as_str()
    }

    /// Accessor for the predecessor reference (delegates to `meta.after`).
    pub fn after(&self) -> (r: Option<&String>)
        ensures
            match r {
                Some(a) => self.meta.after == Some(*a),
                None => self.meta.after is None,
            },
    {
        self.meta.after.as_ref()
    }

    pub fn new(id: String, blurb: String, after: Option<String>) -> (r: Self)
        ensures
            r.id == id,
            r.meta.title == blurb,
            r.meta.after == after,
            r.children@ == Seq::<Node>::empty(),
    {
        Node { id, meta: Meta::new(blurb, after), children: Vec::new() }
    }
}

// ---------------------------------------------------------------------------
// Metadata rendering
// ---------------------------------------------------------------------------

/// The serialized metadata document for a title and an optional predecessor:
/// a braced block holding `title` and, when present, `after`.
pub open spec fn render_meta_spec(title: Seq<char>, after: Option<Seq<char>>) -> Seq<char> {
    let head = "meta {\n"@ + "  title: \""@ + title + "\"\n"@;
    let tail = match after {
        Some(a) => "  after: \""@ + a + "\"\n"@,
        None => Seq::<char>::empty(),
    };
    head + tail + "}"@
}

impl Node {
    /// The textual form of this node's metadata, as it is persisted beside
    /// the content.
    pub fn render_meta(&self) -> (r: String)
        ensures
            r@ == render_meta_spec(self.meta.title@, match self.meta.after {
                Some(a) => Some(a@),
                None => None,
            }),
    {
        let mut r = String::new();
        r.append("meta {\n");
        r.append("  title: \"");
        r.append(self.meta.title.as_str());
        r.append("\"\n");
        match &self.meta.after {
            Some(a) => {
                r.append("  after: \"");
                r.append(a.as_str());
                r.append("\"\n");
            },
            None => {},
        }
        r.append("}");
        proof {
            assert(r@ =~= render_meta_spec(self.meta.title@, match self.meta.after {
                Some(a) => Some(a@),
                None => None,
            }));
        }
        r
    }
}

// ---------------------------------------------------------------------------
// Metadata parsing
// ---------------------------------------------------------------------------

/// What the `hocon` crate reads from a metadata document when environment
/// substitution is disabled: the `meta.title` and `meta.after` string
/// fields, or nothing when the text does not parse or `meta.title` is
/// missing; the result depends on the text alone.
pub uninterp spec fn hocon_meta_of(text: Seq<char>) -> Option<(Seq<char>, Option<Seq<char>>)>;

/// Relies on `hocon::HoconLoader::no_system`, `load_str` and `hocon`, and
/// on `Hocon::as_string` through the `"meta"`/`"title"`/`"after"` indices:
/// parses the metadata document and extracts its two fields. `no_system`
/// turns off the loader's fallback to the process environment for `${VAR}`
/// substitutions, so the parse depends on the document text alone.
#[verifier::external_body]
fn parse_meta_text(text: &str) -> (r: Option<(String, Option<String>)>)
    ensures
        match r {
            Some(p) => hocon_meta_of(text@) == Some((p.0@, p.1.deep_view())),
            None => hocon_meta_of(text@) is None,
        },
{
    let loaded = hocon::HoconLoader::new().no_system().load_str(text).ok()?;
    let doc = loaded.hocon().ok()?;
    let title = doc["meta"]["title"].as_string()?;
    let after = doc["meta"]["after"].as_string();
    Some((title, after))
}

impl Node {
    /// Load a node from its metadata document text, under the given id.
    /// Fails with `ProtocolError` exactly when the text does not parse as
    /// metadata holding a title.
    pub fn from_meta(meta_text: &str, id: String) -> (r: Result<Self, Error>)
        ensures
            match r {
                Ok(n) => hocon_meta_of(meta_text@) matches Some(m) && n.id == id && n.meta.title@
                    == m.0 && n.meta.after.deep_view() == m.1 && n.children@ == Seq::<
                    Node,
                >::empty(),
                Err(e) => e == Error::ProtocolError && hocon_meta_of(meta_text@) is None,
            },
    {
        match parse_meta_text(meta_text) {
            Some(p) => Ok(Node::new(id, p.0, p.1)),
            None => Err(Error::ProtocolError),
        }
    }
}

} // verus!
