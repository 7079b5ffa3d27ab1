//! Verified text utilities: substring search, separator splitting and
//! joining, whitespace trimming, prefix tests and decimal rendering.
//!
//! These are the character-level facts that the node store, the local
//! dissection provider and the streaming protocol are specified with.

use vstd::prelude::*;

verus! {

// ---------------------------------------------------------------------------
// Substring search
// ---------------------------------------------------------------------------

/// `sep` occurs in `s` at position `i`.
pub open spec fn matches_at(s: Seq<char>, sep: Seq<char>, i: int) -> bool {
    0 <= i && i + sep.len() <= s.len() && s.subrange(i, i + sep.len() as int) == sep
}

/// The position of the leftmost occurrence of `sep` in `s`, if any.
/// An empty `sep` is treated as absent.
pub open spec fn find_sub(s: Seq<char>, sep: Seq<char>) -> Option<int>
    decreases s.len(),
{
    if sep.len() == 0 || s.len() < sep.len() {
        None
    } else if s.subrange(0, sep.len() as int) == sep {
        Some(0)
    } else {
        match find_sub(s.drop_first(), sep) {
            Some(i) => Some(i + 1),
            None => None,
        }
    }
}

/// `find_sub` returns the leftmost occurrence, and `None` exactly when there
/// is none.
pub proof fn lemma_find_sub_spec(s: Seq<char>, sep: Seq<char>)
    requires
        sep.len() > 0,
    ensures
        match find_sub(s, sep) {
            Some(i) => matches_at(s, sep, i) && (forall|j: int| 0 <= j < i ==> !matches_at(s, sep, j)),
            None => forall|j: int| !matches_at(s, sep, j),
        },
    decreases s.len(),
{
    if s.len() < sep.len() {
        assert forall|j: int| !matches_at(s, sep, j) by {}
    } else if s.subrange(0, sep.len() as int) == sep {
    } else {
        let t = s.drop_first();
        lemma_find_sub_spec(t, sep);
        assert forall|j: int| 0 <= j && j + sep.len() <= t.len() implies
            #[trigger] t.subrange(j, j + sep.len() as int) =~= s.subrange(j + 1, j + 1 + sep.len() as int) by {}
        match find_sub(s, sep) {
            Some(i) => {
                assert(find_sub(t, sep) == Some(i - 1));
                assert(matches_at(t, sep, i - 1));
                assert(s.subrange(i, i + sep.len() as int) =~= t.subrange(i - 1, i - 1 + sep.len() as int));
                assert forall|j: int| 0 <= j < i implies !matches_at(s, sep, j) by {
                    if j > 0 {
                        assert(!matches_at(t, sep, j - 1));
                        assert(s.subrange(j, j + sep.len() as int) =~= t.subrange(j - 1, j - 1 + sep.len() as int));
                    }
                }
            },
            None => {
                assert forall|j: int| !matches_at(s, sep, j) by {
                    if j > 0 && matches_at(s, sep, j) {
                        assert(s.subrange(j, j + sep.len() as int) =~= t.subrange(j - 1, j - 1 + sep.len() as int));
                        assert(matches_at(t, sep, j - 1));
                    }
                }
            },
        }
    }
}

// ---------------------------------------------------------------------------
// Splitting and joining
// ---------------------------------------------------------------------------

/// `s` split on every non-overlapping occurrence of `sep`, leftmost first.
/// The result always has at least one element, and an input without any
/// occurrence (or an empty `sep`) yields the one-element sequence of `s`.
pub open spec fn split_on(s: Seq<char>, sep: Seq<char>) -> Seq<Seq<char>>
    decreases s.len() via split_on_decreases
{
    match find_sub(s, sep) {
        None => seq![s],
        Some(i) => seq![s.subrange(0, i)] + split_on(s.subrange(i + sep.len(), s.len() as int), sep),
    }
}

#[via_fn]
proof fn split_on_decreases(s: Seq<char>, sep: Seq<char>) {
    if sep.len() > 0 {
        lemma_find_sub_spec(s, sep);
    }
}

/// The elements of `parts` concatenated with `sep` between neighbours.
pub open spec fn join_with(parts: Seq<Seq<char>>, sep: Seq<char>) -> Seq<char>
    decreases parts.len(),
{
    if parts.len() == 0 {
        Seq::empty()
    } else if parts.len() == 1 {
        parts[0]
    } else {
        parts[0] + sep + join_with(parts.drop_first(), sep)
    }
}

pub proof fn lemma_split_on_len(s: Seq<char>, sep: Seq<char>)
    ensures
        split_on(s, sep).len() >= 1,
{
}

/// Joining the parts of a split restores the original text exactly.
pub proof fn lemma_join_split(s: Seq<char>, sep: Seq<char>)
    requires
        sep.len() > 0,
    ensures
        join_with(split_on(s, sep), sep) == s,
    decreases s.len(),
{
    lemma_find_sub_spec(s, sep);
    match find_sub(s, sep) {
        None => {
            assert(join_with(split_on(s, sep), sep) == s);
        },
        Some(i) => {
            let rest = s.subrange(i + sep.len(), s.len() as int);
            lemma_join_split(rest, sep);
            lemma_split_on_len(rest, sep);
            let parts = seq![s.subrange(0, i)] + split_on(rest, sep);
            assert(parts.drop_first() =~= split_on(rest, sep));
            assert(parts.len() >= 2);
            assert(join_with(parts, sep) == s.subrange(0, i) + sep + join_with(split_on(rest, sep), sep));
            assert(s.subrange(i, i + sep.len() as int) == sep);
            assert(s.subrange(0, i) + sep + rest =~= s);
        },
    }
}

// ---------------------------------------------------------------------------
// Executable primitives
// ---------------------------------------------------------------------------

/// Relies on `String::push`: appends one character to the string.
#[verifier::external_body]
pub fn push_char(s: &mut String, c: char)
    ensures
        final(s)@ == old(s)@.push(c),
{
    s.push(c);
}

/// Character-for-character string equality.
pub fn str_eq(a: &str, b: &str) -> (r: bool)
    ensures
        r == (a@ == b@),
{
    let n = a.unicode_len();
    if n != b.unicode_len() {
        return false;
    }
    let mut i: usize = 0;
    while i < n
        invariant
            n == a@.len(),
            n == b@.len(),
            0 <= i <= n,
            forall|k: int| 0 <= k < i ==> a@[k] == b@[k],
        decreases n - i,
    {
        if a.get_char(i) != b.get_char(i) {
            return false;
        }
        i = i + 1;
    }
    proof {
        assert(a@ =~= b@);
    }
    true
}

/// Does `s` start with `p`, character for character?
pub fn str_starts_with(s: &str, p: &str) -> (r: bool)
    ensures
        r == p@.is_prefix_of(s@),
{
    let n = s.unicode_len();
    let m = p.unicode_len();
    if m > n {
        assert(!p@.is_prefix_of(s@));
        return false;
    }
    let mut i: usize = 0;
    while i < m
        invariant
            n == s@.len(),
            m == p@.len(),
            m <= n,
            0 <= i <= m,
            forall|k: int| 0 <= k < i ==> s@[k] == p@[k],
        decreases m - i,
    {
        if s.get_char(i) != p.get_char(i) {
            assert(!p@.is_prefix_of(s@));
            return false;
        }
        i = i + 1;
    }
    proof {
        assert(p@ =~= s@.subrange(0, p@.len() as int));
    }
    true
}

/// The first `n` characters of `s` (all of `s` if it is shorter).
pub fn take_chars(s: &str, n: usize) -> (r: String)
    ensures
        r@ == s@.take(if n <= s@.len() { n as int } else { s@.len() as int }),
{
    let len = s.unicode_len();
    let end = if n <= len { n } else { len };
    let sub = s.substring_char(0, end);
    proof {
        assert(sub@ =~= s@.take(end as int));
    }
    String::from_str(sub)
}

// ---------------------------------------------------------------------------
// Executable splitting and joining
// ---------------------------------------------------------------------------

/// A match at `i`, with no match from `start` up to `i`, fixes the next step
/// of `split_on` on the tail beginning at `start`.
proof fn lemma_split_step(s: Seq<char>, sep: Seq<char>, start: int, i: int)
    requires
        sep.len() > 0,
        0 <= start <= i,
        matches_at(s, sep, i),
        forall|j: int| start <= j < i ==> !matches_at(s, sep, j),
    ensures
        split_on(s.subrange(start, s.len() as int), sep) == seq![s.subrange(start, i)] + split_on(
            s.subrange(i + sep.len(), s.len() as int),
            sep,
        ),
{
    let n = s.len() as int;
    let m = sep.len() as int;
    let t = s.subrange(start, n);
    lemma_find_sub_spec(t, sep);
    assert(t.subrange(i - start, i - start + m) =~= s.subrange(i, i + m));
    assert(matches_at(t, sep, i - start));
    assert forall|j: int| 0 <= j < i - start implies !matches_at(t, sep, j) by {
        if j + m <= t.len() {
            assert(t.subrange(j, j + m) =~= s.subrange(start + j, start + j + m));
            assert(!matches_at(s, sep, start + j));
        }
    }
    match find_sub(t, sep) {
        None => {
            assert(false);
        },
        Some(k) => {
            if k > i - start {
                assert(!matches_at(t, sep, i - start));
            }
            assert(k == i - start);
        },
    }
    assert(t.subrange(0, i - start) =~= s.subrange(start, i));
    assert(t.subrange(i - start + m, t.len() as int) =~= s.subrange(i + m, n));
}

/// `s` split on every non-overlapping occurrence of `sep`, leftmost first,
/// as executable code.
pub fn split_on_str(s: &str, sep: &str) -> (parts: Vec<String>)
    requires
        sep@.len() > 0,
    ensures
        parts.deep_view() == split_on(s@, sep@),
{
    let n = s.unicode_len();
    let m = sep.unicode_len();
    let mut parts: Vec<String> = Vec::new();
    let mut start: usize = 0;
    let mut i: usize = 0;
    proof {
        assert(s@.subrange(0, n as int) =~= s@);
        assert(parts.deep_view() =~= Seq::<Seq<char>>::empty());
        assert(parts.deep_view() + split_on(s@, sep@) =~= split_on(s@, sep@));
    }
    while m <= n && i <= n - m
        invariant
            n == s@.len(),
            m == sep@.len(),
            m > 0,
            0 <= start <= i <= n,
            split_on(s@, sep@) =~= parts.deep_view() + split_on(
                s@.subrange(start as int, n as int),
                sep@,
            ),
            forall|j: int| start <= j < i ==> !matches_at(s@, sep@, j),
        decreases n - i,
    {
        let mut k: usize = 0;
        let mut eq: bool = true;
        while k < m
            invariant
                n == s@.len(),
                m == sep@.len(),
                i + m <= n,
                0 <= k <= m,
                eq ==> forall|t: int| 0 <= t < k ==> s@[i + t] == sep@[t],
                !eq ==> exists|t: int| 0 <= t < m && s@[i + t] != sep@[t],
            decreases m - k,
        {
            if s.get_char(i + k) != sep.get_char(k) {
                eq = false;
                k = m;
            } else {
                k = k + 1;
            }
        }
        if eq {
            proof {
                assert(s@.subrange(i as int, i + m) =~= sep@);
                assert(matches_at(s@, sep@, i as int));
                lemma_split_step(s@, sep@, start as int, i as int);
            }
            let ghost old_parts = parts.deep_view();
            let part = s.substring_char(start, i);
            parts.push(String::from_str(part));
            proof {
                assert(parts.deep_view() =~= old_parts.push(s@.subrange(start as int, i as int)));
                assert(parts.deep_view() + split_on(s@.subrange(i + m, n as int), sep@) =~= old_parts
                    + split_on(s@.subrange(start as int, n as int), sep@));
            }
            start = i + m;
            i = i + m;
        } else {
            proof {
                let t = choose|t: int| 0 <= t < m && s@[i + t] != sep@[t];
                if matches_at(s@, sep@, i as int) {
                    assert(s@.subrange(i as int, i + m)[t] == s@[i + t]);
                }
            }
            i = i + 1;
        }
    }
    proof {
        let t = s@.subrange(start as int, n as int);
        lemma_find_sub_spec(t, sep@);
        assert forall|j: int| !matches_at(t, sep@, j) by {
            if 0 <= j && j + m <= t.len() {
                assert(t.subrange(j, j + m as int) =~= s@.subrange(start + j, start + j + m));
                assert(!matches_at(s@, sep@, start + j));
            }
        }
        if find_sub(t, sep@) is Some {
            let k = find_sub(t, sep@)->0;
            assert(matches_at(t, sep@, k));
        }
        assert(split_on(t, sep@) == seq![t]);
    }
    let ghost old_parts = parts.deep_view();
    let last = s.substring_char(start, n);
    parts.push(String::from_str(last));
    proof {
        assert(parts.deep_view() =~= old_parts.push(s@.subrange(start as int, n as int)));
        assert(parts.deep_view() =~= split_on(s@, sep@));
    }
    parts
}

/// Appending one part extends a join by the separator and the part.
pub proof fn lemma_join_push(parts: Seq<Seq<char>>, x: Seq<char>, sep: Seq<char>)
    ensures
        join_with(parts.push(x), sep) == if parts.len() == 0 {
            x
        } else {
            join_with(parts, sep) + sep + x
        },
    decreases parts.len(),
{
    if parts.len() == 0 {
        assert(join_with(parts.push(x), sep) == parts.push(x)[0]);
    } else {
        lemma_join_push(parts.drop_first(), x, sep);
        assert(parts.push(x).drop_first() =~= parts.drop_first().push(x));
        if parts.len() == 1 {
            assert(parts.drop_first().len() == 0);
            assert(join_with(parts.push(x), sep) == parts[0] + sep + x);
            assert(join_with(parts, sep) == parts[0]);
        } else {
            assert(join_with(parts.push(x), sep) == parts[0] + sep + (join_with(
                parts.drop_first(),
                sep,
            ) + sep + x));
            assert(parts[0] + sep + (join_with(parts.drop_first(), sep) + sep + x) =~= (parts[0]
                + sep + join_with(parts.drop_first(), sep)) + sep + x);
        }
    }
}

/// The elements of `parts` concatenated with `sep` between neighbours, as
/// executable code.
pub fn join_with_str(parts: &Vec<String>, sep: &str) -> (r: String)
    ensures
        r@ == join_with(parts.deep_view(), sep@),
{
    let mut r = String::new();
    let mut i: usize = 0;
    while i < parts.len()
        invariant
            0 <= i <= parts@.len(),
            parts.deep_view().len() == parts@.len(),
            r@ == join_with(parts.deep_view().take(i as int), sep@),
        decreases parts@.len() - i,
    {
        if i > 0 {
            r.append(sep);
        }
        r.append(parts[i].as_str());
        proof {
            let dv = parts.deep_view();
            assert(dv.take(i + 1) =~= dv.take(i as int).push(dv[i as int]));
            lemma_join_push(dv.take(i as int), dv[i as int], sep@);
            if i == 0 {
                assert(r@ =~= dv[0]);
                assert(r@ == join_with(dv.take(1), sep@));
            }
        }
        i = i + 1;
    }
    proof {
        assert(parts.deep_view().take(parts@.len() as int) =~= parts.deep_view());
    }
    r
}

// ---------------------------------------------------------------------------
// Whitespace trimming
// ---------------------------------------------------------------------------

/// The whitespace characters that framing strips from protocol lines.
pub open spec fn is_space(c: char) -> bool {
    c == ' ' || c == '\t' || c == '\r' || c == '\n'
}

/// The index of the first non-space character (the length if there is none).
pub open spec fn first_non_space(s: Seq<char>) -> int
    decreases s.len(),
{
    if s.len() == 0 {
        0
    } else if is_space(s[0]) {
        1 + first_non_space(s.drop_first())
    } else {
        0
    }
}

/// One past the index of the last non-space character (zero if there is none).
pub open spec fn last_non_space_end(s: Seq<char>) -> int
    decreases s.len(),
{
    if s.len() == 0 {
        0
    } else if is_space(s.last()) {
        last_non_space_end(s.drop_last())
    } else {
        s.len() as int
    }
}

/// `s` with leading and trailing spaces removed.
pub open spec fn trim_spec(s: Seq<char>) -> Seq<char> {
    let lo = first_non_space(s);
    let hi = last_non_space_end(s);
    if lo <= hi {
        s.subrange(lo, hi)
    } else {
        Seq::empty()
    }
}

proof fn lemma_first_non_space_unique(s: Seq<char>, lo: int)
    requires
        0 <= lo <= s.len(),
        forall|k: int| 0 <= k < lo ==> is_space(s[k]),
        lo < s.len() ==> !is_space(s[lo]),
    ensures
        first_non_space(s) == lo,
    decreases s.len(),
{
    if s.len() == 0 {
    } else if is_space(s[0]) {
        let t = s.drop_first();
        assert(lo > 0);
        assert forall|k: int| 0 <= k < lo - 1 implies is_space(t[k]) by {
            assert(t[k] == s[k + 1]);
        }
        lemma_first_non_space_unique(t, lo - 1);
    } else {
        assert(lo == 0);
    }
}

proof fn lemma_last_non_space_end_unique(s: Seq<char>, hi: int)
    requires
        0 <= hi <= s.len(),
        forall|k: int| hi <= k < s.len() ==> is_space(s[k]),
        hi > 0 ==> !is_space(s[hi - 1]),
    ensures
        last_non_space_end(s) == hi,
    decreases s.len(),
{
    if s.len() == 0 {
    } else if is_space(s.last()) {
        let t = s.drop_last();
        assert(hi < s.len());
        assert forall|k: int| hi <= k < t.len() implies is_space(t[k]) by {
            assert(t[k] == s[k]);
        }
        lemma_last_non_space_end_unique(t, hi);
    } else {
        assert(hi == s.len());
    }
}

/// Is `c` one of the whitespace characters that framing strips?
pub fn is_space_char(c: char) -> (r: bool)
    ensures
        r == is_space(c),
{
    c == ' ' || c == '\t' || c == '\r' || c == '\n'
}

/// `s` with leading and trailing spaces removed, as executable code.
pub fn trim_str(s: &str) -> (r: String)
    ensures
        r@ == trim_spec(s@),
{
    let n = s.unicode_len();
    let mut lo: usize = 0;
    while lo < n && is_space_char(s.get_char(lo))
        invariant
            n == s@.len(),
            0 <= lo <= n,
            forall|k: int| 0 <= k < lo ==> is_space(s@[k]),
        decreases n - lo,
    {
        lo = lo + 1;
    }
    proof {
        lemma_first_non_space_unique(s@, lo as int);
    }
    let mut hi: usize = n;
    while hi > lo && is_space_char(s.get_char(hi - 1))
        invariant
            n == s@.len(),
            lo <= hi <= n,
            forall|k: int| hi <= k < n ==> is_space(s@[k]),
        decreases hi,
    {
        hi = hi - 1;
    }
    proof {
        if hi == lo {
            // only possible when every character is a space
            assert(lo == n);
            lemma_last_non_space_end_unique(s@, 0int);
        } else {
            lemma_last_non_space_end_unique(s@, hi as int);
        }
    }
    let sub = s.substring_char(lo, hi);
    proof {
        assert(sub@ =~= s@.subrange(lo as int, hi as int));
        assert(sub@ =~= trim_spec(s@));
    }
    String::from_str(sub)
}

// ---------------------------------------------------------------------------
// Decimal rendering
// ---------------------------------------------------------------------------

/// The decimal digit character for a value below ten.
pub open spec fn dec_digit(d: int) -> char {
    if d == 0 {
        '0'
    } else if d == 1 {
        '1'
    } else if d == 2 {
        '2'
    } else if d == 3 {
        '3'
    } else if d == 4 {
        '4'
    } else if d == 5 {
        '5'
    } else if d == 6 {
        '6'
    } else if d == 7 {
        '7'
    } else if d == 8 {
        '8'
    } else {
        '9'
    }
}

/// The decimal representation of `n`, most significant digit first, with no
/// leading zeros (zero itself is the single digit `0`).
pub open spec fn dec_str_of(n: nat) -> Seq<char>
    decreases n,
{
    if n < 10 {
        seq![dec_digit(n as int)]
    } else {
        dec_str_of(n / 10) + seq![dec_digit((n % 10) as int)]
    }
}

fn dec_digit_char(d: u32) -> (c: char)
    requires
        d < 10,
    ensures
        c == dec_digit(d as int),
{
    match d {
        0 => '0',
        1 => '1',
        2 => '2',
        3 => '3',
        4 => '4',
        5 => '5',
        6 => '6',
        7 => '7',
        8 => '8',
        _ => '9',
    }
}

/// Renders `n` in decimal.
pub fn u32_to_dec(n: u32) -> (r: String)
    ensures
        r@ == dec_str_of(n as nat),
{
    let mut digits: Vec<char> = Vec::new();
    let mut m: u32 = n;
    proof {
        assert(dec_str_of(n as nat) =~= dec_str_of(m as nat) + digits@.reverse());
    }
    while m >= 10
        invariant
            dec_str_of(n as nat) == dec_str_of(m as nat) + digits@.reverse(),
        decreases m,
    {
        let ghost old_digits = digits@;
        let d = m % 10;
        digits.push(dec_digit_char(d));
        proof {
            assert(digits@.reverse() =~= seq![dec_digit((m % 10) as int)] + old_digits.reverse());
            assert(dec_str_of(m as nat) == dec_str_of((m / 10) as nat) + seq![
                dec_digit((m % 10) as int),
            ]);
            assert(dec_str_of((m / 10) as nat) + (seq![dec_digit((m % 10) as int)]
                + old_digits.reverse()) =~= (dec_str_of((m / 10) as nat) + seq![
                dec_digit((m % 10) as int),
            ]) + old_digits.reverse());
        }
        m = m / 10;
    }
    let ghost before_last = digits@;
    digits.push(dec_digit_char(m));
    proof {
        assert(digits@.reverse() =~= seq![dec_digit(m as int)] + before_last.reverse());
        assert(dec_str_of(m as nat) == seq![dec_digit(m as int)]);
        assert(dec_str_of(n as nat) =~= digits@.reverse());
    }
    let mut r = String::new();
    let mut j: usize = digits.len();
    while j > 0
        invariant
            j <= digits@.len(),
            r@.len() == digits@.len() - j,
            forall|k: int| 0 <= k < r@.len() ==> r@[k] == digits@[digits@.len() - 1 - k],
        decreases j,
    {
        j = j - 1;
        push_char(&mut r, digits[j]);
    }
    proof {
        assert(r@ =~= digits@.reverse());
    }
    r
}

} // verus!
