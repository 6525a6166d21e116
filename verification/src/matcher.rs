//! The placeholder matcher.
//!
//! A placeholder occurrence inside an identifier's text is the marker
//! `_int_` (byte 95 is `_`), optionally followed immediately by a counter
//! name and one closing underscore: `_int_<name>_`.  A name is one or more
//! bytes, none of which is an underscore or ASCII whitespace.  Occurrences
//! are found left to right and never overlap: the scan resumes at the end
//! of each match.

use vstd::prelude::*;

verus! {

/// ASCII whitespace: space, tab, line feed, vertical tab, form feed,
/// carriage return.
pub open spec fn is_whitespace_byte(b: u8) -> bool {
    b == 32 || b == 9 || b == 10 || b == 11 || b == 12 || b == 13
}

/// A byte that may stand in a counter name: anything but an underscore or
/// whitespace.
pub open spec fn is_name_byte(b: u8) -> bool {
    b != 95 && !is_whitespace_byte(b)
}

/// The marker `_int_` starts at position `q` of `s`.
pub open spec fn marker_at(s: Seq<u8>, q: int) -> bool {
    &&& 0 <= q
    &&& q + 5 <= s.len()
    &&& s[q] == 95u8
    &&& s[q + 1] == 105u8
    &&& s[q + 2] == 110u8
    &&& s[q + 3] == 116u8
    &&& s[q + 4] == 95u8
}

/// The text of the bare marker, `_int_`.
pub open spec fn marker_text() -> Seq<u8> {
    seq![95u8, 105u8, 110u8, 116u8, 95u8]
}

/// One placeholder occurrence: the half-open span `[start, end)` it covers
/// inside the identifier's text, and its counter name (`None` for the
/// default counter).
pub struct OccModel {
    pub start: int,
    pub end: int,
    pub name: Option<Seq<u8>>,
}

/// The first position at or after `r` whose byte cannot stand in a counter
/// name, or the length of `s` if every byte from `r` on can.
pub open spec fn name_end(s: Seq<u8>, r: int) -> int
    decreases s.len() - r,
{
    if r < 0 || r >= s.len() {
        r
    } else if !is_name_byte(s[r]) {
        r
    } else {
        name_end(s, r + 1)
    }
}

/// The occurrence whose marker starts at `q`: named when a nonempty run of
/// name bytes right after the marker is closed by an underscore, otherwise
/// the bare five-byte marker for the default counter.
pub open spec fn occ_at(s: Seq<u8>, q: int) -> OccModel
    recommends
        marker_at(s, q),
{
    let r = q + 5;
    let e = name_end(s, r);
    if e > r && e < s.len() && s[e] == 95u8 {
        OccModel { start: q, end: e + 1, name: Some(s.subrange(r, e)) }
    } else {
        OccModel { start: q, end: r, name: None }
    }
}

/// The position of the leftmost marker at or after `from`, if any.
pub open spec fn find_marker(s: Seq<u8>, from: int) -> Option<int>
    decreases s.len() - from,
{
    if from < 0 || from + 5 > s.len() {
        None
    } else if marker_at(s, from) {
        Some(from)
    } else {
        find_marker(s, from + 1)
    }
}

/// The leftmost placeholder occurrence starting at or after `from`, if any.
pub open spec fn find_occurrence(s: Seq<u8>, from: int) -> Option<OccModel> {
    match find_marker(s, from) {
        Some(q) => Some(occ_at(s, q)),
        None => None,
    }
}

/// Bounds of `name_end`: it never runs past the text, everything before it
/// is a name byte, and the byte at it (if any) is not.
pub proof fn lemma_name_end(s: Seq<u8>, r: int)
    requires
        0 <= r <= s.len(),
    ensures
        r <= name_end(s, r) <= s.len(),
        forall|j: int| r <= j < name_end(s, r) ==> is_name_byte(s[j]),
        name_end(s, r) < s.len() ==> !is_name_byte(s[name_end(s, r)]),
    decreases s.len() - r,
{
    if r < s.len() && is_name_byte(s[r]) {
        lemma_name_end(s, r + 1);
    }
}

/// What a found marker position means: it is the leftmost one at or after
/// `from`.
pub proof fn lemma_find_marker_some(s: Seq<u8>, from: int, q: int)
    requires
        find_marker(s, from) == Some(q),
    ensures
        from <= q,
        marker_at(s, q),
        forall|p: int| from <= p < q ==> !marker_at(s, p),
    decreases s.len() - from,
{
    if !(from < 0 || from + 5 > s.len()) && !marker_at(s, from) {
        lemma_find_marker_some(s, from + 1, q);
    }
}

/// A failed search means no marker starts at or after `from`.
pub proof fn lemma_find_marker_none(s: Seq<u8>, from: int)
    requires
        0 <= from,
        find_marker(s, from) is None,
    ensures
        forall|p: int| from <= p ==> !marker_at(s, p),
    decreases s.len() - from,
{
    if !(from < 0 || from + 5 > s.len()) && !marker_at(s, from) {
        lemma_find_marker_none(s, from + 1);
    }
}

/// Span bounds of the occurrence a successful search returns.
pub proof fn lemma_find_occurrence_bounds(s: Seq<u8>, from: int, o: OccModel)
    requires
        find_occurrence(s, from) == Some(o),
    ensures
        from <= o.start,
        o.start + 5 <= o.end <= s.len(),
        marker_at(s, o.start),
{
    match find_marker(s, from) {
        Some(q) => {
            lemma_find_marker_some(s, from, q);
            lemma_name_end(s, q + 5);
        },
        None => {},
    }
}

/// One placeholder occurrence in executable form; its model is `OccModel`.
pub struct Occurrence {
    pub start: usize,
    pub end: usize,
    pub name: Option<Vec<u8>>,
}

/// The model of an optional counter name.
pub open spec fn name_model(n: Option<Vec<u8>>) -> Option<Seq<u8>> {
    match n {
        Some(v) => Some(v@),
        None => None,
    }
}

impl Occurrence {
    /// The model of this occurrence.
    pub open spec fn model(self) -> OccModel {
        OccModel { start: self.start as int, end: self.end as int, name: name_model(self.name) }
    }
}

/// Finds the leftmost placeholder occurrence of `text` starting at or after
/// `from`, exactly as `find_occurrence` describes.
pub fn find_placeholder(text: &Vec<u8>, from: usize) -> (r: Option<Occurrence>)
    requires
        from <= text@.len(),
    ensures
        match r {
            Some(o) => find_occurrence(text@, from as int) == Some(o.model()),
            None => find_occurrence(text@, from as int) is None,
        },
{
    let len = text.len();
    if len < 5 || from > len - 5 {
        return None;
    }
    let mut q = from;
    while q <= len - 5
        invariant
            from <= q <= len - 4,
            5 <= len == text@.len(),
            find_marker(text@, from as int) == find_marker(text@, q as int),
        decreases len - q,
    {
        if text[q] == 95 && text[q + 1] == 105 && text[q + 2] == 110 && text[q + 3] == 116
            && text[q + 4] == 95 {
            // A marker starts here; scan for a named form.
            let mut e = q + 5;
            while e < len && text[e] != 95 && text[e] != 32 && text[e] != 9 && text[e] != 10
                && text[e] != 11 && text[e] != 12 && text[e] != 13
                invariant
                    q + 5 <= e <= len == text@.len(),
                    name_end(text@, (q + 5) as int) == name_end(text@, e as int),
                decreases len - e,
            {
                e = e + 1;
            }
            assert(name_end(text@, (q + 5) as int) == e as int);
            if e > q + 5 && e < len && text[e] == 95 {
                let mut name: Vec<u8> = Vec::new();
                let mut j = q + 5;
                while j < e
                    invariant
                        q + 5 <= j <= e <= len == text@.len(),
                        name@ == text@.subrange((q + 5) as int, j as int),
                    decreases e - j,
                {
                    name.push(text[j]);
                    assert(name@ =~= text@.subrange((q + 5) as int, (j + 1) as int));
                    j = j + 1;
                }
                return Some(Occurrence { start: q, end: e + 1, name: Some(name) });
            } else {
                return Some(Occurrence { start: q, end: q + 5, name: None });
            }
        }
        assert(!marker_at(text@, q as int));
        q = q + 1;
    }
    assert(find_marker(text@, q as int) is None);
    None
}

} // verus!
