//! Laws of the rewriter, stated and proved over its mathematical model:
//! an input without placeholders is returned unchanged; rewriting consumes
//! every occurrence, so a second run over any output is the identity;
//! counters advance independently, each by the number of its own
//! occurrences, in depth-first left-to-right order; the wrapping policy
//! never fails and agrees with the panicking policy whenever the latter
//! succeeds; and over a stream of bare default markers the output literals
//! count up from the starting value, position by position.

use vstd::prelude::*;
use vstd::arithmetic::div_mod::{lemma_add_mod_noop, lemma_mod_self_0, lemma_small_mod};
use crate::decimal::{decimal_digits, lemma_decimal_digits_are_digits};
use crate::matcher::{
    find_occurrence, find_marker, is_name_byte, lemma_find_marker_none, lemma_find_marker_some,
    lemma_find_occurrence_bounds, lemma_name_end, marker_at, marker_text, name_end, occ_at, OccModel,
};
use crate::registry::counter_value;
use crate::rewrite::{bump, rewrite_stream, rewrite_token, subst_text};
use crate::token::TokenModel;

verus! {

/// Two texts agree from the given positions on: the suffixes are the same
/// bytes.
pub open spec fn suffixes_agree(s: Seq<u8>, from: int, s2: Seq<u8>, from2: int) -> bool {
    &&& 0 <= from <= s.len()
    &&& 0 <= from2 <= s2.len()
    &&& s.len() - from == s2.len() - from2
    &&& forall|k: int| 0 <= k < s.len() - from ==> s[from + k] == #[trigger] s2[from2 + k]
}

/// Matching is local: on agreeing suffixes, markers stand at corresponding
/// positions.
proof fn lemma_marker_shift(s: Seq<u8>, from: int, s2: Seq<u8>, from2: int, k: int)
    requires
        suffixes_agree(s, from, s2, from2),
        0 <= k,
    ensures
        marker_at(s, from + k) <==> marker_at(s2, from2 + k),
{
    if marker_at(s, from + k) {
        assert(s2[from2 + k] == s[from + k]);
        assert(s2[from2 + (k + 1)] == s[from + (k + 1)]);
        assert(s2[from2 + (k + 2)] == s[from + (k + 2)]);
        assert(s2[from2 + (k + 3)] == s[from + (k + 3)]);
        assert(s2[from2 + (k + 4)] == s[from + (k + 4)]);
    }
    if marker_at(s2, from2 + k) {
        assert(s2[from2 + k] == s[from + k]);
        assert(s2[from2 + (k + 1)] == s[from + (k + 1)]);
        assert(s2[from2 + (k + 2)] == s[from + (k + 2)]);
        assert(s2[from2 + (k + 3)] == s[from + (k + 3)]);
        assert(s2[from2 + (k + 4)] == s[from + (k + 4)]);
    }
}

/// On agreeing suffixes, name runs end at corresponding positions.
proof fn lemma_name_end_shift(s: Seq<u8>, from: int, s2: Seq<u8>, from2: int, k: int)
    requires
        suffixes_agree(s, from, s2, from2),
        0 <= k <= s.len() - from,
    ensures
        name_end(s2, from2 + k) == name_end(s, from + k) - from + from2,
    decreases s.len() - from - k,
{
    let r = from + k;
    let r2 = from2 + k;
    if r < s.len() {
        assert(s2[from2 + k] == s[from + k]);
        if is_name_byte(s[r]) {
            lemma_name_end_shift(s, from, s2, from2, k + 1);
        }
    }
}

/// On agreeing suffixes, the marker search finds corresponding positions.
proof fn lemma_find_marker_shift(s: Seq<u8>, from: int, s2: Seq<u8>, from2: int, k: int)
    requires
        suffixes_agree(s, from, s2, from2),
        0 <= k,
    ensures
        find_marker(s2, from2 + k) == match find_marker(s, from + k) {
            Some(q) => Some(q - from + from2),
            None => None,
        },
    decreases s.len() - from - k,
{
    lemma_marker_shift(s, from, s2, from2, k);
    if !(from + k + 5 > s.len()) && !marker_at(s, from + k) {
        lemma_find_marker_shift(s, from, s2, from2, k + 1);
    }
}

/// On agreeing suffixes, corresponding occurrences have the same counter
/// name and corresponding spans.
proof fn lemma_occ_shift(s: Seq<u8>, from: int, s2: Seq<u8>, from2: int, k: int)
    requires
        suffixes_agree(s, from, s2, from2),
        0 <= k,
        marker_at(s, from + k),
    ensures
        occ_at(s2, from2 + k) == (OccModel {
            start: occ_at(s, from + k).start - from + from2,
            end: occ_at(s, from + k).end - from + from2,
            name: occ_at(s, from + k).name,
        }),
{
    let q = from + k;
    let q2 = from2 + k;
    lemma_name_end_shift(s, from, s2, from2, k + 5);
    lemma_name_end(s, q + 5);
    let e = name_end(s, q + 5);
    let e2 = name_end(s2, q2 + 5);
    assert(e2 == e - from + from2);
    if e > q + 5 && e < s.len() {
        assert(s2[from2 + (e - from)] == s[from + (e - from)]);
        if s[e] == 95u8 {
            assert forall|j: int| 0 <= j < e - (q + 5) implies #[trigger] s2.subrange(
                q2 + 5,
                e2,
            )[j] == s.subrange(q + 5, e)[j] by {
                assert(s2[from2 + (k + 5 + j)] == s[from + (k + 5 + j)]);
            }
            assert(s2.subrange(q2 + 5, e2) =~= s.subrange(q + 5, e));
        }
    }
}

/// The names of all placeholder occurrences of `text` at or after `from`,
/// in scan order.
pub open spec fn occ_names(text: Seq<u8>, from: int) -> Seq<Option<Seq<u8>>>
    decreases text.len() - from,
    via occ_names_decreases
{
    match find_occurrence(text, from) {
        None => Seq::empty(),
        Some(o) => seq![o.name] + occ_names(text, o.end),
    }
}

#[via_fn]
proof fn occ_names_decreases(text: Seq<u8>, from: int) {
    match find_occurrence(text, from) {
        Some(o) => {
            lemma_find_occurrence_bounds(text, from, o);
        },
        None => {},
    }
}

/// On agreeing suffixes, the same counter names occur in the same order.
proof fn lemma_occ_names_shift(s: Seq<u8>, from: int, s2: Seq<u8>, from2: int, k: int)
    requires
        suffixes_agree(s, from, s2, from2),
        0 <= k <= s.len() - from,
    ensures
        occ_names(s2, from2 + k) == occ_names(s, from + k),
    decreases s.len() - from - k,
{
    lemma_find_marker_shift(s, from, s2, from2, k);
    match find_marker(s, from + k) {
        None => {
            assert(occ_names(s, from + k) =~= occ_names(s2, from2 + k));
        },
        Some(q) => {
            lemma_find_marker_some(s, from + k, q);
            lemma_occ_shift(s, from, s2, from2, q - from);
            let o = occ_at(s, q);
            lemma_find_occurrence_bounds(s, from + k, o);
            lemma_occ_names_shift(s, from, s2, from2, o.end - from);
        },
    }
}

/// Advances each named counter once, in order; `None` when one increment
/// overflows under the panicking policy.
pub open spec fn bump_fold(
    names: Seq<Option<Seq<u8>>>,
    reg: Map<Option<Seq<u8>>, usize>,
    wrap: bool,
) -> Option<Map<Option<Seq<u8>>, usize>>
    decreases names.len(),
{
    if names.len() == 0 {
        Some(reg)
    } else {
        match bump(counter_value(reg, names[0]), wrap) {
            None => None,
            Some(v2) => bump_fold(
                names.subrange(1, names.len() as int),
                reg.insert(names[0], v2),
                wrap,
            ),
        }
    }
}

/// Advancing counters over concatenated name lists composes.
proof fn lemma_bump_fold_append(
    a: Seq<Option<Seq<u8>>>,
    b: Seq<Option<Seq<u8>>>,
    reg: Map<Option<Seq<u8>>, usize>,
    wrap: bool,
)
    ensures
        bump_fold(a + b, reg, wrap) == match bump_fold(a, reg, wrap) {
            None => None,
            Some(m) => bump_fold(b, m, wrap),
        },
    decreases a.len(),
{
    if a.len() == 0 {
        assert(a + b =~= b);
    } else {
        assert((a + b)[0] == a[0]);
        match bump(counter_value(reg, a[0]), wrap) {
            None => {},
            Some(v2) => {
                assert((a + b).subrange(1, (a + b).len() as int) =~= a.subrange(
                    1,
                    a.len() as int,
                ) + b);
                lemma_bump_fold_append(
                    a.subrange(1, a.len() as int),
                    b,
                    reg.insert(a[0], v2),
                    wrap,
                );
            },
        }
    }
}

/// Substituting a text advances exactly the counters of its occurrences, in
/// scan order, and fails exactly when one of those increments overflows.
pub proof fn lemma_subst_census(
    text: Seq<u8>,
    from: int,
    reg: Map<Option<Seq<u8>>, usize>,
    wrap: bool,
)
    requires
        0 <= from,
    ensures
        match subst_text(text, from, reg, wrap) {
            Some(pr) => bump_fold(occ_names(text, from), reg, wrap) == Some(pr.1),
            None => bump_fold(occ_names(text, from), reg, wrap) is None,
        },
    decreases text.len() - from,
{
    match find_occurrence(text, from) {
        None => {},
        Some(o) => {
            lemma_find_occurrence_bounds(text, from, o);
            assert(occ_names(text, from)[0] == o.name);
            assert(occ_names(text, from).subrange(
                1,
                occ_names(text, from).len() as int,
            ) =~= occ_names(text, o.end));
            let v = counter_value(reg, o.name);
            match bump(v, wrap) {
                None => {},
                Some(v2) => {
                    let d = decimal_digits(v as nat);
                    let spliced = text.subrange(0, o.start) + d + text.subrange(
                        o.end,
                        text.len() as int,
                    );
                    let mid = o.start + d.len();
                    assert forall|k: int| 0 <= k < text.len() - o.end implies text[o.end + k]
                        == #[trigger] spliced[mid + k] by {
                        assert(spliced[mid + k] == text.subrange(o.end, text.len() as int)[k]);
                    }
                    assert(suffixes_agree(text, o.end, spliced, mid));
                    lemma_occ_names_shift(text, o.end, spliced, mid, 0);
                    lemma_subst_census(spliced, mid, reg.insert(o.name, v2), wrap);
                },
            }
        },
    }
}

/// The counter names of all occurrences of one token, depth first, left to
/// right.
pub open spec fn token_occ_names(t: TokenModel) -> Seq<Option<Seq<u8>>>
    decreases t,
{
    match t {
        TokenModel::Ident { text, .. } => occ_names(text, 0),
        TokenModel::Group { children, .. } => stream_occ_names(children),
        _ => Seq::empty(),
    }
}

/// The counter names of all occurrences of a token stream, depth first,
/// left to right.
pub open spec fn stream_occ_names(ts: Seq<TokenModel>) -> Seq<Option<Seq<u8>>>
    decreases ts,
{
    if ts.len() == 0 {
        Seq::empty()
    } else {
        token_occ_names(ts[0]) + stream_occ_names(ts.subrange(1, ts.len() as int))
    }
}

/// Rewriting a token advances exactly the counters of its occurrences, in
/// depth-first left-to-right order, and fails exactly when one increment
/// overflows.
pub proof fn lemma_token_census(t: TokenModel, reg: Map<Option<Seq<u8>>, usize>, wrap: bool)
    ensures
        match rewrite_token(t, reg, wrap) {
            Some(pr) => bump_fold(token_occ_names(t), reg, wrap) == Some(pr.1),
            None => bump_fold(token_occ_names(t), reg, wrap) is None,
        },
    decreases t,
{
    match t {
        TokenModel::Ident { text, span } => match find_occurrence(text, 0) {
            None => {
                assert(occ_names(text, 0) == Seq::<Option<Seq<u8>>>::empty());
                assert(bump_fold(token_occ_names(t), reg, wrap) == Some(reg));
            },
            Some(o) => {
                if o.start == 0 && o.end == text.len() {
                    lemma_find_occurrence_bounds(text, 0, o);
                    assert(find_occurrence(text, o.end) is None);
                    assert(occ_names(text, o.end) =~= Seq::<Option<Seq<u8>>>::empty());
                    let names = occ_names(text, 0);
                    assert(names == seq![o.name] + occ_names(text, o.end));
                    assert(names.len() == 1);
                    assert(names[0] == o.name);
                    assert(names.subrange(1, names.len() as int) =~= Seq::<
                        Option<Seq<u8>>,
                    >::empty());
                    match bump(counter_value(reg, o.name), wrap) {
                        None => {
                            assert(bump_fold(names, reg, wrap) is None);
                        },
                        Some(v2) => {
                            assert(bump_fold(
                                names.subrange(1, names.len() as int),
                                reg.insert(o.name, v2),
                                wrap,
                            ) == Some(reg.insert(o.name, v2)));
                            assert(bump_fold(names, reg, wrap) == Some(reg.insert(o.name, v2)));
                        },
                    }
                } else {
                    lemma_subst_census(text, 0, reg, wrap);
                }
            },
        },
        TokenModel::Group { delim, children } => {
            lemma_stream_census(children, reg, wrap);
        },
        _ => {},
    }
}

/// Rewriting a stream advances exactly the counters of its occurrences, in
/// depth-first left-to-right order, and fails exactly when one increment
/// overflows.
pub proof fn lemma_stream_census(ts: Seq<TokenModel>, reg: Map<Option<Seq<u8>>, usize>, wrap: bool)
    ensures
        match rewrite_stream(ts, reg, wrap) {
            Some(pr) => bump_fold(stream_occ_names(ts), reg, wrap) == Some(pr.1),
            None => bump_fold(stream_occ_names(ts), reg, wrap) is None,
        },
    decreases ts,
{
    if ts.len() > 0 {
        let rest = ts.subrange(1, ts.len() as int);
        lemma_token_census(ts[0], reg, wrap);
        lemma_bump_fold_append(token_occ_names(ts[0]), stream_occ_names(rest), reg, wrap);
        match rewrite_token(ts[0], reg, wrap) {
            Some(pr0) => {
                lemma_stream_census(rest, pr0.1, wrap);
            },
            None => {},
        }
    }
}

/// How often one counter name occurs in a list of names.
pub open spec fn count_of(names: Seq<Option<Seq<u8>>>, n: Option<Seq<u8>>) -> nat
    decreases names.len(),
{
    if names.len() == 0 {
        0
    } else {
        (if names[0] == n {
            1nat
        } else {
            0nat
        }) + count_of(names.subrange(1, names.len() as int), n)
    }
}

/// Under the panicking policy each counter ends at its own starting value
/// plus the number of its own occurrences: counters advance independently,
/// and an occurrence of one name never moves another.
pub proof fn lemma_bump_fold_value(
    names: Seq<Option<Seq<u8>>>,
    reg: Map<Option<Seq<u8>>, usize>,
    n: Option<Seq<u8>>,
)
    ensures
        match bump_fold(names, reg, false) {
            Some(m) => counter_value(m, n) == counter_value(reg, n) + count_of(names, n),
            None => true,
        },
    decreases names.len(),
{
    if names.len() > 0 {
        match bump(counter_value(reg, names[0]), false) {
            None => {},
            Some(v2) => {
                lemma_bump_fold_value(names.subrange(1, names.len() as int), reg.insert(names[0], v2), n);
            },
        }
    }
}

/// Under the wrapping policy each counter ends at its own starting value
/// plus the number of its own occurrences, modulo one more than the largest
/// `usize`: counters advance independently and overflow wraps to zero.
pub proof fn lemma_bump_fold_wrapping_value(
    names: Seq<Option<Seq<u8>>>,
    reg: Map<Option<Seq<u8>>, usize>,
    n: Option<Seq<u8>>,
)
    ensures
        bump_fold(names, reg, true) matches Some(m) && counter_value(m, n) as int == (
        counter_value(reg, n) + count_of(names, n)) % (usize::MAX as int + 1),
    decreases names.len(),
{
    let md = usize::MAX as int + 1;
    broadcast use {lemma_add_mod_noop, vstd::arithmetic::div_mod::lemma_mod_twice};

    if names.len() == 0 {
        lemma_small_mod(counter_value(reg, n) as nat, md as nat);
    } else {
        let v = counter_value(reg, names[0]);
        match bump(v, true) {
            None => {},
            Some(v2) => {
                if v < usize::MAX {
                    lemma_small_mod((v + 1) as nat, md as nat);
                } else {
                    lemma_mod_self_0(md);
                }
                assert(v2 as int == (v + 1) % md);
                lemma_bump_fold_wrapping_value(
                    names.subrange(1, names.len() as int),
                    reg.insert(names[0], v2),
                    n,
                );
                if names[0] == n {
                    let c = count_of(names.subrange(1, names.len() as int), n) as int;
                    assert((((v + 1) % md) % md + c % md) % md == ((v + 1) % md + c) % md);
                    assert(((v + 1) % md + c % md) % md == ((v + 1) + c) % md);
                    assert(((v + 1) % md) % md == (v + 1) % md);
                }
            },
        }
    }
}

/// Named counters advance independently: after a successful rewrite under
/// the panicking policy, every counter stands at its own starting value plus
/// the number of its own occurrences in the input, in depth-first
/// left-to-right order; occurrences of other names never move it.
pub proof fn lemma_counters_independent(
    ts: Seq<TokenModel>,
    reg: Map<Option<Seq<u8>>, usize>,
    n: Option<Seq<u8>>,
)
    ensures
        match rewrite_stream(ts, reg, false) {
            Some(pr) => counter_value(pr.1, n) == counter_value(reg, n) + count_of(
                stream_occ_names(ts),
                n,
            ),
            None => true,
        },
{
    lemma_stream_census(ts, reg, false);
    lemma_bump_fold_value(stream_occ_names(ts), reg, n);
}

/// Named counters advance independently under the wrapping policy as well:
/// every counter ends at its starting value plus the number of its own
/// occurrences, modulo one more than the largest `usize`.
pub proof fn lemma_counters_independent_wrapping(
    ts: Seq<TokenModel>,
    reg: Map<Option<Seq<u8>>, usize>,
    n: Option<Seq<u8>>,
)
    ensures
        match rewrite_stream(ts, reg, true) {
            Some(pr) => counter_value(pr.1, n) as int == (counter_value(reg, n) + count_of(
                stream_occ_names(ts),
                n,
            )) % (usize::MAX as int + 1),
            None => false,
        },
{
    lemma_stream_census(ts, reg, true);
    lemma_wrapping_stream_total(ts, reg);
    lemma_bump_fold_wrapping_value(stream_occ_names(ts), reg, n);
}

/// Substitution never touches the text before the scan position.
pub proof fn lemma_subst_preserves_prefix(
    text: Seq<u8>,
    from: int,
    reg: Map<Option<Seq<u8>>, usize>,
    wrap: bool,
)
    requires
        0 <= from <= text.len(),
    ensures
        match subst_text(text, from, reg, wrap) {
            Some(pr) => pr.0.len() >= from && pr.0.subrange(0, from) == text.subrange(0, from),
            None => true,
        },
    decreases text.len() - from,
{
    match find_occurrence(text, from) {
        None => {},
        Some(o) => {
            lemma_find_occurrence_bounds(text, from, o);
            let v = counter_value(reg, o.name);
            match bump(v, wrap) {
                None => {},
                Some(v2) => {
                    let d = decimal_digits(v as nat);
                    let spliced = text.subrange(0, o.start) + d + text.subrange(
                        o.end,
                        text.len() as int,
                    );
                    let mid = o.start + d.len();
                    lemma_subst_preserves_prefix(spliced, mid, reg.insert(o.name, v2), wrap);
                    match subst_text(spliced, mid, reg.insert(o.name, v2), wrap) {
                        Some(pr) => {
                            assert(spliced.subrange(0, from) =~= text.subrange(0, from));
                            assert forall|j: int| 0 <= j < from implies #[trigger] pr.0.subrange(
                                0,
                                from,
                            )[j] == text.subrange(0, from)[j] by {
                                assert(pr.0.subrange(0, mid)[j] == spliced.subrange(0, mid)[j]);
                            }
                            assert(pr.0.subrange(0, from) =~= text.subrange(0, from));
                        },
                        None => {},
                    }
                },
            }
        },
    }
}

/// A whole-identifier match becomes a numeric literal of the counter's
/// current value; an embedded match keeps the identifier, with the counter's
/// decimal text standing exactly in the occurrence's place and the
/// source-position handle preserved.
pub proof fn lemma_whole_vs_embedded(
    text: Seq<u8>,
    span: u64,
    o: OccModel,
    reg: Map<Option<Seq<u8>>, usize>,
    wrap: bool,
)
    requires
        find_occurrence(text, 0) == Some(o),
    ensures
        o.start == 0 && o.end == text.len() ==> rewrite_token(
            TokenModel::Ident { text, span },
            reg,
            wrap,
        ) == match bump(counter_value(reg, o.name), wrap) {
            None => None::<(TokenModel, Map<Option<Seq<u8>>, usize>)>,
            Some(v2) => Some(
                (
                    TokenModel::Literal {
                        text: decimal_digits(counter_value(reg, o.name) as nat),
                    },
                    reg.insert(o.name, v2),
                ),
            ),
        },
        !(o.start == 0 && o.end == text.len()) ==> match rewrite_token(
            TokenModel::Ident { text, span },
            reg,
            wrap,
        ) {
            Some(pr) => pr.0 matches TokenModel::Ident { text: t2, span: sp2 } && sp2 == span
                && t2.len() >= o.start + decimal_digits(counter_value(reg, o.name) as nat).len()
                && t2.subrange(
                0,
                o.start + decimal_digits(counter_value(reg, o.name) as nat).len(),
            ) == text.subrange(0, o.start) + decimal_digits(counter_value(reg, o.name) as nat),
            None => true,
        },
{
    lemma_find_occurrence_bounds(text, 0, o);
    if !(o.start == 0 && o.end == text.len()) {
        let v = counter_value(reg, o.name);
        match bump(v, wrap) {
            None => {},
            Some(v2) => {
                let d = decimal_digits(v as nat);
                let spliced = text.subrange(0, o.start) + d + text.subrange(
                    o.end,
                    text.len() as int,
                );
                let mid = o.start + d.len();
                lemma_subst_preserves_prefix(spliced, mid, reg.insert(o.name, v2), wrap);
                match subst_text(spliced, mid, reg.insert(o.name, v2), wrap) {
                    Some(pr) => {
                        assert(spliced.subrange(0, mid) =~= text.subrange(0, o.start) + d);
                    },
                    None => {},
                }
            },
        }
    }
}

/// The positional face of counting: over a stream of identifiers that each
/// consist of exactly the bare default marker, the token in position `i` of
/// the output is the numeric literal of the starting value plus `i` — the
/// first occurrence reads the starting value, the next one more, and so on,
/// strictly left to right.
pub proof fn lemma_default_marker_stream(ts: Seq<TokenModel>, reg: Map<Option<Seq<u8>>, usize>)
    requires
        forall|i: int|
            0 <= i < ts.len() ==> (#[trigger] ts[i] matches TokenModel::Ident {
                text: tx,
                span: _,
            } && tx == marker_text()),
        counter_value(reg, None) + ts.len() <= usize::MAX,
    ensures
        match rewrite_stream(ts, reg, false) {
            Some(pr) => pr.0.len() == ts.len() && forall|i: int|
                0 <= i < ts.len() ==> #[trigger] pr.0[i] == (TokenModel::Literal {
                    text: decimal_digits((counter_value(reg, None) + i) as nat),
                }),
            None => false,
        },
    decreases ts,
{
    let mt = marker_text();
    assert(marker_at(mt, 0));
    if ts.len() > 0 {
        let v = counter_value(reg, None);
        assert(find_marker(mt, 0) == Some(0int));
        assert(name_end(mt, 5) == 5);
        assert(occ_at(mt, 0) == OccModel { start: 0, end: 5, name: None });
        assert(ts[0] matches TokenModel::Ident { text: tx, span: _ } && tx == marker_text());
        let reg2 = reg.insert(None, (v + 1) as usize);
        let rest = ts.subrange(1, ts.len() as int);
        assert(rewrite_token(ts[0], reg, false) == Some(
            (TokenModel::Literal { text: decimal_digits(v as nat) }, reg2),
        ));
        lemma_default_marker_stream(rest, reg2);
        match rewrite_stream(rest, reg2, false) {
            Some(pr2) => {
                assert(rewrite_stream(ts, reg, false) == Some(
                    (seq![TokenModel::Literal { text: decimal_digits(v as nat) }] + pr2.0, pr2.1),
                ));
                assert forall|i: int| 0 <= i < ts.len() implies #[trigger] (seq![
                    TokenModel::Literal { text: decimal_digits(v as nat) },
                ] + pr2.0)[i] == (TokenModel::Literal {
                    text: decimal_digits((v + i) as nat),
                }) by {
                    if i > 0 {
                        assert(pr2.0[i - 1] == (TokenModel::Literal {
                            text: decimal_digits((counter_value(reg2, None) + (i - 1)) as nat),
                        }));
                    }
                }
            },
            None => {},
        }
    }
}

/// The two policies run the same matching and rewriting logic and differ
/// only in the increment: substitution that succeeds under the panicking
/// policy returns the very same text and registry under the wrapping one.
proof fn lemma_policies_agree_subst(text: Seq<u8>, from: int, reg: Map<Option<Seq<u8>>, usize>)
    ensures
        match subst_text(text, from, reg, false) {
            Some(pr) => subst_text(text, from, reg, true) == Some(pr),
            None => true,
        },
    decreases text.len() - from,
{
    match find_occurrence(text, from) {
        None => {},
        Some(o) => {
            lemma_find_occurrence_bounds(text, from, o);
            let v = counter_value(reg, o.name);
            match bump(v, false) {
                None => {},
                Some(v2) => {
                    let d = decimal_digits(v as nat);
                    let spliced = text.subrange(0, o.start) + d + text.subrange(
                        o.end,
                        text.len() as int,
                    );
                    lemma_policies_agree_subst(spliced, o.start + d.len(), reg.insert(o.name, v2));
                },
            }
        },
    }
}

/// Policy agreement for one token: see [`lemma_policies_agree`].
proof fn lemma_policies_agree_token(t: TokenModel, reg: Map<Option<Seq<u8>>, usize>)
    ensures
        match rewrite_token(t, reg, false) {
            Some(pr) => rewrite_token(t, reg, true) == Some(pr),
            None => true,
        },
    decreases t,
{
    match t {
        TokenModel::Ident { text, span } => match find_occurrence(text, 0) {
            None => {},
            Some(o) => {
                if !(o.start == 0 && o.end == text.len()) {
                    lemma_policies_agree_subst(text, 0, reg);
                }
            },
        },
        TokenModel::Group { delim, children } => {
            lemma_policies_agree(children, reg);
        },
        _ => {},
    }
}

/// The two policies run the same matching and rewriting logic and differ
/// only in the increment step: whenever rewriting succeeds under the
/// panicking policy, the wrapping policy returns the very same output and
/// leaves every counter at the very same value.
pub proof fn lemma_policies_agree(ts: Seq<TokenModel>, reg: Map<Option<Seq<u8>>, usize>)
    ensures
        match rewrite_stream(ts, reg, false) {
            Some(pr) => rewrite_stream(ts, reg, true) == Some(pr),
            None => true,
        },
    decreases ts,
{
    if ts.len() > 0 {
        lemma_policies_agree_token(ts[0], reg);
        match rewrite_token(ts[0], reg, false) {
            Some(pr0) => {
                lemma_policies_agree(ts.subrange(1, ts.len() as int), pr0.1);
            },
            None => {},
        }
    }
}

/// Under the wrapping policy no counter increment can fail, so text
/// substitution always succeeds.
pub proof fn lemma_wrapping_subst_total(text: Seq<u8>, from: int, reg: Map<Option<Seq<u8>>, usize>)
    ensures
        subst_text(text, from, reg, true) is Some,
    decreases text.len() - from,
{
    match find_occurrence(text, from) {
        None => {},
        Some(o) => {
            lemma_find_occurrence_bounds(text, from, o);
            let v = counter_value(reg, o.name);
            let d = decimal_digits(v as nat);
            let spliced = text.subrange(0, o.start) + d + text.subrange(o.end, text.len() as int);
            match bump(v, true) {
                Some(v2) => {
                    lemma_wrapping_subst_total(spliced, o.start + d.len(), reg.insert(o.name, v2));
                },
                None => {},
            }
        },
    }
}

/// Under the wrapping policy rewriting a token always succeeds: an overflow
/// wraps the counter to zero instead of failing.
pub proof fn lemma_wrapping_token_total(t: TokenModel, reg: Map<Option<Seq<u8>>, usize>)
    ensures
        rewrite_token(t, reg, true) is Some,
    decreases t,
{
    match t {
        TokenModel::Ident { text, span } => match find_occurrence(text, 0) {
            Some(o) => {
                if !(o.start == 0 && o.end == text.len()) {
                    lemma_wrapping_subst_total(text, 0, reg);
                }
            },
            None => {},
        },
        TokenModel::Group { delim, children } => {
            lemma_wrapping_stream_total(children, reg);
        },
        _ => {},
    }
}

/// No placeholder occurrence anywhere in a token: rewriting it can change
/// nothing.
pub open spec fn token_has_no_placeholder(t: TokenModel) -> bool
    decreases t,
{
    match t {
        TokenModel::Ident { text, .. } => find_occurrence(text, 0) is None,
        TokenModel::Group { children, .. } => stream_has_no_placeholder(children),
        _ => true,
    }
}

/// No placeholder occurrence anywhere in a token stream.
pub open spec fn stream_has_no_placeholder(ts: Seq<TokenModel>) -> bool
    decreases ts,
{
    forall|i: int| 0 <= i < ts.len() ==> token_has_no_placeholder(#[trigger] ts[i])
}

/// An input with no placeholder occurrence is returned structurally
/// unchanged, and no counter moves.
pub proof fn lemma_identity_token(t: TokenModel, reg: Map<Option<Seq<u8>>, usize>, wrap: bool)
    requires
        token_has_no_placeholder(t),
    ensures
        rewrite_token(t, reg, wrap) == Some((t, reg)),
    decreases t,
{
    match t {
        TokenModel::Group { delim, children } => {
            lemma_identity_stream(children, reg, wrap);
        },
        _ => {},
    }
}

/// An input stream with no placeholder occurrence is returned structurally
/// unchanged, and no counter moves.
pub proof fn lemma_identity_stream(ts: Seq<TokenModel>, reg: Map<Option<Seq<u8>>, usize>, wrap: bool)
    requires
        stream_has_no_placeholder(ts),
    ensures
        rewrite_stream(ts, reg, wrap) == Some((ts, reg)),
    decreases ts,
{
    if ts.len() == 0 {
        assert(ts =~= Seq::<TokenModel>::empty());
    } else {
        lemma_identity_token(ts[0], reg, wrap);
        lemma_identity_stream(ts.subrange(1, ts.len() as int), reg, wrap);
        assert(seq![ts[0]] + ts.subrange(1, ts.len() as int) =~= ts);
    }
}

/// If no marker starts anywhere, the search finds none.
proof fn lemma_no_marker_finds_none(s: Seq<u8>, from: int)
    requires
        forall|q: int| from <= q ==> !marker_at(s, q),
    ensures
        find_marker(s, from) is None,
    decreases s.len() - from,
{
    if !(from < 0 || from + 5 > s.len()) {
        lemma_no_marker_finds_none(s, from + 1);
    }
}

/// Substitution consumes every occurrence: when it succeeds, no marker is
/// left anywhere in the resulting text.  The digits a substitution inserts
/// can never assemble a new marker, since a marker holds no digit byte.
pub proof fn lemma_subst_leaves_no_marker(
    text: Seq<u8>,
    from: int,
    reg: Map<Option<Seq<u8>>, usize>,
    wrap: bool,
)
    requires
        0 <= from,
        forall|q: int| q < from ==> !marker_at(text, q),
    ensures
        match subst_text(text, from, reg, wrap) {
            Some(pr) => forall|q: int| !marker_at(pr.0, q),
            None => true,
        },
    decreases text.len() - from,
{
    match find_occurrence(text, from) {
        None => {
            lemma_find_marker_none(text, from);
        },
        Some(o) => {
            lemma_find_occurrence_bounds(text, from, o);
            match find_marker(text, from) {
                Some(q0) => {
                    lemma_find_marker_some(text, from, q0);
                },
                None => {},
            }
            let v = counter_value(reg, o.name);
            match bump(v, wrap) {
                None => {},
                Some(v2) => {
                    let d = decimal_digits(v as nat);
                    lemma_decimal_digits_are_digits(v as nat);
                    let spliced = text.subrange(0, o.start) + d + text.subrange(
                        o.end,
                        text.len() as int,
                    );
                    let mid = o.start + d.len();
                    assert forall|q: int| q < mid implies !marker_at(spliced, q) by {
                        if marker_at(spliced, q) {
                            if q + 5 <= o.start {
                                assert(spliced[q] == text[q]);
                                assert(spliced[q + 1] == text[q + 1]);
                                assert(spliced[q + 2] == text[q + 2]);
                                assert(spliced[q + 3] == text[q + 3]);
                                assert(spliced[q + 4] == text[q + 4]);
                                assert(marker_at(text, q));
                            } else {
                                let p = if q >= o.start {
                                    q
                                } else {
                                    o.start
                                };
                                assert(q <= p < q + 5);
                                assert(o.start <= p < mid);
                                assert(spliced[p] == d[p - o.start]);
                                assert(48 <= spliced[p] <= 57);
                            }
                        }
                    }
                    lemma_subst_leaves_no_marker(spliced, mid, reg.insert(o.name, v2), wrap);
                },
            }
        },
    }
}

/// Rewriting consumes every occurrence: a successfully rewritten token holds
/// no placeholder any more.
pub proof fn lemma_token_output_no_placeholder(
    t: TokenModel,
    reg: Map<Option<Seq<u8>>, usize>,
    wrap: bool,
)
    ensures
        match rewrite_token(t, reg, wrap) {
            Some(pr) => token_has_no_placeholder(pr.0),
            None => true,
        },
    decreases t,
{
    match t {
        TokenModel::Ident { text, span } => match find_occurrence(text, 0) {
            None => {},
            Some(o) => {
                if !(o.start == 0 && o.end == text.len()) {
                    lemma_subst_leaves_no_marker(text, 0, reg, wrap);
                    match subst_text(text, 0, reg, wrap) {
                        Some(pr) => {
                            lemma_no_marker_finds_none(pr.0, 0);
                        },
                        None => {},
                    }
                }
            },
        },
        TokenModel::Group { delim, children } => {
            lemma_stream_output_no_placeholder(children, reg, wrap);
        },
        _ => {},
    }
}

/// Rewriting consumes every occurrence: a successfully rewritten stream
/// holds no placeholder any more.
pub proof fn lemma_stream_output_no_placeholder(
    ts: Seq<TokenModel>,
    reg: Map<Option<Seq<u8>>, usize>,
    wrap: bool,
)
    ensures
        match rewrite_stream(ts, reg, wrap) {
            Some(pr) => stream_has_no_placeholder(pr.0),
            None => true,
        },
    decreases ts,
{
    if ts.len() > 0 {
        lemma_token_output_no_placeholder(ts[0], reg, wrap);
        match rewrite_token(ts[0], reg, wrap) {
            Some(pr0) => {
                lemma_stream_output_no_placeholder(ts.subrange(1, ts.len() as int), pr0.1, wrap);
            },
            None => {},
        }
    }
}

/// Rewriting is not idempotent by accident but by consumption: an already
/// rewritten stream holds no placeholder, so running the rewriter over it
/// again, under any registry and either policy, returns it unchanged.
pub proof fn lemma_second_run_is_identity(
    ts: Seq<TokenModel>,
    reg: Map<Option<Seq<u8>>, usize>,
    wrap: bool,
    reg2: Map<Option<Seq<u8>>, usize>,
    wrap2: bool,
)
    ensures
        match rewrite_stream(ts, reg, wrap) {
            Some(pr) => rewrite_stream(pr.0, reg2, wrap2) == Some((pr.0, reg2)),
            None => true,
        },
{
    lemma_stream_output_no_placeholder(ts, reg, wrap);
    match rewrite_stream(ts, reg, wrap) {
        Some(pr) => {
            lemma_identity_stream(pr.0, reg2, wrap2);
        },
        None => {},
    }
}

/// Under the wrapping policy rewriting a token stream always succeeds.
pub proof fn lemma_wrapping_stream_total(ts: Seq<TokenModel>, reg: Map<Option<Seq<u8>>, usize>)
    ensures
        rewrite_stream(ts, reg, true) is Some,
    decreases ts,
{
    if ts.len() > 0 {
        lemma_wrapping_token_total(ts[0], reg);
        match rewrite_token(ts[0], reg, true) {
            Some(pr) => {
                lemma_wrapping_stream_total(ts.subrange(1, ts.len() as int), pr.1);
            },
            None => {},
        }
    }
}

} // verus!
