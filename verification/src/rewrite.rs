//! The token rewriter.
//!
//! Rewriting walks the token tree depth first, strictly left to right, and
//! substitutes every placeholder occurrence found inside an identifier with
//! the decimal text of its counter's current value, advancing that counter
//! by one afterwards.  An identifier whose entire text is one occurrence
//! becomes a numeric literal; an occurrence embedded in a longer identifier
//! is spliced into the text and the scan of that identifier continues after
//! the inserted digits.  Group tokens are rewritten child by child under the
//! same delimiter; every other token passes through unchanged.
//!
//! The functions [`subst_text`], [`rewrite_token`] and [`rewrite_stream`]
//! are the mathematical statement of this process; `None` stands for a
//! counter that overflowed under the panicking policy.  The executable entry
//! points are proved to return exactly what these functions describe.

use vstd::prelude::*;
use crate::decimal::{decimal_digits, to_decimal};
use crate::matcher::{find_occurrence, find_placeholder, lemma_find_occurrence_bounds};
use crate::registry::{counter_value, Registry};
use crate::token::{models_of, Token, TokenModel};

verus! {

/// The next value of a counter at `v`: one more, or on overflow zero under
/// the wrapping policy and `None` under the panicking policy.
pub open spec fn bump(v: usize, wrap: bool) -> Option<usize> {
    if v < usize::MAX {
        Some((v + 1) as usize)
    } else if wrap {
        Some(0usize)
    } else {
        None
    }
}

/// Substitutes every placeholder occurrence of `text` at or after `from`,
/// left to right.  Each occurrence's span is replaced by the decimal text of
/// its counter's current value, the counter advances, and the scan resumes
/// right after the inserted digits.  Returns the final text and registry, or
/// `None` when a counter overflows under the panicking policy.
pub open spec fn subst_text(
    text: Seq<u8>,
    from: int,
    reg: Map<Option<Seq<u8>>, usize>,
    wrap: bool,
) -> Option<(Seq<u8>, Map<Option<Seq<u8>>, usize>)>
    decreases text.len() - from,
    via subst_text_decreases
{
    match find_occurrence(text, from) {
        None => Some((text, reg)),
        Some(o) => {
            let v = counter_value(reg, o.name);
            match bump(v, wrap) {
                None => None,
                Some(v2) => {
                    let d = decimal_digits(v as nat);
                    let spliced = text.subrange(0, o.start) + d + text.subrange(
                        o.end,
                        text.len() as int,
                    );
                    subst_text(spliced, o.start + d.len(), reg.insert(o.name, v2), wrap)
                },
            }
        },
    }
}

#[via_fn]
proof fn subst_text_decreases(
    text: Seq<u8>,
    from: int,
    reg: Map<Option<Seq<u8>>, usize>,
    wrap: bool,
) {
    match find_occurrence(text, from) {
        Some(o) => {
            lemma_find_occurrence_bounds(text, from, o);
        },
        None => {},
    }
}

/// Rewrites one token.  An identifier with no occurrence is unchanged; one
/// that is exactly one occurrence becomes a numeric literal of its counter's
/// value; one with embedded occurrences has them substituted in its text,
/// the source-position handle kept.  A group is rewritten child by child; a
/// literal or any other token is unchanged.  `None` stands for a counter
/// overflow under the panicking policy.
pub open spec fn rewrite_token(
    t: TokenModel,
    reg: Map<Option<Seq<u8>>, usize>,
    wrap: bool,
) -> Option<(TokenModel, Map<Option<Seq<u8>>, usize>)>
    decreases t,
{
    match t {
        TokenModel::Ident { text, span } => match find_occurrence(text, 0) {
            None => Some((t, reg)),
            Some(o) => {
                if o.start == 0 && o.end == text.len() {
                    let v = counter_value(reg, o.name);
                    match bump(v, wrap) {
                        None => None,
                        Some(v2) => Some(
                            (
                                TokenModel::Literal { text: decimal_digits(v as nat) },
                                reg.insert(o.name, v2),
                            ),
                        ),
                    }
                } else {
                    match subst_text(text, 0, reg, wrap) {
                        None => None,
                        Some(pr) => Some((TokenModel::Ident { text: pr.0, span }, pr.1)),
                    }
                }
            },
        },
        TokenModel::Group { delim, children } => match rewrite_stream(children, reg, wrap) {
            None => None,
            Some(pr) => Some((TokenModel::Group { delim, children: pr.0 }, pr.1)),
        },
        _ => Some((t, reg)),
    }
}

/// Prepends already rewritten tokens to the outcome of rewriting the rest.
pub open spec fn prepend_stream(
    done: Seq<TokenModel>,
    rest: Option<(Seq<TokenModel>, Map<Option<Seq<u8>>, usize>)>,
) -> Option<(Seq<TokenModel>, Map<Option<Seq<u8>>, usize>)> {
    match rest {
        None => None,
        Some(pr) => Some((done + pr.0, pr.1)),
    }
}

/// Rewrites a sequence of tokens in order, threading the registry through.
pub open spec fn rewrite_stream(
    ts: Seq<TokenModel>,
    reg: Map<Option<Seq<u8>>, usize>,
    wrap: bool,
) -> Option<(Seq<TokenModel>, Map<Option<Seq<u8>>, usize>)>
    decreases ts,
{
    if ts.len() == 0 {
        Some((Seq::empty(), reg))
    } else {
        match rewrite_token(ts[0], reg, wrap) {
            None => None,
            Some(pr) => match rewrite_stream(ts.subrange(1, ts.len() as int), pr.1, wrap) {
                None => None,
                Some(rest) => Some((seq![pr.0] + rest.0, rest.1)),
            },
        }
    }
}

/// The diagnostic that replaces all output when a counter overflows under
/// the panicking policy.
pub open spec fn overflow_diagnostic() -> Seq<char> {
    "Counter overflown, try using wrapping_count or changing type"@
}

/// The failure of one invocation: a counter passed the largest `usize`
/// under the panicking policy.  No rewritten tokens are returned beside it.
#[derive(Debug)]
pub struct CountError;

impl CountError {
    /// The fixed diagnostic text of the failure.
    pub fn message(&self) -> (m: &'static str)
        ensures
            m@ == overflow_diagnostic(),
    {
        "Counter overflown, try using wrapping_count or changing type"
    }
}

/// A fresh copy of a byte string.
fn copy_bytes(b: &Vec<u8>) -> (r: Vec<u8>)
    ensures
        r@ == b@,
{
    let n = b.len();
    let mut r: Vec<u8> = Vec::new();
    let mut k: usize = 0;
    while k < n
        invariant
            k <= n == b@.len(),
            r@ == b@.subrange(0, k as int),
        decreases n - k,
    {
        r.push(b[k]);
        assert(r@ =~= b@.subrange(0, k + 1 as int));
        k = k + 1;
    }
    proof {
        assert(b@.subrange(0, n as int) =~= b@);
    }
    r
}

/// Replaces `text[start..end]` by `d`, returning the new text and the
/// position right after the inserted bytes, where the scan resumes.
fn splice(text: &Vec<u8>, start: usize, end: usize, d: &Vec<u8>) -> (r: (Vec<u8>, usize))
    requires
        start <= end <= text@.len(),
    ensures
        r.0@ == text@.subrange(0, start as int) + d@ + text@.subrange(
            end as int,
            text@.len() as int,
        ),
        r.1 == start + d@.len(),
{
    let mut out: Vec<u8> = Vec::new();
    let mut k: usize = 0;
    while k < start
        invariant
            k <= start <= text@.len(),
            out@ == text@.subrange(0, k as int),
        decreases start - k,
    {
        out.push(text[k]);
        assert(out@ =~= text@.subrange(0, k + 1 as int));
        k = k + 1;
    }
    let dn = d.len();
    let mut k2: usize = 0;
    while k2 < dn
        invariant
            k2 <= dn == d@.len(),
            start <= text@.len(),
            out@ == text@.subrange(0, start as int) + d@.subrange(0, k2 as int),
        decreases dn - k2,
    {
        out.push(d[k2]);
        assert(out@ =~= text@.subrange(0, start as int) + d@.subrange(0, k2 + 1 as int));
        k2 = k2 + 1;
    }
    let mid = out.len();
    proof {
        assert(d@.subrange(0, d@.len() as int) =~= d@);
    }
    let n = text.len();
    let mut k3: usize = end;
    while k3 < n
        invariant
            end <= k3 <= n == text@.len(),
            out@ == text@.subrange(0, start as int) + d@ + text@.subrange(end as int, k3 as int),
        decreases n - k3,
    {
        out.push(text[k3]);
        assert(out@ =~= text@.subrange(0, start as int) + d@ + text@.subrange(
            end as int,
            k3 + 1 as int,
        ));
        k3 = k3 + 1;
    }
    (out, mid)
}

/// Rewrites one token against the given registry, exactly as
/// [`rewrite_token`] describes; `Err` reports a counter overflow under the
/// panicking policy.
#[verifier::loop_isolation(false)]
pub fn rewrite_one(t: &Token, reg: &mut Registry, wrap: bool) -> (r: Result<Token, CountError>)
    requires
        old(reg).wf(),
    ensures
        final(reg).wf(),
        match r {
            Ok(t2) => rewrite_token(t.model(), old(reg).map_of(), wrap) == Some(
                (t2.model(), final(reg).map_of()),
            ),
            Err(_) => rewrite_token(t.model(), old(reg).map_of(), wrap) is None,
        },
    decreases *t,
{
    match t {
        Token::Ident { text, span } => {
            match find_placeholder(text, 0) {
                None => Ok(Token::Ident { text: copy_bytes(text), span: *span }),
                Some(occ) => {
                    if occ.start == 0 && occ.end == text.len() {
                        let v = reg.get(&occ.name);
                        let v2: usize;
                        if v < usize::MAX {
                            v2 = v + 1;
                        } else if wrap {
                            v2 = 0;
                        } else {
                            return Err(CountError);
                        }
                        let d = to_decimal(v);
                        reg.set(occ.name, v2);
                        Ok(Token::Literal { text: d })
                    } else {
                        let mut cur = copy_bytes(text);
                        let mut i: usize = 0;
                        loop
                            invariant
                                reg.wf(),
                                i <= cur@.len(),
                                find_occurrence(text@, 0) matches Some(o) && !(o.start == 0
                                    && o.end == text@.len()),
                                subst_text(text@, 0, old(reg).map_of(), wrap) == subst_text(
                                    cur@,
                                    i as int,
                                    reg.map_of(),
                                    wrap,
                                ),
                            decreases cur@.len() - i,
                        {
                            match find_placeholder(&cur, i) {
                                None => {
                                    return Ok(Token::Ident { text: cur, span: *span });
                                },
                                Some(oc) => {
                                    proof {
                                        lemma_find_occurrence_bounds(cur@, i as int, oc.model());
                                    }
                                    let v = reg.get(&oc.name);
                                    let v2: usize;
                                    if v < usize::MAX {
                                        v2 = v + 1;
                                    } else if wrap {
                                        v2 = 0;
                                    } else {
                                        return Err(CountError);
                                    }
                                    let d = to_decimal(v);
                                    let pr = splice(&cur, oc.start, oc.end, &d);
                                    reg.set(oc.name, v2);
                                    cur = pr.0;
                                    i = pr.1;
                                },
                            }
                        }
                    }
                },
            }
        },
        Token::Literal { text } => Ok(Token::Literal { text: copy_bytes(text) }),
        Token::Group { delim, children } => {
            let n = children.len();
            let mut out: Vec<Token> = Vec::new();
            let mut j: usize = 0;
            proof {
                assert(models_of(children@).skip(0) =~= models_of(children@));
                assert(models_of(out@) =~= Seq::<TokenModel>::empty());
                match rewrite_stream(models_of(children@), reg.map_of(), wrap) {
                    Some(pr) => {
                        assert(Seq::<TokenModel>::empty() + pr.0 =~= pr.0);
                    },
                    None => {},
                }
            }
            while j < n
                invariant
                    reg.wf(),
                    j <= n == children@.len(),
                    out@.len() == j,
                    rewrite_stream(models_of(children@), old(reg).map_of(), wrap)
                        == prepend_stream(
                        models_of(out@),
                        rewrite_stream(
                            models_of(children@).skip(j as int),
                            reg.map_of(),
                            wrap,
                        ),
                    ),
                decreases n - j,
            {
                let ghost pre = reg.map_of();
                let ghost rest = models_of(children@).skip(j as int);
                proof {
                    assert(rest[0] == children@[j as int].model());
                    assert(decreases_to!(*t => *children));
                    assert(decreases_to!(*children => children@));
                    assert(decreases_to!(children@ => children@[j as int]));
                }
                match rewrite_one(&children[j], reg, wrap) {
                    Err(e) => {
                        proof {
                            assert(rewrite_stream(rest, pre, wrap) is None);
                        }
                        return Err(e);
                    },
                    Ok(t2) => {
                        let ghost done = models_of(out@);
                        proof {
                            assert(rest.subrange(1, rest.len() as int) =~= models_of(
                                children@,
                            ).skip(j + 1 as int));
                            assert(models_of(out@.push(t2)) =~= done + seq![t2.model()]);
                        }
                        out.push(t2);
                        j = j + 1;
                        proof {
                            match rewrite_stream(
                                models_of(children@).skip(j as int),
                                reg.map_of(),
                                wrap,
                            ) {
                                Some(pr2) => {
                                    assert(rewrite_stream(rest, pre, wrap) == Some(
                                        (seq![t2.model()] + pr2.0, pr2.1),
                                    ));
                                    assert((done + seq![t2.model()]) + pr2.0 =~= done + (seq![
                                        t2.model(),
                                    ] + pr2.0));
                                },
                                None => {},
                            }
                        }
                    },
                }
            }
            proof {
                assert(models_of(children@).skip(n as int) =~= Seq::<TokenModel>::empty());
                assert(models_of(out@) + Seq::<TokenModel>::empty() =~= models_of(out@));
            }
            Ok(Token::Group { delim: *delim, children: out })
        },
        Token::Other { text } => Ok(Token::Other { text: copy_bytes(text) }),
    }
}

/// Rewrites a token stream in order against a caller-supplied registry,
/// exactly as [`rewrite_stream`] describes.  On a counter overflow under the
/// panicking policy no tokens are returned at all.
#[verifier::loop_isolation(false)]
pub fn rewrite_tokens(tokens: &Vec<Token>, reg: &mut Registry, wrap: bool) -> (r: Result<
    Vec<Token>,
    CountError,
>)
    requires
        old(reg).wf(),
    ensures
        final(reg).wf(),
        match r {
            Ok(out) => rewrite_stream(models_of(tokens@), old(reg).map_of(), wrap) == Some(
                (models_of(out@), final(reg).map_of()),
            ),
            Err(_) => rewrite_stream(models_of(tokens@), old(reg).map_of(), wrap) is None,
        },
{
    let n = tokens.len();
    let mut out: Vec<Token> = Vec::new();
    let mut j: usize = 0;
    proof {
        assert(models_of(tokens@).skip(0) =~= models_of(tokens@));
        assert(models_of(out@) =~= Seq::<TokenModel>::empty());
        match rewrite_stream(models_of(tokens@), reg.map_of(), wrap) {
            Some(pr) => {
                assert(Seq::<TokenModel>::empty() + pr.0 =~= pr.0);
            },
            None => {},
        }
    }
    while j < n
        invariant
            reg.wf(),
            j <= n == tokens@.len(),
            out@.len() == j,
            rewrite_stream(models_of(tokens@), old(reg).map_of(), wrap) == prepend_stream(
                models_of(out@),
                rewrite_stream(models_of(tokens@).skip(j as int), reg.map_of(), wrap),
            ),
        decreases n - j,
    {
        let ghost pre = reg.map_of();
        let ghost rest = models_of(tokens@).skip(j as int);
        proof {
            assert(rest[0] == tokens@[j as int].model());
        }
        match rewrite_one(&tokens[j], reg, wrap) {
            Err(e) => {
                proof {
                    assert(rewrite_stream(rest, pre, wrap) is None);
                }
                return Err(e);
            },
            Ok(t2) => {
                let ghost done = models_of(out@);
                proof {
                    assert(rest.subrange(1, rest.len() as int) =~= models_of(tokens@).skip(
                        j + 1 as int,
                    ));
                    assert(models_of(out@.push(t2)) =~= done + seq![t2.model()]);
                }
                out.push(t2);
                j = j + 1;
                proof {
                    match rewrite_stream(models_of(tokens@).skip(j as int), reg.map_of(), wrap) {
                        Some(pr2) => {
                            assert(rewrite_stream(rest, pre, wrap) == Some(
                                (seq![t2.model()] + pr2.0, pr2.1),
                            ));
                            assert((done + seq![t2.model()]) + pr2.0 =~= done + (seq![t2.model()]
                                + pr2.0));
                        },
                        None => {},
                    }
                }
            },
        }
    }
    proof {
        assert(models_of(tokens@).skip(n as int) =~= Seq::<TokenModel>::empty());
        assert(models_of(out@) + Seq::<TokenModel>::empty() =~= models_of(out@));
    }
    Ok(out)
}

/// Rewrites a token stream under the panicking overflow policy: every
/// placeholder occurrence is substituted with its counter's value, all
/// counters starting at zero, and a counter that would pass the largest
/// `usize` aborts the whole invocation, returning the diagnostic error and
/// no tokens.
pub fn count(tokens: &Vec<Token>) -> (r: Result<Vec<Token>, CountError>)
    ensures
        match rewrite_stream(
            models_of(tokens@),
            Map::<Option<Seq<u8>>, usize>::empty(),
            false,
        ) {
            Some(pr) => r matches Ok(out) && models_of(out@) == pr.0,
            None => r is Err,
        },
{
    let mut reg = Registry::new();
    rewrite_tokens(tokens, &mut reg, false)
}

/// Rewrites a token stream under the wrapping overflow policy: as [`count`],
/// but a counter at the largest `usize` wraps to zero instead of failing, so
/// rewriting always succeeds.
pub fn wrapping_count(tokens: &Vec<Token>) -> (r: Vec<Token>)
    ensures
        match rewrite_stream(models_of(tokens@), Map::<Option<Seq<u8>>, usize>::empty(), true) {
            Some(pr) => models_of(r@) == pr.0,
            None => false,
        },
{
    let mut reg = Registry::new();
    match rewrite_tokens(tokens, &mut reg, true) {
        Ok(out) => out,
        Err(_) => {
            proof {
                crate::laws::lemma_wrapping_stream_total(
                    models_of(tokens@),
                    Map::<Option<Seq<u8>>, usize>::empty(),
                );
            }
            vstd::pervasive::unreached()
        },
    }
}

} // verus!
