//! The token tree that the rewriter walks.
//!
//! A token is an identifier (raw text plus an opaque source-position handle
//! supplied by the host), a literal, a delimited group of child tokens, or
//! any other token, which rewriting passes through unchanged.  Identifier
//! and literal text is carried as bytes.

use vstd::prelude::*;

verus! {

/// The delimiter kind of a group token.  `Bare` is an implicit, invisible
/// delimiter: a grouped sub-stream with no bracketing of its own.
#[derive(Clone, Copy, PartialEq, Eq, Structural, Debug)]
pub enum Delimiter {
    Parenthesis,
    Brace,
    Bracket,
    Bare,
}

/// One node of the token tree.
pub enum Token {
    /// An identifier: its raw text and an opaque source-position handle,
    /// preserved when the text is rewritten.
    Ident { text: Vec<u8>, span: u64 },
    /// A literal, passed through unchanged.
    Literal { text: Vec<u8> },
    /// A delimited group of child tokens, rewritten recursively.
    Group { delim: Delimiter, children: Vec<Token> },
    /// Any other token, passed through unchanged.
    Other { text: Vec<u8> },
}

/// The mathematical model of a token: the same tree over `Seq` instead of
/// `Vec`.  All contracts speak of this model.
pub enum TokenModel {
    Ident { text: Seq<u8>, span: u64 },
    Literal { text: Seq<u8> },
    Group { delim: Delimiter, children: Seq<TokenModel> },
    Other { text: Seq<u8> },
}

impl Token {
    /// The model of this token: every `Vec` replaced by its view, recursively.
    pub open spec fn model(self) -> TokenModel
        decreases self,
    {
        match self {
            Token::Ident { text, span } => TokenModel::Ident { text: text@, span },
            Token::Literal { text } => TokenModel::Literal { text: text@ },
            Token::Group { delim, children } => TokenModel::Group {
                delim,
                children: models_of(children@),
            },
            Token::Other { text } => TokenModel::Other { text: text@ },
        }
    }
}

/// Whether two byte strings hold the same bytes.
pub fn bytes_eq(a: &Vec<u8>, b: &Vec<u8>) -> (r: bool)
    ensures
        r <==> a@ == b@,
{
    if a.len() != b.len() {
        return false;
    }
    let n = a.len();
    let mut i: usize = 0;
    while i < n
        invariant
            i <= n == a@.len() == b@.len(),
            forall|j: int| 0 <= j < i ==> a@[j] == b@[j],
        decreases n - i,
    {
        if a[i] != b[i] {
            return false;
        }
        i = i + 1;
    }
    proof {
        assert(a@ =~= b@);
    }
    true
}

impl Token {
    /// Whether two tokens are structurally identical: the same shape with
    /// the same texts, delimiters and source-position handles throughout.
    #[verifier::loop_isolation(false)]
    pub fn same_as(&self, other: &Token) -> (r: bool)
        ensures
            r <==> self.model() == other.model(),
        decreases *self,
    {
        match (self, other) {
            (
                Token::Ident { text: t1, span: s1 },
                Token::Ident { text: t2, span: s2 },
            ) => bytes_eq(t1, t2) && *s1 == *s2,
            (Token::Literal { text: t1 }, Token::Literal { text: t2 }) => bytes_eq(t1, t2),
            (Token::Other { text: t1 }, Token::Other { text: t2 }) => bytes_eq(t1, t2),
            (
                Token::Group { delim: d1, children: c1 },
                Token::Group { delim: d2, children: c2 },
            ) => {
                if *d1 != *d2 {
                    return false;
                }
                if c1.len() != c2.len() {
                    proof {
                        assert(models_of(c1@).len() != models_of(c2@).len());
                    }
                    return false;
                }
                let n = c1.len();
                let mut i: usize = 0;
                while i < n
                    invariant
                        i <= n,
                        forall|k: int| 0 <= k < i ==> c1@[k].model() == c2@[k].model(),
                    decreases n - i,
                {
                    proof {
                        assert(decreases_to!(*self => *c1));
                        assert(decreases_to!(*c1 => c1@));
                        assert(decreases_to!(c1@ => c1@[i as int]));
                    }
                    if !c1[i].same_as(&c2[i]) {
                        proof {
                            assert(models_of(c1@)[i as int] != models_of(c2@)[i as int]);
                        }
                        return false;
                    }
                    i = i + 1;
                }
                proof {
                    assert(models_of(c1@) =~= models_of(c2@));
                }
                true
            },
            _ => false,
        }
    }
}

/// The models of a sequence of tokens, in order.
pub open spec fn models_of(tokens: Seq<Token>) -> Seq<TokenModel>
    decreases tokens,
{
    Seq::new(
        tokens.len(),
        |i: int|
            if 0 <= i < tokens.len() {
                tokens[i].model()
            } else {
                TokenModel::Other { text: Seq::empty() }
            },
    )
}

} // verus!
