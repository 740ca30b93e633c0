//! The parsed form of a document: its tokens, in order.

use vstd::prelude::*;
use crate::pos_conv::Span;

verus! {

/// What a token is, as far as completion tells tokens apart.
#[derive(Debug, Clone, Copy, PartialEq, Eq, Structural)]
pub enum TokenKind {
    /// A word of prose.
    Word,
    /// A path in a file system.
    FilePath,
    /// Text that is not prose, such as source code.
    Unlintable,
    /// Any other piece of prose: whitespace, punctuation, numbers.
    Other,
}

impl TokenKind {
    /// Whether the token is a word.
    pub fn is_word(self) -> (r: bool)
        ensures
            r == (self == TokenKind::Word),
    {
        matches!(self, TokenKind::Word)
    }
}

/// A piece of a document.
#[derive(Debug, Clone, Copy, PartialEq, Eq, Structural)]
pub struct Token {
    pub span: Span,
    pub kind: TokenKind,
}

/// Whether tokens stand one after the other, without overlapping.
pub open spec fn tokens_in_order(tokens: Seq<Token>) -> bool {
    &&& forall|i: int|
        0 <= i < tokens.len() ==> (#[trigger] tokens[i]).span.start <= tokens[i].span.end
    &&& forall|i: int, j: int|
        0 <= i < j < tokens.len() ==> (#[trigger] tokens[i]).span.end <= (#[trigger] tokens[j]).span.start
}

/// Whether tokens lie within the first `len` characters.
pub open spec fn tokens_within(tokens: Seq<Token>, len: nat) -> bool {
    forall|i: int| 0 <= i < tokens.len() ==> (#[trigger] tokens[i]).span.end <= len
}

/// The number of tokens before the first one that ends after `at`.
pub open spec fn tokens_ended_by(tokens: Seq<Token>, at: nat) -> nat
    decreases tokens.len(),
{
    if tokens.len() == 0 || tokens[0].span.end > at {
        0
    } else {
        1 + tokens_ended_by(tokens.drop_first(), at)
    }
}

/// The token that holds the character at `index`.
pub open spec fn token_at(tokens: Seq<Token>, index: nat) -> Option<Token> {
    let k = tokens_ended_by(tokens, index) as int;
    if k < tokens.len() && tokens[k].span.start <= index {
        Some(tokens[k])
    } else {
        None
    }
}

/// A parsed document.
pub struct Document {
    tokens: Vec<Token>,
}

impl View for Document {
    type V = Seq<Token>;

    closed spec fn view(&self) -> Seq<Token> {
        self.tokens@
    }
}

impl Document {
    #[verifier::type_invariant]
    spec fn in_order(self) -> bool {
        tokens_in_order(self.tokens@)
    }

    /// The document made of the given tokens; `None` where they overlap or are out of order.
    pub fn new(tokens: Vec<Token>) -> (document: Option<Self>)
        ensures
            match document {
                Some(d) => tokens_in_order(tokens@) && d@ == tokens@,
                None => !tokens_in_order(tokens@),
            },
    {
        let mut i: usize = 0;
        let mut end: usize = 0;
        while i < tokens.len()
            invariant
                i <= tokens@.len(),
                tokens_in_order(tokens@.take(i as int)),
                forall|k: int| 0 <= k < i ==> (#[trigger] tokens@[k]).span.end <= end,
                i > 0 ==> end == tokens@[i - 1].span.end,
                i == 0 ==> end == 0,
            decreases tokens@.len() - i,
        {
            let span = tokens[i].span;
            if span.start > span.end {
                assert(tokens@[i as int].span.start > tokens@[i as int].span.end);
                return None;
            }
            if span.start < end {
                assert(tokens@[i - 1].span.end > tokens@[i as int].span.start);
                return None;
            }
            proof {
                let more = tokens@.take(i + 1);
                let few = tokens@.take(i as int);
                assert forall|k: int| 0 <= k < more.len() implies (#[trigger] more[k]).span.start
                    <= more[k].span.end by {
                    if k < i {
                        assert(few[k] == more[k]);
                    }
                }
                assert forall|j: int, k: int| 0 <= j < k < more.len() implies (
                #[trigger] more[j]).span.end <= (#[trigger] more[k]).span.start by {
                    assert(more[j] == tokens@[j]);
                    if k < i {
                        assert(few[j] == more[j]);
                        assert(few[k] == more[k]);
                    }
                }
            }
            end = span.end;
            i += 1;
        }
        assert(tokens@.take(tokens@.len() as int) == tokens@);
        Some(Document { tokens })
    }

    /// The tokens, in order.
    pub fn get_tokens(&self) -> (tokens: &Vec<Token>)
        ensures
            tokens@ == self@,
            tokens_in_order(self@),
    {
        proof {
            use_type_invariant(self);
        }
        &self.tokens
    }

    /// The token that holds the character at `index`.
    pub fn get_token_at_char_index(&self, index: usize) -> (token: Option<Token>)
        ensures
            token == token_at(self@, index as nat),
    {
        let tokens = self.get_tokens();
        let k = partition_by_end(tokens, index);
        if k < tokens.len() && tokens[k].span.start <= index {
            Some(tokens[k])
        } else {
            None
        }
    }
}

/// The number of tokens that end at or before `at`, by binary search.
pub fn partition_by_end(tokens: &Vec<Token>, at: usize) -> (n: usize)
    requires
        tokens_in_order(tokens@),
    ensures
        n == tokens_ended_by(tokens@, at as nat),
        n <= tokens@.len(),
{
    let mut low: usize = 0;
    let mut high: usize = tokens.len();
    while low < high
        invariant
            low <= high <= tokens@.len(),
            tokens_in_order(tokens@),
            forall|k: int| 0 <= k < low ==> (#[trigger] tokens@[k]).span.end <= at,
            forall|k: int| high <= k < tokens@.len() ==> (#[trigger] tokens@[k]).span.end > at,
        decreases high - low,
    {
        let middle = low + (high - low) / 2;
        let ghost pivot = tokens@[middle as int];
        if tokens[middle].span.end <= at {
            assert forall|k: int| 0 <= k < middle + 1 implies (#[trigger] tokens@[k]).span.end
                <= at by {
                if k < middle {
                    assert(tokens@[k].span.end <= tokens@[middle as int].span.start);
                }
            }
            low = middle + 1;
        } else {
            assert forall|k: int| middle <= k < tokens@.len() implies (
            #[trigger] tokens@[k]).span.end > at by {
                if k > middle {
                    assert(tokens@[middle as int].span.end <= tokens@[k].span.start);
                }
            }
            high = middle;
        }
    }
    proof {
        count_of_ended_tokens(tokens@, at as nat, low as nat);
    }
    low
}

proof fn count_of_ended_tokens(tokens: Seq<Token>, at: nat, n: nat)
    requires
        n <= tokens.len(),
        forall|k: int| 0 <= k < n ==> (#[trigger] tokens[k]).span.end <= at,
        n < tokens.len() ==> tokens[n as int].span.end > at,
    ensures
        tokens_ended_by(tokens, at) == n,
    decreases tokens.len(),
{
    if n > 0 {
        let rest = tokens.drop_first();
        assert forall|k: int| 0 <= k < n - 1 implies (#[trigger] rest[k]).span.end <= at by {
            assert(rest[k] == tokens[k + 1]);
        }
        count_of_ended_tokens(rest, at, (n - 1) as nat);
    }
}

/// Of tokens in order, those counted end by `at` and all others end after it.
pub proof fn ended_tokens_come_first(tokens: Seq<Token>, at: nat)
    requires
        tokens_in_order(tokens),
    ensures
        tokens_ended_by(tokens, at) <= tokens.len(),
        forall|k: int|
            0 <= k < tokens_ended_by(tokens, at) ==> (#[trigger] tokens[k]).span.end <= at,
        forall|k: int|
            tokens_ended_by(tokens, at) <= k < tokens.len() ==> (#[trigger] tokens[k]).span.end
                > at,
    decreases tokens.len(),
{
    if tokens.len() > 0 {
        let rest = tokens.drop_first();
        assert forall|j: int, k: int| 0 <= j < k < rest.len() implies (
        #[trigger] rest[j]).span.end <= (#[trigger] rest[k]).span.start by {
            assert(rest[j] == tokens[j + 1]);
            assert(rest[k] == tokens[k + 1]);
        }
        assert forall|k: int| 0 <= k < rest.len() implies (#[trigger] rest[k]).span.start
            <= rest[k].span.end by {
            assert(rest[k] == tokens[k + 1]);
        }
        ended_tokens_come_first(rest, at);
        let n = tokens_ended_by(tokens, at);
        assert forall|k: int| 0 <= k < n implies (#[trigger] tokens[k]).span.end <= at by {
            if k > 0 {
                assert(tokens[k] == rest[k - 1]);
            }
        }
        assert forall|k: int| n <= k < tokens.len() implies (#[trigger] tokens[k]).span.end
            > at by {
            if n == 0 {
                if k > 0 {
                    assert(tokens[0].span.end <= tokens[k].span.start);
                }
            } else {
                assert(tokens[k] == rest[k - 1]);
            }
        }
    }
}

/// The token at an index is the only one that holds it.
pub proof fn token_at_is_the_only_one(tokens: Seq<Token>, index: nat)
    requires
        tokens_in_order(tokens),
    ensures
        match token_at(tokens, index) {
            Some(t) => t.span.start <= index < t.span.end && tokens.contains(t) && forall|k: int|
                0 <= k < tokens.len() && (#[trigger] tokens[k]).span.start <= index
                    < tokens[k].span.end ==> tokens[k] == t,
            None => forall|k: int|
                0 <= k < tokens.len() ==> !((#[trigger] tokens[k]).span.start <= index
                    < tokens[k].span.end),
        },
{
    ended_tokens_come_first(tokens, index);
    let n = tokens_ended_by(tokens, index) as int;
    assert forall|k: int|
        0 <= k < tokens.len() && (#[trigger] tokens[k]).span.start <= index
            < tokens[k].span.end implies k == n by {
        if k > n {
            assert(tokens[n].span.end <= tokens[k].span.start);
        }
    }
}

} // verus!
