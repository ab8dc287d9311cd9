//! The token representation used as the aggregation key: a closed set of
//! variants, one of them compound, with a deterministic total order and a
//! one-level flattening of compound tokens.
use vstd::prelude::*;
use vstd::string::StrSliceExecFns;

verus! {

/// One classified lexical unit. `BBCode` wraps two independent sub-sequences
/// of tokens: the rendered text tokens and the markup-derived data tokens.
/// Tokens are value types: never mutated after construction.
#[derive(Debug, PartialEq, Eq)]
pub enum Token {
    Word { word: String, stem: Option<String> },
    Number { word: String },
    Alphanumeric { word: String },
    Emoji { word: String },
    Unicode { word: String },
    Hashtag { word: String },
    Mention { word: String },
    Url { word: String },
    BBCode { text: Vec<Token>, data: Vec<Token> },
}

/// The mathematical value of a `Token`: strings become character sequences,
/// vectors become sequences. All contracts in this crate speak of tokens
/// through this form.
pub enum TokenV {
    Word { word: Seq<char>, stem: Option<Seq<char>> },
    Number { word: Seq<char> },
    Alphanumeric { word: Seq<char> },
    Emoji { word: Seq<char> },
    Unicode { word: Seq<char> },
    Hashtag { word: Seq<char> },
    Mention { word: Seq<char> },
    Url { word: Seq<char> },
    BBCode { text: Seq<TokenV>, data: Seq<TokenV> },
}

pub open spec fn stem_view(s: Option<String>) -> Option<Seq<char>> {
    match s {
        Option::None => Option::None,
        Option::Some(w) => Option::Some(w@),
    }
}

pub open spec fn token_view(t: Token) -> TokenV
    decreases t,
{
    match t {
        Token::Word { word, stem } => TokenV::Word { word: word@, stem: stem_view(stem) },
        Token::Number { word } => TokenV::Number { word: word@ },
        Token::Alphanumeric { word } => TokenV::Alphanumeric { word: word@ },
        Token::Emoji { word } => TokenV::Emoji { word: word@ },
        Token::Unicode { word } => TokenV::Unicode { word: word@ },
        Token::Hashtag { word } => TokenV::Hashtag { word: word@ },
        Token::Mention { word } => TokenV::Mention { word: word@ },
        Token::Url { word } => TokenV::Url { word: word@ },
        Token::BBCode { text, data } => TokenV::BBCode {
            text: tokens_view(text@),
            data: tokens_view(data@),
        },
    }
}

pub open spec fn tokens_view(s: Seq<Token>) -> Seq<TokenV>
    decreases s,
{
    if s.len() == 0 {
        Seq::empty()
    } else {
        tokens_view(s.drop_last()).push(token_view(s.last()))
    }
}

/// The rank of a variant in the fixed declaration order; the primary key of
/// the token order.
pub open spec fn tag(t: TokenV) -> int {
    match t {
        TokenV::Word { .. } => 0,
        TokenV::Number { .. } => 1,
        TokenV::Alphanumeric { .. } => 2,
        TokenV::Emoji { .. } => 3,
        TokenV::Unicode { .. } => 4,
        TokenV::Hashtag { .. } => 5,
        TokenV::Mention { .. } => 6,
        TokenV::Url { .. } => 7,
        TokenV::BBCode { .. } => 8,
    }
}

/// Three-way lexicographic comparison of character sequences by code point,
/// the order `String` keys have: -1, 0 or 1.
pub open spec fn chars_cmp(a: Seq<char>, b: Seq<char>) -> int
    decreases a.len(),
{
    if a.len() == 0 && b.len() == 0 {
        0
    } else if a.len() == 0 {
        -1
    } else if b.len() == 0 {
        1
    } else if a[0] < b[0] {
        -1
    } else if a[0] > b[0] {
        1
    } else {
        chars_cmp(a.drop_first(), b.drop_first())
    }
}

/// An absent stem orders before any present one.
pub open spec fn stem_cmp(a: Option<Seq<char>>, b: Option<Seq<char>>) -> int {
    match (a, b) {
        (Option::None, Option::None) => 0,
        (Option::None, Option::Some(_)) => -1,
        (Option::Some(_), Option::None) => 1,
        (Option::Some(x), Option::Some(y)) => chars_cmp(x, y),
    }
}

/// Three-way comparison of tokens: by variant rank first, then by the payload
/// fields in declared order; sub-sequences compare lexicographically with the
/// same order, recursively.
pub open spec fn cmp_tok(a: TokenV, b: TokenV) -> int
    decreases a,
{
    if tag(a) < tag(b) {
        -1
    } else if tag(a) > tag(b) {
        1
    } else {
        match (a, b) {
            (TokenV::Word { word: w1, stem: s1 }, TokenV::Word { word: w2, stem: s2 }) => {
                let c = chars_cmp(w1, w2);
                if c != 0 {
                    c
                } else {
                    stem_cmp(s1, s2)
                }
            },
            (TokenV::Number { word: w1 }, TokenV::Number { word: w2 }) => chars_cmp(w1, w2),
            (TokenV::Alphanumeric { word: w1 }, TokenV::Alphanumeric { word: w2 }) => chars_cmp(
                w1,
                w2,
            ),
            (TokenV::Emoji { word: w1 }, TokenV::Emoji { word: w2 }) => chars_cmp(w1, w2),
            (TokenV::Unicode { word: w1 }, TokenV::Unicode { word: w2 }) => chars_cmp(w1, w2),
            (TokenV::Hashtag { word: w1 }, TokenV::Hashtag { word: w2 }) => chars_cmp(w1, w2),
            (TokenV::Mention { word: w1 }, TokenV::Mention { word: w2 }) => chars_cmp(w1, w2),
            (TokenV::Url { word: w1 }, TokenV::Url { word: w2 }) => chars_cmp(w1, w2),
            (
                TokenV::BBCode { text: t1, data: d1 },
                TokenV::BBCode { text: t2, data: d2 },
            ) => {
                let c = cmp_seq(t1, t2);
                if c != 0 {
                    c
                } else {
                    cmp_seq(d1, d2)
                }
            },
            // equal ranks force equal variants, so no other pairing occurs
            _ => 0,
        }
    }
}

/// Lexicographic comparison of token sequences; a strict prefix orders first.
pub open spec fn cmp_seq(s: Seq<TokenV>, t: Seq<TokenV>) -> int
    decreases s,
{
    if s.len() == 0 && t.len() == 0 {
        0
    } else if s.len() == 0 {
        -1
    } else if t.len() == 0 {
        1
    } else {
        let c = cmp_tok(s[0], t[0]);
        if c != 0 {
            c
        } else {
            cmp_seq(s.drop_first(), t.drop_first())
        }
    }
}

/// The strict order on tokens that keys the accumulator and fixes the
/// serialization order.
pub open spec fn token_lt(a: TokenV, b: TokenV) -> bool {
    cmp_tok(a, b) < 0
}

pub proof fn lemma_chars_cmp_zero(a: Seq<char>, b: Seq<char>)
    ensures
        chars_cmp(a, b) == 0 <==> a == b,
    decreases a.len(),
{
    if a.len() == 0 && b.len() == 0 {
        assert(a =~= b);
    } else if a.len() != 0 && b.len() != 0 && a[0] == b[0] {
        lemma_chars_cmp_zero(a.drop_first(), b.drop_first());
        if chars_cmp(a, b) == 0 {
            assert(a.drop_first() == b.drop_first());
            assert forall|i: int| 0 <= i < a.len() implies a[i] == b[i] by {
                if i > 0 {
                    assert(a.drop_first()[i - 1] == b.drop_first()[i - 1]);
                }
            }
            assert(a =~= b);
        }
        if a == b {
            assert(a.drop_first() =~= b.drop_first());
        }
    } else {
        if a == b {
            assert(a.len() == b.len());
            if a.len() != 0 {
                assert(a[0] == b[0]);
            }
        }
    }
}

pub proof fn lemma_chars_cmp_antisym(a: Seq<char>, b: Seq<char>)
    ensures
        chars_cmp(b, a) == -chars_cmp(a, b),
    decreases a.len(),
{
    if a.len() != 0 && b.len() != 0 && a[0] == b[0] {
        lemma_chars_cmp_antisym(a.drop_first(), b.drop_first());
    }
}

pub proof fn lemma_chars_cmp_trans(a: Seq<char>, b: Seq<char>, c: Seq<char>)
    requires
        chars_cmp(a, b) < 0,
        chars_cmp(b, c) < 0,
    ensures
        chars_cmp(a, c) < 0,
    decreases a.len(),
{
    if a.len() != 0 && b.len() != 0 && c.len() != 0 && a[0] == b[0] && b[0] == c[0] {
        lemma_chars_cmp_trans(a.drop_first(), b.drop_first(), c.drop_first());
    }
}

pub proof fn lemma_cmp_tok_zero(a: TokenV, b: TokenV)
    ensures
        cmp_tok(a, b) == 0 <==> a == b,
    decreases a,
{
    if tag(a) == tag(b) {
        match (a, b) {
            (TokenV::Word { word: w1, stem: s1 }, TokenV::Word { word: w2, stem: s2 }) => {
                lemma_chars_cmp_zero(w1, w2);
                match (s1, s2) {
                    (Option::Some(x), Option::Some(y)) => lemma_chars_cmp_zero(x, y),
                    _ => (),
                }
            },
            (TokenV::Number { word: w1 }, TokenV::Number { word: w2 }) => {
                lemma_chars_cmp_zero(w1, w2);
            },
            (TokenV::Alphanumeric { word: w1 }, TokenV::Alphanumeric { word: w2 }) => {
                lemma_chars_cmp_zero(w1, w2);
            },
            (TokenV::Emoji { word: w1 }, TokenV::Emoji { word: w2 }) => {
                lemma_chars_cmp_zero(w1, w2);
            },
            (TokenV::Unicode { word: w1 }, TokenV::Unicode { word: w2 }) => {
                lemma_chars_cmp_zero(w1, w2);
            },
            (TokenV::Hashtag { word: w1 }, TokenV::Hashtag { word: w2 }) => {
                lemma_chars_cmp_zero(w1, w2);
            },
            (TokenV::Mention { word: w1 }, TokenV::Mention { word: w2 }) => {
                lemma_chars_cmp_zero(w1, w2);
            },
            (TokenV::Url { word: w1 }, TokenV::Url { word: w2 }) => {
                lemma_chars_cmp_zero(w1, w2);
            },
            (
                TokenV::BBCode { text: t1, data: d1 },
                TokenV::BBCode { text: t2, data: d2 },
            ) => {
                lemma_cmp_seq_zero(t1, t2);
                lemma_cmp_seq_zero(d1, d2);
            },
            _ => (),
        }
    }
}

pub proof fn lemma_cmp_seq_zero(s: Seq<TokenV>, t: Seq<TokenV>)
    ensures
        cmp_seq(s, t) == 0 <==> s == t,
    decreases s,
{
    if s.len() == 0 && t.len() == 0 {
        assert(s =~= t);
    } else if s.len() != 0 && t.len() != 0 {
        lemma_cmp_tok_zero(s[0], t[0]);
        lemma_cmp_seq_zero(s.drop_first(), t.drop_first());
        if cmp_seq(s, t) == 0 {
            assert(s[0] == t[0]);
            assert(s.drop_first() == t.drop_first());
            assert forall|i: int| 0 <= i < s.len() implies s[i] == t[i] by {
                if i > 0 {
                    assert(s.drop_first()[i - 1] == t.drop_first()[i - 1]);
                }
            }
            assert(s =~= t);
        }
        if s == t {
            assert(s.drop_first() =~= t.drop_first());
        }
    } else {
        if s == t {
            assert(s.len() == t.len());
        }
    }
}

pub proof fn lemma_cmp_tok_antisym(a: TokenV, b: TokenV)
    ensures
        cmp_tok(b, a) == -cmp_tok(a, b),
    decreases a,
{
    if tag(a) == tag(b) {
        match (a, b) {
            (TokenV::Word { word: w1, stem: s1 }, TokenV::Word { word: w2, stem: s2 }) => {
                lemma_chars_cmp_antisym(w1, w2);
                lemma_chars_cmp_zero(w1, w2);
                match (s1, s2) {
                    (Option::Some(x), Option::Some(y)) => lemma_chars_cmp_antisym(x, y),
                    _ => (),
                }
            },
            (TokenV::Number { word: w1 }, TokenV::Number { word: w2 }) => {
                lemma_chars_cmp_antisym(w1, w2);
            },
            (TokenV::Alphanumeric { word: w1 }, TokenV::Alphanumeric { word: w2 }) => {
                lemma_chars_cmp_antisym(w1, w2);
            },
            (TokenV::Emoji { word: w1 }, TokenV::Emoji { word: w2 }) => {
                lemma_chars_cmp_antisym(w1, w2);
            },
            (TokenV::Unicode { word: w1 }, TokenV::Unicode { word: w2 }) => {
                lemma_chars_cmp_antisym(w1, w2);
            },
            (TokenV::Hashtag { word: w1 }, TokenV::Hashtag { word: w2 }) => {
                lemma_chars_cmp_antisym(w1, w2);
            },
            (TokenV::Mention { word: w1 }, TokenV::Mention { word: w2 }) => {
                lemma_chars_cmp_antisym(w1, w2);
            },
            (TokenV::Url { word: w1 }, TokenV::Url { word: w2 }) => {
                lemma_chars_cmp_antisym(w1, w2);
            },
            (
                TokenV::BBCode { text: t1, data: d1 },
                TokenV::BBCode { text: t2, data: d2 },
            ) => {
                lemma_cmp_seq_antisym(t1, t2);
                lemma_cmp_seq_zero(t1, t2);
                lemma_cmp_seq_antisym(d1, d2);
            },
            _ => (),
        }
    }
}

pub proof fn lemma_cmp_seq_antisym(s: Seq<TokenV>, t: Seq<TokenV>)
    ensures
        cmp_seq(t, s) == -cmp_seq(s, t),
    decreases s,
{
    if s.len() != 0 && t.len() != 0 {
        lemma_cmp_tok_antisym(s[0], t[0]);
        lemma_cmp_seq_antisym(s.drop_first(), t.drop_first());
    }
}

pub proof fn lemma_cmp_tok_trans(a: TokenV, b: TokenV, c: TokenV)
    requires
        cmp_tok(a, b) < 0,
        cmp_tok(b, c) < 0,
    ensures
        cmp_tok(a, c) < 0,
    decreases a,
{
    if tag(a) == tag(b) && tag(b) == tag(c) {
        match (a, b, c) {
            (
                TokenV::Word { word: w1, stem: s1 },
                TokenV::Word { word: w2, stem: s2 },
                TokenV::Word { word: w3, stem: s3 },
            ) => {
                lemma_chars_cmp_zero(w1, w2);
                lemma_chars_cmp_zero(w2, w3);
                lemma_chars_cmp_zero(w1, w3);
                if chars_cmp(w1, w2) < 0 && chars_cmp(w2, w3) < 0 {
                    lemma_chars_cmp_trans(w1, w2, w3);
                } else if chars_cmp(w1, w2) == 0 || chars_cmp(w2, w3) == 0 {
                    // one word step is an equality; the other carries over
                    if chars_cmp(w1, w2) == 0 && chars_cmp(w2, w3) == 0 {
                        match (s1, s2, s3) {
                            (Option::Some(x), Option::Some(y), Option::Some(z)) => {
                                lemma_chars_cmp_zero(x, y);
                                lemma_chars_cmp_zero(y, z);
                                if chars_cmp(x, y) < 0 && chars_cmp(y, z) < 0 {
                                    lemma_chars_cmp_trans(x, y, z);
                                }
                            },
                            _ => (),
                        }
                    }
                }
            },
            (
                TokenV::Number { word: w1 },
                TokenV::Number { word: w2 },
                TokenV::Number { word: w3 },
            ) => {
                lemma_chars_cmp_trans(w1, w2, w3);
            },
            (
                TokenV::Alphanumeric { word: w1 },
                TokenV::Alphanumeric { word: w2 },
                TokenV::Alphanumeric { word: w3 },
            ) => {
                lemma_chars_cmp_trans(w1, w2, w3);
            },
            (
                TokenV::Emoji { word: w1 },
                TokenV::Emoji { word: w2 },
                TokenV::Emoji { word: w3 },
            ) => {
                lemma_chars_cmp_trans(w1, w2, w3);
            },
            (
                TokenV::Unicode { word: w1 },
                TokenV::Unicode { word: w2 },
                TokenV::Unicode { word: w3 },
            ) => {
                lemma_chars_cmp_trans(w1, w2, w3);
            },
            (
                TokenV::Hashtag { word: w1 },
                TokenV::Hashtag { word: w2 },
                TokenV::Hashtag { word: w3 },
            ) => {
                lemma_chars_cmp_trans(w1, w2, w3);
            },
            (
                TokenV::Mention { word: w1 },
                TokenV::Mention { word: w2 },
                TokenV::Mention { word: w3 },
            ) => {
                lemma_chars_cmp_trans(w1, w2, w3);
            },
            (TokenV::Url { word: w1 }, TokenV::Url { word: w2 }, TokenV::Url { word: w3 }) => {
                lemma_chars_cmp_trans(w1, w2, w3);
            },
            (
                TokenV::BBCode { text: t1, data: d1 },
                TokenV::BBCode { text: t2, data: d2 },
                TokenV::BBCode { text: t3, data: d3 },
            ) => {
                lemma_cmp_seq_zero(t1, t2);
                lemma_cmp_seq_zero(t2, t3);
                lemma_cmp_seq_zero(t1, t3);
                if cmp_seq(t1, t2) < 0 && cmp_seq(t2, t3) < 0 {
                    lemma_cmp_seq_trans(t1, t2, t3);
                } else if cmp_seq(t1, t2) == 0 && cmp_seq(t2, t3) == 0 {
                    if cmp_seq(d1, d2) < 0 && cmp_seq(d2, d3) < 0 {
                        lemma_cmp_seq_trans(d1, d2, d3);
                    }
                }
            },
            _ => (),
        }
    }
}

pub proof fn lemma_cmp_seq_trans(s: Seq<TokenV>, t: Seq<TokenV>, u: Seq<TokenV>)
    requires
        cmp_seq(s, t) < 0,
        cmp_seq(t, u) < 0,
    ensures
        cmp_seq(s, u) < 0,
    decreases s,
{
    if s.len() != 0 && t.len() != 0 && u.len() != 0 {
        lemma_cmp_tok_zero(s[0], t[0]);
        lemma_cmp_tok_zero(t[0], u[0]);
        let c1 = cmp_tok(s[0], t[0]);
        let c2 = cmp_tok(t[0], u[0]);
        if c1 < 0 && c2 < 0 {
            lemma_cmp_tok_trans(s[0], t[0], u[0]);
            lemma_cmp_tok_zero(s[0], u[0]);
        } else if c1 == 0 && c2 == 0 {
            lemma_cmp_tok_zero(s[0], u[0]);
            lemma_cmp_seq_trans(s.drop_first(), t.drop_first(), u.drop_first());
        }
    }
}

/// The token order is a strict total order: of two distinct tokens exactly
/// one precedes the other, no token precedes itself, and precedence is
/// transitive. Map-key identity and the serialization order rest on this.
pub proof fn lemma_token_order_strict_total(a: TokenV, b: TokenV, c: TokenV)
    ensures
        token_lt(a, b) || token_lt(b, a) || a == b,
        token_lt(a, b) ==> !token_lt(b, a) && a != b,
        a == b ==> !token_lt(a, b),
        token_lt(a, b) && token_lt(b, c) ==> token_lt(a, c),
{
    lemma_cmp_tok_zero(a, b);
    lemma_cmp_tok_antisym(a, b);
    if token_lt(a, b) && token_lt(b, c) {
        lemma_cmp_tok_trans(a, b, c);
    }
}

pub proof fn lemma_tokens_view(s: Seq<Token>)
    ensures
        tokens_view(s).len() == s.len(),
        forall|i: int| 0 <= i < s.len() ==> tokens_view(s)[i] == token_view(s[i]),
    decreases s,
{
    if s.len() > 0 {
        lemma_tokens_view(s.drop_last());
        assert forall|i: int| 0 <= i < s.len() implies tokens_view(s)[i] == token_view(s[i]) by {
            if i < s.len() - 1 {
                assert(s.drop_last()[i] == s[i]);
            }
        }
    }
}

pub proof fn lemma_tokens_view_append(a: Seq<Token>, b: Seq<Token>)
    ensures
        tokens_view(a + b) == tokens_view(a) + tokens_view(b),
    decreases b,
{
    if b.len() == 0 {
        assert(a + b =~= a);
        assert(tokens_view(a) + tokens_view(b) =~= tokens_view(a));
    } else {
        assert((a + b).drop_last() =~= a + b.drop_last());
        assert((a + b).last() == b.last());
        lemma_tokens_view_append(a, b.drop_last());
        assert(tokens_view(a) + tokens_view(b.drop_last()).push(token_view(b.last())) =~= (
        tokens_view(a) + tokens_view(b.drop_last())).push(token_view(b.last())));
    }
}

pub proof fn lemma_chars_cmp_skip(a: Seq<char>, b: Seq<char>, i: int)
    requires
        0 <= i <= a.len(),
        i <= b.len(),
        forall|k: int| 0 <= k < i ==> a[k] == b[k],
    ensures
        chars_cmp(a, b) == chars_cmp(a.skip(i), b.skip(i)),
    decreases i,
{
    if i == 0 {
        assert(a.skip(0) =~= a);
        assert(b.skip(0) =~= b);
    } else {
        assert(a[0] == b[0]);
        assert(a.drop_first().skip(i - 1) =~= a.skip(i));
        assert(b.drop_first().skip(i - 1) =~= b.skip(i));
        assert forall|k: int| 0 <= k < i - 1 implies a.drop_first()[k] == b.drop_first()[k] by {
            assert(a[k + 1] == b[k + 1]);
        }
        lemma_chars_cmp_skip(a.drop_first(), b.drop_first(), i - 1);
    }
}

pub proof fn lemma_cmp_seq_skip(s: Seq<TokenV>, t: Seq<TokenV>, i: int)
    requires
        0 <= i <= s.len(),
        i <= t.len(),
        forall|k: int| 0 <= k < i ==> s[k] == t[k],
    ensures
        cmp_seq(s, t) == cmp_seq(s.skip(i), t.skip(i)),
    decreases i,
{
    if i == 0 {
        assert(s.skip(0) =~= s);
        assert(t.skip(0) =~= t);
    } else {
        assert(s[0] == t[0]);
        lemma_cmp_tok_zero(s[0], t[0]);
        assert(s.drop_first().skip(i - 1) =~= s.skip(i));
        assert(t.drop_first().skip(i - 1) =~= t.skip(i));
        assert forall|k: int| 0 <= k < i - 1 implies s.drop_first()[k] == t.drop_first()[k] by {
            assert(s[k + 1] == t[k + 1]);
        }
        lemma_cmp_seq_skip(s.drop_first(), t.drop_first(), i - 1);
    }
}

/// Three-way comparison of two strings by character code point.
fn str_cmp(a: &str, b: &str) -> (r: i8)
    ensures
        r as int == chars_cmp(a@, b@),
{
    let alen = a.unicode_len();
    let blen = b.unicode_len();
    let mut i: usize = 0;
    while i < alen && i < blen
        invariant
            alen == a@.len(),
            blen == b@.len(),
            i <= alen,
            i <= blen,
            forall|k: int| 0 <= k < i ==> a@[k] == b@[k],
        decreases alen - i,
    {
        let ca = a.get_char(i);
        let cb = b.get_char(i);
        if (ca as u32) < (cb as u32) {
            proof {
                lemma_chars_cmp_skip(a@, b@, i as int);
            }
            return -1;
        }
        if (cb as u32) < (ca as u32) {
            proof {
                lemma_chars_cmp_skip(a@, b@, i as int);
            }
            return 1;
        }
        i = i + 1;
    }
    proof {
        lemma_chars_cmp_skip(a@, b@, i as int);
    }
    if alen == blen {
        0
    } else if alen < blen {
        -1
    } else {
        1
    }
}

fn stem_exec_cmp(a: &Option<String>, b: &Option<String>) -> (r: i8)
    ensures
        r as int == stem_cmp(stem_view(*a), stem_view(*b)),
{
    match (a, b) {
        (Option::None, Option::None) => 0,
        (Option::None, Option::Some(_)) => -1,
        (Option::Some(_), Option::None) => 1,
        (Option::Some(x), Option::Some(y)) => str_cmp(x.as_str(), y.as_str()),
    }
}

fn token_rank(t: &Token) -> (r: u8)
    ensures
        r as int == tag(token_view(*t)),
{
    match t {
        Token::Word { .. } => 0,
        Token::Number { .. } => 1,
        Token::Alphanumeric { .. } => 2,
        Token::Emoji { .. } => 3,
        Token::Unicode { .. } => 4,
        Token::Hashtag { .. } => 5,
        Token::Mention { .. } => 6,
        Token::Url { .. } => 7,
        Token::BBCode { .. } => 8,
    }
}

/// Three-way comparison of two tokens in the total order that keys the
/// accumulator: variant rank first, then payload fields in declared order.
pub fn token_cmp(a: &Token, b: &Token) -> (r: i8)
    ensures
        r as int == cmp_tok(token_view(*a), token_view(*b)),
    decreases *a,
{
    let ra = token_rank(a);
    let rb = token_rank(b);
    if ra < rb {
        return -1;
    }
    if ra > rb {
        return 1;
    }
    match (a, b) {
        (Token::Word { word: w1, stem: s1 }, Token::Word { word: w2, stem: s2 }) => {
            let c = str_cmp(w1.as_str(), w2.as_str());
            if c != 0 {
                c
            } else {
                stem_exec_cmp(s1, s2)
            }
        },
        (Token::Number { word: w1 }, Token::Number { word: w2 }) => str_cmp(
            w1.as_str(),
            w2.as_str(),
        ),
        (Token::Alphanumeric { word: w1 }, Token::Alphanumeric { word: w2 }) => str_cmp(
            w1.as_str(),
            w2.as_str(),
        ),
        (Token::Emoji { word: w1 }, Token::Emoji { word: w2 }) => str_cmp(
            w1.as_str(),
            w2.as_str(),
        ),
        (Token::Unicode { word: w1 }, Token::Unicode { word: w2 }) => str_cmp(
            w1.as_str(),
            w2.as_str(),
        ),
        (Token::Hashtag { word: w1 }, Token::Hashtag { word: w2 }) => str_cmp(
            w1.as_str(),
            w2.as_str(),
        ),
        (Token::Mention { word: w1 }, Token::Mention { word: w2 }) => str_cmp(
            w1.as_str(),
            w2.as_str(),
        ),
        (Token::Url { word: w1 }, Token::Url { word: w2 }) => str_cmp(w1.as_str(), w2.as_str()),
        (Token::BBCode { text: t1, data: d1 }, Token::BBCode { text: t2, data: d2 }) => {
            let c = tokens_cmp(t1, t2);
            if c != 0 {
                c
            } else {
                tokens_cmp(d1, d2)
            }
        },
        _ => {
            proof {
                assert(false);
            }
            0
        },
    }
}

/// Lexicographic three-way comparison of two token sequences.
pub fn tokens_cmp(s: &Vec<Token>, t: &Vec<Token>) -> (r: i8)
    ensures
        r as int == cmp_seq(tokens_view(s@), tokens_view(t@)),
    decreases s@,
{
    proof {
        lemma_tokens_view(s@);
        lemma_tokens_view(t@);
    }
    let ghost sv = tokens_view(s@);
    let ghost tv = tokens_view(t@);
    let mut i: usize = 0;
    while i < s.len() && i < t.len()
        invariant
            i <= s@.len(),
            i <= t@.len(),
            sv == tokens_view(s@),
            tv == tokens_view(t@),
            sv.len() == s@.len(),
            tv.len() == t@.len(),
            forall|k: int| 0 <= k < s@.len() ==> sv[k] == token_view(s@[k]),
            forall|k: int| 0 <= k < t@.len() ==> tv[k] == token_view(t@[k]),
            forall|k: int| 0 <= k < i ==> sv[k] == tv[k],
        decreases s@.len() - i,
    {
        let c = token_cmp(&s[i], &t[i]);
        if c != 0 {
            proof {
                lemma_cmp_seq_skip(sv, tv, i as int);
            }
            return c;
        }
        proof {
            lemma_cmp_tok_zero(sv[i as int], tv[i as int]);
        }
        i = i + 1;
    }
    proof {
        lemma_cmp_seq_skip(sv, tv, i as int);
    }
    if s.len() == t.len() {
        0
    } else if s.len() < t.len() {
        -1
    } else {
        1
    }
}

impl Clone for Token {
    /// A clone has the same mathematical value as the original.
    fn clone(&self) -> (r: Token)
        ensures
            token_view(r) == token_view(*self),
        decreases *self,
    {
        match self {
            Token::Word { word, stem } => Token::Word {
                word: word.clone(),
                stem: match stem {
                    Option::None => Option::None,
                    Option::Some(s) => Option::Some(s.clone()),
                },
            },
            Token::Number { word } => Token::Number { word: word.clone() },
            Token::Alphanumeric { word } => Token::Alphanumeric { word: word.clone() },
            Token::Emoji { word } => Token::Emoji { word: word.clone() },
            Token::Unicode { word } => Token::Unicode { word: word.clone() },
            Token::Hashtag { word } => Token::Hashtag { word: word.clone() },
            Token::Mention { word } => Token::Mention { word: word.clone() },
            Token::Url { word } => Token::Url { word: word.clone() },
            Token::BBCode { text, data } => Token::BBCode {
                text: clone_tokens(text),
                data: clone_tokens(data),
            },
        }
    }
}

/// A deep copy of a token sequence, element by element.
pub(crate) fn clone_tokens(s: &Vec<Token>) -> (r: Vec<Token>)
    ensures
        tokens_view(r@) == tokens_view(s@),
    decreases s@,
{
    proof {
        lemma_tokens_view(s@);
    }
    let mut r: Vec<Token> = Vec::new();
    let mut i: usize = 0;
    while i < s.len()
        invariant
            i <= s@.len(),
            r@.len() == i,
            forall|k: int| 0 <= k < s@.len() ==> tokens_view(s@)[k] == token_view(s@[k]),
            tokens_view(s@).len() == s@.len(),
            forall|k: int| 0 <= k < i ==> token_view(r@[k]) == token_view(s@[k]),
        decreases s@.len() - i,
    {
        let t = s[i].clone();
        r.push(t);
        i = i + 1;
    }
    proof {
        lemma_tokens_view(r@);
        assert(tokens_view(r@) =~= tokens_view(s@));
    }
    r
}

} // verus!
