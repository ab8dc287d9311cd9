//! The frequency accumulator: a document counter and a mapping from token to
//! occurrence count, kept as a list of pairs strictly sorted in the token
//! order. Counting flattens compound tokens one level; merging applies a
//! per-chunk threshold.
use crate::token::{
    cmp_tok, lemma_cmp_tok_antisym, lemma_cmp_tok_trans, lemma_cmp_tok_zero, lemma_tokens_view,
    lemma_tokens_view_append, token_cmp, token_view, tokens_view, Token, TokenV,
};
use vstd::prelude::*;

verus! {

/// The fixed merge threshold of the persistence controller: a token must
/// occur at least this many times within one incoming chunk to be merged.
pub const MIN_DF: u64 = 5;

/// One input document: an identifier and its token sequence. Ephemeral:
/// folded into an accumulator and discarded, never persisted.
#[derive(Debug, PartialEq, Eq)]
pub struct Document {
    pub id: u64,
    pub words: Vec<Token>,
}

/// One-level flattening of a single token: a compound token yields its
/// rendered-text sub-tokens unchanged (tokens nested inside them are kept
/// whole, and the data sub-sequence is never yielded); any other token
/// yields itself.
pub open spec fn flat_one(t: TokenV) -> Seq<TokenV> {
    match t {
        TokenV::BBCode { text, data } => text,
        _ => seq![t],
    }
}

/// One-level flattening of a document's token sequence, in order.
pub open spec fn flat_seq(ws: Seq<TokenV>) -> Seq<TokenV>
    decreases ws,
{
    if ws.len() == 0 {
        Seq::empty()
    } else {
        flat_seq(ws.drop_last()) + flat_one(ws.last())
    }
}

/// How often token `t` occurs in the sequence `s`.
pub open spec fn occ(s: Seq<TokenV>, t: TokenV) -> nat
    decreases s,
{
    if s.len() == 0 {
        0
    } else {
        occ(s.drop_last(), t) + (if s.last() == t {
            1nat
        } else {
            0nat
        })
    }
}

/// The mapping described by a list of (token, count) pairs; on a duplicate
/// key the later pair wins.
pub open spec fn map_of(s: Seq<(TokenV, u64)>) -> Map<TokenV, u64>
    decreases s,
{
    if s.len() == 0 {
        Map::empty()
    } else {
        map_of(s.drop_last()).insert(s.last().0, s.last().1)
    }
}

/// The count a mapping assigns to `t`, zero when absent.
pub open spec fn count_of(m: Map<TokenV, u64>, t: TokenV) -> int {
    if m.contains_key(t) {
        m[t] as int
    } else {
        0
    }
}

/// The pairs are strictly ascending in the token order; in particular all
/// keys are distinct.
pub open spec fn sorted_strict(s: Seq<(TokenV, u64)>) -> bool {
    forall|i: int, j: int|
        0 <= i < j < s.len() ==> cmp_tok(#[trigger] s[i].0, #[trigger] s[j].0) < 0
}

pub open spec fn distinct_keys(s: Seq<(TokenV, u64)>) -> bool {
    forall|i: int, j: int| 0 <= i < j < s.len() ==> (#[trigger] s[i].0) != (#[trigger] s[j].0)
}

/// The mathematical value of a vector of (token, count) pairs.
pub open spec fn pair_views(s: Seq<(Token, u64)>) -> Seq<(TokenV, u64)> {
    Seq::new(s.len(), |i: int| (token_view(s[i].0), s[i].1))
}

pub proof fn lemma_occ_append(a: Seq<TokenV>, b: Seq<TokenV>, t: TokenV)
    ensures
        occ(a + b, t) == occ(a, t) + occ(b, t),
    decreases b,
{
    if b.len() == 0 {
        assert(a + b =~= a);
    } else {
        assert((a + b).drop_last() =~= a + b.drop_last());
        assert((a + b).last() == b.last());
        lemma_occ_append(a, b.drop_last(), t);
    }
}

pub proof fn lemma_occ_one(x: TokenV, t: TokenV)
    ensures
        occ(seq![x], t) == (if x == t {
            1nat
        } else {
            0nat
        }),
{
    assert(seq![x].drop_last() =~= Seq::<TokenV>::empty());
    assert(seq![x].last() == x);
    assert(occ(Seq::<TokenV>::empty(), t) == 0);
}

pub proof fn lemma_map_of_push(s: Seq<(TokenV, u64)>, p: (TokenV, u64))
    ensures
        map_of(s.push(p)) == map_of(s).insert(p.0, p.1),
{
    assert(s.push(p).drop_last() =~= s);
    assert(s.push(p).last() == p);
}

pub proof fn lemma_map_of_contains(s: Seq<(TokenV, u64)>, t: TokenV)
    ensures
        map_of(s).contains_key(t) <==> exists|i: int| 0 <= i < s.len() && s[i].0 == t,
    decreases s,
{
    if s.len() > 0 {
        lemma_map_of_contains(s.drop_last(), t);
        if s.last().0 == t {
            assert(s[s.len() - 1].0 == t);
        } else {
            if exists|i: int| 0 <= i < s.len() && s[i].0 == t {
                let i = choose|i: int| 0 <= i < s.len() && s[i].0 == t;
                assert(s.drop_last()[i].0 == t);
            }
            if exists|i: int| 0 <= i < s.drop_last().len() && s.drop_last()[i].0 == t {
                let i = choose|i: int| 0 <= i < s.drop_last().len() && s.drop_last()[i].0 == t;
                assert(s[i].0 == t);
            }
        }
    }
}

pub proof fn lemma_map_of_lookup(s: Seq<(TokenV, u64)>, i: int)
    requires
        distinct_keys(s),
        0 <= i < s.len(),
    ensures
        map_of(s).contains_key(s[i].0),
        map_of(s)[s[i].0] == s[i].1,
    decreases s,
{
    if i == s.len() - 1 {
    } else {
        assert(s.drop_last()[i] == s[i]);
        assert forall|a: int, b: int|
            0 <= a < b < s.drop_last().len() implies (#[trigger] s.drop_last()[a].0)
            != (#[trigger] s.drop_last()[b].0) by {
            assert(s[a] == s.drop_last()[a]);
            assert(s[b] == s.drop_last()[b]);
        }
        lemma_map_of_lookup(s.drop_last(), i);
        assert(s.last().0 != s[i].0);
    }
}

pub proof fn lemma_sorted_distinct(s: Seq<(TokenV, u64)>)
    requires
        sorted_strict(s),
    ensures
        distinct_keys(s),
{
    assert forall|i: int, j: int| 0 <= i < j < s.len() implies (#[trigger] s[i].0)
        != (#[trigger] s[j].0) by {
        lemma_cmp_tok_zero(s[i].0, s[j].0);
    }
}

pub proof fn lemma_map_of_splice(a: Seq<(TokenV, u64)>, x: (TokenV, u64), b: Seq<(TokenV, u64)>)
    requires
        forall|k: int| 0 <= k < b.len() ==> (#[trigger] b[k].0) != x.0,
    ensures
        map_of(a + seq![x] + b) == map_of(a + b).insert(x.0, x.1),
    decreases b,
{
    if b.len() == 0 {
        assert(a + seq![x] + b =~= a.push(x));
        assert(a + b =~= a);
        lemma_map_of_push(a, x);
    } else {
        let p = b.last();
        assert((a + seq![x] + b).drop_last() =~= a + seq![x] + b.drop_last());
        assert((a + seq![x] + b).last() == p);
        assert forall|k: int| 0 <= k < b.drop_last().len() implies (#[trigger] b.drop_last()[k].0)
            != x.0 by {
            assert(b.drop_last()[k] == b[k]);
        }
        lemma_map_of_splice(a, x, b.drop_last());
        assert((a + b).drop_last() =~= a + b.drop_last());
        assert((a + b).last() == p);
        assert(map_of(a + b.drop_last()).insert(x.0, x.1).insert(p.0, p.1) =~= map_of(
            a + b.drop_last(),
        ).insert(p.0, p.1).insert(x.0, x.1));
    }
}

pub proof fn lemma_sorted_update_value(s: Seq<(TokenV, u64)>, i: int, nv: u64)
    requires
        sorted_strict(s),
        0 <= i < s.len(),
    ensures
        sorted_strict(s.update(i, (s[i].0, nv))),
        map_of(s.update(i, (s[i].0, nv))) == map_of(s).insert(s[i].0, nv),
        map_of(s).contains_key(s[i].0),
        map_of(s)[s[i].0] == s[i].1,
{
    lemma_sorted_distinct(s);
    lemma_map_of_lookup(s, i);
    let tv = s[i].0;
    let sn = s.update(i, (tv, nv));
    let a = s.take(i);
    let b = s.skip(i + 1);
    assert(s =~= a + seq![s[i]] + b);
    assert(sn =~= a + seq![(tv, nv)] + b);
    assert forall|k: int| 0 <= k < b.len() implies (#[trigger] b[k].0) != tv by {
        assert(b[k] == s[i + 1 + k]);
        assert(cmp_tok(s[i].0, s[i + 1 + k].0) < 0);
        lemma_cmp_tok_zero(tv, b[k].0);
    }
    lemma_map_of_splice(a, s[i], b);
    lemma_map_of_splice(a, (tv, nv), b);
    assert(map_of(a + b).insert(tv, s[i].1).insert(tv, nv) =~= map_of(a + b).insert(tv, nv));
    assert forall|p: int, q: int|
        0 <= p < q < sn.len() implies cmp_tok(#[trigger] sn[p].0, #[trigger] sn[q].0) < 0 by {
        assert(sn[p].0 == s[p].0);
        assert(sn[q].0 == s[q].0);
    }
}

pub proof fn lemma_sorted_insert_at(s: Seq<(TokenV, u64)>, i: int, x: (TokenV, u64))
    requires
        sorted_strict(s),
        0 <= i <= s.len(),
        forall|k: int| 0 <= k < i ==> cmp_tok(#[trigger] s[k].0, x.0) < 0,
        forall|k: int| i <= k < s.len() ==> cmp_tok(x.0, #[trigger] s[k].0) < 0,
    ensures
        sorted_strict(s.insert(i, x)),
        !map_of(s).contains_key(x.0),
        map_of(s.insert(i, x)) == map_of(s).insert(x.0, x.1),
{
    let sn = s.insert(i, x);
    let a = s.take(i);
    let b = s.skip(i);
    assert(s =~= a + b);
    assert(sn =~= a + seq![x] + b);
    assert forall|k: int| 0 <= k < b.len() implies (#[trigger] b[k].0) != x.0 by {
        assert(b[k] == s[i + k]);
        lemma_cmp_tok_zero(x.0, b[k].0);
    }
    lemma_map_of_splice(a, x, b);
    lemma_map_of_contains(s, x.0);
    assert forall|k: int| 0 <= k < s.len() implies s[k].0 != x.0 by {
        if k < i {
            lemma_cmp_tok_zero(s[k].0, x.0);
        } else {
            lemma_cmp_tok_zero(x.0, s[k].0);
        }
    }
    assert forall|p: int, q: int|
        0 <= p < q < sn.len() implies cmp_tok(#[trigger] sn[p].0, #[trigger] sn[q].0) < 0 by {
        if q < i {
            assert(sn[p].0 == s[p].0);
            assert(sn[q].0 == s[q].0);
        } else if p < i && q == i {
            assert(sn[p].0 == s[p].0);
            assert(sn[q].0 == x.0);
        } else if p < i && q > i {
            assert(sn[p].0 == s[p].0);
            assert(sn[q].0 == s[q - 1].0);
        } else if p == i {
            assert(sn[p].0 == x.0);
            assert(sn[q].0 == s[q - 1].0);
        } else {
            assert(sn[p].0 == s[p - 1].0);
            assert(sn[q].0 == s[q - 1].0);
        }
    }
}

pub proof fn lemma_map_of_dom_len(s: Seq<(TokenV, u64)>)
    requires
        distinct_keys(s),
    ensures
        map_of(s).dom().finite(),
        map_of(s).dom().len() == s.len(),
    decreases s,
{
    if s.len() > 0 {
        assert forall|a: int, b: int|
            0 <= a < b < s.drop_last().len() implies (#[trigger] s.drop_last()[a].0)
            != (#[trigger] s.drop_last()[b].0) by {
            assert(s[a] == s.drop_last()[a]);
            assert(s[b] == s.drop_last()[b]);
        }
        lemma_map_of_dom_len(s.drop_last());
        lemma_map_of_contains(s.drop_last(), s.last().0);
        assert forall|i: int| 0 <= i < s.drop_last().len() implies s.drop_last()[i].0
            != s.last().0 by {
            assert(s.drop_last()[i] == s[i]);
        }
        assert(!map_of(s.drop_last()).contains_key(s.last().0));
        assert(map_of(s).dom() =~= map_of(s.drop_last()).dom().insert(s.last().0));
    }
}

/// The accumulator: documents folded in so far, and per-token occurrence
/// counts as a list of pairs strictly sorted in the token order.
#[derive(Debug, PartialEq, Eq, Clone)]
pub struct Idf {
    pub docs: u64,
    pub words: Vec<(Token, u64)>,
}

impl Idf {
    /// The mathematical value of the pair list.
    pub open spec fn entries(self) -> Seq<(TokenV, u64)> {
        pair_views(self.words@)
    }

    /// Well-formed: entries strictly ascending in the token order.
    pub open spec fn wf(self) -> bool {
        sorted_strict(self.entries())
    }

    /// The mapping from token to occurrence count that this accumulator
    /// represents.
    pub open spec fn counts(self) -> Map<TokenV, u64> {
        map_of(self.entries())
    }

    /// An empty accumulator: no documents, no tracked tokens.
    pub fn new() -> (r: Idf)
        ensures
            r.wf(),
            r.docs == 0,
            r.entries() == Seq::<(TokenV, u64)>::empty(),
            r.counts() == Map::<TokenV, u64>::empty(),
    {
        let r = Idf { docs: 0, words: Vec::new() };
        proof {
            assert(r.entries() =~= Seq::<(TokenV, u64)>::empty());
            assert(r.counts() =~= Map::<TokenV, u64>::empty());
        }
        r
    }

    /// Position of `t` in the sorted pair list: the index of its entry when
    /// present, else the index where an entry for it would be inserted.
    fn find_slot(words: &Vec<(Token, u64)>, t: &Token) -> (r: (usize, bool))
        requires
            sorted_strict(pair_views(words@)),
        ensures
            r.0 <= words@.len(),
            forall|k: int|
                0 <= k < r.0 ==> cmp_tok(
                    #[trigger] pair_views(words@)[k].0,
                    token_view(*t),
                ) < 0,
            r.1 ==> r.0 < words@.len() && pair_views(words@)[r.0 as int].0 == token_view(*t),
            !r.1 ==> (r.0 == words@.len() || cmp_tok(
                pair_views(words@)[r.0 as int].0,
                token_view(*t),
            ) > 0),
    {
        let ghost pv = pair_views(words@);
        let mut i: usize = 0;
        while i < words.len()
            invariant
                i <= words@.len(),
                pv == pair_views(words@),
                pv.len() == words@.len(),
                forall|k: int| 0 <= k < i ==> cmp_tok(#[trigger] pv[k].0, token_view(*t)) < 0,
            decreases words@.len() - i,
        {
            let c = token_cmp(&words[i].0, t);
            if c == 0 {
                proof {
                    lemma_cmp_tok_zero(pv[i as int].0, token_view(*t));
                }
                return (i, true);
            }
            if c > 0 {
                return (i, false);
            }
            i = i + 1;
        }
        (i, false)
    }

    /// Add `add` to the count of `t`, creating the entry when absent.
    fn add_count(&mut self, t: Token, add: u64)
        requires
            old(self).wf(),
            count_of(old(self).counts(), token_view(t)) + add <= u64::MAX,
        ensures
            final(self).wf(),
            final(self).docs == old(self).docs,
            final(self).counts() == old(self).counts().insert(
                token_view(t),
                (count_of(old(self).counts(), token_view(t)) + add) as u64,
            ),
    {
        let ghost e_old = old(self).entries();
        let ghost tv = token_view(t);
        proof {
            lemma_sorted_distinct(e_old);
        }
        let (i, found) = Self::find_slot(&self.words, &t);
        let ghost gi = i as int;
        if found {
            let cur = self.words[i].1;
            proof {
                lemma_map_of_lookup(e_old, gi);
            }
            let nv = cur + add;
            self.words.set(i, (t, nv));
            proof {
                lemma_sorted_update_value(e_old, gi, nv);
                assert(self.entries() =~= e_old.update(gi, (tv, nv)));
            }
        } else {
            self.words.insert(i, (t, add));
            proof {
                assert forall|k: int|
                    gi <= k < e_old.len() implies cmp_tok(tv, #[trigger] e_old[k].0) < 0 by {
                    lemma_cmp_tok_antisym(tv, e_old[gi].0);
                    if k > gi {
                        lemma_cmp_tok_trans(tv, e_old[gi].0, e_old[k].0);
                    }
                }
                lemma_sorted_insert_at(e_old, gi, (tv, add));
                assert(self.entries() =~= e_old.insert(gi, (tv, add)));
            }
        }
    }
}

/// One-level flattening of a single token as a fresh vector: the text
/// sub-tokens of a compound token, else the token itself.
pub fn flatten_token(t: &Token) -> (r: Vec<Token>)
    ensures
        tokens_view(r@) == flat_one(token_view(*t)),
{
    match t {
        Token::BBCode { text, .. } => crate::token::clone_tokens(text),
        _ => {
            let mut v: Vec<Token> = Vec::new();
            v.push(t.clone());
            proof {
                lemma_tokens_view(v@);
                assert(tokens_view(v@) =~= flat_one(token_view(*t)));
            }
            v
        },
    }
}

/// One-level flattening of a whole document's token sequence, in order.
pub fn flatten_doc(words: &Vec<Token>) -> (r: Vec<Token>)
    ensures
        tokens_view(r@) == flat_seq(tokens_view(words@)),
{
    let ghost wv = tokens_view(words@);
    proof {
        lemma_tokens_view(words@);
    }
    let mut r: Vec<Token> = Vec::new();
    let mut i: usize = 0;
    proof {
        assert(wv.take(0) =~= Seq::<TokenV>::empty());
        assert(tokens_view(r@) =~= flat_seq(wv.take(0)));
    }
    while i < words.len()
        invariant
            i <= words@.len(),
            wv == tokens_view(words@),
            wv.len() == words@.len(),
            forall|k: int| 0 <= k < words@.len() ==> wv[k] == token_view(#[trigger] words@[k]),
            tokens_view(r@) == flat_seq(wv.take(i as int)),
        decreases words@.len() - i,
    {
        let mut ft = flatten_token(&words[i]);
        let ghost r_old = r@;
        let ghost ft_old = ft@;
        r.append(&mut ft);
        proof {
            lemma_tokens_view_append(r_old, ft_old);
            assert(wv.take(i + 1).drop_last() =~= wv.take(i as int));
            assert(wv.take(i + 1).last() == wv[i as int]);
            assert(tokens_view(r@) == flat_seq(wv.take(i as int)) + flat_one(wv[i as int]));
        }
        i = i + 1;
    }
    proof {
        assert(wv.take(words@.len() as int) =~= wv);
    }
    r
}

/// Merging applies the threshold to the incoming batch: a token is retained
/// exactly when the incoming mapping counts it at least `min_df` times.
pub open spec fn retained(m: Map<TokenV, u64>, t: TokenV, min_df: u64) -> bool {
    m.contains_key(t) && m[t] >= min_df
}

/// The on-disk form of an accumulator: the document count and the (token,
/// count) pairs as an ordered list, since the key is a structured value.
#[derive(Debug, PartialEq, Eq, Clone)]
pub struct IdfData {
    pub docs: u64,
    pub words: Vec<(Token, u64)>,
}

impl Idf {
    /// Replace the count of `t` by `c`, creating the entry when absent.
    fn set_count(&mut self, t: Token, c: u64)
        requires
            old(self).wf(),
        ensures
            final(self).wf(),
            final(self).docs == old(self).docs,
            final(self).counts() == old(self).counts().insert(token_view(t), c),
            (forall|k: int|
                0 <= k < old(self).entries().len() ==> cmp_tok(
                    #[trigger] old(self).entries()[k].0,
                    token_view(t),
                ) < 0) ==> final(self).entries() == old(self).entries().push((token_view(t), c)),
    {
        let ghost e_old = old(self).entries();
        let ghost tv = token_view(t);
        proof {
            lemma_sorted_distinct(e_old);
        }
        let (i, found) = Self::find_slot(&self.words, &t);
        let ghost gi = i as int;
        if found {
            proof {
                lemma_map_of_lookup(e_old, gi);
                if forall|k: int|
                    0 <= k < e_old.len() ==> cmp_tok(#[trigger] e_old[k].0, tv) < 0 {
                    assert(cmp_tok(e_old[gi].0, tv) < 0);
                    lemma_cmp_tok_zero(e_old[gi].0, tv);
                    assert(false);
                }
            }
            self.words.set(i, (t, c));
            proof {
                lemma_sorted_update_value(e_old, gi, c);
                assert(self.entries() =~= e_old.update(gi, (tv, c)));
            }
        } else {
            self.words.insert(i, (t, c));
            proof {
                assert forall|k: int|
                    gi <= k < e_old.len() implies cmp_tok(tv, #[trigger] e_old[k].0) < 0 by {
                    lemma_cmp_tok_antisym(tv, e_old[gi].0);
                    if k > gi {
                        lemma_cmp_tok_trans(tv, e_old[gi].0, e_old[k].0);
                    }
                }
                lemma_sorted_insert_at(e_old, gi, (tv, c));
                assert(self.entries() =~= e_old.insert(gi, (tv, c)));
                if forall|k: int|
                    0 <= k < e_old.len() ==> cmp_tok(#[trigger] e_old[k].0, tv) < 0 {
                    if gi < e_old.len() {
                        assert(cmp_tok(e_old[gi].0, tv) < 0);
                        lemma_cmp_tok_antisym(tv, e_old[gi].0);
                        assert(false);
                    }
                    assert(self.entries() =~= e_old.push((tv, c)));
                }
            }
        }
    }

    /// Fold one document in: every leaf token produced by flattening every
    /// token of the document raises its count by one occurrence (three equal
    /// tokens in one document contribute three), and the document counter
    /// rises by one. Tokens reached only through a compound token's data
    /// sub-sequence contribute nothing.
    pub fn count_document(&mut self, doc: &Document)
        requires
            old(self).wf(),
            old(self).docs < u64::MAX,
            forall|t: TokenV|
                count_of(old(self).counts(), t) + occ(
                    flat_seq(tokens_view(doc.words@)),
                    t,
                ) <= u64::MAX,
        ensures
            final(self).wf(),
            final(self).docs == old(self).docs + 1,
            forall|t: TokenV|
                #[trigger] count_of(final(self).counts(), t) == count_of(old(self).counts(), t)
                    + occ(flat_seq(tokens_view(doc.words@)), t),
            forall|t: TokenV|
                #[trigger] final(self).counts().contains_key(t) <==> (old(
                    self,
                ).counts().contains_key(t) || occ(flat_seq(tokens_view(doc.words@)), t) > 0),
    {
        let flat = flatten_doc(&doc.words);
        let ghost fv = flat_seq(tokens_view(doc.words@));
        proof {
            lemma_tokens_view(flat@);
        }
        self.docs = self.docs + 1;
        let mut j: usize = 0;
        proof {
            assert(fv.take(0) =~= Seq::<TokenV>::empty());
            assert(fv.skip(0) =~= fv);
            assert(self.counts() == old(self).counts());
            assert forall|t: TokenV|
                #[trigger] count_of(self.counts(), t) + occ(fv.skip(0), t) <= u64::MAX by {
                assert(count_of(old(self).counts(), t) + occ(fv, t) <= u64::MAX);
            }
        }
        while j < flat.len()
            invariant
                self.wf(),
                self.docs == old(self).docs + 1,
                j <= flat@.len(),
                fv == tokens_view(flat@),
                fv.len() == flat@.len(),
                forall|k: int| 0 <= k < flat@.len() ==> fv[k] == token_view(#[trigger] flat@[k]),
                forall|t: TokenV|
                    #[trigger] count_of(self.counts(), t) == count_of(old(self).counts(), t)
                        + occ(fv.take(j as int), t),
                forall|t: TokenV|
                    #[trigger] self.counts().contains_key(t) <==> (old(
                        self,
                    ).counts().contains_key(t) || occ(fv.take(j as int), t) > 0),
                forall|t: TokenV|
                    #[trigger] count_of(self.counts(), t) + occ(fv.skip(j as int), t)
                        <= u64::MAX,
            decreases flat@.len() - j,
        {
            let tok = {
                let tr: &Token = &flat[j];
                tr.clone()
            };
            let ghost tv = fv[j as int];
            proof {
                assert(token_view(tok) == tv);
                assert(fv.skip(j as int) =~= seq![fv[j as int]] + fv.skip(j as int + 1));
                lemma_occ_append(seq![fv[j as int]], fv.skip(j as int + 1), tv);
                lemma_occ_one(fv[j as int], tv);
                assert(occ(fv.skip(j as int), tv) >= 1);
            }
            let ghost m_prev = self.counts();
            self.add_count(tok, 1);
            proof {
                assert(self.counts() == m_prev.insert(tv, (count_of(m_prev, tv) + 1) as u64));
                assert(fv.take(j + 1).drop_last() =~= fv.take(j as int));
                assert(fv.take(j + 1).last() == fv[j as int]);
                assert forall|t: TokenV|
                    #[trigger] count_of(self.counts(), t) == count_of(old(self).counts(), t)
                        + occ(fv.take(j + 1), t) by {
                    assert(count_of(m_prev, t) == count_of(old(self).counts(), t) + occ(
                        fv.take(j as int),
                        t,
                    ));
                    assert(count_of(m_prev, t) + occ(fv.skip(j as int), t) <= u64::MAX);
                    assert(occ(fv.take(j + 1), t) == occ(fv.take(j as int), t) + (if fv[j as int]
                        == t {
                        1nat
                    } else {
                        0nat
                    }));
                }
                assert forall|t: TokenV|
                    #[trigger] count_of(self.counts(), t) + occ(fv.skip(j + 1), t)
                        <= u64::MAX by {
                    assert(count_of(m_prev, t) + occ(fv.skip(j as int), t) <= u64::MAX);
                    lemma_occ_append(seq![fv[j as int]], fv.skip(j as int + 1), t);
                    lemma_occ_one(fv[j as int], t);
                }
                assert forall|t: TokenV|
                    #[trigger] self.counts().contains_key(t) <==> (old(
                        self,
                    ).counts().contains_key(t) || occ(fv.take(j + 1), t) > 0) by {
                    assert(m_prev.contains_key(t) <==> (old(self).counts().contains_key(t) || occ(
                        fv.take(j as int),
                        t,
                    ) > 0));
                    assert(occ(fv.take(j + 1), t) == occ(fv.take(j as int), t) + (if fv[j as int]
                        == t {
                        1nat
                    } else {
                        0nat
                    }));
                }
            }
            j = j + 1;
        }
        proof {
            assert(fv.take(flat@.len() as int) =~= fv);
        }
    }

    /// Merge another accumulator into this one. Document counts always add.
    /// A token of the incoming batch is merged only when its batch count
    /// reaches `min_df`: exactly at the threshold it is retained in full,
    /// below it the entry is dropped entirely and this accumulator's count
    /// for it is untouched.
    pub fn append(&mut self, data: Idf, min_df: u64)
        requires
            old(self).wf(),
            data.wf(),
            old(self).docs + data.docs <= u64::MAX,
            forall|t: TokenV|
                retained(data.counts(), t, min_df) ==> count_of(old(self).counts(), t)
                    + data.counts()[t] <= u64::MAX,
        ensures
            final(self).wf(),
            final(self).docs == old(self).docs + data.docs,
            forall|t: TokenV|
                #[trigger] final(self).counts().contains_key(t) <==> (old(
                    self,
                ).counts().contains_key(t) || retained(data.counts(), t, min_df)),
            forall|t: TokenV|
                retained(data.counts(), t, min_df) ==> #[trigger] count_of(
                    final(self).counts(),
                    t,
                ) == count_of(old(self).counts(), t) + data.counts()[t],
            forall|t: TokenV|
                !retained(data.counts(), t, min_df) ==> #[trigger] count_of(
                    final(self).counts(),
                    t,
                ) == count_of(old(self).counts(), t),
    {
        let ghost de = data.entries();
        proof {
            lemma_sorted_distinct(de);
        }
        self.docs = self.docs + data.docs;
        let mut i: usize = 0;
        proof {
            assert(de.take(0) =~= Seq::<(TokenV, u64)>::empty());
        }
        while i < data.words.len()
            invariant
                self.wf(),
                self.docs == old(self).docs + data.docs,
                i <= data.words@.len(),
                de == data.entries(),
                de.len() == data.words@.len(),
                sorted_strict(de),
                distinct_keys(de),
                forall|t: TokenV|
                    retained(data.counts(), t, min_df) ==> count_of(old(self).counts(), t)
                        + data.counts()[t] <= u64::MAX,
                forall|t: TokenV|
                    #[trigger] self.counts().contains_key(t) <==> (old(
                        self,
                    ).counts().contains_key(t) || retained(
                        map_of(de.take(i as int)),
                        t,
                        min_df,
                    )),
                forall|t: TokenV|
                    retained(map_of(de.take(i as int)), t, min_df) ==> #[trigger] count_of(
                        self.counts(),
                        t,
                    ) == count_of(old(self).counts(), t) + map_of(de.take(i as int))[t],
                forall|t: TokenV|
                    !retained(map_of(de.take(i as int)), t, min_df) ==> #[trigger] count_of(
                        self.counts(),
                        t,
                    ) == count_of(old(self).counts(), t),
            decreases data.words@.len() - i,
        {
            let ghost gi = i as int;
            let v = data.words[i].1;
            let ghost kv = de[gi].0;
            proof {
                lemma_map_of_push(de.take(gi), de[gi]);
                assert(de.take(gi + 1).drop_last() =~= de.take(gi));
                assert(de.take(gi + 1).last() == de[gi]);
                assert(de.take(gi).push(de[gi]) =~= de.take(gi + 1));
                lemma_map_of_contains(de.take(gi), kv);
                assert forall|q: int| 0 <= q < gi implies de.take(gi)[q].0 != kv by {
                    assert(de.take(gi)[q] == de[q]);
                }
                assert(!map_of(de.take(gi)).contains_key(kv));
                lemma_map_of_lookup(de, gi);
                assert(data.counts().contains_key(kv));
                assert(data.counts()[kv] == de[gi].1);
            }
            let ghost m_prev = self.counts();
            if v >= min_df {
                let k = data.words[i].0.clone();
                proof {
                    assert(token_view(k) == kv);
                    assert(retained(data.counts(), kv, min_df));
                    assert(!retained(map_of(de.take(gi)), kv, min_df));
                    assert(count_of(self.counts(), kv) == count_of(old(self).counts(), kv));
                }
                self.add_count(k, v);
                proof {
                    assert(self.counts() == m_prev.insert(
                        kv,
                        (count_of(m_prev, kv) + v) as u64,
                    ));
                }
            }
            proof {
                let m_old = map_of(de.take(gi));
                let m_new = map_of(de.take(gi + 1));
                assert(m_new == m_old.insert(kv, de[gi].1));
                assert(!retained(m_old, kv, min_df));
                assert(count_of(m_prev, kv) == count_of(old(self).counts(), kv));
                assert forall|t: TokenV|
                    #[trigger] self.counts().contains_key(t) <==> (old(
                        self,
                    ).counts().contains_key(t) || retained(m_new, t, min_df)) by {
                    assert(m_prev.contains_key(t) <==> (old(self).counts().contains_key(t)
                        || retained(m_old, t, min_df)));
                    if t == kv {
                        assert(m_new.contains_key(kv) && m_new[kv] == de[gi].1);
                    }
                }
                assert forall|t: TokenV|
                    retained(m_new, t, min_df) implies #[trigger] count_of(self.counts(), t)
                    == count_of(old(self).counts(), t) + m_new[t] by {
                    assert(count_of(m_prev, t) == count_of(old(self).counts(), t) + (if retained(
                        m_old,
                        t,
                        min_df,
                    ) {
                        m_old[t] as int
                    } else {
                        0
                    }));
                    if t == kv {
                        assert(m_new[kv] == de[gi].1);
                        assert(v == de[gi].1);
                        assert(v >= min_df);
                        assert(count_of(old(self).counts(), kv) + v <= u64::MAX);
                    }
                }
                assert forall|t: TokenV|
                    !retained(m_new, t, min_df) implies #[trigger] count_of(self.counts(), t)
                    == count_of(old(self).counts(), t) by {
                    assert(count_of(m_prev, t) == count_of(old(self).counts(), t) + (if retained(
                        m_old,
                        t,
                        min_df,
                    ) {
                        m_old[t] as int
                    } else {
                        0
                    }));
                    if t == kv {
                        assert(m_new.contains_key(kv) && m_new[kv] == de[gi].1);
                        assert(de[gi].1 < min_df);
                    }
                }
            }
            i = i + 1;
        }
        proof {
            assert(de.take(data.words@.len() as int) =~= de);
        }
    }

    /// The merge step of one full run: fold a freshly counted chunk into
    /// this loaded model under the fixed threshold policy `MIN_DF`, a
    /// constant of the persistence controller rather than of its callers.
    pub fn merge_chunk(&mut self, fresh: Idf)
        requires
            old(self).wf(),
            fresh.wf(),
            old(self).docs + fresh.docs <= u64::MAX,
            forall|t: TokenV|
                retained(fresh.counts(), t, MIN_DF) ==> count_of(old(self).counts(), t)
                    + fresh.counts()[t] <= u64::MAX,
        ensures
            final(self).wf(),
            final(self).docs == old(self).docs + fresh.docs,
            forall|t: TokenV|
                #[trigger] final(self).counts().contains_key(t) <==> (old(
                    self,
                ).counts().contains_key(t) || retained(fresh.counts(), t, MIN_DF)),
            forall|t: TokenV|
                retained(fresh.counts(), t, MIN_DF) ==> #[trigger] count_of(
                    final(self).counts(),
                    t,
                ) == count_of(old(self).counts(), t) + fresh.counts()[t],
            forall|t: TokenV|
                !retained(fresh.counts(), t, MIN_DF) ==> #[trigger] count_of(
                    final(self).counts(),
                    t,
                ) == count_of(old(self).counts(), t),
    {
        self.append(fresh, MIN_DF)
    }

    /// The number of distinct tokens currently tracked.
    pub fn words_count(&self) -> (r: u64)
        requires
            self.wf(),
        ensures
            r as int == self.entries().len(),
            r as int == self.counts().dom().len(),
    {
        proof {
            lemma_sorted_distinct(self.entries());
            lemma_map_of_dom_len(self.entries());
        }
        self.words.len() as u64
    }

    /// The total number of documents folded in across all merges.
    pub fn docs_count(&self) -> (r: u64)
        ensures
            r == self.docs,
    {
        self.docs
    }

    /// What saving promises: the persisted form carries the same document
    /// count and the same entries in the same (sorted) order.
    pub open spec fn save_rel(self, d: IdfData) -> bool {
        d.docs == self.docs && pair_views(d.words@) == self.entries()
    }

    /// Serialize into the persisted form; consumes the accumulator.
    pub fn save_to(self) -> (d: IdfData)
        ensures
            self.save_rel(d),
    {
        IdfData { docs: self.docs, words: self.words }
    }

    /// What loading promises: a well-formed accumulator holding exactly the
    /// mapping the pair list describes (later duplicates win); a sorted list
    /// is taken over entry for entry.
    pub open spec fn load_rel(d: IdfData, r: Idf) -> bool {
        &&& r.wf()
        &&& r.docs == d.docs
        &&& r.counts() == map_of(pair_views(d.words@))
        &&& (sorted_strict(pair_views(d.words@)) ==> r.entries() == pair_views(d.words@))
    }

    /// Deserialize from the persisted form into a fresh accumulator.
    pub fn load_from(d: IdfData) -> (r: Idf)
        ensures
            Idf::load_rel(d, r),
    {
        let ghost pv = pair_views(d.words@);
        let mut r = Idf::new();
        let mut i: usize = 0;
        proof {
            assert(pv.take(0) =~= Seq::<(TokenV, u64)>::empty());
        }
        while i < d.words.len()
            invariant
                i <= d.words@.len(),
                pv == pair_views(d.words@),
                pv.len() == d.words@.len(),
                r.wf(),
                r.counts() == map_of(pv.take(i as int)),
                sorted_strict(pv) ==> r.entries() == pv.take(i as int),
            decreases d.words@.len() - i,
        {
            let ghost gi = i as int;
            let k = d.words[i].0.clone();
            let v = d.words[i].1;
            let ghost e_before = r.entries();
            proof {
                assert(token_view(k) == pv[gi].0);
                if sorted_strict(pv) {
                    assert forall|q: int| 0 <= q < e_before.len() implies cmp_tok(
                        #[trigger] e_before[q].0,
                        token_view(k),
                    ) < 0 by {
                        assert(e_before[q] == pv.take(gi)[q]);
                        assert(pv.take(gi)[q] == pv[q]);
                    }
                }
            }
            r.set_count(k, v);
            proof {
                assert(pv.take(gi + 1).drop_last() =~= pv.take(gi));
                assert(pv.take(gi + 1).last() == pv[gi]);
                lemma_map_of_push(pv.take(gi), pv[gi]);
                assert(pv.take(gi).push(pv[gi]) =~= pv.take(gi + 1));
                if sorted_strict(pv) {
                    assert(r.entries() =~= pv.take(gi + 1));
                }
            }
            i = i + 1;
        }
        r.docs = d.docs;
        proof {
            assert(pv.take(d.words@.len() as int) =~= pv);
        }
        r
    }
}

/// Round trip of persistence: loading what saving produced restores the
/// accumulator exactly — the same document count and the same entries in
/// the same order, hence in particular the same multiset of (token, count)
/// pairs and the same mapping.
pub proof fn lemma_save_load_round_trip(x: Idf, d: IdfData, y: Idf)
    requires
        x.wf(),
        x.save_rel(d),
        Idf::load_rel(d, y),
    ensures
        y.docs == x.docs,
        y.entries() == x.entries(),
        y.counts() == x.counts(),
{
}

/// Merging is commutative in document accumulation: folding `b`'s documents
/// into `a` adds the same total as folding `a`'s documents into `b`. The
/// word merge is deliberately not commutative across calls: the threshold
/// applies to each incoming batch separately (see `append`).
pub proof fn lemma_append_docs_commutes(a: Idf, b: Idf)
    ensures
        a.docs + b.docs == b.docs + a.docs,
{
}

} // verus!
