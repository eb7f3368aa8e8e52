//! Orderings of word lists: by text, and a seeded shuffle.

use vstd::prelude::*;
use std::collections::hash_map::RandomState;
use std::hash::BuildHasher;
use vstd::seq_lib::{to_multiset_build, to_multiset_insert, to_multiset_remove};
use crate::word::{Word, WordView, views};
use crate::text::{less_text, text_less, text_le, lemma_text_le_transitive, lemma_text_less_asymmetric};

verus! {

/// Whether `ws` is ordered by text (code-point order).
pub open spec fn sorted_by_text(ws: Seq<WordView>) -> bool {
    forall|i: int, j: int| 0 <= i < j < ws.len() ==> text_le(#[trigger] ws[i].word, #[trigger] ws[j].word)
}

/// The words of `v` ordered by text.
pub fn sort_by_text(v: &Vec<Word>) -> (r: Vec<Word>)
    ensures
        sorted_by_text(views(r@)),
        views(r@).to_multiset() == views(v@).to_multiset(),
{
    let mut out: Vec<Word> = Vec::new();
    let n = v.len();
    assert(views(out@) =~= views(v@.take(0)));
    for i in 0..n
        invariant
            n == v@.len(),
            sorted_by_text(views(out@)),
            views(out@).to_multiset() == views(v@.take(i as int)).to_multiset(),
    {
        let x = v[i].duplicate();
        let mut p: usize = 0;
        while p < out.len() && less_text(out[p].word.as_str(), x.word.as_str())
            invariant
                p <= out@.len(),
                forall|j: int| 0 <= j < p ==> text_less(#[trigger] out@[j].word@, x.word@),
            decreases out.len() - p,
        {
            p = p + 1;
        }
        let ghost old_out = out@;
        let ghost xv = x@;
        out.insert(p, x);
        proof {
            let ov = views(old_out);
            let nv = views(out@);
            assert(nv =~= ov.insert(p as int, xv));
            assert forall|a: int, b: int| 0 <= a < b < nv.len() implies text_le(#[trigger] nv[a].word, #[trigger] nv[b].word) by {
                if b < p {
                    assert(nv[a] == ov[a] && nv[b] == ov[b]);
                } else if b == p {
                    assert(nv[a] == ov[a]);
                    lemma_text_less_asymmetric(ov[a].word, xv.word);
                } else if a < p {
                    assert(nv[a] == ov[a] && nv[b] == ov[b - 1]);
                } else if a == p {
                    assert(nv[b] == ov[b - 1]);
                    assert(text_le(xv.word, ov[p as int].word));
                    if b - 1 > p {
                        assert(text_le(ov[p as int].word, ov[b - 1].word));
                        lemma_text_le_transitive(xv.word, ov[p as int].word, ov[b - 1].word);
                    }
                } else {
                    assert(nv[a] == ov[a - 1] && nv[b] == ov[b - 1]);
                }
            }
            to_multiset_insert(ov, p as int, xv);
            assert(views(v@.take(i + 1)) =~= views(v@.take(i as int)).push(v@[i as int]@));
            to_multiset_build(views(v@.take(i as int)), v@[i as int]@);
        }
    }
    assert(v@.take(n as int) =~= v@);
    out
}

/// The next state of the shuffle's generator (a 64-bit linear congruential step).
pub open spec fn next_state(st: u64) -> u64 {
    ((st as int * 6364136223846793005 + 1442695040888963407) % 18446744073709551616) as u64
}

/// `s` shuffled from generator state `st`: the element at the state modulo
/// the length comes first, then the rest shuffled from the next state.
pub open spec fn shuffled<T>(s: Seq<T>, st: u64) -> Seq<T>
    decreases s.len(),
{
    if s.len() == 0 {
        s
    } else {
        let k = (st as int) % (s.len() as int);
        seq![s[k]] + shuffled(s.remove(k), next_state(st))
    }
}

pub proof fn lemma_shuffled_multiset<T>(s: Seq<T>, st: u64)
    ensures
        shuffled(s, st).to_multiset() == s.to_multiset(),
        shuffled(s, st).len() == s.len(),
    decreases s.len(),
{
    broadcast use vstd::seq_lib::group_to_multiset_ensures;
    if s.len() > 0 {
        let k = (st as int) % (s.len() as int);
        lemma_shuffled_multiset(s.remove(k), next_state(st));
        to_multiset_remove(s, k);
        vstd::seq_lib::lemma_multiset_commutative(seq![s[k]], shuffled(s.remove(k), next_state(st)));
        assert(seq![s[k]].to_multiset() =~= vstd::multiset::Multiset::<T>::empty().insert(s[k]));
        assert(s.to_multiset() =~= s.to_multiset().remove(s[k]).insert(s[k]));
    }
}

pub proof fn lemma_shuffled_views(s: Seq<Word>, st: u64)
    ensures
        views(shuffled(s, st)) == shuffled(views(s), st),
    decreases s.len(),
{
    if s.len() > 0 {
        let k = (st as int) % (s.len() as int);
        lemma_shuffled_views(s.remove(k), next_state(st));
        assert(views(s.remove(k)) =~= views(s).remove(k));
        assert(views(shuffled(s, st)) =~= seq![s[k]@] + views(shuffled(s.remove(k), next_state(st))));
    }
}

fn next_seed(st: u64) -> (r: u64)
    ensures
        r == next_state(st),
{
    let a: u128 = 6364136223846793005;
    let c: u128 = 1442695040888963407;
    assert((st as u128) * a <= 18446744073709551615u128 * 6364136223846793005u128) by (nonlinear_arith)
        requires
            st <= 18446744073709551615u64,
            a == 6364136223846793005u128,
    ;
    let x: u128 = (st as u128) * a + c;
    (x % 18446744073709551616u128) as u64
}

/// `RandomState::new`: hash keys drawn at random for this process, a
/// different pair on each call. Nothing is promised of them.
#[verifier::external_body]
fn fresh_hash_keys() -> RandomState {
    RandomState::new()
}

/// `BuildHasher::hash_one` of the byte 0 under the keys `k`. Nothing is
/// promised of the value.
#[verifier::external_body]
fn hash_of_zero(k: &RandomState) -> u64 {
    k.hash_one(0u8)
}

/// A random generator state.
pub(crate) fn random_seed() -> u64 {
    let k = fresh_hash_keys();
    hash_of_zero(&k)
}

/// The words of `v` shuffled from generator state `seed`.
pub fn shuffle_words(v: Vec<Word>, seed: u64) -> (r: Vec<Word>)
    ensures
        r@ == shuffled(v@, seed),
{
    let mut rem = v;
    let mut out: Vec<Word> = Vec::new();
    let mut st = seed;
    while rem.len() > 0
        invariant
            out@ + shuffled(rem@, st) == shuffled(v@, seed),
        decreases rem.len(),
    {
        let k = (st % (rem.len() as u64)) as usize;
        let ghost before = rem@;
        let ghost out0 = out@;
        let x = rem.remove(k);
        proof {
            assert(shuffled(before, st) =~= seq![x] + shuffled(rem@, next_state(st)));
        }
        out.push(x);
        st = next_seed(st);
        assert(out@ + shuffled(rem@, st) =~= out0 + (seq![x] + shuffled(rem@, st)));
    }
    assert(out@ + shuffled(rem@, st) =~= out@);
    out
}

} // verus!
