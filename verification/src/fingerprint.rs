//! Window fingerprints of a token sequence.
//!
//! A fingerprint summarizes the exact contents of one width-`n` window. Two
//! interchangeable families exist: the direct family hashes each window's raw
//! tokens with `fxhash`, and the rolling family takes the window's polynomial
//! rolling hash, maintained incrementally across positions. Within a family,
//! windows with identical token contents always fingerprint identically;
//! collisions between distinct contents are tolerated by the similarity
//! verification that follows a fingerprint hit. The two families are never
//! compared against each other.

use crate::rolling::{lemma_poly_hash_bounds, poly_hash, RollingHash};
use std::collections::HashSet;
use vstd::prelude::*;

verus! {

/// The fingerprint that `fxhash` assigns to a window's tokens; a function of
/// the tokens alone.
pub uninterp spec fn fx_hash_of(window: Seq<i32>) -> usize;

/// Relies on fxhash::hash: an unseeded, deterministic hash of the slice,
/// whose result depends on the slice's contents alone.
#[verifier::external_body]
pub(crate) fn fx_hash(window: &[i32]) -> (r: usize)
    ensures
        r == fx_hash_of(window@),
{
    fxhash::hash(window)
}

/// A token reinterpreted as a rolling-hash symbol.
pub open spec fn sym(t: i32) -> u64 {
    t as u64
}

/// The symbols of a span, in order.
pub open spec fn syms(s: Seq<i32>) -> Seq<u64> {
    s.map_values(|t: i32| sym(t))
}

/// How many width-`n` windows a sequence of length `len` has.
pub open spec fn window_count(len: int, n: int) -> nat {
    if n <= len {
        (len - n + 1) as nat
    } else {
        0
    }
}

/// The rolling-family fingerprint of a window: its polynomial rolling hash.
pub open spec fn rolling_fp_of(window: Seq<i32>) -> usize {
    poly_hash(syms(window)) as usize
}

/// The direct-family fingerprint of every width-`n` window of `s`, in window
/// order; empty when `s` is shorter than `n`.
pub open spec fn direct_fp_seq(s: Seq<i32>, n: int) -> Seq<usize> {
    Seq::new(window_count(s.len() as int, n), |i: int| fx_hash_of(s.subrange(i, i + n)))
}

/// The rolling-family fingerprint of every width-`n` window of `s`, in window
/// order; empty when `s` is shorter than `n`.
pub open spec fn rolling_fp_seq(s: Seq<i32>, n: int) -> Seq<usize> {
    Seq::new(window_count(s.len() as int, n), |i: int| rolling_fp_of(s.subrange(i, i + n)))
}

/// Extending the fingerprinted prefix by one window adds exactly that
/// window's fingerprint to the set of fingerprints seen so far.
proof fn lemma_take_to_set_step<A>(q: Seq<A>, i: int)
    requires
        0 <= i < q.len(),
    ensures
        q.take(i + 1).to_set() == q.take(i).to_set().insert(q[i]),
{
    assert forall|x: A| #[trigger] q.take(i + 1).to_set().contains(x) implies q.take(
        i,
    ).to_set().insert(q[i]).contains(x) by {
        let k = choose|k: int| 0 <= k < i + 1 && #[trigger] q.take(i + 1)[k] == x;
        if k < i {
            assert(q.take(i)[k] == x);
            assert(q.take(i).contains(x));
        }
    };
    assert forall|x: A| q.take(i).to_set().insert(q[i]).contains(x) implies #[trigger] q.take(
        i + 1,
    ).to_set().contains(x) by {
        if q.take(i).to_set().contains(x) {
            let k = choose|k: int| 0 <= k < i && #[trigger] q.take(i)[k] == x;
            assert(q.take(i + 1)[k] == x);
            assert(q.take(i + 1).contains(x));
        } else {
            assert(q.take(i + 1)[i] == x);
            assert(q.take(i + 1).contains(x));
        }
    };
    assert(q.take(i + 1).to_set() =~= q.take(i).to_set().insert(q[i]));
}

/// A sequence whose distinct-element set is as large as the sequence itself
/// has no repeated element.
proof fn lemma_full_set_implies_no_duplicates<A>(q: Seq<A>)
    requires
        q.to_set().len() == q.len(),
    ensures
        q.no_duplicates(),
    decreases q.len(),
{
    broadcast use vstd::seq_lib::seq_to_set_is_finite;

    if q.len() > 0 {
        let d = q.drop_last();
        let l = q.last();
        assert(q.to_set() =~= d.to_set().insert(l)) by {
            assert forall|x: A| #[trigger] q.contains(x) implies d.contains(x) || x == l by {
                let k = choose|k: int| 0 <= k < q.len() && #[trigger] q[k] == x;
                if k < q.len() - 1 {
                    assert(d[k] == x);
                }
            };
            assert forall|x: A| d.contains(x) implies #[trigger] q.contains(x) by {
                let k = choose|k: int| 0 <= k < d.len() && #[trigger] d[k] == x;
                assert(q[k] == x);
            };
            assert(q[q.len() - 1] == l);
            assert(q.contains(l));
        }
        d.lemma_cardinality_of_set();
        if d.to_set().contains(l) {
            assert(q.to_set().len() == d.to_set().len());
            assert(false);
        }
        assert(d.to_set().len() == d.len());
        lemma_full_set_implies_no_duplicates(d);
        assert forall|i: int, j: int|
            0 <= i < q.len() && 0 <= j < q.len() && i != j implies q[i] != q[j] by {
            if i < q.len() - 1 && j < q.len() - 1 {
                assert(d[i] == q[i] && d[j] == q[j]);
            } else if i < q.len() - 1 {
                assert(d[i] == q[i]);
                assert(d.contains(d[i]));
            } else if j < q.len() - 1 {
                assert(d[j] == q[j]);
                assert(d.contains(d[j]));
            }
        };
    }
}

/// The direct fingerprint set holds at most one element per window of the
/// sequence, with equality exactly when no two windows are identical or
/// collide.
pub proof fn lemma_direct_fingerprint_count(s: Seq<i32>, n: int)
    requires
        1 <= n <= s.len(),
    ensures
        direct_fp_seq(s, n).len() == s.len() - n + 1,
        direct_fp_seq(s, n).to_set().len() <= s.len() - n + 1,
        (direct_fp_seq(s, n).to_set().len() == s.len() - n + 1) <==> direct_fp_seq(
            s,
            n,
        ).no_duplicates(),
{
    let q = direct_fp_seq(s, n);
    q.lemma_cardinality_of_set();
    if q.no_duplicates() {
        q.unique_seq_to_set();
    }
    if q.to_set().len() == q.len() {
        lemma_full_set_implies_no_duplicates(q);
    }
}

/// Within each fingerprint family, two windows with the same token contents
/// always receive the same fingerprint, also across different sequences.
pub proof fn lemma_fingerprint_consistent(s: Seq<i32>, t: Seq<i32>, n: int, i: int, j: int)
    requires
        1 <= n,
        0 <= i,
        i + n <= s.len(),
        0 <= j,
        j + n <= t.len(),
        s.subrange(i, i + n) == t.subrange(j, j + n),
    ensures
        direct_fp_seq(s, n)[i] == direct_fp_seq(t, n)[j],
        rolling_fp_seq(s, n)[i] == rolling_fp_seq(t, n)[j],
{
}

/// The direct-family fingerprint set of every width-`n` window of `text`,
/// one `fxhash` evaluation per window; empty when `text` is shorter than `n`.
pub fn ngram(text: &[i32], n: usize) -> (r: HashSet<usize>)
    requires
        n >= 1,
    ensures
        r@ == direct_fp_seq(text@, n as int).to_set(),
        text@.len() >= n ==> r@.len() <= text@.len() - n + 1,
        text@.len() < n ==> r@ == Set::<usize>::empty(),
{
    let mut fps: HashSet<usize> = HashSet::new();
    if n > text.len() {
        proof {
            assert(direct_fp_seq(text@, n as int) =~= Seq::<usize>::empty());
            assert(direct_fp_seq(text@, n as int).to_set() =~= Set::<usize>::empty());
        }
        return fps;
    }
    let last = text.len() - n;
    proof {
        assert(direct_fp_seq(text@, n as int).take(0) =~= Seq::<usize>::empty());
        assert(Seq::<usize>::empty().to_set() =~= Set::<usize>::empty());
    }
    for i in 0..(last + 1)
        invariant
            n >= 1,
            n <= text@.len(),
            text@.len() <= usize::MAX,
            last == text@.len() - n,
            fps@ == direct_fp_seq(text@, n as int).take(i as int).to_set(),
    {
        let h = fx_hash(&text[i..i + n]);
        proof {
            assert(direct_fp_seq(text@, n as int)[i as int] == h);
            lemma_take_to_set_step(direct_fp_seq(text@, n as int), i as int);
        }
        fps.insert(h);
    }
    proof {
        assert(direct_fp_seq(text@, n as int).take(last + 1) =~= direct_fp_seq(text@, n as int));
        direct_fp_seq(text@, n as int).lemma_cardinality_of_set();
    }
    fps
}

/// The rolling-family fingerprint set of every width-`n` window of `text`:
/// the first window's hash is built symbol by symbol, every further window's
/// hash by one constant-time slide; empty when `text` is shorter than `n`.
pub fn ngram_rolling(text: &[i32], n: usize) -> (r: HashSet<usize>)
    requires
        n >= 1,
    ensures
        r@ == rolling_fp_seq(text@, n as int).to_set(),
        text@.len() >= n ==> r@.len() <= text@.len() - n + 1,
        text@.len() < n ==> r@ == Set::<usize>::empty(),
{
    let mut fps: HashSet<usize> = HashSet::new();
    if n > text.len() {
        proof {
            assert(rolling_fp_seq(text@, n as int) =~= Seq::<usize>::empty());
            assert(rolling_fp_seq(text@, n as int).to_set() =~= Set::<usize>::empty());
        }
        return fps;
    }
    let ghost fpseq = rolling_fp_seq(text@, n as int);
    let mut rh = RollingHash::new();
    proof {
        assert(syms(text@.subrange(0, 0)) =~= Seq::<u64>::empty());
    }
    for k in 0..n
        invariant
            n <= text@.len(),
            rh.wf(),
            rh.size() == k,
            rh.window() == syms(text@.subrange(0, k as int)),
    {
        rh.append(text[k] as u64);
        proof {
            assert(syms(text@.subrange(0, k + 1)) =~= syms(text@.subrange(0, k as int)).push(
                sym(text@[k as int]),
            ));
        }
    }
    let h0 = rh.get_hash();
    proof {
        lemma_poly_hash_bounds(syms(text@.subrange(0, n as int)));
        assert(fpseq[0] == h0 as usize);
        assert(fpseq.take(0) =~= Seq::<usize>::empty());
        assert(Seq::<usize>::empty().to_set() =~= Set::<usize>::empty());
        lemma_take_to_set_step(fpseq, 0);
    }
    fps.insert(h0 as usize);
    let last = text.len() - n;
    for i in 1..(last + 1)
        invariant
            n >= 1,
            n <= text@.len(),
            text@.len() <= usize::MAX,
            last == text@.len() - n,
            fpseq == rolling_fp_seq(text@, n as int),
            rh.wf(),
            rh.size() == n,
            rh.window() == syms(text@.subrange(i - 1, i - 1 + n)),
            fps@ == fpseq.take(i as int).to_set(),
    {
        proof {
            assert(rh.window()[0] == sym(text@[i - 1]));
        }
        rh.slide(text[i - 1] as u64, text[i - 1 + n] as u64);
        proof {
            assert(syms(text@.subrange(i - 1, i - 1 + n)).drop_first().push(
                sym(text@[i - 1 + n]),
            ) =~= syms(text@.subrange(i as int, i + n)));
        }
        let h = rh.get_hash();
        proof {
            lemma_poly_hash_bounds(syms(text@.subrange(i as int, i + n)));
            assert(fpseq[i as int] == h as usize);
            lemma_take_to_set_step(fpseq, i as int);
        }
        fps.insert(h as usize);
    }
    proof {
        assert(fpseq.take(last + 1) =~= fpseq);
        fpseq.lemma_cardinality_of_set();
    }
    fps
}

} // verus!
