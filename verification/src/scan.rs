//! Windowed duplicate scans over a document.
//!
//! Each scanner decides whether the document contains a query-length window
//! whose weighted Jaccard similarity to the query reaches the rational
//! threshold `threshold_num / threshold_den`. The naive scanner scores every
//! window and defines the ground truth. The prefiltered scanners fingerprint
//! every width-`n` window of the document, consult the query's fingerprint
//! set, and score only the verification range around each fingerprint hit:
//! they can miss a near-duplicate whose every width-`n` window was edited,
//! which is the documented recall tradeoff of the prefilter, and exactly what
//! their contracts state. Out-of-range sizes (a width of zero, a width above
//! the query length, a query longer than the document, an empty query) yield
//! "no duplicate" rather than an arithmetic fault.

use crate::fingerprint::{direct_fp_seq, fx_hash, fx_hash_of, rolling_fp_of, rolling_fp_seq, sym, syms};
use crate::rolling::RollingHash;
use crate::similarity::{ratio_at_least, sim_at_least, weighted_jaccard};
use std::collections::HashSet;
use vstd::prelude::*;

verus! {

/// The query-length window of `doc` starting at `j` reaches the threshold.
pub open spec fn window_hit(doc: Seq<i32>, query: Seq<i32>, j: int, num: u64, den: u64) -> bool {
    sim_at_least(query, doc.subrange(j, j + query.len()), num, den)
}

/// Some query-length window of `doc` reaches the threshold.
pub open spec fn some_window_hit(doc: Seq<i32>, query: Seq<i32>, num: u64, den: u64) -> bool {
    exists|j: int|
        0 <= j <= doc.len() - query.len() && #[trigger] window_hit(doc, query, j, num, den)
}

/// The first window offset verified after a fingerprint hit at position `i`:
/// the leftmost query-length window that still contains that width-`n`
/// window, clamped to the document's start.
pub open spec fn inner_lo(query_len: int, n: int, i: int) -> int {
    if i + n > query_len {
        i + n - query_len
    } else {
        0
    }
}

/// The last window offset verified after a fingerprint hit at position `i`,
/// clamped to the last query-length window of the document.
pub open spec fn inner_hi(doc_len: int, query_len: int, i: int) -> int {
    if i <= doc_len - query_len {
        i
    } else {
        doc_len - query_len
    }
}

/// Some window in the verification range of fingerprint position `i` reaches
/// the threshold.
pub open spec fn range_hit(doc: Seq<i32>, query: Seq<i32>, num: u64, den: u64, n: int, i: int) -> bool {
    exists|j: int|
        inner_lo(query.len() as int, n, i) <= j <= inner_hi(
            doc.len() as int,
            query.len() as int,
            i,
        ) && #[trigger] window_hit(doc, query, j, num, den)
}

/// Fingerprint position `i` yields a verified match under the direct family:
/// the document window's direct fingerprint lies in `fps`, and a window of
/// its verification range reaches the threshold.
pub open spec fn direct_candidate(
    doc: Seq<i32>,
    query: Seq<i32>,
    fps: Set<usize>,
    num: u64,
    den: u64,
    n: int,
    i: int,
) -> bool {
    &&& fps.contains(fx_hash_of(doc.subrange(i, i + n)))
    &&& range_hit(doc, query, num, den, n, i)
}

/// Some fingerprint position yields a verified match under the direct family.
pub open spec fn some_direct_candidate(
    doc: Seq<i32>,
    query: Seq<i32>,
    fps: Set<usize>,
    num: u64,
    den: u64,
    n: int,
) -> bool {
    exists|i: int|
        0 <= i <= doc.len() - n && #[trigger] direct_candidate(doc, query, fps, num, den, n, i)
}

/// Fingerprint position `i` yields a verified match under the rolling family.
pub open spec fn rolling_candidate(
    doc: Seq<i32>,
    query: Seq<i32>,
    fps: Set<usize>,
    num: u64,
    den: u64,
    n: int,
    i: int,
) -> bool {
    &&& fps.contains(rolling_fp_of(doc.subrange(i, i + n)))
    &&& range_hit(doc, query, num, den, n, i)
}

/// Some fingerprint position yields a verified match under the rolling
/// family.
pub open spec fn some_rolling_candidate(
    doc: Seq<i32>,
    query: Seq<i32>,
    fps: Set<usize>,
    num: u64,
    den: u64,
    n: int,
) -> bool {
    exists|i: int|
        0 <= i <= doc.len() - n && #[trigger] rolling_candidate(doc, query, fps, num, den, n, i)
}

/// Soundness of the prefilter: whenever a prefiltered scan predicate holds,
/// some window of the document reaches the threshold, so the naive scan,
/// which defines the ground truth, also reports a duplicate.
pub proof fn lemma_prefilter_sound(
    doc: Seq<i32>,
    query: Seq<i32>,
    fps: Set<usize>,
    num: u64,
    den: u64,
    n: int,
)
    requires
        1 <= n <= query.len() <= doc.len(),
    ensures
        some_direct_candidate(doc, query, fps, num, den, n) ==> some_window_hit(
            doc,
            query,
            num,
            den,
        ),
        some_rolling_candidate(doc, query, fps, num, den, n) ==> some_window_hit(
            doc,
            query,
            num,
            den,
        ),
{
    if some_direct_candidate(doc, query, fps, num, den, n) {
        let i = choose|i: int|
            0 <= i <= doc.len() - n && #[trigger] direct_candidate(doc, query, fps, num, den, n, i);
        let j = choose|j: int|
            inner_lo(query.len() as int, n, i) <= j <= inner_hi(
                doc.len() as int,
                query.len() as int,
                i,
            ) && #[trigger] window_hit(doc, query, j, num, den);
        assert(0 <= j <= doc.len() - query.len());
    }
    if some_rolling_candidate(doc, query, fps, num, den, n) {
        let i = choose|i: int|
            0 <= i <= doc.len() - n && #[trigger] rolling_candidate(
                doc,
                query,
                fps,
                num,
                den,
                n,
                i,
            );
        let j = choose|j: int|
            inner_lo(query.len() as int, n, i) <= j <= inner_hi(
                doc.len() as int,
                query.len() as int,
                i,
            ) && #[trigger] window_hit(doc, query, j, num, den);
        assert(0 <= j <= doc.len() - query.len());
    }
}

/// Completeness of the prefilter on easy cases: if a window of the document
/// reaches the threshold and shares at least one exact width-`n` window with
/// the query, both prefiltered predicates hold with the query's own
/// fingerprint sets. A match none of whose width-`n` windows survives in the
/// query can still be missed: that is the prefilter's documented recall
/// tradeoff.
pub proof fn lemma_prefilter_finds_shared_ngram(
    doc: Seq<i32>,
    query: Seq<i32>,
    num: u64,
    den: u64,
    n: int,
    j: int,
    p: int,
    q: int,
)
    requires
        1 <= n <= query.len() <= doc.len(),
        0 <= j <= doc.len() - query.len(),
        window_hit(doc, query, j, num, den),
        j <= p,
        p + n <= j + query.len(),
        0 <= q,
        q + n <= query.len(),
        doc.subrange(p, p + n) == query.subrange(q, q + n),
    ensures
        some_direct_candidate(doc, query, direct_fp_seq(query, n).to_set(), num, den, n),
        some_rolling_candidate(doc, query, rolling_fp_seq(query, n).to_set(), num, den, n),
{
    assert(inner_lo(query.len() as int, n, p) <= j <= inner_hi(
        doc.len() as int,
        query.len() as int,
        p,
    ));
    assert(range_hit(doc, query, num, den, n, p));
    assert(0 <= p <= doc.len() - n);
    assert(direct_fp_seq(query, n)[q] == fx_hash_of(doc.subrange(p, p + n)));
    assert(direct_fp_seq(query, n).contains(fx_hash_of(doc.subrange(p, p + n))));
    assert(direct_fp_seq(query, n).to_set().contains(fx_hash_of(doc.subrange(p, p + n))));
    assert(direct_candidate(doc, query, direct_fp_seq(query, n).to_set(), num, den, n, p));
    assert(rolling_fp_seq(query, n)[q] == rolling_fp_of(doc.subrange(p, p + n)));
    assert(rolling_fp_seq(query, n).contains(rolling_fp_of(doc.subrange(p, p + n))));
    assert(rolling_fp_seq(query, n).to_set().contains(rolling_fp_of(doc.subrange(p, p + n))));
    assert(rolling_candidate(doc, query, rolling_fp_seq(query, n).to_set(), num, den, n, p));
}

/// Score the query against every query-length window of `doc` starting in
/// `lo..=hi`, in increasing offset order; true exactly when one reaches the
/// threshold.
fn verify_range(doc: &[i32], query: &[i32], lo: usize, hi: usize, num: u64, den: u64) -> (r: bool)
    requires
        den > 0,
        query@.len() >= 1,
        query@.len() <= doc@.len(),
        doc@.len() + query@.len() <= usize::MAX,
        hi <= doc@.len() - query@.len(),
    ensures
        r == exists|j: int| lo <= j <= hi && #[trigger] window_hit(doc@, query@, j, num, den),
{
    if lo > hi {
        return false;
    }
    for j in lo..(hi + 1)
        invariant
            den > 0,
            query@.len() >= 1,
            query@.len() <= doc@.len(),
            doc@.len() + query@.len() <= usize::MAX,
            hi <= doc@.len() - query@.len(),
            lo <= j,
            forall|k: int| lo <= k < j ==> !#[trigger] window_hit(doc@, query@, k, num, den),
    {
        let w = &doc[j..j + query.len()];
        let (iw, uw) = weighted_jaccard(query, w);
        if ratio_at_least(iw, uw, num, den) {
            proof {
                assert(window_hit(doc@, query@, j as int, num, den));
            }
            return true;
        }
        proof {
            assert(!window_hit(doc@, query@, j as int, num, den));
        }
    }
    false
}

/// Decide by scoring alone whether the document has a query-length window
/// whose similarity to the query reaches `threshold_num / threshold_den`:
/// every window is scored, in increasing offset order, with no prefilter.
/// A query that is empty or longer than the document yields `false`.
pub fn has_doc_duplicate_naive(
    doc: Vec<i32>,
    query: &[i32],
    threshold_num: u64,
    threshold_den: u64,
) -> (r: bool)
    requires
        threshold_den > 0,
        doc@.len() + query@.len() <= usize::MAX,
    ensures
        r == (1 <= query@.len() <= doc@.len() && some_window_hit(
            doc@,
            query@,
            threshold_num,
            threshold_den,
        )),
{
    if query.len() < 1 || query.len() > doc.len() {
        return false;
    }
    let hi = doc.len() - query.len();
    verify_range(doc.as_slice(), query, 0, hi, threshold_num, threshold_den)
}

/// Decide with the direct-family prefilter whether the document has a
/// query-length window whose similarity to the query reaches
/// `threshold_num / threshold_den`. Every width-`n` document window is
/// fingerprinted with `fxhash`; on membership in `query_ngram` the
/// verification range around the hit is scored, in increasing offset order.
/// Out-of-range sizes yield `false`.
pub fn has_doc_duplicate(
    doc: Vec<i32>,
    query: &[i32],
    query_ngram: &HashSet<usize>,
    threshold_num: u64,
    threshold_den: u64,
    n: usize,
) -> (r: bool)
    requires
        threshold_den > 0,
        doc@.len() + query@.len() <= usize::MAX,
    ensures
        r == (1 <= n <= query@.len() <= doc@.len() && some_direct_candidate(
            doc@,
            query@,
            query_ngram@,
            threshold_num,
            threshold_den,
            n as int,
        )),
{
    if n < 1 || n > query.len() || query.len() > doc.len() {
        return false;
    }
    let d = doc.as_slice();
    let last = d.len() - n;
    for i in 0..(last + 1)
        invariant
            threshold_den > 0,
            1 <= n <= query@.len() <= doc@.len(),
            doc@.len() + query@.len() <= usize::MAX,
            doc@.len() <= usize::MAX,
            last == doc@.len() - n,
            d@ == doc@,
            forall|k: int|
                0 <= k < i ==> !#[trigger] direct_candidate(
                    doc@,
                    query@,
                    query_ngram@,
                    threshold_num,
                    threshold_den,
                    n as int,
                    k,
                ),
    {
        let h = fx_hash(&d[i..i + n]);
        if query_ngram.contains(&h) {
            let lo = if i + n > query.len() {
                i + n - query.len()
            } else {
                0
            };
            let hi = if i <= d.len() - query.len() {
                i
            } else {
                d.len() - query.len()
            };
            proof {
                assert(lo == inner_lo(query@.len() as int, n as int, i as int));
                assert(hi == inner_hi(doc@.len() as int, query@.len() as int, i as int));
            }
            if verify_range(d, query, lo, hi, threshold_num, threshold_den) {
                proof {
                    assert(direct_candidate(
                        doc@,
                        query@,
                        query_ngram@,
                        threshold_num,
                        threshold_den,
                        n as int,
                        i as int,
                    ));
                }
                return true;
            }
            proof {
                assert(!range_hit(doc@, query@, threshold_num, threshold_den, n as int, i as int));
            }
        } else {
            proof {
                assert(!query_ngram@.contains(fx_hash_of(doc@.subrange(i as int, i + n))));
            }
        }
    }
    proof {
        if some_direct_candidate(
            doc@,
            query@,
            query_ngram@,
            threshold_num,
            threshold_den,
            n as int,
        ) {
            let i = choose|i: int|
                0 <= i <= doc@.len() - n && #[trigger] direct_candidate(
                    doc@,
                    query@,
                    query_ngram@,
                    threshold_num,
                    threshold_den,
                    n as int,
                    i,
                );
            assert(false);
        }
    }
    false
}

/// Decide with the rolling-family prefilter whether the document has a
/// query-length window whose similarity to the query reaches
/// `threshold_num / threshold_den`. The document-side fingerprint is
/// maintained incrementally: one slide of the rolling hash per position
/// instead of a fresh hash of each window. Out-of-range sizes yield `false`.
pub fn has_doc_duplicate_rolling(
    doc: Vec<i32>,
    query: &[i32],
    query_ngram: &HashSet<usize>,
    threshold_num: u64,
    threshold_den: u64,
    n: usize,
) -> (r: bool)
    requires
        threshold_den > 0,
        doc@.len() + query@.len() <= usize::MAX,
    ensures
        r == (1 <= n <= query@.len() <= doc@.len() && some_rolling_candidate(
            doc@,
            query@,
            query_ngram@,
            threshold_num,
            threshold_den,
            n as int,
        )),
{
    if n < 1 || n > query.len() || query.len() > doc.len() {
        return false;
    }
    let d = doc.as_slice();
    let mut rh = RollingHash::new();
    proof {
        assert(syms(doc@.subrange(0, 0)) =~= Seq::<u64>::empty());
    }
    for k in 0..n
        invariant
            n <= doc@.len(),
            d@ == doc@,
            rh.wf(),
            rh.size() == k,
            rh.window() == syms(doc@.subrange(0, k as int)),
    {
        rh.append(d[k] as u64);
        proof {
            assert(syms(doc@.subrange(0, k + 1)) =~= syms(doc@.subrange(0, k as int)).push(
                sym(doc@[k as int]),
            ));
        }
    }
    let last = d.len() - n;
    for i in 0..(last + 1)
        invariant
            threshold_den > 0,
            1 <= n <= query@.len() <= doc@.len(),
            doc@.len() + query@.len() <= usize::MAX,
            doc@.len() <= usize::MAX,
            last == doc@.len() - n,
            d@ == doc@,
            rh.wf(),
            rh.size() == n,
            i <= last ==> rh.window() == syms(doc@.subrange(i as int, i + n)),
            forall|k: int|
                0 <= k < i ==> !#[trigger] rolling_candidate(
                    doc@,
                    query@,
                    query_ngram@,
                    threshold_num,
                    threshold_den,
                    n as int,
                    k,
                ),
    {
        let h = rh.get_hash();
        proof {
            crate::rolling::lemma_poly_hash_bounds(syms(doc@.subrange(i as int, i + n)));
            assert(h as usize == rolling_fp_of(doc@.subrange(i as int, i + n)));
        }
        let hit = query_ngram.contains(&(h as usize));
        if hit {
            let lo = if i + n > query.len() {
                i + n - query.len()
            } else {
                0
            };
            let hi = if i <= d.len() - query.len() {
                i
            } else {
                d.len() - query.len()
            };
            proof {
                assert(lo == inner_lo(query@.len() as int, n as int, i as int));
                assert(hi == inner_hi(doc@.len() as int, query@.len() as int, i as int));
            }
            if verify_range(d, query, lo, hi, threshold_num, threshold_den) {
                proof {
                    assert(rolling_candidate(
                        doc@,
                        query@,
                        query_ngram@,
                        threshold_num,
                        threshold_den,
                        n as int,
                        i as int,
                    ));
                }
                return true;
            }
            proof {
                assert(!range_hit(doc@, query@, threshold_num, threshold_den, n as int, i as int));
            }
        } else {
            proof {
                assert(!query_ngram@.contains(rolling_fp_of(doc@.subrange(i as int, i + n))));
            }
        }
        if i < last {
            proof {
                assert(rh.window()[0] == sym(doc@[i as int]));
            }
            rh.slide(d[i] as u64, d[i + n] as u64);
            proof {
                assert(syms(doc@.subrange(i as int, i + n)).drop_first().push(
                    sym(doc@[i + n]),
                ) =~= syms(doc@.subrange(i + 1, i + 1 + n)));
            }
        }
    }
    proof {
        if some_rolling_candidate(
            doc@,
            query@,
            query_ngram@,
            threshold_num,
            threshold_den,
            n as int,
        ) {
            let i = choose|i: int|
                0 <= i <= doc@.len() - n && #[trigger] rolling_candidate(
                    doc@,
                    query@,
                    query_ngram@,
                    threshold_num,
                    threshold_den,
                    n as int,
                    i,
                );
            assert(false);
        }
    }
    false
}

} // verus!
