//! Weighted (multiset) Jaccard similarity between two token spans.
//!
//! The similarity of spans `a` and `b` is the exact rational
//! `intersection_weight / union_weight`, where the intersection weight counts
//! each token with the lesser of its multiplicities in the two spans, and the
//! union weight is the total size of both spans with common occurrences
//! counted once. Similarity values never leave that rational form: callers
//! compare the weight pair against a rational threshold.

use std::collections::HashMap;
use vstd::arithmetic::mul::lemma_mul_upper_bound;
use vstd::multiset::Multiset;
use vstd::prelude::*;

verus! {

broadcast use {vstd::seq_lib::group_to_multiset_ensures, vstd::multiset::lemma_intersection_count};

/// The total count, over all tokens, of the lesser of the token's
/// multiplicities in the two spans.
pub open spec fn intersection_weight(a: Seq<i32>, b: Seq<i32>) -> nat {
    a.to_multiset().intersection_with(b.to_multiset()).len()
}

/// The total size of both spans, with occurrences common to both counted
/// only once.
pub open spec fn union_weight(a: Seq<i32>, b: Seq<i32>) -> int {
    a.len() + b.len() - intersection_weight(a, b)
}

/// The weighted Jaccard similarity of `a` and `b` reaches `num / den`. Two
/// empty spans score zero, so they only reach a zero threshold.
pub open spec fn sim_at_least(a: Seq<i32>, b: Seq<i32>, num: u64, den: u64) -> bool {
    if union_weight(a, b) == 0 {
        num == 0
    } else {
        intersection_weight(a, b) * den >= num * union_weight(a, b)
    }
}

/// The multiplicity a token map assigns to a token, zero when absent.
pub open spec fn map_count(m: Map<i32, usize>, x: i32) -> nat {
    if m.contains_key(x) {
        m[x] as nat
    } else {
        0
    }
}

/// Removing one shared occurrence of `x` from both multisets lowers the
/// intersection size by exactly one; removing an occurrence that `b` lacks
/// leaves it unchanged.
proof fn lemma_intersection_len_step(a: Multiset<i32>, b: Multiset<i32>, x: i32)
    requires
        a.count(x) >= 1,
    ensures
        b.count(x) >= 1 ==> a.intersection_with(b).len() == 1 + a.remove(x).intersection_with(
            b.remove(x),
        ).len(),
        b.count(x) == 0 ==> a.intersection_with(b).len() == a.remove(x).intersection_with(b).len(),
{
    if b.count(x) >= 1 {
        let inner = a.remove(x).intersection_with(b.remove(x));
        assert(a.intersection_with(b) =~= inner.insert(x));
        assert(inner.insert(x).len() == inner.len() + 1);
    } else {
        assert(a.intersection_with(b) =~= a.remove(x).intersection_with(b));
    }
}

/// The intersection of two multisets is no larger than either.
proof fn lemma_intersection_len_le(a: Multiset<i32>, b: Multiset<i32>)
    ensures
        a.intersection_with(b).len() <= a.len(),
        a.intersection_with(b).len() <= b.len(),
    decreases a.len(),
{
    if a.len() == 0 {
        vstd::multiset::lemma_multiset_empty_len(a);
        assert(a.intersection_with(b) =~= Multiset::<i32>::empty());
        vstd::multiset::lemma_multiset_empty_len(a.intersection_with(b));
    } else {
        let x = a.choose();
        assert(a.count(x) > 0);
        assert(Multiset::singleton(x).subset_of(a));
        assert(a.remove(x).len() == a.len() - 1);
        lemma_intersection_len_step(a, b, x);
        if b.count(x) >= 1 {
            assert(Multiset::singleton(x).subset_of(b));
            assert(b.remove(x).len() == b.len() - 1);
            lemma_intersection_len_le(a.remove(x), b.remove(x));
        } else {
            lemma_intersection_len_le(a.remove(x), b);
        }
    }
}

/// Similarity is symmetric: both weights are unchanged when the two spans
/// are exchanged.
pub proof fn lemma_similarity_symmetric(a: Seq<i32>, b: Seq<i32>)
    ensures
        intersection_weight(a, b) == intersection_weight(b, a),
        union_weight(a, b) == union_weight(b, a),
{
    assert(a.to_multiset().intersection_with(b.to_multiset()) =~= b.to_multiset().intersection_with(
        a.to_multiset(),
    ));
}

/// A span compared with itself has intersection and union weights both equal
/// to its length, so any nonempty span is fully similar to itself.
pub proof fn lemma_similarity_self(a: Seq<i32>)
    ensures
        intersection_weight(a, a) == a.len(),
        union_weight(a, a) == a.len(),
        a.len() > 0 ==> forall|den: u64| den > 0 ==> sim_at_least(a, a, den, den),
{
    assert(a.to_multiset().intersection_with(a.to_multiset()) =~= a.to_multiset());
    assert(a.to_multiset().len() == a.len());
    if a.len() > 0 {
        assert forall|den: u64| den > 0 implies sim_at_least(a, a, den, den) by {
            assert(intersection_weight(a, a) * den >= den * union_weight(a, a))
                by (nonlinear_arith)
                requires
                    intersection_weight(a, a) == a.len(),
                    union_weight(a, a) == a.len(),
            ;
        }
    }
}

/// Similarity is bounded below by zero and above by one: the intersection
/// weight never exceeds the union weight, and both are nonnegative.
pub proof fn lemma_similarity_bounds(a: Seq<i32>, b: Seq<i32>)
    ensures
        intersection_weight(a, b) <= a.len(),
        intersection_weight(a, b) <= b.len(),
        intersection_weight(a, b) <= union_weight(a, b),
        union_weight(a, b) <= a.len() + b.len(),
{
    lemma_intersection_len_le(a.to_multiset(), b.to_multiset());
    assert(a.to_multiset().len() == a.len());
    assert(b.to_multiset().len() == b.len());
}

/// Token -> multiplicity map of a span.
fn create_frequency_vector(span: &[i32]) -> (m: HashMap<i32, usize>)
    ensures
        forall|x: i32| #[trigger] map_count(m@, x) == span@.to_multiset().count(x),
{
    let mut m: HashMap<i32, usize> = HashMap::new();
    proof {
        assert(span@.take(0) =~= Seq::<i32>::empty());
        vstd::multiset::lemma_multiset_empty_len(span@.take(0).to_multiset());
    }
    for i in 0..span.len()
        invariant
            forall|x: i32| #[trigger] map_count(m@, x) == span@.take(i as int).to_multiset().count(
                x,
            ),
    {
        let t = span[i];
        let c = match m.get(&t) {
            Some(c) => *c,
            None => 0,
        };
        let ghost m_prev = m@;
        proof {
            assert(map_count(m@, t) == span@.take(i as int).to_multiset().count(t));
            assert(span@.take(i as int).to_multiset().count(t) <= span@.take(
                i as int,
            ).to_multiset().len());
            assert(span@.take(i as int).to_multiset().len() == span@.take(i as int).len());
            assert(span@.take(i as int).len() == i as int);
            assert(c < usize::MAX);
        }
        m.insert(t, c + 1);
        proof {
            assert(span@.take(i + 1) =~= span@.take(i as int).push(span@[i as int]));
            assert(span@.take(i + 1).to_multiset() =~= span@.take(i as int).to_multiset().insert(
                t,
            ));
            assert forall|x: i32| #[trigger] map_count(m@, x) == span@.take(
                i + 1,
            ).to_multiset().count(x) by {
                assert(map_count(m@, x) == if x == t {
                    (c + 1) as nat
                } else {
                    map_count(m_prev, x)
                }) by {
                    assert(m@ == m_prev.insert(t, (c + 1) as usize));
                }
            }
        }
    }
    proof {
        assert(span@.take(span@.len() as int) =~= span@);
    }
    m
}

/// The weighted Jaccard similarity of two spans, as the exact pair
/// `(intersection weight, union weight)`; the similarity itself is their
/// ratio, with an empty union scored as zero.
pub fn weighted_jaccard(text1: &[i32], text2: &[i32]) -> (r: (usize, usize))
    requires
        text1@.len() + text2@.len() <= usize::MAX,
    ensures
        r.0 == intersection_weight(text1@, text2@),
        r.1 == union_weight(text1@, text2@),
        r.0 <= r.1,
{
    let mut y = create_frequency_vector(text2);
    let mut inter: usize = 0;
    let ghost mut rem: Multiset<i32> = text2@.to_multiset();
    proof {
        assert(text1@.skip(0) =~= text1@);
    }
    for i in 0..text1.len()
        invariant
            forall|x: i32| #[trigger] map_count(y@, x) == rem.count(x),
            inter <= i <= text1@.len(),
            inter + text1@.skip(i as int).to_multiset().intersection_with(rem).len()
                == intersection_weight(text1@, text2@),
    {
        let t = text1[i];
        let c = match y.get(&t) {
            Some(c) => *c,
            None => 0,
        };
        proof {
            assert(map_count(y@, t) == rem.count(t));
        }
        let ghost s = text1@.skip(i as int);
        proof {
            assert(s[0] == text1@[i as int]);
            assert(s.remove(0) =~= text1@.skip(i + 1));
            assert(s.remove(0).to_multiset() =~= s.to_multiset().remove(s[0]));
            assert(s.contains(t)) by {
                assert(s[0] == t);
            }
            assert(s.to_multiset().count(t) >= 1);
            lemma_intersection_len_step(s.to_multiset(), rem, t);
        }
        let ghost y_prev = y@;
        if c > 0 {
            y.insert(t, c - 1);
            inter = inter + 1;
            proof {
                let old_rem = rem;
                rem = rem.remove(t);
                assert forall|x: i32| #[trigger] map_count(y@, x) == rem.count(x) by {
                    assert(map_count(y@, x) == if x == t {
                        (c - 1) as nat
                    } else {
                        map_count(y_prev, x)
                    }) by {
                        assert(y@ == y_prev.insert(t, (c - 1) as usize));
                    }
                }
                assert(text1@.skip(i + 1).to_multiset().intersection_with(rem)
                    =~= s.to_multiset().remove(t).intersection_with(old_rem.remove(t)));
            }
        } else {
            proof {
                assert(rem.count(t) == 0);
                assert(text1@.skip(i + 1).to_multiset().intersection_with(rem)
                    =~= s.to_multiset().remove(t).intersection_with(rem));
            }
        }
    }
    proof {
        let s = text1@.skip(text1@.len() as int);
        assert(s =~= Seq::<i32>::empty());
        vstd::multiset::lemma_multiset_empty_len(s.to_multiset());
        assert(s.to_multiset().intersection_with(rem) =~= Multiset::<i32>::empty());
        vstd::multiset::lemma_multiset_empty_len(s.to_multiset().intersection_with(rem));
        lemma_similarity_bounds(text1@, text2@);
    }
    let uni = (text1.len() - inter) + text2.len();
    (inter, uni)
}

/// Exact rational comparison: does `inter / uni` reach `num / den`? An empty
/// union is scored as zero, so it only reaches a zero threshold.
pub fn ratio_at_least(inter: usize, uni: usize, num: u64, den: u64) -> (r: bool)
    requires
        den > 0,
    ensures
        r == (if uni == 0 {
            num == 0
        } else {
            inter * den >= num * uni
        }),
{
    if uni == 0 {
        num == 0
    } else {
        proof {
            lemma_mul_upper_bound(inter as int, u64::MAX as int, den as int, u64::MAX as int);
            lemma_mul_upper_bound(num as int, u64::MAX as int, uni as int, u64::MAX as int);
        }
        (inter as u128) * (den as u128) >= (num as u128) * (uni as u128)
    }
}

} // verus!
