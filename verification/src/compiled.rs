//! The body text size of a deck: the mode of a glyph-weighted histogram of
//! text sizes.
//!
//! Sizes are grouped into buckets (the caller rounds each size to a tenth of
//! a point); every text run adds its glyph count to the weight of its bucket.
//! Headings are few, so the body size dominates.
use vstd::prelude::*;

verus! {

/// The total weight given to bucket `b` by the samples.
pub open spec fn bucket_weight(samples: Seq<(i64, u64)>, b: i64) -> nat
    decreases samples.len(),
{
    if samples.len() == 0 {
        0
    } else {
        bucket_weight(samples.drop_last(), b) + if samples.last().0 == b {
            samples.last().1 as nat
        } else {
            0
        }
    }
}

/// The total weight of all samples.
pub open spec fn total_weight(samples: Seq<(i64, u64)>) -> nat
    decreases samples.len(),
{
    if samples.len() == 0 {
        0
    } else {
        total_weight(samples.drop_last()) + samples.last().1 as nat
    }
}

/// `b` is a most frequent bucket: it has weight, and no bucket has more.
pub open spec fn is_mode(samples: Seq<(i64, u64)>, b: i64) -> bool {
    &&& bucket_weight(samples, b) > 0
    &&& forall|c: i64| #[trigger] bucket_weight(samples, c) <= bucket_weight(samples, b)
}

proof fn lemma_bucket_le_total(samples: Seq<(i64, u64)>, b: i64)
    ensures
        bucket_weight(samples, b) <= total_weight(samples),
    decreases samples.len(),
{
    if samples.len() > 0 {
        lemma_bucket_le_total(samples.drop_last(), b);
    }
}

proof fn lemma_prefix_total(samples: Seq<(i64, u64)>, i: int)
    requires
        0 <= i <= samples.len(),
    ensures
        total_weight(samples.take(i)) <= total_weight(samples),
    decreases samples.len() - i,
{
    if i < samples.len() {
        lemma_prefix_total(samples, i + 1);
        assert(samples.take(i + 1).drop_last() =~= samples.take(i));
    } else {
        assert(samples.take(i) =~= samples);
    }
}

/// A most frequent bucket of the samples, or `None` when no sample has a
/// positive weight. Which of several equally frequent buckets comes back is
/// left open.
pub fn weighted_mode(samples: &[(i64, u64)]) -> (r: Option<i64>)
    requires
        total_weight(samples@) <= u64::MAX,
    ensures
        r is None <==> forall|c: i64| #[trigger] bucket_weight(samples@, c) == 0,
        r matches Some(b) ==> is_mode(samples@, b),
{
    let n = samples.len();
    let mut hist: Vec<(i64, u64)> = Vec::new();
    let mut i: usize = 0;
    proof {
        assert(samples@.take(0) =~= Seq::<(i64, u64)>::empty());
    }
    while i < n
        invariant
            n == samples@.len(),
            i <= n,
            total_weight(samples@) <= u64::MAX,
            forall|j: int| 0 <= j < hist@.len() ==> #[trigger] hist@[j].1 == bucket_weight(
                samples@.take(i as int),
                hist@[j].0,
            ) && hist@[j].1 > 0,
            forall|j: int, k: int| 0 <= j < k < hist@.len() ==> #[trigger] hist@[j].0 != #[trigger] hist@[k].0,
            forall|c: i64| #[trigger] bucket_weight(samples@.take(i as int), c) > 0 ==> exists|j: int|
                0 <= j < hist@.len() && #[trigger] hist@[j].0 == c,
        decreases n - i,
    {
        let (b, w) = samples[i];
        let ghost pre = samples@.take(i as int);
        let ghost post = samples@.take(i + 1);
        proof {
            assert(post.drop_last() =~= pre);
            assert(post.last() == (b, w));
            lemma_prefix_total(samples@, i + 1);
            lemma_bucket_le_total(post, b);
        }
        if w > 0 {
            let mut j: usize = 0;
            let mut found = false;
            while j < hist.len()
                invariant_except_break
                    !found,
                    forall|k: int| 0 <= k < j ==> #[trigger] hist@[k].0 != b,
                invariant
                    j <= hist@.len(),
                ensures
                    found ==> j < hist@.len() && hist@[j as int].0 == b,
                    !found ==> forall|k: int| 0 <= k < hist@.len() ==> #[trigger] hist@[k].0 != b,
                decreases hist@.len() - j,
            {
                if hist[j].0 == b {
                    found = true;
                    break;
                }
                j = j + 1;
            }
            let ghost before = hist@;
            if found {
                let cur = hist[j].1;
                proof {
                    assert(cur as nat == bucket_weight(pre, b));
                    assert(bucket_weight(post, b) == cur + w);
                }
                hist.set(j, (b, cur + w));
                proof {
                    assert forall|k: int| 0 <= k < hist@.len() implies #[trigger] hist@[k].1 == bucket_weight(
                        post,
                        hist@[k].0,
                    ) && hist@[k].1 > 0 by {
                        if k != j {
                            assert(hist@[k] == before[k]);
                            assert(before[k].0 != b);
                        }
                    }
                    assert forall|c: i64| #[trigger] bucket_weight(post, c) > 0 implies exists|k: int|
                        0 <= k < hist@.len() && #[trigger] hist@[k].0 == c by {
                        if c == b {
                            assert(hist@[j as int].0 == c);
                        } else {
                            assert(bucket_weight(pre, c) > 0);
                            let k = choose|k: int| 0 <= k < before.len() && #[trigger] before[k].0 == c;
                            assert(hist@[k].0 == c);
                        }
                    }
                }
            } else {
                proof {
                    if bucket_weight(pre, b) > 0 {
                        let k = choose|k: int| 0 <= k < before.len() && #[trigger] before[k].0 == b;
                        assert(before[k].0 != b);
                    }
                    assert(bucket_weight(post, b) == w);
                }
                hist.push((b, w));
                proof {
                    assert forall|k: int| 0 <= k < hist@.len() implies #[trigger] hist@[k].1 == bucket_weight(
                        post,
                        hist@[k].0,
                    ) && hist@[k].1 > 0 by {
                        if k < before.len() {
                            assert(hist@[k] == before[k]);
                            assert(before[k].0 != b);
                        }
                    }
                    assert forall|c: i64| #[trigger] bucket_weight(post, c) > 0 implies exists|k: int|
                        0 <= k < hist@.len() && #[trigger] hist@[k].0 == c by {
                        if c == b {
                            assert(hist@[before.len() as int].0 == c);
                        } else {
                            assert(bucket_weight(pre, c) > 0);
                            let k = choose|k: int| 0 <= k < before.len() && #[trigger] before[k].0 == c;
                            assert(hist@[k].0 == c);
                        }
                    }
                }
            }
        } else {
            proof {
                assert forall|c: i64| bucket_weight(post, c) == bucket_weight(pre, c) by {}
                assert forall|k: int| 0 <= k < hist@.len() implies #[trigger] hist@[k].1 == bucket_weight(
                    post,
                    hist@[k].0,
                ) && hist@[k].1 > 0 by {
                    assert(bucket_weight(post, hist@[k].0) == bucket_weight(pre, hist@[k].0));
                }
                assert forall|c: i64| #[trigger] bucket_weight(post, c) > 0 implies exists|k: int|
                    0 <= k < hist@.len() && #[trigger] hist@[k].0 == c by {
                    assert(bucket_weight(post, c) == bucket_weight(pre, c));
                }
            }
        }
        i = i + 1;
    }
    proof {
        assert(samples@.take(n as int) =~= samples@);
    }
    if hist.len() == 0 {
        proof {
            assert forall|c: i64| #[trigger] bucket_weight(samples@, c) == 0 by {
                if bucket_weight(samples@, c) > 0 {
                    let k = choose|k: int| 0 <= k < hist@.len() && #[trigger] hist@[k].0 == c;
                }
            }
        }
        return None;
    }
    let mut best: usize = 0;
    let mut k: usize = 1;
    while k < hist.len()
        invariant
            1 <= k <= hist@.len(),
            best < k,
            forall|t: int| 0 <= t < k ==> #[trigger] hist@[t].1 <= hist@[best as int].1,
        decreases hist@.len() - k,
    {
        if hist[k].1 > hist[best].1 {
            best = k;
        }
        k = k + 1;
    }
    let b = hist[best].0;
    proof {
        assert(hist@[best as int].1 == bucket_weight(samples@, b));
        assert forall|c: i64| #[trigger] bucket_weight(samples@, c) <= bucket_weight(samples@, b) by {
            if bucket_weight(samples@, c) > 0 {
                let t = choose|t: int| 0 <= t < hist@.len() && #[trigger] hist@[t].0 == c;
                assert(hist@[t].1 <= hist@[best as int].1);
            }
        }
    }
    Some(b)
}

} // verus!
