use crate::{all_wf, KDPoint};
use vstd::prelude::*;

verus! {

broadcast use
    vstd::seq_lib::group_to_multiset_ensures,
    vstd::multiset::group_multiset_axioms;

/// The element at `idx` is a rank boundary along `dimension`: every element
/// below `idx` has a strictly smaller key, every element at or above `idx`
/// has a greater-or-equal key.
pub open spec fn partitioned_at<T: KDPoint>(s: Seq<T>, idx: int, dimension: int) -> bool {
    &&& forall|i: int| 0 <= i < idx ==> (#[trigger] s[i]).key(dimension) < s[idx].key(dimension)
    &&& forall|i: int| idx <= i < s.len() ==> (#[trigger] s[i]).key(dimension) >= s[idx].key(dimension)
}

/// How many elements of `s` carry a key strictly below `k` along `dimension`.
pub open spec fn count_keys_below<T: KDPoint>(s: Seq<T>, dimension: int, k: int) -> int
    decreases s.len(),
{
    if s.len() == 0 {
        0
    } else {
        (if s[0].key(dimension) < k {
            1int
        } else {
            0int
        }) + count_keys_below(s.drop_first(), dimension, k)
    }
}

/// How many elements of `s` carry a key at or below `k` along `dimension`.
pub open spec fn count_keys_at_or_below<T: KDPoint>(s: Seq<T>, dimension: int, k: int) -> int
    decreases s.len(),
{
    if s.len() == 0 {
        0
    } else {
        (if s[0].key(dimension) <= k {
            1int
        } else {
            0int
        }) + count_keys_at_or_below(s.drop_first(), dimension, k)
    }
}

pub proof fn lemma_count_keys_below_split<T: KDPoint>(s: Seq<T>, dimension: int, k: int, idx: int)
    requires
        0 <= idx <= s.len(),
        forall|p: int| 0 <= p < idx ==> (#[trigger] s[p]).key(dimension) < k,
        forall|p: int| idx <= p < s.len() ==> (#[trigger] s[p]).key(dimension) >= k,
    ensures
        count_keys_below(s, dimension, k) == idx,
    decreases s.len(),
{
    if s.len() != 0 {
        if idx == 0 {
            lemma_count_keys_below_split(s.drop_first(), dimension, k, 0);
        } else {
            lemma_count_keys_below_split(s.drop_first(), dimension, k, idx - 1);
        }
    }
}

proof fn lemma_count_keys_at_or_below_nonneg<T: KDPoint>(s: Seq<T>, dimension: int, k: int)
    ensures
        count_keys_at_or_below(s, dimension, k) >= 0,
    decreases s.len(),
{
    if s.len() != 0 {
        lemma_count_keys_at_or_below_nonneg(s.drop_first(), dimension, k);
    }
}

pub proof fn lemma_count_keys_at_or_below_prefix<T: KDPoint>(
    s: Seq<T>,
    dimension: int,
    k: int,
    m: int,
)
    requires
        0 <= m < s.len(),
        forall|p: int| 0 <= p <= m ==> (#[trigger] s[p]).key(dimension) <= k,
    ensures
        count_keys_at_or_below(s, dimension, k) >= m + 1,
    decreases s.len(),
{
    if m == 0 {
        lemma_count_keys_at_or_below_nonneg(s.drop_first(), dimension, k);
    } else {
        lemma_count_keys_at_or_below_prefix(s.drop_first(), dimension, k, m - 1);
    }
}

proof fn lemma_count_keys_below_remove<T: KDPoint>(s: Seq<T>, dimension: int, k: int, i: int)
    requires
        0 <= i < s.len(),
    ensures
        count_keys_below(s.remove(i), dimension, k) == count_keys_below(s, dimension, k) - (
        if s[i].key(dimension) < k {
            1int
        } else {
            0int
        }),
    decreases s.len(),
{
    if i == 0 {
        assert(s.remove(0) =~= s.drop_first());
    } else {
        assert(s.remove(i).drop_first() =~= s.drop_first().remove(i - 1));
        assert(s.remove(i)[0] == s[0]);
        lemma_count_keys_below_remove(s.drop_first(), dimension, k, i - 1);
    }
}

proof fn lemma_count_keys_at_or_below_remove<T: KDPoint>(s: Seq<T>, dimension: int, k: int, i: int)
    requires
        0 <= i < s.len(),
    ensures
        count_keys_at_or_below(s.remove(i), dimension, k) == count_keys_at_or_below(
            s,
            dimension,
            k,
        ) - (if s[i].key(dimension) <= k {
            1int
        } else {
            0int
        }),
    decreases s.len(),
{
    if i == 0 {
        assert(s.remove(0) =~= s.drop_first());
    } else {
        assert(s.remove(i).drop_first() =~= s.drop_first().remove(i - 1));
        assert(s.remove(i)[0] == s[0]);
        lemma_count_keys_at_or_below_remove(s.drop_first(), dimension, k, i - 1);
    }
}

/// The key counts depend only on which points `s` holds, not on their order.
pub proof fn lemma_count_keys_permutation<T: KDPoint>(s1: Seq<T>, s2: Seq<T>, dimension: int, k: int)
    requires
        s1.to_multiset() == s2.to_multiset(),
    ensures
        count_keys_below(s1, dimension, k) == count_keys_below(s2, dimension, k),
        count_keys_at_or_below(s1, dimension, k) == count_keys_at_or_below(s2, dimension, k),
    decreases s1.len(),
{
    if s1.len() == 0 {
        assert(s1.to_multiset().len() == s1.len());
        assert(s2.to_multiset().len() == s2.len());
        assert(s2.len() == 0);
    } else {
        let x = s1[0];
        assert(s1.contains(x));
        assert(s2.to_multiset().count(x) > 0);
        assert(s2.contains(x));
        let i = choose|i: int| 0 <= i < s2.len() && s2[i] == x;
        lemma_count_keys_below_remove(s2, dimension, k, i);
        lemma_count_keys_at_or_below_remove(s2, dimension, k, i);
        assert(s1.drop_first() =~= s1.remove(0));
        assert(s1.drop_first().to_multiset() == s2.remove(i).to_multiset());
        lemma_count_keys_permutation(s1.drop_first(), s2.remove(i), dimension, k);
    }
}

/// Everything before `left` is strictly below the whole window `[left, right]`.
spec fn prefix_below<T: KDPoint>(s: Seq<T>, left: int, right: int, d: int) -> bool {
    forall|a: int, m: int|
        #![trigger s[a], s[m]]
        0 <= a < left && left <= m <= right ==> s[a].key(d) < s[m].key(d)
}

/// Everything after `right` is at or above the whole window `[left, right]`.
spec fn suffix_at_or_above<T: KDPoint>(s: Seq<T>, left: int, right: int, d: int) -> bool {
    forall|m: int, b: int|
        #![trigger s[m], s[b]]
        left <= m <= right && right < b < s.len() ==> s[m].key(d) <= s[b].key(d)
}

/// Relies on slice::swap: exchanges the elements at indices `i` and `j`.
#[verifier::external_body]
fn swap_elements<T>(data: &mut Vec<T>, i: usize, j: usize)
    requires
        i < old(data).len(),
        j < old(data).len(),
    ensures
        final(data)@ == old(data)@.update(i as int, old(data)@[j as int]).update(
            j as int,
            old(data)@[i as int],
        ),
{
    data.swap(i, j);
}

proof fn lemma_swap_preserves_multiset<T>(s: Seq<T>, i: int, j: int)
    requires
        0 <= i < s.len(),
        0 <= j < s.len(),
    ensures
        s.update(i, s[j]).update(j, s[i]).to_multiset() == s.to_multiset(),
    decreases (if i <= j { 0int } else { 1int }),
{
    let s2 = s.update(i, s[j]).update(j, s[i]);
    if i == j {
        assert(s2 =~= s);
        assert(s2.to_multiset() =~= s.to_multiset());
    } else if j < i {
        assert(s2 =~= s.update(j, s[i]).update(i, s[j]));
        lemma_swap_preserves_multiset(s, j, i);
    } else {
        assert(s.contains(s[i]));
        assert(s.contains(s[j]));
        let s1 = s.update(i, s[j]);
        assert(s1.to_multiset() == s.to_multiset().insert(s[j]).remove(s[i]));
        assert(s1[j] == s[j]);
        assert(s2.to_multiset() == s1.to_multiset().insert(s[i]).remove(s[j]));
        assert(s2.to_multiset() =~= s.to_multiset());
    }
}

/// Rank selection on the window `[left, right]`: rearranges the window in
/// place so that the key that rank-order would put at `target` sits at the
/// returned index, with a strict three-way split around it.
#[verifier::loop_isolation(false)]
fn select_b<T: KDPoint>(
    data: &mut Vec<T>,
    left: usize,
    target: usize,
    right: usize,
    dimension: usize,
) -> (idx: usize)
    requires
        left <= target <= right < old(data).len(),
        all_wf(old(data)@),
        prefix_below(old(data)@, left as int, right as int, dimension as int),
        suffix_at_or_above(old(data)@, left as int, right as int, dimension as int),
    ensures
        final(data).len() == old(data).len(),
        final(data)@.to_multiset() == old(data)@.to_multiset(),
        all_wf(final(data)@),
        forall|p: int|
            0 <= p < final(data).len() && !(left <= p <= right) ==> final(data)@[p]
                == old(data)@[p],
        left <= idx <= target,
        partitioned_at(final(data)@, idx as int, dimension as int),
        forall|p: int|
            idx <= p <= target ==> (#[trigger] final(data)@[p]).key(dimension as int)
                == final(data)@[idx as int].key(dimension as int),
    decreases right - left,
{
    let ghost d = dimension as int;

    let mid: usize = left + (right - left) / 2;
    let k: i64 = data[mid].kdkey(dimension);
    let ghost kk = k as int;
    proof {
        assert(data@[mid as int].key(d) == kk);
    }

    let mut lt: usize = left;
    let mut i: usize = left;
    let mut hi: usize = right + 1;

    while i < hi
        invariant
            left <= lt <= i <= hi <= right + 1,
            data.len() == old(data).len(),
            data@.to_multiset() == old(data)@.to_multiset(),
            all_wf(data@),
            forall|p: int|
                0 <= p < data.len() && !(left <= p <= right) ==> data@[p] == old(data)@[p],
            forall|p: int| left <= p < lt ==> (#[trigger] data@[p]).key(d) < kk,
            forall|p: int| lt <= p < i ==> (#[trigger] data@[p]).key(d) == kk,
            forall|p: int| hi <= p <= right ==> (#[trigger] data@[p]).key(d) > kk,
            exists|w: int| left <= w <= right && (#[trigger] data@[w]).key(d) == kk,
            prefix_below(data@, left as int, right as int, d),
            suffix_at_or_above(data@, left as int, right as int, d),
        decreases hi - i,
    {
        let c: i64 = data[i].kdkey(dimension);
        if c < k {
            let ghost prev = data@;
            swap_elements(data, i, lt);
            proof {
                lemma_swap_preserves_multiset(prev, i as int, lt as int);
                let w = choose|w: int| left <= w <= right && (#[trigger] prev[w]).key(d) == kk;
                if w == i as int {
                    assert(data@[lt as int].key(d) == kk);
                } else if w == lt as int {
                    assert(data@[i as int].key(d) == kk);
                } else {
                    assert(data@[w].key(d) == kk);
                }
            }
            lt = lt + 1;
            i = i + 1;
        } else if c > k {
            hi = hi - 1;
            let ghost prev = data@;
            swap_elements(data, i, hi);
            proof {
                lemma_swap_preserves_multiset(prev, i as int, hi as int);
                let w = choose|w: int| left <= w <= right && (#[trigger] prev[w]).key(d) == kk;
                if w == i as int {
                    assert(data@[hi as int].key(d) == kk);
                } else if w == hi as int {
                    assert(data@[i as int].key(d) == kk);
                } else {
                    assert(data@[w].key(d) == kk);
                }
            }
        } else {
            i = i + 1;
        }
    }

    proof {
        let w = choose|w: int| left <= w <= right && (#[trigger] data@[w]).key(d) == kk;
        if w < lt {
            assert(data@[w].key(d) < kk);
            assert(false);
        } else if w >= hi {
            assert(data@[w].key(d) > kk);
            assert(false);
        }
        assert(lt < hi);
    }

    let tkey: i64 = data[target].kdkey(dimension);
    if tkey == k {
        proof {
            if (target as int) < lt {
                assert(data@[target as int].key(d) < kk);
                assert(false);
            }
            if target >= hi {
                assert(data@[target as int].key(d) > kk);
                assert(false);
            }
            assert(data@[lt as int].key(d) == kk);
            assert forall|p: int| lt <= p <= target implies (#[trigger] data@[p]).key(d)
                == data@[lt as int].key(d) by {}
            assert forall|p: int| 0 <= p < lt implies (#[trigger] data@[p]).key(d)
                < data@[lt as int].key(d) by {
                if p < left {
                    assert(data@[p].key(d) < data@[lt as int].key(d));
                }
            }
            assert forall|p: int| lt <= p < data.len() implies (#[trigger] data@[p]).key(d)
                >= data@[lt as int].key(d) by {
                if p > right {
                    assert(data@[lt as int].key(d) <= data@[p].key(d));
                }
            }
        }
        lt
    } else if tkey < k {
        proof {
            if target >= lt {
                if (target as int) < hi {
                    assert(data@[target as int].key(d) == kk);
                } else {
                    assert(data@[target as int].key(d) > kk);
                }
                assert(false);
            }
            assert(prefix_below(data@, left as int, lt as int - 1, d));
            assert forall|m: int, b: int|
                #![trigger data@[m], data@[b]]
                left <= m <= lt - 1 && lt - 1 < b < data.len() implies data@[m].key(d)
                <= data@[b].key(d) by {
                if b <= right {
                    if b < hi {
                        assert(data@[b].key(d) == kk);
                    } else {
                        assert(data@[b].key(d) > kk);
                    }
                    assert(data@[m].key(d) < kk);
                } else {
                    assert(data@[m].key(d) <= data@[b].key(d));
                }
            }
        }
        let idx = select_b(data, left, target, lt - 1, dimension);
        idx
    } else {
        proof {
            if (target as int) < hi {
                if (target as int) < lt {
                    assert(data@[target as int].key(d) < kk);
                } else {
                    assert(data@[target as int].key(d) == kk);
                }
                assert(false);
            }
            assert forall|a: int, m: int|
                #![trigger data@[a], data@[m]]
                0 <= a < hi && hi <= m <= right implies data@[a].key(d) < data@[m].key(d) by {
                assert(data@[m].key(d) > kk);
                if a < left {
                    assert(data@[a].key(d) < data@[m].key(d));
                } else if a < lt {
                    assert(data@[a].key(d) < kk);
                } else {
                    assert(data@[a].key(d) == kk);
                }
            }
            assert(suffix_at_or_above(data@, hi as int, right as int, d));
        }
        let idx = select_b(data, hi, target, right, dimension);
        idx
    }
}

/// Rank selection on the window `[left, right]`, two-scan variant: one scan
/// gathers the strictly smaller keys at the front of the window, a second
/// scan gathers the keys equal to the pivot key right after them.
#[verifier::loop_isolation(false)]
fn select_a<T: KDPoint>(
    data: &mut Vec<T>,
    left: usize,
    target: usize,
    right: usize,
    dimension: usize,
) -> (idx: usize)
    requires
        left <= target <= right < old(data).len(),
        all_wf(old(data)@),
        prefix_below(old(data)@, left as int, right as int, dimension as int),
        suffix_at_or_above(old(data)@, left as int, right as int, dimension as int),
    ensures
        final(data).len() == old(data).len(),
        final(data)@.to_multiset() == old(data)@.to_multiset(),
        all_wf(final(data)@),
        forall|p: int|
            0 <= p < final(data).len() && !(left <= p <= right) ==> final(data)@[p]
                == old(data)@[p],
        left <= idx <= target,
        partitioned_at(final(data)@, idx as int, dimension as int),
        forall|p: int|
            idx <= p <= target ==> (#[trigger] final(data)@[p]).key(dimension as int)
                == final(data)@[idx as int].key(dimension as int),
    decreases right - left,
{
    let ghost d = dimension as int;

    let mid: usize = left + (right - left) / 2;
    let k: i64 = data[mid].kdkey(dimension);
    let ghost kk = k as int;
    proof {
        assert(data@[mid as int].key(d) == kk);
    }

    // first scan: gather the strictly smaller keys at the front
    let mut lt: usize = left;
    let mut i: usize = left;
    while i <= right
        invariant
            left <= lt <= i <= right + 1,
            data.len() == old(data).len(),
            data@.to_multiset() == old(data)@.to_multiset(),
            all_wf(data@),
            forall|p: int|
                0 <= p < data.len() && !(left <= p <= right) ==> data@[p] == old(data)@[p],
            forall|p: int| left <= p < lt ==> (#[trigger] data@[p]).key(d) < kk,
            forall|p: int| lt <= p < i ==> (#[trigger] data@[p]).key(d) >= kk,
            exists|w: int| left <= w <= right && (#[trigger] data@[w]).key(d) == kk,
            prefix_below(data@, left as int, right as int, d),
            suffix_at_or_above(data@, left as int, right as int, d),
        decreases right + 1 - i,
    {
        let c: i64 = data[i].kdkey(dimension);
        if c < k {
            let ghost prev = data@;
            swap_elements(data, i, lt);
            proof {
                lemma_swap_preserves_multiset(prev, i as int, lt as int);
                let w = choose|w: int| left <= w <= right && (#[trigger] prev[w]).key(d) == kk;
                if w == i as int {
                    assert(data@[lt as int].key(d) == kk);
                } else if w == lt as int {
                    assert(data@[i as int].key(d) == kk);
                } else {
                    assert(data@[w].key(d) == kk);
                }
            }
            lt = lt + 1;
        }
        i = i + 1;
    }

    // second scan: gather the keys equal to the pivot key right after them
    let mut gt: usize = lt;
    let mut j: usize = lt;
    while j <= right
        invariant
            left <= lt <= gt <= j <= right + 1,
            data.len() == old(data).len(),
            data@.to_multiset() == old(data)@.to_multiset(),
            all_wf(data@),
            forall|p: int|
                0 <= p < data.len() && !(left <= p <= right) ==> data@[p] == old(data)@[p],
            forall|p: int| left <= p < lt ==> (#[trigger] data@[p]).key(d) < kk,
            forall|p: int| lt <= p < gt ==> (#[trigger] data@[p]).key(d) == kk,
            forall|p: int| gt <= p < j ==> (#[trigger] data@[p]).key(d) > kk,
            forall|p: int| j <= p <= right ==> (#[trigger] data@[p]).key(d) >= kk,
            exists|w: int| left <= w <= right && (#[trigger] data@[w]).key(d) == kk,
            prefix_below(data@, left as int, right as int, d),
            suffix_at_or_above(data@, left as int, right as int, d),
        decreases right + 1 - j,
    {
        let c: i64 = data[j].kdkey(dimension);
        if c == k {
            let ghost prev = data@;
            swap_elements(data, j, gt);
            proof {
                lemma_swap_preserves_multiset(prev, j as int, gt as int);
                assert(data@[gt as int].key(d) == kk);
            }
            gt = gt + 1;
        }
        j = j + 1;
    }

    proof {
        let w = choose|w: int| left <= w <= right && (#[trigger] data@[w]).key(d) == kk;
        if w < lt {
            assert(data@[w].key(d) < kk);
            assert(false);
        } else if w >= gt {
            assert(data@[w].key(d) > kk);
            assert(false);
        }
        assert(lt < gt);
    }

    let tkey: i64 = data[target].kdkey(dimension);
    if tkey == k {
        proof {
            if (target as int) < lt {
                assert(data@[target as int].key(d) < kk);
                assert(false);
            }
            if target >= gt {
                assert(data@[target as int].key(d) > kk);
                assert(false);
            }
            assert(data@[lt as int].key(d) == kk);
            assert forall|p: int| lt <= p <= target implies (#[trigger] data@[p]).key(d)
                == data@[lt as int].key(d) by {}
            assert forall|p: int| 0 <= p < lt implies (#[trigger] data@[p]).key(d)
                < data@[lt as int].key(d) by {
                if p < left {
                    assert(data@[p].key(d) < data@[lt as int].key(d));
                }
            }
            assert forall|p: int| lt <= p < data.len() implies (#[trigger] data@[p]).key(d)
                >= data@[lt as int].key(d) by {
                if p > right {
                    assert(data@[lt as int].key(d) <= data@[p].key(d));
                }
            }
        }
        lt
    } else if tkey < k {
        proof {
            if target >= lt {
                if (target as int) < gt {
                    assert(data@[target as int].key(d) == kk);
                } else {
                    assert(data@[target as int].key(d) > kk);
                }
                assert(false);
            }
            assert(prefix_below(data@, left as int, lt as int - 1, d));
            assert forall|m: int, b: int|
                #![trigger data@[m], data@[b]]
                left <= m <= lt - 1 && lt - 1 < b < data.len() implies data@[m].key(d)
                <= data@[b].key(d) by {
                if b <= right {
                    if b < gt {
                        assert(data@[b].key(d) >= kk);
                    } else {
                        assert(data@[b].key(d) > kk);
                    }
                    assert(data@[m].key(d) < kk);
                } else {
                    assert(data@[m].key(d) <= data@[b].key(d));
                }
            }
        }
        let idx = select_a(data, left, target, lt - 1, dimension);
        idx
    } else {
        proof {
            if (target as int) < gt {
                if (target as int) < lt {
                    assert(data@[target as int].key(d) < kk);
                } else {
                    assert(data@[target as int].key(d) == kk);
                }
                assert(false);
            }
            assert forall|a: int, m: int|
                #![trigger data@[a], data@[m]]
                0 <= a < gt && gt <= m <= right implies data@[a].key(d) < data@[m].key(d) by {
                assert(data@[m].key(d) > kk);
                if a < left {
                    assert(data@[a].key(d) < data@[m].key(d));
                } else if a < lt {
                    assert(data@[a].key(d) < kk);
                } else {
                    assert(data@[a].key(d) == kk);
                }
            }
            assert(suffix_at_or_above(data@, gt as int, right as int, d));
        }
        let idx = select_a(data, gt, target, right, dimension);
        idx
    }
}

/// Key-based rank selection for the median rank, two-scan variant.
///
/// Same contract as [`hoare_b`]: the returned index carries the key that
/// rank-order would put at `len / 2`, with every element below it strictly
/// smaller by key and every element at or above it greater-or-equal.
pub fn hoare_a<T: KDPoint>(data: &mut Vec<T>, dimension: usize) -> (idx: usize)
    requires
        old(data).len() > 0,
        all_wf(old(data)@),
    ensures
        final(data).len() == old(data).len(),
        final(data)@.to_multiset() == old(data)@.to_multiset(),
        all_wf(final(data)@),
        idx < final(data).len(),
        idx <= old(data).len() / 2,
        final(data).len() - idx >= idx,
        partitioned_at(final(data)@, idx as int, dimension as int),
        forall|p: int|
            idx <= p <= old(data).len() / 2 ==> (#[trigger] final(data)@[p]).key(
                dimension as int,
            ) == final(data)@[idx as int].key(dimension as int),
{
    let target = data.len() / 2;
    let right = data.len() - 1;
    select_a(data, 0, target, right, dimension)
}

/// Key-based rank selection for the median rank, single-scan variant.
///
/// Rearranges `data` in place so that the returned index carries the key that
/// rank-order would put at `len / 2`: every element below the returned index
/// compares strictly less by key along `dimension`, every element at or above
/// compares greater-or-equal, and the high side of the split is never smaller
/// than the low side.
pub fn hoare_b<T: KDPoint>(data: &mut Vec<T>, dimension: usize) -> (idx: usize)
    requires
        old(data).len() > 0,
        all_wf(old(data)@),
    ensures
        final(data).len() == old(data).len(),
        final(data)@.to_multiset() == old(data)@.to_multiset(),
        all_wf(final(data)@),
        idx < final(data).len(),
        idx <= old(data).len() / 2,
        final(data).len() - idx >= idx,
        partitioned_at(final(data)@, idx as int, dimension as int),
        forall|p: int|
            idx <= p <= old(data).len() / 2 ==> (#[trigger] final(data)@[p]).key(
                dimension as int,
            ) == final(data)@[idx as int].key(dimension as int),
{
    let target = data.len() / 2;
    let right = data.len() - 1;
    select_b(data, 0, target, right, dimension)
}

} // verus!
