//! Median-of-medians selection over values with a total preorder.

use vstd::prelude::*;

verus! {

/// Values that selection can compare. `rank_le` must be a total preorder;
/// `le` decides it.
pub trait Ranked: Copy {
    spec fn rank_le(self, other: Self) -> bool;

    fn le(&self, other: &Self) -> (r: bool)
        ensures
            r == self.rank_le(*other),
    ;
}

impl Ranked for i64 {
    open spec fn rank_le(self, other: i64) -> bool {
        self <= other
    }

    fn le(&self, other: &i64) -> (r: bool) {
        *self <= *other
    }
}

/// Why a selection could not be made.
#[derive(Clone, Copy, Debug, PartialEq, Eq, Structural)]
pub enum SelectionError {
    /// There is no median of an empty sequence.
    Empty,
}

/// `s` with `v` placed before its first element that `v` ranks at or below.
pub open spec fn insert_sorted<T: Ranked>(s: Seq<T>, v: T) -> Seq<T>
    decreases s.len(),
{
    if s.len() == 0 {
        seq![v]
    } else if v.rank_le(s[0]) {
        seq![v] + s
    } else {
        seq![s[0]] + insert_sorted(s.drop_first(), v)
    }
}

/// `s` sorted by insertion, element by element from the front.
pub open spec fn sorted_of<T: Ranked>(s: Seq<T>) -> Seq<T>
    decreases s.len(),
{
    if s.len() == 0 {
        s
    } else {
        insert_sorted(sorted_of(s.drop_last()), s.last())
    }
}

/// The middle element of `s` in sorted order (the lower one of the two middles
/// for an even length).
pub open spec fn middle_of<T: Ranked>(s: Seq<T>) -> T {
    sorted_of(s)[(s.len() as int - 1) / 2]
}

/// The middles of the consecutive groups of five of `s`; the last group may
/// be shorter.
pub open spec fn group_middles<T: Ranked>(s: Seq<T>) -> Seq<T>
    decreases s.len(),
{
    if s.len() <= 5 {
        seq![middle_of(s)]
    } else {
        seq![middle_of(s.take(5))] + group_middles(s.skip(5))
    }
}

/// The median of medians of `s`: the middle of `s` itself when it has at most
/// five elements, otherwise the median of medians of its group middles.
pub open spec fn median_of_medians_of<T: Ranked>(s: Seq<T>) -> T
    decreases s.len(),
{
    if s.len() <= 5 {
        middle_of(s)
    } else {
        proof {
            lemma_group_middles_len(s);
        }
        median_of_medians_of(group_middles(s))
    }
}

pub proof fn lemma_group_middles_len<T: Ranked>(s: Seq<T>)
    ensures
        group_middles(s).len() == if s.len() <= 5 { 1 } else { (s.len() + 4) / 5 },
    decreases s.len(),
{
    if s.len() > 5 {
        lemma_group_middles_len(s.skip(5));
    }
}

pub proof fn lemma_insert_sorted<T: Ranked>(s: Seq<T>, v: T)
    ensures
        insert_sorted(s, v).len() == s.len() + 1,
        forall|x: T| #[trigger] insert_sorted(s, v).contains(x) <==> (s.contains(x) || x == v),
    decreases s.len(),
{
    if s.len() > 0 && !v.rank_le(s[0]) {
        let d = s.drop_first();
        lemma_insert_sorted(d, v);
        let t = insert_sorted(d, v);
        let r = insert_sorted(s, v);
        assert(r == seq![s[0]] + t);
        assert forall|x: T| #[trigger] r.contains(x) <==> (s.contains(x) || x == v) by {
            if s.contains(x) {
                let i = choose|i: int| 0 <= i < s.len() && s[i] == x;
                if i > 0 {
                    assert(d[i - 1] == x);
                    assert(t.contains(x));
                    let j = choose|j: int| 0 <= j < t.len() && t[j] == x;
                    assert(r[j + 1] == x);
                } else {
                    assert(r[0] == x);
                }
            }
            if x == v {
                assert(t.contains(v));
                let j = choose|j: int| 0 <= j < t.len() && t[j] == v;
                assert(r[j + 1] == v);
            }
            if r.contains(x) {
                let i = choose|i: int| 0 <= i < r.len() && r[i] == x;
                if i > 0 {
                    assert(t[i - 1] == x);
                    assert(t.contains(x));
                    if x != v {
                        assert(d.contains(x));
                        let k = choose|k: int| 0 <= k < d.len() && d[k] == x;
                        assert(s[k + 1] == x);
                    }
                } else {
                    assert(s[0] == x);
                }
            }
        }
    } else if s.len() > 0 {
        assert forall|x: T| #[trigger] insert_sorted(s, v).contains(x) <==> (s.contains(x) || x
            == v) by {
            let t = insert_sorted(s, v);
            if s.contains(x) {
                let i = choose|i: int| 0 <= i < s.len() && s[i] == x;
                assert(t[i + 1] == x);
            }
            if x == v {
                assert(t[0] == v);
            }
            if t.contains(x) && x != v {
                let i = choose|i: int| 0 <= i < s.len() + 1 && t[i] == x;
                assert(s[i - 1] == x);
            }
        }
    } else {
        assert forall|x: T| #[trigger] insert_sorted(s, v).contains(x) <==> (s.contains(x) || x
            == v) by {
            if insert_sorted(s, v).contains(x) {
                assert(insert_sorted(s, v)[0] == v);
            }
            if x == v {
                assert(insert_sorted(s, v)[0] == v);
            }
        }
    }
}

pub proof fn lemma_sorted_of<T: Ranked>(s: Seq<T>)
    ensures
        sorted_of(s).len() == s.len(),
        forall|x: T| #[trigger] sorted_of(s).contains(x) <==> s.contains(x),
    decreases s.len(),
{
    if s.len() > 0 {
        let d = s.drop_last();
        lemma_sorted_of(d);
        lemma_insert_sorted(sorted_of(d), s.last());
        assert forall|x: T| #[trigger] sorted_of(s).contains(x) <==> s.contains(x) by {
            assert(s =~= d.push(s.last()));
            if d.contains(x) {
                let i = choose|i: int| 0 <= i < d.len() && d[i] == x;
                assert(s[i] == x);
            }
            if s.contains(x) && x != s.last() {
                let i = choose|i: int| 0 <= i < s.len() && s[i] == x;
                assert(d[i] == x);
            }
        }
    }
}

pub proof fn lemma_middle_of_contained<T: Ranked>(s: Seq<T>)
    requires
        s.len() > 0,
    ensures
        s.contains(middle_of(s)),
{
    lemma_sorted_of(s);
    assert(sorted_of(s).contains(sorted_of(s)[(s.len() as int - 1) / 2]));
}

pub proof fn lemma_group_middles_contained<T: Ranked>(s: Seq<T>)
    requires
        s.len() > 0,
    ensures
        forall|x: T| #[trigger] group_middles(s).contains(x) ==> s.contains(x),
    decreases s.len(),
{
    if s.len() <= 5 {
        lemma_middle_of_contained(s);
        assert forall|x: T| #[trigger] group_middles(s).contains(x) implies s.contains(x) by {
            assert(group_middles(s)[0] == x);
        }
    } else {
        let h = s.take(5);
        let t = s.skip(5);
        lemma_middle_of_contained(h);
        lemma_group_middles_contained(t);
        assert forall|x: T| #[trigger] group_middles(s).contains(x) implies s.contains(x) by {
            let g = group_middles(s);
            let i = choose|i: int| 0 <= i < g.len() && g[i] == x;
            if i == 0 {
                let k = choose|k: int| 0 <= k < h.len() && h[k] == x;
                assert(s[k] == x);
            } else {
                assert(group_middles(t)[i - 1] == x);
                assert(group_middles(t).contains(x));
                let k = choose|k: int| 0 <= k < t.len() && t[k] == x;
                assert(s[k + 5] == x);
            }
        }
    }
}

/// The median of medians is one of the values it was chosen from.
pub proof fn lemma_median_of_medians_contained<T: Ranked>(s: Seq<T>)
    requires
        s.len() > 0,
    ensures
        s.contains(median_of_medians_of(s)),
    decreases s.len(),
{
    if s.len() <= 5 {
        lemma_middle_of_contained(s);
    } else {
        lemma_group_middles_len(s);
        lemma_group_middles_contained(s);
        lemma_median_of_medians_contained(group_middles(s));
    }
}

/// `rank_le` orders every two values of `T` and is transitive.
pub open spec fn is_total_preorder<T: Ranked>() -> bool {
    &&& forall|a: T, b: T| #[trigger] a.rank_le(b) || b.rank_le(a)
    &&& forall|a: T, b: T, c: T| #[trigger] a.rank_le(b) && #[trigger] b.rank_le(c) ==> a.rank_le(c)
}

pub open spec fn is_ranked_sorted<T: Ranked>(s: Seq<T>) -> bool {
    forall|i: int, j: int| 0 <= i < j < s.len() ==> (#[trigger] s[i]).rank_le(#[trigger] s[j])
}

pub proof fn lemma_insert_sorted_keeps_order<T: Ranked>(s: Seq<T>, v: T)
    requires
        is_total_preorder::<T>(),
        is_ranked_sorted(s),
    ensures
        is_ranked_sorted(insert_sorted(s, v)),
    decreases s.len(),
{
    let r = insert_sorted(s, v);
    if s.len() == 0 {
    } else if v.rank_le(s[0]) {
        assert forall|i: int, j: int| 0 <= i < j < r.len() implies (#[trigger] r[i]).rank_le(#[trigger] r[j]) by {
            if i == 0 {
                assert(r[j] == s[j - 1]);
                if j > 1 {
                    assert(s[0].rank_le(s[j - 1]));
                }
            } else {
                assert(r[i] == s[i - 1] && r[j] == s[j - 1]);
            }
        }
    } else {
        let d = s.drop_first();
        assert(is_ranked_sorted(d)) by {
            assert forall|i: int, j: int| 0 <= i < j < d.len() implies (#[trigger] d[i]).rank_le(#[trigger] d[j]) by {
                assert(d[i] == s[i + 1] && d[j] == s[j + 1]);
            }
        }
        lemma_insert_sorted_keeps_order(d, v);
        lemma_insert_sorted(d, v);
        let t = insert_sorted(d, v);
        assert(r == seq![s[0]] + t);
        assert(s[0].rank_le(v));
        assert forall|i: int, j: int| 0 <= i < j < r.len() implies (#[trigger] r[i]).rank_le(#[trigger] r[j]) by {
            if i == 0 {
                assert(r[j] == t[j - 1]);
                assert(t.contains(t[j - 1]));
                if t[j - 1] != v {
                    assert(d.contains(t[j - 1]));
                    let k = choose|k: int| 0 <= k < d.len() && d[k] == t[j - 1];
                    assert(s[k + 1] == d[k]);
                    assert(s[0].rank_le(s[k + 1]));
                }
            } else {
                assert(r[i] == t[i - 1] && r[j] == t[j - 1]);
            }
        }
    }
}

/// Sorting by insertion orders the values: the middle that selection takes
/// from a group is the middle in rank.
pub proof fn lemma_sorted_of_is_sorted<T: Ranked>(s: Seq<T>)
    requires
        is_total_preorder::<T>(),
    ensures
        is_ranked_sorted(sorted_of(s)),
    decreases s.len(),
{
    if s.len() > 0 {
        lemma_sorted_of_is_sorted(s.drop_last());
        lemma_insert_sorted_keeps_order(sorted_of(s.drop_last()), s.last());
    }
}

/// Integers are totally preordered by `<=`.
pub proof fn lemma_i64_total_preorder()
    ensures
        is_total_preorder::<i64>(),
{
}

/// Inserting at the first position whose element `v` ranks at or below is
/// what `insert_sorted` does.
pub proof fn lemma_insert_sorted_at<T: Ranked>(s: Seq<T>, v: T, j: int)
    requires
        0 <= j <= s.len(),
        forall|k: int| 0 <= k < j ==> !v.rank_le(#[trigger] s[k]),
        j < s.len() ==> v.rank_le(s[j]),
    ensures
        insert_sorted(s, v) == s.insert(j, v),
    decreases j,
{
    if s.len() == 0 {
        assert(s.insert(j, v) =~= seq![v]);
    } else if j == 0 {
        assert(s.insert(j, v) =~= seq![v] + s);
    } else {
        let d = s.drop_first();
        assert forall|k: int| 0 <= k < j - 1 implies !v.rank_le(#[trigger] d[k]) by {
            assert(d[k] == s[k + 1]);
        }
        lemma_insert_sorted_at(d, v, j - 1);
        assert(s.insert(j, v) =~= seq![s[0]] + d.insert(j - 1, v));
    }
}

fn insert_in_order<T: Ranked>(v: &mut Vec<T>, x: T)
    ensures
        final(v)@ == insert_sorted(old(v)@, x),
{
    let mut j: usize = 0;
    while j < v.len() && !x.le(&v[j])
        invariant
            j <= v.len(),
            forall|k: int| 0 <= k < j ==> !x.rank_le(#[trigger] v@[k]),
        decreases v.len() - j,
    {
        j += 1;
    }
    proof {
        lemma_insert_sorted_at(v@, x, j as int);
    }
    v.insert(j, x);
}

/// The middle of `nums[lo..hi]`, found by sorting a copy of that range.
fn middle_of_range<T: Ranked>(nums: &[T], lo: usize, hi: usize) -> (r: T)
    requires
        lo < hi <= nums@.len(),
    ensures
        r == middle_of(nums@.subrange(lo as int, hi as int)),
{
    let mut sorted: Vec<T> = Vec::new();
    let mut i: usize = lo;
    proof {
        assert(nums@.subrange(lo as int, lo as int) =~= Seq::<T>::empty());
    }
    while i < hi
        invariant
            lo <= i <= hi <= nums@.len(),
            sorted@ == sorted_of(nums@.subrange(lo as int, i as int)),
        decreases hi - i,
    {
        proof {
            let t = nums@.subrange(lo as int, i as int + 1);
            assert(t.drop_last() =~= nums@.subrange(lo as int, i as int));
            assert(t.last() == nums@[i as int]);
        }
        insert_in_order(&mut sorted, nums[i]);
        i += 1;
    }
    proof {
        lemma_sorted_of(nums@.subrange(lo as int, hi as int));
    }
    sorted[(hi - lo - 1) / 2]
}

/// The median of medians of a non-empty `nums`, found in linear time.
pub fn select_median<T: Ranked>(nums: &[T]) -> (m: T)
    requires
        nums@.len() > 0,
    ensures
        m == median_of_medians_of(nums@),
        nums@.contains(m),
    decreases nums@.len(),
{
    let n = nums.len();
    proof {
        lemma_median_of_medians_contained(nums@);
    }
    if n <= 5 {
        let m = middle_of_range(nums, 0, n);
        proof {
            assert(nums@.subrange(0, n as int) =~= nums@);
        }
        return m;
    }
    let mut middles: Vec<T> = Vec::new();
    let mut i: usize = 0;
    proof {
        assert(nums@.skip(0) =~= nums@);
        assert(middles@ + group_middles(nums@) =~= group_middles(nums@));
    }
    while i < n
        invariant
            n == nums@.len(),
            i <= n,
            i < n ==> middles@ + group_middles(nums@.skip(i as int)) == group_middles(nums@),
            i == n ==> middles@ == group_middles(nums@),
        decreases n - i,
    {
        let rest = Ghost(nums@.skip(i as int));
        let hi = if n - i <= 5 {
            n
        } else {
            i + 5
        };
        let m = middle_of_range(nums, i, hi);
        proof {
            if n - i <= 5 {
                assert(rest@ =~= nums@.subrange(i as int, hi as int));
                assert(middles@.push(m) =~= middles@ + group_middles(rest@));
            } else {
                assert(rest@.take(5) =~= nums@.subrange(i as int, hi as int));
                assert(rest@.skip(5) =~= nums@.skip(hi as int));
                assert(middles@.push(m) + group_middles(nums@.skip(hi as int)) =~= middles@
                    + group_middles(rest@));
            }
        }
        middles.push(m);
        i = hi;
    }
    proof {
        lemma_group_middles_len(nums@);
    }
    select_median(middles.as_slice())
}

/// The median of medians of `nums`: an element whose rank is within a constant
/// fraction of the middle. An empty `nums` has none.
pub fn median_of_medians<T: Ranked>(nums: &[T]) -> (r: Result<T, SelectionError>)
    ensures
        match r {
            Ok(m) => nums@.len() > 0 && m == median_of_medians_of(nums@) && nums@.contains(m),
            Err(e) => nums@.len() == 0 && e == SelectionError::Empty,
        },
{
    if nums.len() == 0 {
        Err(SelectionError::Empty)
    } else {
        Ok(select_median(nums))
    }
}

} // verus!
