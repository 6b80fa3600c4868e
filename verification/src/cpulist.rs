//! The normalized CPU-list set: a sorted sequence of inclusive index ranges,
//! pairwise disjoint and never touching, so that every set of CPU indices has
//! exactly one representation.

use vstd::prelude::*;

verus! {

/// The set of integers from `a` through `b`, inclusive.
pub open spec fn interval(a: int, b: int) -> Set<int> {
    Set::new(|x: int| a <= x <= b)
}

/// Well-formedness of a range sequence: each range is non-empty (first at
/// most last), and consecutive ranges are in ascending order with a gap of at
/// least one index between them, so no two ranges overlap or touch.
pub open spec fn wf_ranges(rs: Seq<(usize, usize)>) -> bool {
    &&& forall|i: int| 0 <= i < rs.len() ==> (#[trigger] rs[i]).0 <= rs[i].1
    &&& forall|i: int| 0 <= i && i + 1 < rs.len() ==> (#[trigger] rs[i]).1 + 2 <= rs[i + 1].0
}

/// The set of CPU indices a range sequence stands for.
pub open spec fn covered(rs: Seq<(usize, usize)>) -> Set<int> {
    Set::new(|x: int| exists|i: int| 0 <= i < rs.len() && (#[trigger] rs[i]).0 <= x <= rs[i].1)
}

/// In a well-formed sequence, starts and ends grow with the index, and any
/// later range begins beyond the gap after any earlier one.
pub proof fn lemma_range_order(rs: Seq<(usize, usize)>, i: int, j: int)
    requires
        wf_ranges(rs),
        0 <= i <= j < rs.len(),
    ensures
        rs[i].0 <= rs[j].0,
        rs[i].1 <= rs[j].1,
        i < j ==> rs[i].1 + 2 <= rs[j].0,
    decreases j - i,
{
    if i < j {
        lemma_range_order(rs, i + 1, j);
    }
}

/// A range sequence covers exactly what its two halves cover.
pub proof fn lemma_covered_split(rs: Seq<(usize, usize)>, j: int)
    requires
        0 <= j <= rs.len(),
    ensures
        covered(rs) =~= covered(rs.subrange(0, j)).union(
            covered(rs.subrange(j, rs.len() as int)),
        ),
{
    let a = rs.subrange(0, j);
    let b = rs.subrange(j, rs.len() as int);
    assert forall|x: int|
        covered(rs).contains(x) <==> covered(a).union(covered(b)).contains(x) by {
        if covered(rs).contains(x) {
            let i = choose|i: int| 0 <= i < rs.len() && (#[trigger] rs[i]).0 <= x <= rs[i].1;
            if i < j {
                assert(a[i] == rs[i]);
                assert(covered(a).contains(x));
            } else {
                assert(b[i - j] == rs[i]);
                assert(covered(b).contains(x));
            }
        }
        if covered(a).contains(x) {
            let i = choose|i: int| 0 <= i < a.len() && (#[trigger] a[i]).0 <= x <= a[i].1;
            assert(rs[i] == a[i]);
            assert(covered(rs).contains(x));
        }
        if covered(b).contains(x) {
            let i = choose|i: int| 0 <= i < b.len() && (#[trigger] b[i]).0 <= x <= b[i].1;
            assert(rs[i + j] == b[i]);
            assert(covered(rs).contains(x));
        }
    }
}

/// A single range covers exactly its interval.
pub proof fn lemma_covered_singleton(r: (usize, usize))
    ensures
        covered(seq![r]) =~= interval(r.0 as int, r.1 as int),
{
    assert forall|x: int|
        covered(seq![r]).contains(x) <==> interval(r.0 as int, r.1 as int).contains(x) by {
        if interval(r.0 as int, r.1 as int).contains(x) {
            assert(seq![r][0] == r);
            assert(covered(seq![r]).contains(x));
        }
    }
}

/// One merge step: absorbing a range that overlaps or touches the window
/// `[lo0, hi0]` widens the window by exactly that range's indices.
proof fn lemma_merge_step(
    orig: Seq<(usize, usize)>,
    k: int,
    i: int,
    a: usize,
    b: usize,
    lo0: usize,
    hi0: usize,
    lo: usize,
    hi: usize,
)
    requires
        wf_ranges(orig),
        0 <= k <= i < orig.len(),
        a <= b,
        lo0 <= a,
        b <= hi0,
        orig[k].1 + 1 >= a,
        orig[i].0 <= hi0 + 1,
        lo == if orig[i].0 < lo0 { orig[i].0 } else { lo0 },
        hi == if orig[i].1 > hi0 { orig[i].1 } else { hi0 },
        interval(lo0 as int, hi0 as int) == interval(a as int, b as int).union(
            covered(orig.subrange(k, i)),
        ),
    ensures
        interval(lo as int, hi as int) =~= interval(a as int, b as int).union(
            covered(orig.subrange(k, i + 1)),
        ),
{
    lemma_range_order(orig, k, i);
    assert(orig[i].1 + 1 >= a >= lo0);
    assert(interval(lo as int, hi as int) =~= interval(lo0 as int, hi0 as int).union(
        interval(orig[i].0 as int, orig[i].1 as int),
    )) by {
        assert forall|x: int| interval(lo as int, hi as int).contains(x) implies interval(
            lo0 as int,
            hi0 as int,
        ).union(interval(orig[i].0 as int, orig[i].1 as int)).contains(x) by {
            if x < lo0 {
                assert(orig[i].0 <= x <= orig[i].1);
            } else if x > hi0 {
                assert(orig[i].0 <= x <= orig[i].1);
            }
        }
    }
    let sub1 = orig.subrange(k, i + 1);
    lemma_covered_split(sub1, i - k);
    assert(sub1.subrange(0, i - k) =~= orig.subrange(k, i));
    assert(sub1.subrange(i - k, sub1.len() as int) =~= seq![orig[i]]);
    lemma_covered_singleton(orig[i]);
}

/// Reassembly: the kept prefix, the merged window, and the kept suffix form a
/// well-formed sequence covering the old indices plus the inserted interval.
proof fn lemma_insert_reassemble(
    orig: Seq<(usize, usize)>,
    k: int,
    m: int,
    a: usize,
    b: usize,
    lo: usize,
    hi: usize,
    new: Seq<(usize, usize)>,
)
    requires
        wf_ranges(orig),
        0 <= k <= m <= orig.len(),
        a <= b,
        lo <= a,
        b <= hi,
        forall|kk: int| 0 <= kk < k ==> (#[trigger] orig[kk]).1 + 1 < a,
        k > 0 ==> orig[k - 1].1 + 2 <= lo,
        m < orig.len() ==> orig[m].0 >= hi + 2,
        interval(lo as int, hi as int) == interval(a as int, b as int).union(
            covered(orig.subrange(k, m)),
        ),
        new == orig.subrange(0, k) + seq![(lo, hi)] + orig.subrange(m, orig.len() as int),
    ensures
        wf_ranges(new),
        covered(new) =~= covered(orig).union(interval(a as int, b as int)),
{
    let n = orig.len() as int;
    let pre = orig.subrange(0, k);
    let post = orig.subrange(m, n);
    assert(new.len() == k + 1 + (n - m));
    assert forall|j: int| 0 <= j < new.len() implies (#[trigger] new[j]).0 <= new[j].1 by {
        if j < k {
            assert(new[j] == orig[j]);
        } else if j == k {
            assert(new[j] == (lo, hi));
        } else {
            assert(new[j] == orig[j - k - 1 + m]);
        }
    }
    assert forall|j: int| 0 <= j && j + 1 < new.len() implies (#[trigger] new[j]).1 + 2 <= new[j
        + 1].0 by {
        if j + 1 < k {
            assert(new[j] == orig[j]);
            assert(new[j + 1] == orig[j + 1]);
            assert(orig[j].1 + 2 <= orig[j + 1].0);
        } else if j + 1 == k {
            assert(new[j] == orig[j]);
            assert(new[j + 1] == (lo, hi));
        } else if j == k {
            assert(new[j] == (lo, hi));
            assert(new[j + 1] == orig[m]);
        } else {
            assert(new[j] == orig[j - k - 1 + m]);
            assert(new[j + 1] == orig[j - k + m]);
            assert(orig[j - k - 1 + m].1 + 2 <= orig[(j - k - 1 + m) + 1].0);
        }
    }
    lemma_covered_split(new, k);
    lemma_covered_split(new.subrange(k, new.len() as int), 1);
    assert(new.subrange(0, k) =~= pre);
    assert(new.subrange(k, new.len() as int).subrange(0, 1) =~= seq![(lo, hi)]);
    assert(new.subrange(k, new.len() as int).subrange(1, new.len() - k) =~= post);
    lemma_covered_singleton((lo, hi));
    lemma_covered_split(orig, k);
    lemma_covered_split(orig.subrange(k, n), m - k);
    assert(orig.subrange(k, n).subrange(0, m - k) =~= orig.subrange(k, m));
    assert(orig.subrange(k, n).subrange(m - k, n - k) =~= post);
}

/// In a well-formed sequence, at most one range can hold a given index.
proof fn lemma_only_range(orig: Seq<(usize, usize)>, i: int, x: usize)
    requires
        wf_ranges(orig),
        0 <= i < orig.len(),
        orig[i].0 <= x <= orig[i].1,
    ensures
        forall|k: int|
            0 <= k < orig.len() && k != i ==> !((#[trigger] orig[k]).0 <= x as int <= orig[k].1),
{
    assert forall|k: int|
        0 <= k < orig.len() && k != i implies !((#[trigger] orig[k]).0 <= x as int
        <= orig[k].1) by {
        if k < i {
            lemma_range_order(orig, k, i);
        } else {
            lemma_range_order(orig, i, k);
        }
    }
}

/// Dropping a one-index range removes exactly that index from the coverage.
proof fn lemma_remove_point(orig: Seq<(usize, usize)>, i: int, x: usize)
    requires
        wf_ranges(orig),
        0 <= i < orig.len(),
        orig[i].0 == x,
        orig[i].1 == x,
    ensures
        wf_ranges(orig.remove(i)),
        covered(orig.remove(i)) =~= covered(orig).remove(x as int),
{
    let new = orig.remove(i);
    lemma_only_range(orig, i, x);
    assert forall|j: int| 0 <= j < new.len() implies (#[trigger] new[j]).0 <= new[j].1 && (j + 1
        < new.len() ==> new[j].1 + 2 <= new[j + 1].0) by {
        if j < i {
            assert(new[j] == orig[j]);
            if j + 1 < new.len() {
                if j + 1 < i {
                    assert(new[j + 1] == orig[j + 1]);
                } else {
                    assert(new[j + 1] == orig[j + 2]);
                    lemma_range_order(orig, j, j + 2);
                }
            }
        } else {
            assert(new[j] == orig[j + 1]);
            if j + 1 < new.len() {
                assert(new[j + 1] == orig[j + 2]);
            }
        }
    }
    assert forall|y: int|
        covered(new).contains(y) implies covered(orig).contains(y) && y != x as int by {
        let k = choose|k: int| 0 <= k < new.len() && (#[trigger] new[k]).0 <= y <= new[k].1;
        if k < i {
            assert(new[k] == orig[k]);
        } else {
            assert(new[k] == orig[k + 1]);
        }
    }
    assert forall|y: int|
        covered(orig).contains(y) && y != x as int implies covered(new).contains(y) by {
        let k = choose|k: int| 0 <= k < orig.len() && (#[trigger] orig[k]).0 <= y <= orig[k].1;
        if k < i {
            assert(new[k] == orig[k]);
        } else if k > i {
            assert(new[k - 1] == orig[k]);
        }
    }
}

/// Trimming the first index off a longer range removes exactly that index.
proof fn lemma_remove_at_start(orig: Seq<(usize, usize)>, i: int, x: usize)
    requires
        wf_ranges(orig),
        0 <= i < orig.len(),
        orig[i].0 == x,
        x < orig[i].1,
    ensures
        wf_ranges(orig.update(i, ((x + 1) as usize, orig[i].1))),
        covered(orig.update(i, ((x + 1) as usize, orig[i].1))) =~= covered(orig).remove(x as int),
{
    let new = orig.update(i, ((x + 1) as usize, orig[i].1));
    lemma_only_range(orig, i, x);
    assert forall|j: int| 0 <= j < new.len() implies (#[trigger] new[j]).0 <= new[j].1 && (j + 1
        < new.len() ==> new[j].1 + 2 <= new[j + 1].0) by {}
    assert forall|y: int|
        covered(new).contains(y) implies covered(orig).contains(y) && y != x as int by {
        let k = choose|k: int| 0 <= k < new.len() && (#[trigger] new[k]).0 <= y <= new[k].1;
        assert(orig[k].0 <= y <= orig[k].1);
    }
    assert forall|y: int|
        covered(orig).contains(y) && y != x as int implies covered(new).contains(y) by {
        let k = choose|k: int| 0 <= k < orig.len() && (#[trigger] orig[k]).0 <= y <= orig[k].1;
        assert(new[k].0 <= y <= new[k].1);
    }
}

/// Trimming the last index off a longer range removes exactly that index.
proof fn lemma_remove_at_end(orig: Seq<(usize, usize)>, i: int, x: usize)
    requires
        wf_ranges(orig),
        0 <= i < orig.len(),
        orig[i].0 < x,
        orig[i].1 == x,
    ensures
        wf_ranges(orig.update(i, (orig[i].0, (x - 1) as usize))),
        covered(orig.update(i, (orig[i].0, (x - 1) as usize))) =~= covered(orig).remove(x as int),
{
    let new = orig.update(i, (orig[i].0, (x - 1) as usize));
    lemma_only_range(orig, i, x);
    assert forall|j: int| 0 <= j < new.len() implies (#[trigger] new[j]).0 <= new[j].1 && (j + 1
        < new.len() ==> new[j].1 + 2 <= new[j + 1].0) by {}
    assert forall|y: int|
        covered(new).contains(y) implies covered(orig).contains(y) && y != x as int by {
        let k = choose|k: int| 0 <= k < new.len() && (#[trigger] new[k]).0 <= y <= new[k].1;
        assert(orig[k].0 <= y <= orig[k].1);
    }
    assert forall|y: int|
        covered(orig).contains(y) && y != x as int implies covered(new).contains(y) by {
        let k = choose|k: int| 0 <= k < orig.len() && (#[trigger] orig[k]).0 <= y <= orig[k].1;
        assert(new[k].0 <= y <= new[k].1);
    }
}

/// Cutting an index out of the middle of a range splits it in two and
/// removes exactly that index.
#[verifier::rlimit(60)]
proof fn lemma_remove_inside(orig: Seq<(usize, usize)>, i: int, x: usize)
    requires
        wf_ranges(orig),
        0 <= i < orig.len(),
        orig[i].0 < x < orig[i].1,
    ensures
        wf_ranges(
            orig.update(i, ((x + 1) as usize, orig[i].1)).insert(i, (orig[i].0, (x - 1) as usize)),
        ),
        covered(
            orig.update(i, ((x + 1) as usize, orig[i].1)).insert(i, (orig[i].0, (x - 1) as usize)),
        ) =~= covered(orig).remove(x as int),
{
    let new = orig.update(i, ((x + 1) as usize, orig[i].1)).insert(i, (orig[i].0, (x - 1) as usize));
    lemma_only_range(orig, i, x);
    assert(new.len() == orig.len() + 1);
    assert forall|j: int| 0 <= j < new.len() implies (#[trigger] new[j]).0 <= new[j].1 && (j + 1
        < new.len() ==> new[j].1 + 2 <= new[j + 1].0) by {
        if j < i {
            assert(new[j] == orig[j]);
            if j + 1 < new.len() {
                if j + 1 < i {
                    assert(new[j + 1] == orig[j + 1]);
                } else {
                    assert(new[j + 1] == (orig[i].0, (x - 1) as usize));
                }
            }
        } else if j == i {
            assert(new[j] == (orig[i].0, (x - 1) as usize));
            assert(new[j + 1] == ((x + 1) as usize, orig[i].1));
        } else if j == i + 1 {
            assert(new[j] == ((x + 1) as usize, orig[i].1));
            if j + 1 < new.len() {
                assert(new[j + 1] == orig[i + 1]);
            }
        } else {
            assert(new[j] == orig[j - 1]);
            if j + 1 < new.len() {
                assert(new[j + 1] == orig[j]);
            }
        }
    }
    assert forall|y: int|
        covered(new).contains(y) implies covered(orig).contains(y) && y != x as int by {
        let k = choose|k: int| 0 <= k < new.len() && (#[trigger] new[k]).0 <= y <= new[k].1;
        if k < i {
            assert(orig[k].0 <= y <= orig[k].1);
        } else if k == i || k == i + 1 {
            assert(orig[i].0 <= y <= orig[i].1);
        } else {
            assert(orig[k - 1].0 <= y <= orig[k - 1].1);
        }
    }
    assert forall|y: int|
        covered(orig).contains(y) && y != x as int implies covered(new).contains(y) by {
        let k = choose|k: int| 0 <= k < orig.len() && (#[trigger] orig[k]).0 <= y <= orig[k].1;
        if k < i {
            assert(new[k].0 <= y <= new[k].1);
        } else if k == i {
            if y < x {
                assert(new[k].0 <= y <= new[k].1);
            } else {
                assert(new[k + 1].0 <= y <= new[k + 1].1);
            }
        } else {
            assert(new[k + 1].0 <= y <= new[k + 1].1);
        }
    }
}

/// A normalized set of CPU index ranges.
///
/// The representation invariant `wf` keeps the ranges sorted, disjoint and
/// non-adjacent; `cov` is the set of indices the value stands for. Once the
/// invariant holds, the representation is the unique normal form of `cov`.
pub struct CpuList {
    ranges: Vec<(usize, usize)>,
}

impl View for CpuList {
    type V = Seq<(usize, usize)>;

    closed spec fn view(&self) -> Seq<(usize, usize)> {
        self.ranges@
    }
}

impl CpuList {
    pub open spec fn wf(&self) -> bool {
        wf_ranges(self@)
    }

    pub open spec fn cov(&self) -> Set<int> {
        covered(self@)
    }

    /// An empty list, ready to be filled by `insert_range`.
    pub fn new() -> (r: CpuList)
        ensures
            r.wf(),
            r@.len() == 0,
            r.cov() =~= Set::empty(),
    {
        let r = CpuList { ranges: Vec::new() };
        proof {
            assert forall|x: int| !r.cov().contains(x) by {}
        }
        r
    }

    /// The number of ranges in normal form.
    pub fn range_count(&self) -> (n: usize)
        ensures
            n == self@.len(),
    {
        self.ranges.len()
    }

    /// The `k`-th range, in ascending order.
    pub fn range_at(&self, k: usize) -> (r: (usize, usize))
        requires
            k < self@.len(),
        ensures
            r == self@[k as int],
    {
        self.ranges[k]
    }

    /// Adds every index from `a` through `b`, merging with any range the new
    /// indices overlap or touch, so the normal form is kept.
    #[verifier::rlimit(60)]
    pub fn insert_range(&mut self, a: usize, b: usize)
        requires
            a <= b,
            old(self).wf(),
        ensures
            final(self).wf(),
            final(self).cov() == old(self).cov().union(interval(a as int, b as int)),
            final(self)@.len() >= 1,
    {
        let ghost orig = self.ranges@;
        let n = self.ranges.len();
        let mut out: Vec<(usize, usize)> = Vec::new();
        let mut i: usize = 0;
        while i < n && self.ranges[i].1 < a && a - self.ranges[i].1 > 1
            invariant
                wf_ranges(orig),
                self.ranges@ == orig,
                i <= n,
                n == orig.len(),
                a <= b,
                out@ == orig.subrange(0, i as int),
                forall|k: int| 0 <= k < i ==> (#[trigger] orig[k]).1 + 1 < a,
            decreases n - i,
        {
            let r = self.ranges[i];
            out.push(r);
            proof {
                assert(out@ =~= orig.subrange(0, i + 1));
            }
            i = i + 1;
        }
        let ghost k = i as int;
        proof {
            assert(k < n ==> orig[k].1 + 1 >= a);
            assert(interval(a as int, b as int) =~= interval(a as int, b as int).union(
                covered(orig.subrange(k, k)),
            ));
        }
        let mut lo = a;
        let mut hi = b;
        while i < n && (self.ranges[i].0 <= hi || self.ranges[i].0 - hi == 1)
            invariant
                wf_ranges(orig),
                self.ranges@ == orig,
                0 <= k <= i <= n,
                n == orig.len(),
                a <= b,
                lo <= a,
                b <= hi,
                out@ == orig.subrange(0, k),
                forall|kk: int| 0 <= kk < k ==> (#[trigger] orig[kk]).1 + 1 < a,
                k < n ==> orig[k].1 + 1 >= a,
                k > 0 ==> orig[k - 1].1 + 2 <= lo,
                interval(lo as int, hi as int) == interval(a as int, b as int).union(
                    covered(orig.subrange(k, i as int)),
                ),
            decreases n - i,
        {
            let r = self.ranges[i];
            let ghost lo0 = lo;
            let ghost hi0 = hi;
            if r.0 < lo {
                lo = r.0;
            }
            if r.1 > hi {
                hi = r.1;
            }
            proof {
                lemma_merge_step(orig, k, i as int, a, b, lo0, hi0, lo, hi);
                if k > 0 {
                    lemma_range_order(orig, k, i as int);
                    assert(orig[k - 1].1 + 2 <= orig[k as int].0);
                }
            }
            i = i + 1;
        }
        let ghost m = i as int;
        proof {
            assert(m < n ==> orig[m].0 >= hi + 2);
        }
        out.push((lo, hi));
        let ghost mid = out@;
        proof {
            assert(out@ =~= mid + orig.subrange(m, m));
        }
        while i < n
            invariant
                self.ranges@ == orig,
                0 <= k <= m <= i <= n,
                n == orig.len(),
                out@ == mid + orig.subrange(m, i as int),
                mid == orig.subrange(0, k).push((lo, hi)),
            decreases n - i,
        {
            let r = self.ranges[i];
            out.push(r);
            proof {
                assert((mid + orig.subrange(m, i as int)).push(orig[i as int]) =~= mid
                    + orig.subrange(m, i + 1));
            }
            i = i + 1;
        }
        self.ranges = out;
        proof {
            assert(self.ranges@ =~= orig.subrange(0, k) + seq![(lo, hi)] + orig.subrange(
                m,
                n as int,
            ));
            lemma_insert_reassemble(orig, k, m, a, b, lo, hi, self.ranges@);
        }
    }
    /// Removes one index, splitting a range where it falls strictly inside
    /// one; the normal form is kept.
    #[verifier::rlimit(60)]
    pub fn remove_index(&mut self, x: usize)
        requires
            old(self).wf(),
        ensures
            final(self).wf(),
            final(self).cov() == old(self).cov().remove(x as int),
    {
        let ghost orig = self.ranges@;
        let n = self.ranges.len();
        let mut i: usize = 0;
        while i < n && self.ranges[i].1 < x
            invariant
                self.ranges@ == orig,
                wf_ranges(orig),
                i <= n,
                n == orig.len(),
                forall|k: int| 0 <= k < i ==> (#[trigger] orig[k]).1 < x,
            decreases n - i,
        {
            i = i + 1;
        }
        if i == n {
            proof {
                assert(self.cov() =~= self.cov().remove(x as int)) by {
                    if self.cov().contains(x as int) {
                        let k = choose|k: int|
                            0 <= k < orig.len() && (#[trigger] orig[k]).0 <= x as int <= orig[k].1;
                        assert(orig[k].1 < x);
                    }
                }
            }
            return ;
        }
        let r = self.ranges[i];
        if x < r.0 {
            proof {
                assert(self.cov() =~= self.cov().remove(x as int)) by {
                    if self.cov().contains(x as int) {
                        let k = choose|k: int|
                            0 <= k < orig.len() && (#[trigger] orig[k]).0 <= x as int <= orig[k].1;
                        if k >= i {
                            lemma_range_order(orig, i as int, k);
                        }
                    }
                }
            }
            return ;
        }
        if r.0 == x && r.1 == x {
            self.ranges.remove(i);
            proof {
                lemma_remove_point(orig, i as int, x);
            }
        } else if r.0 == x {
            self.ranges[i] = (x + 1, r.1);
            proof {
                lemma_remove_at_start(orig, i as int, x);
            }
        } else if r.1 == x {
            self.ranges[i] = (r.0, x - 1);
            proof {
                lemma_remove_at_end(orig, i as int, x);
            }
        } else {
            self.ranges[i] = (x + 1, r.1);
            self.ranges.insert(i, (r.0, x - 1));
            proof {
                lemma_remove_inside(orig, i as int, x);
            }
        }
    }

    /// Whether the list holds this index.
    pub fn contains_index(&self, x: usize) -> (r: bool)
        requires
            self.wf(),
        ensures
            r == self.cov().contains(x as int),
    {
        let n = self.ranges.len();
        let mut i: usize = 0;
        while i < n
            invariant
                self.wf(),
                i <= n,
                n == self@.len(),
                forall|k: int| 0 <= k < i ==> !((#[trigger] self@[k]).0 <= x && x <= self@[k].1),
            decreases n - i,
        {
            let r = self.ranges[i];
            if r.0 <= x && x <= r.1 {
                return true;
            }
            i = i + 1;
        }
        proof {
            if self.cov().contains(x as int) {
                let k = choose|k: int|
                    0 <= k < self@.len() && (#[trigger] self@[k]).0 <= x as int <= self@[k].1;
            }
        }
        false
    }

    /// Whether the list holds at most one index in all.
    pub fn has_at_most_one(&self) -> (r: bool)
        requires
            self.wf(),
        ensures
            r == (forall|p: int, q: int|
                self.cov().contains(p) && self.cov().contains(q) ==> p == q),
    {
        let n = self.ranges.len();
        if n == 0 {
            proof {
                assert forall|p: int, q: int|
                    self.cov().contains(p) && self.cov().contains(q) implies p == q by {}
            }
            true
        } else if n == 1 {
            let r = self.ranges[0];
            if r.0 == r.1 {
                proof {
                    assert forall|p: int, q: int|
                        self.cov().contains(p) && self.cov().contains(q) implies p == q by {
                        let k1 = choose|k: int|
                            0 <= k < self@.len() && (#[trigger] self@[k]).0 <= p <= self@[k].1;
                        let k2 = choose|k: int|
                            0 <= k < self@.len() && (#[trigger] self@[k]).0 <= q <= self@[k].1;
                    }
                }
                true
            } else {
                proof {
                    assert(self.cov().contains(r.0 as int));
                    assert(self.cov().contains(r.1 as int));
                }
                false
            }
        } else {
            proof {
                let r0 = self@[0];
                let r1 = self@[1];
                assert(self.cov().contains(r0.0 as int));
                assert(self.cov().contains(r1.0 as int));
                assert(r0.1 + 2 <= r1.0);
            }
            false
        }
    }

    /// The smallest index in the list, if the list is non-empty.
    pub fn first_index(&self) -> (r: Option<usize>)
        requires
            self.wf(),
        ensures
            match r {
                Some(m) => self.cov().contains(m as int) && (forall|y: int|
                    self.cov().contains(y) ==> m as int <= y),
                None => forall|y: int| !self.cov().contains(y),
            },
    {
        if self.ranges.len() == 0 {
            proof {
                assert forall|y: int| !self.cov().contains(y) by {}
            }
            None
        } else {
            let m = self.ranges[0].0;
            proof {
                assert(self@[0].0 <= m <= self@[0].1);
                assert forall|y: int| self.cov().contains(y) implies m as int <= y by {
                    let k = choose|k: int|
                        0 <= k < self@.len() && (#[trigger] self@[k]).0 <= y <= self@[k].1;
                    lemma_range_order(self@, 0, k);
                }
            }
            Some(m)
        }
    }

    /// The smallest index in the list strictly greater than `cur`, if any.
    pub fn next_index(&self, cur: usize) -> (r: Option<usize>)
        requires
            self.wf(),
        ensures
            match r {
                Some(m) => self.cov().contains(m as int) && m > cur && (forall|y: int|
                    self.cov().contains(y) && y > cur ==> m as int <= y),
                None => forall|y: int| self.cov().contains(y) ==> y <= cur,
            },
    {
        let n = self.ranges.len();
        let mut i: usize = 0;
        while i < n && self.ranges[i].1 <= cur
            invariant
                self.wf(),
                i <= n,
                n == self@.len(),
                forall|k: int| 0 <= k < i ==> (#[trigger] self@[k]).1 <= cur,
            decreases n - i,
        {
            i = i + 1;
        }
        if i == n {
            proof {
                assert forall|y: int| self.cov().contains(y) implies y <= cur by {
                    let k = choose|k: int|
                        0 <= k < self@.len() && (#[trigger] self@[k]).0 <= y <= self@[k].1;
                }
            }
            return None;
        }
        let r = self.ranges[i];
        let m = if r.0 > cur {
            r.0
        } else {
            cur + 1
        };
        proof {
            assert(self@[i as int].0 <= m <= self@[i as int].1);
            assert forall|y: int| self.cov().contains(y) && y > cur implies m as int <= y by {
                let k = choose|k: int|
                    0 <= k < self@.len() && (#[trigger] self@[k]).0 <= y <= self@[k].1;
                if k < i {
                } else if k == i {
                } else {
                    lemma_range_order(self@, i as int, k);
                }
            }
        }
        Some(m)
    }
}

/// Canonical forms are unique: two well-formed range sequences that cover the
/// same set of indices are the same sequence.
pub proof fn lemma_normal_form_unique(r1: Seq<(usize, usize)>, r2: Seq<(usize, usize)>)
    requires
        wf_ranges(r1),
        wf_ranges(r2),
        covered(r1) == covered(r2),
    ensures
        r1 =~= r2,
    decreases r1.len(),
{
    if r1.len() == 0 {
        if r2.len() > 0 {
            assert(covered(r2).contains(r2[0].0 as int));
            assert(covered(r1).contains(r2[0].0 as int));
            let k = choose|k: int|
                0 <= k < r1.len() && (#[trigger] r1[k]).0 <= r2[0].0 as int <= r1[k].1;
            assert(false);
        }
    } else {
        if r2.len() == 0 {
            assert(covered(r1).contains(r1[0].0 as int));
            assert(covered(r2).contains(r1[0].0 as int));
            let k = choose|k: int|
                0 <= k < r2.len() && (#[trigger] r2[k]).0 <= r1[0].0 as int <= r2[k].1;
            assert(false);
        }
        lemma_first_range_determined(r1, r2);
        lemma_first_range_determined(r2, r1);
        assert(r1[0] == r2[0]);
        let t1 = r1.subrange(1, r1.len() as int);
        let t2 = r2.subrange(1, r2.len() as int);
        assert(wf_ranges(t1)) by {
            assert(forall|j: int| 0 <= j < t1.len() ==> t1[j] == r1[j + 1]);
        }
        assert(wf_ranges(t2)) by {
            assert(forall|j: int| 0 <= j < t2.len() ==> t2[j] == r2[j + 1]);
        }
        assert(covered(t1) =~= covered(t2)) by {
            lemma_tail_covered(r1, r2);
            lemma_tail_covered(r2, r1);
        }
        lemma_normal_form_unique(t1, t2);
        assert(r1 =~= r2) by {
            assert(forall|j: int| 1 <= j < r1.len() ==> r1[j] == t1[j - 1] && r2[j] == t2[j - 1]);
        }
    }
}

/// Idempotent canonicalization: any two well-formed lists that stand for the
/// same set of CPU indices are identical, so iteration over either yields
/// the same ascending index sequence. In particular, any two CPU-list
/// expressions that name the same indices parse to the same value.
pub proof fn lemma_canonical_form_unique(l1: &CpuList, l2: &CpuList)
    requires
        l1.wf(),
        l2.wf(),
        l1.cov() == l2.cov(),
    ensures
        l1@ == l2@,
{
    lemma_normal_form_unique(l1@, l2@);
}

/// In a well-formed sequence the first range is determined by the covered
/// set: its start is the least covered index, and its end is the last index
/// before the first gap.
proof fn lemma_first_range_determined(r1: Seq<(usize, usize)>, r2: Seq<(usize, usize)>)
    requires
        wf_ranges(r1),
        wf_ranges(r2),
        covered(r1) == covered(r2),
        r1.len() > 0,
        r2.len() > 0,
    ensures
        r1[0].0 >= r2[0].0,
        r1[0].1 <= r2[0].1,
{
    // starts: r1[0].0 is covered, so some r2 range holds it; r2 starts at most it
    assert(covered(r1).contains(r1[0].0 as int));
    let k = choose|k: int| 0 <= k < r2.len() && (#[trigger] r2[k]).0 <= r1[0].0 as int <= r2[k].1;
    lemma_range_order(r2, 0, k);
    assert(r2[0].0 <= r1[0].0);
    // ends: if r1's first range ended beyond r2's, the index just past r2's
    // first end would be covered on one side only
    if r1[0].1 > r2[0].1 {
        let y = r2[0].1 + 1;
        assert(r1[0].0 <= y <= r1[0].1) by {
            assert(covered(r2).contains(r2[0].1 as int));
            let j = choose|j: int|
                0 <= j < r1.len() && (#[trigger] r1[j]).0 <= r2[0].1 as int <= r1[j].1;
            if j > 0 {
                lemma_range_order(r1, 0, j);
                assert(r1[0].1 + 2 <= r1[j].0);
                assert(covered(r1).contains((r1[0].1 + 1) as int) == covered(r2).contains((r1[0].1
                    + 1) as int));
                assert(covered(r2).contains(r1[0].1 + 1)) by {
                    assert(r2[0].0 <= r1[0].0 <= r1[0].1 + 1 <= r2[0].1);
                }
                let w = choose|w: int|
                    0 <= w < r1.len() && (#[trigger] r1[w]).0 <= r1[0].1 + 1 <= r1[w].1;
                if w > 0 {
                    lemma_range_order(r1, 0, w);
                }
                assert(false);
            }
        }
        assert(covered(r1).contains(y));
        let j = choose|j: int| 0 <= j < r2.len() && (#[trigger] r2[j]).0 <= y <= r2[j].1;
        if j > 0 {
            lemma_range_order(r2, 0, j);
        }
        assert(false);
    }
}

/// Dropping equal first ranges leaves tails that cover the same indices.
proof fn lemma_tail_covered(r1: Seq<(usize, usize)>, r2: Seq<(usize, usize)>)
    requires
        wf_ranges(r1),
        wf_ranges(r2),
        covered(r1) == covered(r2),
        r1.len() > 0,
        r2.len() > 0,
        r1[0] == r2[0],
    ensures
        forall|y: int|
            covered(r1.subrange(1, r1.len() as int)).contains(y) ==> covered(
                r2.subrange(1, r2.len() as int),
            ).contains(y),
{
    let t1 = r1.subrange(1, r1.len() as int);
    let t2 = r2.subrange(1, r2.len() as int);
    assert forall|y: int| covered(t1).contains(y) implies covered(t2).contains(y) by {
        let k = choose|k: int| 0 <= k < t1.len() && (#[trigger] t1[k]).0 <= y <= t1[k].1;
        assert(t1[k] == r1[k + 1]);
        lemma_range_order(r1, 0, k + 1);
        assert(y >= r1[0].1 + 2);
        assert(covered(r1).contains(y));
        let j = choose|j: int| 0 <= j < r2.len() && (#[trigger] r2[j]).0 <= y <= r2[j].1;
        if j == 0 {
            assert(y <= r2[0].1);
            assert(false);
        }
        assert(t2[j - 1] == r2[j]);
        assert(covered(t2).contains(y));
    }
}

} // verus!
