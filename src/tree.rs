//! The segment tree itself: a node covers the inclusive index range
//! `[start, end]`, holds the sum of the values there, and, unless it covers a
//! single index, owns two children that split its range at the midpoint.

use vstd::prelude::*;

use crate::sums::{
    lemma_fit_subrange, lemma_fit_whole, lemma_sum_concat, lemma_sum_single, seq_sum, sums_fit,
};

verus! {

/// A node of a range-sum segment tree, and the tree rooted at it.
pub struct SegmentTree {
    pub start: usize,
    pub end: usize,
    pub sum: i32,
    pub left: Option<Box<SegmentTree>>,
    pub right: Option<Box<SegmentTree>>,
}

/// The split point of the inclusive range `[start, end]`.
pub open spec fn midpoint(start: int, end: int) -> int {
    start + (end - start) / 2
}

impl SegmentTree {
    /// The values the tree holds, left to right: the leaf sums in order.
    pub open spec fn values(self) -> Seq<i32>
        decreases self,
    {
        match (self.left, self.right) {
            (Some(l), Some(r)) => l.values() + r.values(),
            _ => seq![self.sum],
        }
    }

    /// The shape and sum invariants: a node covers a non-empty range; it is a
    /// leaf exactly when that range is one index; the children of an inner
    /// node cover `[start, mid]` and `[mid + 1, end]`, and its sum is theirs
    /// added.
    pub open spec fn wf(self) -> bool
        decreases self,
    {
        &&& self.start <= self.end
        &&& if self.start == self.end {
            self.left is None && self.right is None
        } else {
            match (self.left, self.right) {
                (Some(l), Some(r)) => {
                    &&& l.start == self.start
                    &&& l.end == midpoint(self.start as int, self.end as int)
                    &&& r.start == l.end + 1
                    &&& r.end == self.end
                    &&& self.sum == l.sum + r.sum
                    &&& l.wf()
                    &&& r.wf()
                },
                _ => false,
            }
        }
    }

    /// The exact sum of the values at indices `a..=b`.
    pub open spec fn range_sum(self, a: int, b: int) -> int {
        seq_sum(self@.subrange(a - self.start, b - self.start + 1))
    }

    /// A well-formed tree holds one value per index of its range, and its sum
    /// is the sum of those values.
    pub proof fn lemma_wf_values(self)
        requires
            self.wf(),
        ensures
            self@.len() == self.end - self.start + 1,
            self.sum == seq_sum(self@),
        decreases self,
    {
        if self.start == self.end {
            lemma_sum_single(self.sum);
        } else {
            let l = *self.left.unwrap();
            let r = *self.right.unwrap();
            l.lemma_wf_values();
            r.lemma_wf_values();
            lemma_sum_concat(l@, r@);
        }
    }

    /// A well-formed tree is determined by its range and its values: two such
    /// trees that agree on both agree on every node, sums included.
    pub proof fn lemma_determined_by_values(self, other: Self)
        requires
            self.wf(),
            other.wf(),
            self.start == other.start,
            self.end == other.end,
            self@ == other@,
        ensures
            self == other,
        decreases self,
    {
        self.lemma_wf_values();
        other.lemma_wf_values();
        if self.start == self.end {
            lemma_sum_single(self.sum);
            lemma_sum_single(other.sum);
        } else {
            let l1 = *self.left.unwrap();
            let r1 = *self.right.unwrap();
            let l2 = *other.left.unwrap();
            let r2 = *other.right.unwrap();
            l1.lemma_wf_values();
            r1.lemma_wf_values();
            l2.lemma_wf_values();
            r2.lemma_wf_values();
            let k = l1@.len() as int;
            assert(l1@ =~= self@.subrange(0, k));
            assert(l2@ =~= other@.subrange(0, k));
            assert(r1@ =~= self@.subrange(k, self@.len() as int));
            assert(r2@ =~= other@.subrange(k, other@.len() as int));
            l1.lemma_determined_by_values(l2);
            r1.lemma_determined_by_values(r2);
        }
    }

    /// Building twice from the same values over the same range gives the same
    /// tree, with the same sum at every node.
    pub proof fn lemma_rebuild_identical(
        t1: Self,
        t2: Self,
        start: usize,
        end: usize,
        vals: Seq<i32>,
    )
        requires
            t1.wf(),
            t1.start == start,
            t1.end == end,
            t1@ == vals.subrange(start as int, end + 1),
            t2.wf(),
            t2.start == start,
            t2.end == end,
            t2@ == vals.subrange(start as int, end + 1),
        ensures
            t1 == t2,
    {
        t1.lemma_determined_by_values(t2);
    }

    /// A tree built over the whole of `vals` sums, over its whole range, to
    /// the sum of `vals`.
    pub proof fn lemma_build_total(t: Self, vals: Seq<i32>)
        requires
            vals.len() > 0,
            t.wf(),
            t.start == 0,
            t.end == vals.len() - 1,
            t@ == vals.subrange(0, vals.len() as int),
        ensures
            t.range_sum(0, vals.len() - 1) == seq_sum(vals),
    {
        assert(vals.subrange(0, vals.len() as int) =~= vals);
    }

    /// A tree built from `vals` holds, at each index of its range, the value
    /// of `vals` there.
    pub proof fn lemma_build_point(t: Self, start: usize, end: usize, vals: Seq<i32>, i: int)
        requires
            t.wf(),
            t.start == start,
            t.end == end,
            end < vals.len(),
            t@ == vals.subrange(start as int, end + 1),
            start <= i <= end,
        ensures
            t.range_sum(i, i) == vals[i],
    {
        assert(t@.subrange(i - start, i - start + 1) =~= seq![vals[i]]);
        lemma_sum_single(vals[i]);
    }

    /// The sum over a range is the sum over a prefix of it plus the sum over
    /// the rest.
    pub proof fn lemma_range_split(self, a: int, m: int, b: int)
        requires
            self.wf(),
            self.start <= a <= m < b <= self.end,
        ensures
            self.range_sum(a, b) == self.range_sum(a, m) + self.range_sum(m + 1, b),
    {
        self.lemma_wf_values();
        let s = self.start as int;
        let q1 = self@.subrange(a - s, m - s + 1);
        let q2 = self@.subrange(m + 1 - s, b - s + 1);
        assert(self@.subrange(a - s, b - s + 1) =~= q1 + q2);
        lemma_sum_concat(q1, q2);
    }

    /// After the value at `i` is set to `v` (`after` is `before` updated), the
    /// value at `i` is `v`, and the sum over any range that holds `i` moves by
    /// `v` less the old value there.
    pub proof fn lemma_update_effect(before: Self, after: Self, i: int, v: i32, a: int, b: int)
        requires
            before.wf(),
            after.wf(),
            after.start == before.start,
            after.end == before.end,
            after@ == before@.update(i - before.start, v),
            before.start <= a <= i <= b <= before.end,
        ensures
            after.range_sum(i, i) == v,
            after.range_sum(a, b) == before.range_sum(a, b) - before@[i - before.start] + v,
    {
        before.lemma_wf_values();
        let s = before.start as int;
        let (x, y) = (before@, after@);
        let (j, lo, hi) = (i - s, a - s, b - s + 1);
        lemma_sum_single(v);
        lemma_sum_single(x[j]);
        assert(y.subrange(j, j + 1) =~= seq![v]);
        assert(x.subrange(j, j + 1) =~= seq![x[j]]);
        assert(x.subrange(lo, j) =~= y.subrange(lo, j));
        assert(x.subrange(j + 1, hi) =~= y.subrange(j + 1, hi));
        assert(x.subrange(lo, hi) =~= x.subrange(lo, j + 1) + x.subrange(j + 1, hi));
        assert(x.subrange(lo, j + 1) =~= x.subrange(lo, j) + x.subrange(j, j + 1));
        assert(y.subrange(lo, hi) =~= y.subrange(lo, j + 1) + y.subrange(j + 1, hi));
        assert(y.subrange(lo, j + 1) =~= y.subrange(lo, j) + y.subrange(j, j + 1));
        lemma_sum_concat(x.subrange(lo, j + 1), x.subrange(j + 1, hi));
        lemma_sum_concat(x.subrange(lo, j), x.subrange(j, j + 1));
        lemma_sum_concat(y.subrange(lo, j + 1), y.subrange(j + 1, hi));
        lemma_sum_concat(y.subrange(lo, j), y.subrange(j, j + 1));
    }

    /// Builds the tree over `[start, end]` whose values are those of `vals`
    /// at those indices.
    pub fn build(start: usize, end: usize, vals: &[i32]) -> (t: Self)
        requires
            start <= end,
            end < vals@.len(),
            sums_fit(vals@.subrange(start as int, end + 1)),
        ensures
            t.wf(),
            t.start == start,
            t.end == end,
            t@ == vals@.subrange(start as int, end + 1),
        decreases end - start,
    {
        if start == end {
            assert(vals@.subrange(start as int, end + 1) =~= seq![vals@[start as int]]);
            return Self { start, end, sum: vals[start], left: None, right: None };
        }
        let mid = start + (end - start) / 2;
        let ghost s = vals@.subrange(start as int, end + 1);
        let ghost k = mid + 1 - start;
        assert(vals@.subrange(start as int, mid + 1) =~= s.subrange(0, k));
        assert(vals@.subrange(mid + 1, end + 1) =~= s.subrange(k, s.len() as int));
        proof {
            lemma_fit_subrange(s, 0, k);
            lemma_fit_subrange(s, k, s.len() as int);
        }
        let left = Self::build(start, mid, vals);
        let right = Self::build(mid + 1, end, vals);
        assert(left@ + right@ =~= s);
        proof {
            left.lemma_wf_values();
            right.lemma_wf_values();
            lemma_sum_concat(left@, right@);
            lemma_fit_whole(s);
        }
        let sum = left.sum + right.sum;
        Self { start, end, sum, left: Some(Box::new(left)), right: Some(Box::new(right)) }
    }

    /// Sets the value at `index` to `val`, and restores the sums of the
    /// nodes on the path from the root down to that index.
    pub fn update(&mut self, index: usize, val: i32)
        requires
            old(self).wf(),
            old(self).start <= index <= old(self).end,
            sums_fit(old(self)@.update(index - old(self).start, val)),
        ensures
            final(self).wf(),
            final(self).start == old(self).start,
            final(self).end == old(self).end,
            final(self)@ == old(self)@.update(index - old(self).start, val),
        decreases *old(self),
    {
        proof {
            self.lemma_wf_values();
        }
        let ghost nv = self@.update(index - self.start, val);
        if self.start == self.end && self.end == index {
            self.sum = val;
            assert(self@ =~= nv);
            return;
        }
        let mid = self.start + (self.end - self.start) / 2;
        let mut left = self.left.take().unwrap();
        let mut right = self.right.take().unwrap();
        proof {
            left.lemma_wf_values();
            right.lemma_wf_values();
        }
        let ghost k = left@.len() as int;
        if index <= mid {
            assert(nv.subrange(0, k) =~= left@.update(index - left.start, val));
            proof {
                lemma_fit_subrange(nv, 0, k);
            }
            left.update(index, val);
        } else {
            assert(nv.subrange(k, nv.len() as int) =~= right@.update(index - right.start, val));
            proof {
                lemma_fit_subrange(nv, k, nv.len() as int);
            }
            right.update(index, val);
        }
        proof {
            left.lemma_wf_values();
            right.lemma_wf_values();
            assert(left@ + right@ =~= nv);
            lemma_sum_concat(left@, right@);
            lemma_fit_whole(nv);
        }
        self.sum = left.sum + right.sum;
        self.left = Some(left);
        self.right = Some(right);
    }

    /// Returns the sum of the values at indices `start..=end`.
    pub fn query(&self, start: usize, end: usize) -> (r: i32)
        requires
            self.wf(),
            self.start <= start <= end <= self.end,
            sums_fit(self@.subrange(start - self.start, end - self.start + 1)),
        ensures
            r == self.range_sum(start as int, end as int),
        decreases self,
    {
        proof {
            self.lemma_wf_values();
        }
        if self.start == start && self.end == end {
            assert(self@.subrange(0, self@.len() as int) =~= self@);
            return self.sum;
        }
        let mid = self.start + (self.end - self.start) / 2;
        let left = self.left.as_ref().unwrap();
        let right = self.right.as_ref().unwrap();
        proof {
            left.lemma_wf_values();
            right.lemma_wf_values();
        }
        let ghost lv = left@;
        let ghost rv = right@;
        let ghost q = self@.subrange(start - self.start, end - self.start + 1);
        if end <= mid {
            assert(q =~= lv.subrange(start - left.start, end - left.start + 1));
            left.query(start, end)
        } else if start > mid {
            assert(q =~= rv.subrange(start - right.start, end - right.start + 1));
            right.query(start, end)
        } else {
            let ghost n = q.len() as int;
            let ghost k = mid + 1 - start;
            assert(q.subrange(0, k) =~= lv.subrange(start - left.start, mid - left.start + 1));
            assert(q.subrange(k, n) =~= rv.subrange(0, end - right.start + 1));
            assert(q =~= q.subrange(0, k) + q.subrange(k, n));
            proof {
                lemma_fit_subrange(q, 0, k);
                lemma_fit_subrange(q, k, n);
                lemma_fit_whole(q);
                lemma_sum_concat(q.subrange(0, k), q.subrange(k, n));
            }
            left.query(start, mid) + right.query(mid + 1, end)
        }
    }
}

impl View for SegmentTree {
    type V = Seq<i32>;

    open spec fn view(&self) -> Seq<i32> {
        self.values()
    }
}

} // verus!
