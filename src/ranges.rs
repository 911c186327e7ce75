use std::ops::Range;
use vstd::prelude::*;

verus! {

/// A range is valid when it does not run backwards.
pub open spec fn valid_range(r: Range<usize>) -> bool {
    r.start <= r.end
}

/// Every range of `rs` is valid and each one starts exactly where the
/// previous one ends: no gap, no overlap, no reordering.
pub open spec fn chains(rs: Seq<Range<usize>>) -> bool {
    &&& forall|i: int| 0 <= i < rs.len() ==> valid_range(#[trigger] rs[i])
    &&& forall|i: int| 0 < i < rs.len() ==> (#[trigger] rs[i]).start == rs[i - 1].end
}

/// What collapsing `rs` gives: the empty range at zero for no ranges, the
/// span from the first start to the last end for a chain, nothing otherwise.
pub open spec fn collapsed(rs: Seq<Range<usize>>) -> Option<Range<usize>> {
    if rs.len() == 0 {
        Some(Range { start: 0, end: 0 })
    } else if chains(rs) {
        Some(Range { start: rs[0].start, end: rs.last().end })
    } else {
        None
    }
}

/// A new range `r` is folded into the entry `last` when it starts where `last`
/// ends and neither of the two is empty.
pub open spec fn mergeable(last: Range<usize>, r: Range<usize>) -> bool {
    &&& r.start == last.end
    &&& last.start < last.end
    &&& r.start < r.end
}

/// The entries after pushing `r` onto `rs`: the last entry extended to
/// `r.end` when the two are mergeable, otherwise `r` appended.
pub open spec fn pushed(rs: Seq<Range<usize>>, r: Range<usize>) -> Seq<Range<usize>> {
    if rs.len() > 0 && mergeable(rs.last(), r) {
        rs.drop_last().push(Range { start: rs.last().start, end: r.end })
    } else {
        rs.push(r)
    }
}

/// The entries after pushing `r` without the guard against empty ranges:
/// merged whenever `r` starts where the last entry ends.
pub open spec fn pushed_unchecked(rs: Seq<Range<usize>>, r: Range<usize>) -> Seq<Range<usize>> {
    if rs.len() > 0 && r.start == rs.last().end {
        rs.drop_last().push(Range { start: rs.last().start, end: r.end })
    } else {
        rs.push(r)
    }
}

/// The entries after pushing every range of `items` onto `rs`, in order.
pub open spec fn pushed_all(rs: Seq<Range<usize>>, items: Seq<Range<usize>>) -> Seq<Range<usize>>
    decreases items.len(),
{
    if items.len() == 0 {
        rs
    } else {
        pushed(pushed_all(rs, items.drop_last()), items.last())
    }
}

/// No two neighbouring entries of `rs` could be merged: the sequence is as
/// collapsed as pushing can make it.
pub open spec fn fully_merged(rs: Seq<Range<usize>>) -> bool {
    forall|i: int| 0 < i < rs.len() ==> !mergeable(rs[i - 1], #[trigger] rs[i])
}

/// A list of ranges built up incrementally, merging each new range into the
/// last one where they touch.
#[derive(Debug, Default, Clone)]
pub struct Ranges {
    pub ranges: Vec<Range<usize>>,
}

impl View for Ranges {
    type V = Seq<Range<usize>>;

    open spec fn view(&self) -> Seq<Range<usize>> {
        self.ranges@
    }
}

impl Ranges {
    /// The invariant that `push` keeps: no two neighbouring entries mergeable.
    pub open spec fn wf(&self) -> bool {
        fully_merged(self@)
    }

    /// Constructs a new empty `Ranges`.
    pub fn new() -> (r: Self)
        ensures
            r@ == Seq::<Range<usize>>::empty(),
            r.wf(),
    {
        Ranges { ranges: Vec::new() }
    }

    /// Constructs a new empty `Ranges` with room for `capacity` entries.
    pub fn with_capacity(capacity: usize) -> (r: Self)
        ensures
            r@ == Seq::<Range<usize>>::empty(),
            r.wf(),
    {
        Ranges { ranges: Vec::with_capacity(capacity) }
    }

    /// Constructs a `Ranges` holding the single range `range`.
    pub fn from_range(range: Range<usize>) -> (r: Self)
        ensures
            r@ == seq![range],
            r.wf(),
    {
        let mut ranges = Vec::new();
        ranges.push(range);
        Ranges { ranges }
    }

    /// Constructs a `Ranges` holding the single range `range`, with room for
    /// `capacity` entries.
    pub fn from_range_with_capacity(range: Range<usize>, capacity: usize) -> (r: Self)
        ensures
            r@ == seq![range],
            r.wf(),
    {
        let mut ranges = Vec::with_capacity(capacity);
        ranges.push(range);
        Ranges { ranges }
    }

    /// Adds a range, merging it into the last entry when the two touch and
    /// neither is empty. An empty range is always kept as an entry of its own.
    pub fn push(&mut self, range: Range<usize>)
        ensures
            final(self)@ == pushed(old(self)@, range),
            old(self).wf() ==> final(self).wf(),
    {
        let n = self.ranges.len();
        if n > 0 {
            let last_start = self.ranges[n - 1].start;
            let last_end = self.ranges[n - 1].end;
            if range.start == last_end && last_start < last_end && range.start < range.end {
                self.ranges[n - 1] = Range { start: last_start, end: range.end };
                proof {
                    assert(self@ =~= pushed(old(self)@, range));
                }
                return;
            }
        }
        self.ranges.push(range);
    }

    /// Adds a range, merging it into the last entry whenever it starts where
    /// that entry ends, without checking that either range is non-empty.
    /// Meant for callers whose ranges are already known to be well formed:
    /// misuse gives wrong entries, never a crash.
    pub fn push_unchecked(&mut self, range: Range<usize>)
        ensures
            final(self)@ == pushed_unchecked(old(self)@, range),
    {
        let n = self.ranges.len();
        if n > 0 {
            let last_start = self.ranges[n - 1].start;
            if range.start == self.ranges[n - 1].end {
                self.ranges[n - 1] = Range { start: last_start, end: range.end };
                proof {
                    assert(self@ =~= pushed_unchecked(old(self)@, range));
                }
                return;
            }
        }
        self.ranges.push(range);
    }

    /// Removes every entry, keeping the allocated room.
    pub fn clear(&mut self)
        ensures
            final(self)@ == Seq::<Range<usize>>::empty(),
            final(self).wf(),
    {
        self.ranges.clear();
    }
}

impl Ranges {
    /// Constructs a `Ranges` by pushing every range of `items`, in order.
    pub fn from_slice(items: &[Range<usize>]) -> (r: Self)
        ensures
            r@ == pushed_all(Seq::empty(), items@),
            r.wf(),
    {
        let mut r = Ranges::with_capacity(items.len());
        r.extend_from_slice(items);
        r
    }

    /// Pushes every range of `items`, in order, with the merge rule of `push`.
    pub fn extend_from_slice(&mut self, items: &[Range<usize>])
        ensures
            final(self)@ == pushed_all(old(self)@, items@),
            old(self).wf() ==> final(self).wf(),
    {
        let mut i: usize = 0;
        while i < items.len()
            invariant
                i <= items.len(),
                self@ == pushed_all(old(self)@, items@.take(i as int)),
                old(self).wf() ==> self.wf(),
            decreases items.len() - i,
        {
            let r = Range { start: items[i].start, end: items[i].end };
            self.push(r);
            proof {
                assert(items@.take(i + 1).drop_last() =~= items@.take(i as int));
            }
            i = i + 1;
        }
        assert(items@.take(i as int) =~= items@);
    }
}

/// Collapses a slice of ranges into a single contiguous range, if possible.
pub fn collapse_ranges(ranges: &[Range<usize>]) -> (r: Option<Range<usize>>)
    ensures
        r == collapsed(ranges@),
{
    if ranges.len() == 0 {
        return Some(Range { start: 0, end: 0 });
    }
    let start = ranges[0].start;
    let mut end = ranges[0].end;
    if start > end {
        return None;
    }
    let mut i: usize = 1;
    while i < ranges.len()
        invariant
            1 <= i <= ranges.len(),
            start == ranges@[0].start,
            end == ranges@[i - 1].end,
            chains(ranges@.take(i as int)),
        decreases ranges.len() - i,
    {
        let r = &ranges[i];
        if r.start != end || r.end < r.start {
            proof {
                assert(!chains(ranges@)) by {
                    if chains(ranges@) {
                        assert(ranges@[i as int].start == ranges@[i - 1].end);
                        assert(valid_range(ranges@[i as int]));
                    }
                }
            }
            return None;
        }
        end = r.end;
        i = i + 1;
        proof {
            let p = ranges@.take(i as int);
            assert forall|k: int| 0 <= k < p.len() implies valid_range(#[trigger] p[k]) by {
                if k < i - 1 {
                    assert(ranges@.take(i - 1)[k] == p[k]);
                }
            }
            assert forall|k: int| 0 < k < p.len() implies (#[trigger] p[k]).start == p[k - 1].end by {
                if k < i - 1 {
                    assert(ranges@.take(i - 1)[k] == p[k]);
                }
            }
        }
    }
    assert(ranges@.take(i as int) =~= ranges@);
    Some(Range { start, end })
}


/// Collapsing no ranges gives the empty range at offset zero.
pub proof fn lemma_collapse_empty()
    ensures
        collapsed(Seq::<Range<usize>>::empty()) == Some(Range::<usize> { start: 0, end: 0 }),
{
}

/// A single range collapses to itself when it is valid, and to nothing when it
/// runs backwards.
pub proof fn lemma_collapse_single(r: Range<usize>)
    ensures
        collapsed(seq![r]) == (if r.start <= r.end {
            Some(r)
        } else {
            None::<Range<usize>>
        }),
{
    let rs = seq![r];
    if r.start <= r.end {
        assert(chains(rs));
    } else {
        assert(!valid_range(rs[0]));
    }
}

/// Valid ranges that each start where the previous one ends collapse to the
/// span from the first start to the last end.
pub proof fn lemma_collapse_chain(rs: Seq<Range<usize>>)
    requires
        rs.len() > 0,
        forall|i: int| 0 <= i < rs.len() ==> (#[trigger] rs[i]).start <= rs[i].end,
        forall|i: int| 0 < i < rs.len() ==> (#[trigger] rs[i]).start == rs[i - 1].end,
    ensures
        collapsed(rs) == Some(Range { start: rs[0].start, end: rs.last().end }),
{
    assert(chains(rs));
}

/// One gap, overlap or out-of-order pair anywhere in a sequence of ranges
/// keeps it from collapsing, however many other pairs chain.
pub proof fn lemma_collapse_broken_pair(rs: Seq<Range<usize>>, i: int)
    requires
        0 < i < rs.len(),
        rs[i].start != rs[i - 1].end,
    ensures
        collapsed(rs) is None,
{
    assert(!chains(rs));
}

/// One range that runs backwards anywhere in a sequence keeps it from
/// collapsing.
pub proof fn lemma_collapse_backwards_range(rs: Seq<Range<usize>>, i: int)
    requires
        0 <= i < rs.len(),
        rs[i].start > rs[i].end,
    ensures
        collapsed(rs) is None,
{
    assert(!valid_range(rs[i]));
}

/// Pushing merges into the last entry exactly when the new range starts where
/// that entry ends and both are non-empty; otherwise the new range becomes an
/// entry of its own.
pub proof fn lemma_push_merges_iff(rs: Seq<Range<usize>>, r: Range<usize>)
    requires
        rs.len() > 0,
    ensures
        (r.start == rs.last().end && rs.last().start < rs.last().end && r.start < r.end)
            ==> pushed(rs, r) == rs.drop_last().push(Range { start: rs.last().start, end: r.end }),
        !(r.start == rs.last().end && rs.last().start < rs.last().end && r.start < r.end)
            ==> pushed(rs, r) == rs.push(r),
{
}

/// An empty range is never merged away: pushing one, or pushing after one,
/// appends the new range as an entry of its own and keeps every earlier entry.
pub proof fn lemma_push_keeps_empty(rs: Seq<Range<usize>>, r: Range<usize>)
    requires
        r.start == r.end || (rs.len() > 0 && rs.last().start == rs.last().end),
    ensures
        pushed(rs, r) == rs.push(r),
        pushed(rs, r).len() == rs.len() + 1,
        pushed(rs, r).last() == r,
{
}

} // verus!
