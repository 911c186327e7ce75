use crate::ranges::{chains, collapsed, pushed, pushed_all, Ranges};
use std::borrow::Cow;
use std::ops::Range;
use vstd::prelude::*;
use vstd::string::{StringExecFns, StringSliceAdditionalSpecFns};
use vstd::utf8::*;

verus! {

broadcast use group_utf8_lib;

/// The bytes of `text` that the range `r` covers.
pub open spec fn piece(text: Seq<u8>, r: Range<usize>) -> Seq<u8> {
    text.subrange(r.start as int, r.end as int)
}

/// The bytes that each range of `rs` covers in `text`, one after another in
/// the order of `rs`.
pub open spec fn joined(text: Seq<u8>, rs: Seq<Range<usize>>) -> Seq<u8>
    decreases rs.len(),
{
    if rs.len() == 0 {
        Seq::empty()
    } else {
        joined(text, rs.drop_last()) + piece(text, rs.last())
    }
}

/// `r` can be cut out of the UTF-8 bytes `text`: it does not run backwards
/// and both ends fall on character boundaries, within the text.
pub open spec fn sliceable(text: Seq<u8>, r: Range<usize>) -> bool {
    &&& r.start <= r.end
    &&& is_char_boundary(text, r.start as int)
    &&& is_char_boundary(text, r.end as int)
}

/// Every range of `rs` can be cut out of `text`.
pub open spec fn all_sliceable(text: Seq<u8>, rs: Seq<Range<usize>>) -> bool {
    forall|i: int| 0 <= i < rs.len() ==> sliceable(text, #[trigger] rs[i])
}

/// What extracting `rs` from `text` cuts: the collapsed range when there is
/// one, every range of `rs` otherwise.
pub open spec fn extractable(text: Seq<u8>, rs: Seq<Range<usize>>) -> bool {
    match collapsed(rs) {
        Some(c) => sliceable(text, c),
        None => all_sliceable(text, rs),
    }
}

/// UTF-8 encoding maps a concatenation to the concatenation of the encodings.
pub proof fn lemma_encode_concat(a: Seq<char>, b: Seq<char>)
    ensures
        encode_utf8(a + b) == encode_utf8(a) + encode_utf8(b),
    decreases a.len(),
{
    if a.len() == 0 {
        assert(a + b =~= b);
    } else {
        lemma_encode_concat(a.drop_first(), b);
        assert((a + b).drop_first() =~= a.drop_first() + b);
        assert(encode_utf8(a + b) =~= encode_utf8(a) + encode_utf8(b));
    }
}

/// A single range covers just its own bytes.
pub proof fn lemma_joined_single(text: Seq<u8>, rs: Seq<Range<usize>>)
    requires
        rs.len() == 1,
    ensures
        joined(text, rs) == piece(text, rs[0]),
{
    assert(rs.drop_last() =~= Seq::<Range<usize>>::empty());
    assert(joined(text, rs.drop_last()) =~= Seq::<u8>::empty());
    assert(joined(text, rs) =~= piece(text, rs[0]));
}

/// A chain of ranges covers exactly the bytes of the one range it collapses to.
pub proof fn lemma_chain_joined(text: Seq<u8>, rs: Seq<Range<usize>>)
    requires
        rs.len() > 0,
        chains(rs),
        rs.last().end <= text.len(),
    ensures
        rs[0].start <= rs.last().end,
        joined(text, rs) == text.subrange(rs[0].start as int, rs.last().end as int),
    decreases rs.len(),
{
    let p = rs.drop_last();
    if rs.len() == 1 {
        lemma_joined_single(text, rs);
    } else {
        assert(rs[rs.len() - 1].start == rs[rs.len() - 2].end);
        assert(chains(p)) by {
            assert forall|i: int| 0 < i < p.len() implies (#[trigger] p[i]).start == p[i - 1].end by {
                assert(rs[i].start == rs[i - 1].end);
            }
            assert forall|i: int| 0 <= i < p.len() implies crate::ranges::valid_range(#[trigger] p[i]) by {
                assert(crate::ranges::valid_range(rs[i]));
            }
        }
        assert(crate::ranges::valid_range(rs.last()));
        lemma_chain_joined(text, p);
        assert(text.subrange(rs[0].start as int, rs.last().end as int) =~= text.subrange(
            rs[0].start as int,
            p.last().end as int,
        ) + piece(text, rs.last()));
    }
}

/// When ranges collapse, the one range they collapse to covers exactly the
/// bytes of all of them, one after another: borrowing it gives the same text
/// as concatenating them.
pub proof fn lemma_collapsed_covers_joined(text: Seq<u8>, rs: Seq<Range<usize>>)
    requires
        collapsed(rs) is Some,
        collapsed(rs)->0.end <= text.len(),
    ensures
        joined(text, rs) == piece(text, collapsed(rs)->0),
{
    if rs.len() == 0 {
        assert(joined(text, rs) =~= piece(text, collapsed(rs)->0));
    } else {
        lemma_chain_joined(text, rs);
    }
}

/// Pushing a range that can be cut out of `text` adds its bytes at the end,
/// whether it was merged or appended, and keeps every entry cuttable.
pub proof fn lemma_push_joined(text: Seq<u8>, rs: Seq<Range<usize>>, r: Range<usize>)
    requires
        valid_utf8(text),
        all_sliceable(text, rs),
        sliceable(text, r),
    ensures
        all_sliceable(text, pushed(rs, r)),
        joined(text, pushed(rs, r)) == joined(text, rs) + piece(text, r),
{
    let q = pushed(rs, r);
    if rs.len() > 0 && crate::ranges::mergeable(rs.last(), r) {
        let l = rs.last();
        let p = rs.drop_last();
        let m = Range { start: l.start, end: r.end };
        assert(sliceable(text, l));
        assert(q.drop_last() =~= p);
        assert(q.last() == m);
        assert(piece(text, m) =~= piece(text, l) + piece(text, r));
        assert(sliceable(text, m));
        assert forall|i: int| 0 <= i < q.len() implies sliceable(text, #[trigger] q[i]) by {
            if i < q.len() - 1 {
                assert(q[i] == rs[i]);
            }
        }
    } else {
        assert(q.drop_last() =~= rs);
        assert forall|i: int| 0 <= i < q.len() implies sliceable(text, #[trigger] q[i]) by {
            if i < q.len() - 1 {
                assert(q[i] == rs[i]);
            }
        }
    }
}

/// Pushing ranges one by one keeps their text: the entries of the resulting
/// set cover the same bytes, in the same order, as the ranges pushed, so
/// extracting from the set and extracting from the ranges give equal text.
pub proof fn lemma_pushed_all_joined(
    text: Seq<u8>,
    base: Seq<Range<usize>>,
    items: Seq<Range<usize>>,
)
    requires
        valid_utf8(text),
        all_sliceable(text, base),
        all_sliceable(text, items),
    ensures
        all_sliceable(text, pushed_all(base, items)),
        joined(text, pushed_all(base, items)) == joined(text, base) + joined(text, items),
    decreases items.len(),
{
    if items.len() == 0 {
        assert(joined(text, items) =~= Seq::<u8>::empty());
        assert(joined(text, base) + joined(text, items) =~= joined(text, base));
    } else {
        let init = items.drop_last();
        assert(all_sliceable(text, init)) by {
            assert forall|i: int| 0 <= i < init.len() implies sliceable(text, #[trigger] init[i]) by {
                assert(init[i] == items[i]);
            }
        }
        assert(sliceable(text, items[items.len() - 1]));
        lemma_pushed_all_joined(text, base, init);
        lemma_push_joined(text, pushed_all(base, init), items.last());
        assert(joined(text, base) + joined(text, items) =~= joined(text, base) + joined(text, init)
            + piece(text, items.last()));
    }
}

/// Holds a source string to extract borrowed or owned pieces from.
#[derive(Debug, Clone)]
pub struct Strloin<'a> {
    pub source: &'a str,
}

impl<'a> Strloin<'a> {
    /// The UTF-8 bytes of the source string, which ranges index into.
    pub open spec fn text(&self) -> Seq<u8> {
        self.source.spec_bytes()
    }

    /// Constructs a new `Strloin` over `source`.
    pub fn new(source: &'a str) -> (r: Self)
        ensures
            r.source == source,
    {
        Strloin { source }
    }

    /// Borrows the part of the source that `range` covers.
    fn slice(&self, range: &Range<usize>) -> (s: &'a str)
        requires
            sliceable(self.text(), *range),
        ensures
            s.spec_bytes() == piece(self.text(), *range),
    {
        let source: &'a str = self.source;
        let (_, rest) = source.split_at(range.start);
        proof {
            let text = self.text();
            let k = range.end - range.start;
            let tail = text.subrange(range.start as int, text.len() as int);
            assert(valid_utf8(tail));
            if k > 0 && range.end < text.len() {
                assert(tail[k] == text[range.end as int]);
                assert(is_char_boundary(tail, k) <==> !is_continuation_byte(tail[k]));
                assert(is_char_boundary(text, range.end as int) <==> !is_continuation_byte(
                    text[range.end as int],
                ));
            } else if k > 0 {
                assert(is_char_boundary(tail, tail.len() as int));
            }
        }
        let (mid, _) = rest.split_at(range.end - range.start);
        proof {
            assert(mid.spec_bytes() =~= piece(self.text(), *range));
        }
        mid
    }

    /// Copies the parts of the source that `ranges` cover, one after another.
    fn concat(&self, ranges: &[Range<usize>]) -> (s: String)
        requires
            all_sliceable(self.text(), ranges@),
        ensures
            encode_utf8(s@) == joined(self.text(), ranges@),
    {
        let mut out = String::new();
        let mut i: usize = 0;
        while i < ranges.len()
            invariant
                i <= ranges.len(),
                all_sliceable(self.text(), ranges@),
                encode_utf8(out@) == joined(self.text(), ranges@.take(i as int)),
            decreases ranges.len() - i,
        {
            let part = self.slice(&ranges[i]);
            let ghost before = out@;
            out.append(part);
            proof {
                lemma_encode_concat(before, part@);
                assert(ranges@.take(i + 1).drop_last() =~= ranges@.take(i as int));
            }
            i = i + 1;
        }
        assert(ranges@.take(i as int) =~= ranges@);
        out
    }

    /// Extracts the text that `ranges` cover. When they collapse to a single
    /// range the result borrows from the source; otherwise it is an owned
    /// concatenation of every range, in the order given.
    pub fn from_ranges(&self, ranges: &[Range<usize>]) -> (r: Cow<'a, str>)
        requires
            extractable(self.text(), ranges@),
        ensures
            (r is Borrowed) == (collapsed(ranges@) is Some),
            encode_utf8(r@) == joined(self.text(), ranges@),
    {
        match crate::ranges::collapse_ranges(ranges) {
            Some(range) => {
                let s = self.slice(&range);
                proof {
                    lemma_collapsed_covers_joined(self.text(), ranges@);
                }
                Cow::Borrowed(s)
            },
            None => Cow::Owned(self.concat(ranges)),
        }
    }

    /// Extracts the text that the entries of `ranges` cover. Since pushing
    /// already merged every entry it could, no entry or one entry borrows
    /// from the source, and more than one is copied into an owned string.
    pub fn from_ranges_obj(&self, ranges: &Ranges) -> (r: Cow<'a, str>)
        requires
            all_sliceable(self.text(), ranges@),
        ensures
            (r is Borrowed) == (ranges@.len() <= 1),
            encode_utf8(r@) == joined(self.text(), ranges@),
    {
        let n = ranges.ranges.len();
        if n == 0 {
            proof {
                reveal_strlit("");
            }
            Cow::Borrowed("")
        } else if n == 1 {
            let s = self.slice(&ranges.ranges[0]);
            proof {
                lemma_joined_single(self.text(), ranges@);
            }
            Cow::Borrowed(s)
        } else {
            Cow::Owned(self.concat(ranges.ranges.as_slice()))
        }
    }
}

impl<'a> From<&'a str> for Strloin<'a> {
    fn from(source: &'a str) -> (r: Self) {
        Strloin::new(source)
    }
}

impl<'a> vstd::std_specs::convert::FromSpecImpl<&'a str> for Strloin<'a> {
    open spec fn obeys_from_spec() -> bool {
        true
    }

    open spec fn from_spec(source: &'a str) -> Strloin<'a> {
        Strloin { source }
    }
}

} // verus!
