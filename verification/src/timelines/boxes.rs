//! Axis-aligned boxes over integer segments, grouped into worlds, and the enumeration of the
//! combinations of values taken from several generators.
use vstd::prelude::*;
use crate::timelines::groundings::{IntCst, lex_lt, lemma_lex_total};

verus! {

/// A segment with a first and a last element (empty when the last comes before the first).
#[derive(Debug, Copy, Clone, PartialEq, Eq, Structural)]
pub struct Segment {
    pub first: IntCst,
    pub last: IntCst,
}

/// Whether the segment `s` holds the value `v`.
pub open spec fn seg_contains(s: Segment, v: int) -> bool {
    s.first <= v <= s.last
}

/// Whether two segments share a value: both hold some value, and neither ends before the
/// other starts.
pub open spec fn seg_overlaps(a: Segment, b: Segment) -> bool {
    a.first <= a.last && b.first <= b.last && !(a.last < b.first || b.last < a.first)
}

impl Segment {
    pub fn new(first: IntCst, last: IntCst) -> (res: Segment)
        ensures
            res == (Segment { first, last }),
    {
        Segment { first, last }
    }

    /// The segment of all possible values.
    pub fn all() -> (res: Segment)
        ensures
            res == (Segment { first: IntCst::MIN, last: IntCst::MAX }),
    {
        Segment { first: IntCst::MIN, last: IntCst::MAX }
    }

    /// The segment that holds only `val`.
    pub fn point(val: IntCst) -> (res: Segment)
        ensures
            res == (Segment { first: val, last: val }),
    {
        Segment { first: val, last: val }
    }

    /// A segment without any value.
    pub fn empty() -> (res: Segment)
        ensures
            res == (Segment { first: IntCst::MAX, last: IntCst::MIN }),
    {
        Segment { first: IntCst::MAX, last: IntCst::MIN }
    }

    /// Whether the two segments overlap: they share a value (an empty segment overlaps none).
    pub fn overlaps(&self, other: &Segment) -> (res: bool)
        ensures
            res == seg_overlaps(*self, *other),
            res <==> exists|v: int| #[trigger] seg_contains(*self, v) && seg_contains(*other, v),
    {
        proof {
            if seg_overlaps(*self, *other) {
                let v = if self.first <= other.first { other.first as int } else { self.first as int };
                assert(seg_contains(*self, v) && seg_contains(*other, v));
            }
        }
        self.first <= self.last && other.first <= other.last && !(self.last < other.first || other.last < self.first)
    }

    /// Extends this segment to the smallest one that covers both.
    pub fn union(&mut self, other: &Segment)
        ensures
            final(self).first == if old(self).first <= other.first {
                old(self).first
            } else {
                other.first
            },
            final(self).last == if old(self).last >= other.last {
                old(self).last
            } else {
                other.last
            },
    {
        if other.first < self.first {
            self.first = other.first;
        }
        if other.last > self.last {
            self.last = other.last;
        }
    }

    /// The values of the segment, as a range.
    pub fn points(&self) -> (res: std::ops::RangeInclusive<IntCst>)
        ensures
            res@.start == self.first,
            res@.end == self.last,
            !res@.exhausted,
    {
        std::ops::RangeInclusive::new(self.first, self.last)
    }
}

impl From<(IntCst, IntCst)> for Segment {
    fn from(bounds: (IntCst, IntCst)) -> (res: Segment) {
        Segment::new(bounds.0, bounds.1)
    }
}

impl vstd::std_specs::convert::FromSpecImpl<(IntCst, IntCst)> for Segment {
    open spec fn obeys_from_spec() -> bool {
        true
    }

    open spec fn from_spec(bounds: (IntCst, IntCst)) -> Segment {
        Segment { first: bounds.0, last: bounds.1 }
    }
}

/// Whether two boxes of the same dimension overlap on every dimension.
pub open spec fn boxes_overlap(a: Seq<Segment>, b: Seq<Segment>) -> bool {
    forall|i: int| 0 <= i < a.len() ==> seg_overlaps(#[trigger] a[i], b[i])
}

/// Whether two boxes overlap on every dimension.
fn segments_overlap(a: &[Segment], b: &[Segment]) -> (res: bool)
    requires
        a@.len() == b@.len(),
    ensures
        res == boxes_overlap(a@, b@),
{
    let mut i: usize = 0;
    while i < a.len()
        invariant
            i <= a@.len() == b@.len(),
            forall|k: int| 0 <= k < i ==> seg_overlaps(#[trigger] a@[k], b@[k]),
        decreases a@.len() - i,
    {
        if !a[i].overlaps(&b[i]) {
            return false;
        }
        i = i + 1;
    }
    true
}

/// A copy of the segments.
fn copy_segments(s: &[Segment]) -> (res: Vec<Segment>)
    ensures
        res@ == s@,
{
    let mut v: Vec<Segment> = Vec::new();
    let mut i: usize = 0;
    while i < s.len()
        invariant
            i <= s@.len(),
            v@ == s@.subrange(0, i as int),
        decreases s@.len() - i,
    {
        v.push(s[i]);
        assert(v@ =~= s@.subrange(0, i + 1));
        i = i + 1;
    }
    assert(v@ =~= s@);
    v
}

/// An axis-aligned box, owned: its projection on each dimension.
#[derive(Debug, Clone)]
pub struct BBox {
    dimensions: Vec<Segment>,
}

impl View for BBox {
    type V = Seq<Segment>;

    closed spec fn view(&self) -> Seq<Segment> {
        self.dimensions@
    }
}

impl BBox {
    pub fn new(dims: Vec<Segment>) -> (res: BBox)
        ensures
            res@ == dims@,
    {
        BBox { dimensions: dims }
    }

    /// Extends each segment of this box to cover the one of `other` (same dimension).
    pub fn union(&mut self, other: BoxRef<'_>)
        requires
            old(self)@.len() == other@.len(),
        ensures
            final(self)@.len() == old(self)@.len(),
            forall|i: int| 0 <= i < old(self)@.len() ==> {
                let (a, b, c) = (old(self)@[i], other@[i], #[trigger] final(self)@[i]);
                &&& c.first == if a.first <= b.first {
                    a.first
                } else {
                    b.first
                }
                &&& c.last == if a.last >= b.last {
                    a.last
                } else {
                    b.last
                }
            },
    {
        let mut i: usize = 0;
        while i < self.dimensions.len()
            invariant
                i <= self.dimensions@.len() == old(self)@.len() == other@.len(),
                forall|k: int| i <= k < self.dimensions@.len() ==> #[trigger] self.dimensions@[k] == old(self)@[k],
                forall|k: int| 0 <= k < i ==> {
                    let (a, b, c) = (old(self)@[k], other@[k], #[trigger] self.dimensions@[k]);
                    &&& c.first == if a.first <= b.first {
                        a.first
                    } else {
                        b.first
                    }
                    &&& c.last == if a.last >= b.last {
                        a.last
                    } else {
                        b.last
                    }
                },
            decreases self.dimensions@.len() - i,
        {
            let mut s = self.dimensions[i];
            s.union(&other.dimensions[i]);
            self.dimensions.set(i, s);
            i = i + 1;
        }
    }

    /// A borrowed view of this box.
    pub fn as_ref(&self) -> (res: BoxRef<'_>)
        ensures
            res@ == self@,
    {
        BoxRef::new(self.dimensions.as_slice())
    }

    /// The segments of this box.
    pub fn segments(&self) -> (res: &[Segment])
        ensures
            res@ == self@,
    {
        self.dimensions.as_slice()
    }
}

/// An axis-aligned box, borrowed: its projection on each dimension.
#[derive(Debug, Copy, Clone)]
pub struct BoxRef<'a> {
    dimensions: &'a [Segment],
}

impl<'a> View for BoxRef<'a> {
    type V = Seq<Segment>;

    closed spec fn view(&self) -> Seq<Segment> {
        self.dimensions@
    }
}

impl<'a> BoxRef<'a> {
    pub fn new(dimensions: &'a [Segment]) -> (res: BoxRef<'a>)
        ensures
            res@ == dimensions@,
    {
        BoxRef { dimensions }
    }

    /// Whether the two boxes (of the same dimension) overlap.
    pub fn overlaps(&self, other: BoxRef<'a>) -> (res: bool)
        requires
            self@.len() == other@.len(),
        ensures
            res == boxes_overlap(self@, other@),
    {
        segments_overlap(self.dimensions, other.dimensions)
    }

    /// An owned copy of the box.
    pub fn to_owned(&self) -> (res: BBox)
        ensures
            res@ == self@,
    {
        BBox::new(copy_segments(self.dimensions))
    }

    /// The segment of the last dimension, if any.
    pub fn last(&self) -> (res: Option<Segment>)
        ensures
            res == if self@.len() == 0 {
                None
            } else {
                Some(self@.last())
            },
    {
        if self.dimensions.len() == 0 {
            None
        } else {
            Some(self.dimensions[self.dimensions.len() - 1])
        }
    }

    /// The box without its first `n` dimensions.
    pub fn drop_head(&self, n: usize) -> (res: BoxRef<'a>)
        requires
            n <= self@.len(),
        ensures
            res@ == self@.skip(n as int),
    {
        let d = self.dimensions;
        let rest = &d[n..d.len()];
        assert(rest@ =~= self@.skip(n as int));
        BoxRef { dimensions: rest }
    }

    /// The box without its last `n` dimensions.
    pub fn drop_tail(&self, n: usize) -> (res: BoxRef<'a>)
        requires
            n <= self@.len(),
        ensures
            res@ == self@.subrange(0, self@.len() - n),
    {
        let d = self.dimensions;
        let rest = &d[0..d.len() - n];
        assert(rest@ =~= self@.subrange(0, self@.len() - n));
        BoxRef { dimensions: rest }
    }
}


/// The pairs `(i, j)` of boxes, for `j` from `j0` on, that overlap the box `i`, in order.
pub open spec fn pairs_with(b: Seq<Seq<Segment>>, i: int, j0: int) -> Seq<(int, int)>
    decreases b.len() - j0,
{
    if j0 >= b.len() || j0 < 0 {
        seq![]
    } else {
        (if boxes_overlap(b[i], b[j0]) {
            seq![(i, j0)]
        } else {
            seq![]
        }) + pairs_with(b, i, j0 + 1)
    }
}

/// The pairs `(i, j)` of overlapping boxes with `i0 <= i < j`, in lexicographic order.
pub open spec fn pairs_from(b: Seq<Seq<Segment>>, i0: int) -> Seq<(int, int)>
    decreases b.len() - i0,
{
    if i0 >= b.len() || i0 < 0 {
        seq![]
    } else {
        pairs_with(b, i0, i0 + 1) + pairs_from(b, i0 + 1)
    }
}

/// The pairs that `pairs_with` lists are those `(i, j)` with `j0 <= j` whose boxes overlap.
proof fn lemma_pairs_with(b: Seq<Seq<Segment>>, i: int, j0: int)
    requires
        j0 >= 0,
    ensures
        forall|p: (int, int)| #[trigger] pairs_with(b, i, j0).contains(p) <==> (p.0 == i && j0 <= p.1 < b.len() && boxes_overlap(
            b[i],
            b[p.1],
        )),
    decreases b.len() - j0,
{
    if j0 < b.len() {
        lemma_pairs_with(b, i, j0 + 1);
        let head: Seq<(int, int)> = if boxes_overlap(b[i], b[j0]) {
            seq![(i, j0)]
        } else {
            seq![]
        };
        let rest = pairs_with(b, i, j0 + 1);
        assert forall|p: (int, int)| #[trigger] pairs_with(b, i, j0).contains(p) <==> (p.0 == i && j0 <= p.1 < b.len()
            && boxes_overlap(b[i], b[p.1])) by {
            assert(pairs_with(b, i, j0) == head + rest);
            if (head + rest).contains(p) {
                let k = choose|k: int| 0 <= k < (head + rest).len() && (head + rest)[k] == p;
                if k >= head.len() {
                    assert(rest[k - head.len()] == p);
                    assert(rest.contains(p));
                }
            }
            if p.0 == i && j0 <= p.1 < b.len() && boxes_overlap(b[i], b[p.1]) {
                if p.1 == j0 {
                    assert((head + rest)[0] == p);
                } else {
                    assert(rest.contains(p));
                    let k = choose|k: int| 0 <= k < rest.len() && rest[k] == p;
                    assert((head + rest)[head.len() + k] == p);
                }
            }
        }
    }
}

/// The pairs that `pairs_from` lists are exactly those `(i, j)` with `i0 <= i < j` whose boxes
/// overlap: `overlapping_boxes` reports every pair of overlapping boxes, and only those.
pub proof fn lemma_pairs_from(b: Seq<Seq<Segment>>, i0: int)
    requires
        i0 >= 0,
    ensures
        forall|p: (int, int)| #[trigger] pairs_from(b, i0).contains(p) <==> (i0 <= p.0 < p.1 < b.len() && boxes_overlap(
            b[p.0],
            b[p.1],
        )),
    decreases b.len() - i0,
{
    if i0 < b.len() {
        lemma_pairs_from(b, i0 + 1);
        lemma_pairs_with(b, i0, i0 + 1);
        let head = pairs_with(b, i0, i0 + 1);
        let rest = pairs_from(b, i0 + 1);
        assert forall|p: (int, int)| #[trigger] pairs_from(b, i0).contains(p) <==> (i0 <= p.0 < p.1 < b.len() && boxes_overlap(
            b[p.0],
            b[p.1],
        )) by {
            assert(pairs_from(b, i0) == head + rest);
            if (head + rest).contains(p) {
                let k = choose|k: int| 0 <= k < (head + rest).len() && (head + rest)[k] == p;
                if k < head.len() {
                    assert(head[k] == p);
                    assert(head.contains(p));
                } else {
                    assert(rest[k - head.len()] == p);
                    assert(rest.contains(p));
                }
            }
            if i0 <= p.0 < p.1 < b.len() && boxes_overlap(b[p.0], b[p.1]) {
                if p.0 == i0 {
                    assert(head.contains(p));
                    let k = choose|k: int| 0 <= k < head.len() && head[k] == p;
                    assert((head + rest)[k] == p);
                } else {
                    assert(rest.contains(p));
                    let k = choose|k: int| 0 <= k < rest.len() && rest[k] == p;
                    assert((head + rest)[head.len() + k] == p);
                }
            }
        }
    }
}

/// Overlap of segments and of boxes does not depend on the order of the two.
pub proof fn lemma_overlap_symmetric(a: Seq<Segment>, b: Seq<Segment>)
    requires
        a.len() == b.len(),
    ensures
        boxes_overlap(a, b) == boxes_overlap(b, a),
        forall|i: int| 0 <= i < a.len() ==> seg_overlaps(#[trigger] a[i], b[i]) == seg_overlaps(b[i], a[i]),
{
}

/// The tags of the pairs of boxes `ps`.
pub open spec fn tag_pairs<Tag>(tags: Seq<Tag>, ps: Seq<(int, int)>) -> Seq<(Tag, Tag)> {
    ps.map_values(|p: (int, int)| (tags[p.0], tags[p.1]))
}

/// The tags, from box `i0` on, of the boxes that overlap `bx`.
pub open spec fn overlapping_tags<Tag>(b: Seq<Seq<Segment>>, tags: Seq<Tag>, bx: Seq<Segment>, i0: int) -> Seq<Tag>
    decreases b.len() - i0,
{
    if i0 >= b.len() || i0 < 0 {
        seq![]
    } else {
        (if boxes_overlap(bx, b[i0]) {
            seq![tags[i0]]
        } else {
            seq![]
        }) + overlapping_tags(b, tags, bx, i0 + 1)
    }
}

/// The tags reported for the boxes from `i0` on are exactly those of the boxes that overlap
/// `bx`: a tag is among them if and only if one of these boxes with that tag overlaps `bx`, and
/// the tag of every overlapping box is reported, not only that of the first.
pub proof fn law_overlapping_tags<Tag>(b: Seq<Seq<Segment>>, tags: Seq<Tag>, bx: Seq<Segment>, i0: int)
    requires
        0 <= i0,
        tags.len() >= b.len(),
    ensures
        forall|t: Tag| #[trigger] overlapping_tags(b, tags, bx, i0).contains(t) <==> exists|k: int|
            i0 <= k < b.len() && tags[k] == t && boxes_overlap(bx, #[trigger] b[k]),
        forall|k: int| i0 <= k < b.len() && #[trigger] boxes_overlap(bx, b[k]) ==> overlapping_tags(b, tags, bx, i0).contains(tags[k]),
    decreases b.len() - i0,
{
    if i0 < b.len() {
        law_overlapping_tags(b, tags, bx, i0 + 1);
        let head = if boxes_overlap(bx, b[i0]) {
            seq![tags[i0]]
        } else {
            seq![]
        };
        let rest = overlapping_tags(b, tags, bx, i0 + 1);
        assert(overlapping_tags(b, tags, bx, i0) == head + rest);
        assert forall|t: Tag| #[trigger] overlapping_tags(b, tags, bx, i0).contains(t) <==> exists|k: int|
            i0 <= k < b.len() && tags[k] == t && boxes_overlap(bx, #[trigger] b[k]) by {
            if (head + rest).contains(t) {
                let x = choose|x: int| 0 <= x < (head + rest).len() && (head + rest)[x] == t;
                if x < head.len() {
                    assert(head[x] == t);
                    assert(boxes_overlap(bx, b[i0]));
                } else {
                    assert(rest[x - head.len()] == t);
                    assert(rest.contains(t));
                }
            }
            if exists|k: int| i0 <= k < b.len() && tags[k] == t && boxes_overlap(bx, #[trigger] b[k]) {
                let k = choose|k: int| i0 <= k < b.len() && tags[k] == t && boxes_overlap(bx, #[trigger] b[k]);
                if k == i0 {
                    assert((head + rest)[0] == t);
                } else {
                    assert(boxes_overlap(bx, b[k]));
                    assert(rest.contains(t));
                    let x = choose|x: int| 0 <= x < rest.len() && rest[x] == t;
                    assert((head + rest)[head.len() + x] == t);
                }
            }
        }
        assert forall|k: int| i0 <= k < b.len() && #[trigger] boxes_overlap(bx, b[k]) implies overlapping_tags(b, tags, bx, i0).contains(
            tags[k],
        ) by {
            assert(overlapping_tags(b, tags, bx, i0).contains(tags[k]) <==> exists|k2: int|
                i0 <= k2 < b.len() && tags[k2] == tags[k] && boxes_overlap(bx, #[trigger] b[k2]));
        }
    } else {
        assert forall|t: Tag| #[trigger] overlapping_tags(b, tags, bx, i0).contains(t) <==> exists|k: int|
            i0 <= k < b.len() && tags[k] == t && boxes_overlap(bx, #[trigger] b[k]) by {
            assert(overlapping_tags(b, tags, bx, i0) =~= Seq::<Tag>::empty());
        }
    }
}

/// Positions of the boxes from `i0` on whose tags `overlapping_tags` reports, in order.
proof fn overlapping_positions<Tag>(b: Seq<Seq<Segment>>, tags: Seq<Tag>, bx: Seq<Segment>, i0: int) -> (idx: Seq<int>)
    requires
        0 <= i0,
    ensures
        idx.len() == overlapping_tags(b, tags, bx, i0).len(),
        forall|t: int|
            0 <= t < idx.len() ==> i0 <= #[trigger] idx[t] < b.len() && boxes_overlap(bx, b[idx[t]]) && overlapping_tags(b, tags, bx, i0)[t]
                == tags[idx[t]],
        forall|t: int, u: int| 0 <= t < u < idx.len() ==> #[trigger] idx[t] < #[trigger] idx[u],
        forall|k: int| i0 <= k < b.len() && #[trigger] boxes_overlap(bx, b[k]) ==> idx.contains(k),
    decreases b.len() - i0,
{
    if i0 >= b.len() {
        seq![]
    } else {
        let rec = overlapping_positions(b, tags, bx, i0 + 1);
        let rest = overlapping_tags(b, tags, bx, i0 + 1);
        if boxes_overlap(bx, b[i0]) {
            let idx = seq![i0] + rec;
            assert(overlapping_tags(b, tags, bx, i0) == seq![tags[i0]] + rest);
            assert forall|t: int| 0 <= t < idx.len() implies i0 <= #[trigger] idx[t] < b.len() && boxes_overlap(bx, b[idx[t]])
                && overlapping_tags(b, tags, bx, i0)[t] == tags[idx[t]] by {
                if t > 0 {
                    assert(idx[t] == rec[t - 1]);
                    assert(overlapping_tags(b, tags, bx, i0)[t] == rest[t - 1]);
                }
            }
            assert forall|t: int, u: int| 0 <= t < u < idx.len() implies #[trigger] idx[t] < #[trigger] idx[u] by {
                assert(idx[u] == rec[u - 1]);
                if t > 0 {
                    assert(idx[t] == rec[t - 1]);
                }
            }
            assert forall|k: int| i0 <= k < b.len() && #[trigger] boxes_overlap(bx, b[k]) implies idx.contains(k) by {
                if k == i0 {
                    assert(idx[0] == k);
                } else {
                    assert(rec.contains(k));
                    let x = choose|x: int| 0 <= x < rec.len() && rec[x] == k;
                    assert(idx[x + 1] == k);
                }
            }
            idx
        } else {
            assert(overlapping_tags(b, tags, bx, i0) =~= rest);
            rec
        }
    }
}

/// The tags reported for the boxes from `i0` on are those of the boxes that overlap `bx`, each
/// once and in the order of the boxes: there are increasing positions, exactly those of the
/// overlapping boxes from `i0` on, whose tags are the result, one for one.
pub proof fn law_overlapping_tags_in_order<Tag>(b: Seq<Seq<Segment>>, tags: Seq<Tag>, bx: Seq<Segment>, i0: int)
    requires
        0 <= i0,
    ensures
        exists|idx: Seq<int>|
            {
                &&& idx.len() == overlapping_tags(b, tags, bx, i0).len()
                &&& forall|t: int|
                    0 <= t < idx.len() ==> i0 <= #[trigger] idx[t] < b.len() && boxes_overlap(bx, b[idx[t]]) && overlapping_tags(
                        b,
                        tags,
                        bx,
                        i0,
                    )[t] == tags[idx[t]]
                &&& forall|t: int, u: int| 0 <= t < u < idx.len() ==> #[trigger] idx[t] < #[trigger] idx[u]
                &&& forall|k: int| i0 <= k < b.len() && #[trigger] boxes_overlap(bx, b[k]) ==> idx.contains(k)
            },
{
    let idx = overlapping_positions(b, tags, bx, i0);
}

/// A set of tagged boxes, all of the same dimension.
#[derive(Debug, Clone)]
pub struct BoxWorld<Tag> {
    boxes: Vec<Vec<Segment>>,
    tags: Vec<Tag>,
    num_dimensions: usize,
}

impl<Tag> BoxWorld<Tag> {
    /// The boxes, in the order they were added.
    pub closed spec fn boxes(&self) -> Seq<Seq<Segment>> {
        self.boxes@.map_values(|b: Vec<Segment>| b@)
    }

    /// The tag of each box.
    pub closed spec fn tags(&self) -> Seq<Tag> {
        self.tags@
    }

    /// The dimension of the boxes.
    pub closed spec fn dims(&self) -> nat {
        self.num_dimensions as nat
    }

    /// One tag per box, and every box of the dimension of the world.
    pub open spec fn wf(&self) -> bool {
        &&& self.boxes().len() == self.tags().len()
        &&& forall|i: int| 0 <= i < self.boxes().len() ==> (#[trigger] self.boxes()[i]).len() == self.dims()
    }

    /// A world of boxes of `dimensions` dimensions, without any box.
    pub fn new(dimensions: usize) -> (res: BoxWorld<Tag>)
        ensures
            res.wf(),
            res.boxes().len() == 0,
            res.dims() == dimensions,
    {
        let res = BoxWorld { boxes: Vec::new(), tags: Vec::new(), num_dimensions: dimensions };
        assert(res.boxes() =~= Seq::<Seq<Segment>>::empty());
        res
    }

    /// Adds a box (its projection on each dimension) with its tag.
    pub fn add(&mut self, bx: &[Segment], tag: Tag)
        requires
            old(self).wf(),
            bx@.len() == old(self).dims(),
        ensures
            final(self).wf(),
            final(self).dims() == old(self).dims(),
            final(self).boxes() == old(self).boxes().push(bx@),
            final(self).tags() == old(self).tags().push(tag),
    {
        let ghost b0 = self.boxes();
        self.boxes.push(copy_segments(bx));
        self.tags.push(tag);
        assert(self.boxes() =~= b0.push(bx@));
    }

    /// The boxes from the box `first_box` on.
    pub fn boxes_from(&self, first_box: usize) -> (res: Vec<BoxRef<'_>>)
        requires
            self.wf(),
            self.dims() > 0,
            first_box <= self.boxes().len(),
        ensures
            res@.map_values(|b: BoxRef| b@) == self.boxes().skip(first_box as int),
    {
        let mut res: Vec<BoxRef<'_>> = Vec::new();
        let mut i: usize = first_box;
        while i < self.boxes.len()
            invariant
                first_box <= i <= self.boxes@.len(),
                res@.map_values(|b: BoxRef| b@) == self.boxes().subrange(first_box as int, i as int),
            decreases self.boxes@.len() - i,
        {
            let ghost r0 = res@;
            res.push(BoxRef::new(self.boxes[i].as_slice()));
            proof {
                assert(res@.map_values(|b: BoxRef| b@) =~= r0.map_values(|b: BoxRef| b@).push(self.boxes@[i as int]@));
                assert(self.boxes().subrange(first_box as int, i + 1) =~= self.boxes().subrange(first_box as int, i as int).push(
                    self.boxes@[i as int]@,
                ));
            }
            i = i + 1;
        }
        assert(self.boxes().subrange(first_box as int, i as int) =~= self.boxes().skip(first_box as int));
        res
    }

    /// The tags from the box `first_box` on.
    pub fn tags_from(&self, first_box: usize) -> (res: &[Tag])
        requires
            self.wf(),
            first_box <= self.boxes().len(),
        ensures
            res@ == self.tags().skip(first_box as int),
    {
        let t = self.tags.as_slice();
        let r = &t[first_box..t.len()];
        assert(r@ =~= self.tags().skip(first_box as int));
        r
    }

    /// The tag and box of each box from `first_box` on.
    pub fn tagged_boxes_from(&self, first_box: usize) -> (res: Vec<(&Tag, BoxRef<'_>)>)
        requires
            self.wf(),
            self.dims() > 0,
            first_box <= self.boxes().len(),
        ensures
            res@.len() == self.boxes().len() - first_box,
            forall|k: int| 0 <= k < res@.len() ==> *(#[trigger] res@[k]).0 == self.tags()[first_box + k] && res@[k].1@
                == self.boxes()[first_box + k],
    {
        let mut res: Vec<(&Tag, BoxRef<'_>)> = Vec::new();
        let mut i: usize = first_box;
        while i < self.boxes.len()
            invariant
                first_box <= i <= self.boxes@.len() == self.tags@.len(),
                self.boxes() == self.boxes@.map_values(|b: Vec<Segment>| b@),
                res@.len() == i - first_box,
                forall|k: int| 0 <= k < res@.len() ==> *(#[trigger] res@[k]).0 == self.tags()[first_box + k] && res@[k].1@
                    == self.boxes()[first_box + k],
            decreases self.boxes@.len() - i,
        {
            res.push((&self.tags[i], BoxRef::new(self.boxes[i].as_slice())));
            i = i + 1;
        }
        res
    }

    /// The tag and box of each box.
    pub fn tagged_boxes(&self) -> (res: Vec<(&Tag, BoxRef<'_>)>)
        requires
            self.wf(),
            self.dims() > 0,
        ensures
            res@.len() == self.boxes().len(),
            forall|k: int| 0 <= k < res@.len() ==> *(#[trigger] res@[k]).0 == self.tags()[k] && res@[k].1@ == self.boxes()[k],
    {
        self.tagged_boxes_from(0)
    }

    /// The tags of the pairs of overlapping boxes: for each box, those after it that overlap it,
    /// in order.
    pub fn overlapping_boxes(&self) -> (res: Vec<(&Tag, &Tag)>)
        requires
            self.wf(),
            self.dims() > 0,
        ensures
            res@.map_values(|p: (&Tag, &Tag)| (*p.0, *p.1)) == tag_pairs(self.tags(), pairs_from(self.boxes(), 0)),
    {
        let ghost b = self.boxes();
        let ghost goal = tag_pairs(self.tags(), pairs_from(b, 0));
        let mut res: Vec<(&Tag, &Tag)> = Vec::new();
        let n = self.boxes.len();
        let mut i: usize = 0;
        proof {
            assert(res@.map_values(|p: (&Tag, &Tag)| (*p.0, *p.1)) + tag_pairs(self.tags(), pairs_from(b, 0)) =~= goal);
        }
        while i < n
            invariant
                i <= n == self.boxes@.len() == self.tags@.len(),
                b == self.boxes(),
                self.wf(),
                goal == tag_pairs(self.tags(), pairs_from(b, 0)),
                goal == res@.map_values(|p: (&Tag, &Tag)| (*p.0, *p.1)) + tag_pairs(self.tags(), pairs_from(b, i as int)),
            decreases n - i,
        {
            let mut j: usize = i + 1;
            proof {
                assert(pairs_from(b, i as int) == pairs_with(b, i as int, i + 1) + pairs_from(b, i + 1));
                assert(tag_pairs(self.tags(), pairs_with(b, i as int, i + 1) + pairs_from(b, i + 1)) =~= tag_pairs(
                    self.tags(),
                    pairs_with(b, i as int, i + 1),
                ) + tag_pairs(self.tags(), pairs_from(b, i + 1)));
                assert(goal =~= res@.map_values(|p: (&Tag, &Tag)| (*p.0, *p.1)) + (tag_pairs(self.tags(), pairs_with(b, i as int, i + 1)) + tag_pairs(self.tags(), pairs_from(b, i + 1))));
            }
            while j < n
                invariant
                    i < n == self.boxes@.len() == self.tags@.len(),
                    i + 1 <= j <= n,
                    b == self.boxes(),
                    self.wf(),
                    goal == res@.map_values(|p: (&Tag, &Tag)| (*p.0, *p.1)) + (tag_pairs(self.tags(), pairs_with(b, i as int, j as int))
                        + tag_pairs(self.tags(), pairs_from(b, i + 1))),
                decreases n - j,
            {
                let ghost r0 = res@.map_values(|p: (&Tag, &Tag)| (*p.0, *p.1));
                assert(b[i as int] == self.boxes@[i as int]@ && b[j as int] == self.boxes@[j as int]@);
                let ov = segments_overlap(self.boxes[i].as_slice(), self.boxes[j].as_slice());
                if ov {
                    res.push((&self.tags[i], &self.tags[j]));
                }
                proof {
                    let rest = tag_pairs(self.tags(), pairs_with(b, i as int, j + 1));
                    assert(pairs_with(b, i as int, j as int) == (if boxes_overlap(b[i as int], b[j as int]) {
                        seq![(i as int, j as int)]
                    } else {
                        seq![]
                    }) + pairs_with(b, i as int, j + 1));
                    if ov {
                        assert(res@.map_values(|p: (&Tag, &Tag)| (*p.0, *p.1)) =~= r0.push((self.tags()[i as int], self.tags()[j as int])));
                        assert(tag_pairs(self.tags(), pairs_with(b, i as int, j as int)) =~= seq![(self.tags()[i as int], self.tags()[j as int])] + rest);
                    } else {
                        assert(tag_pairs(self.tags(), pairs_with(b, i as int, j as int)) =~= rest);
                    }
                    assert(goal =~= res@.map_values(|p: (&Tag, &Tag)| (*p.0, *p.1)) + (rest + tag_pairs(self.tags(), pairs_from(b, i + 1))));
                }
                j = j + 1;
            }
            proof {
                assert(tag_pairs(self.tags(), pairs_with(b, i as int, j as int)) =~= Seq::<(Tag, Tag)>::empty());
                assert(goal =~= res@.map_values(|p: (&Tag, &Tag)| (*p.0, *p.1)) + tag_pairs(self.tags(), pairs_from(b, i + 1)));
            }
            i = i + 1;
        }
        proof {
            assert(tag_pairs(self.tags(), pairs_from(b, i as int)) =~= Seq::<(Tag, Tag)>::empty());
            assert(goal =~= res@.map_values(|p: (&Tag, &Tag)| (*p.0, *p.1)));
        }
        res
    }

    /// The tags of the boxes that overlap `bx`, in order.
    pub fn find_overlapping_with(&self, bx: BoxRef<'_>) -> (res: Vec<&Tag>)
        requires
            self.wf(),
            self.dims() > 0,
            self.boxes().len() == 0 || bx@.len() == self.dims(),
        ensures
            res@.map_values(|t: &Tag| *t) == overlapping_tags(self.boxes(), self.tags(), bx@, 0),
    {
        let ghost b = self.boxes();
        let ghost goal = overlapping_tags(b, self.tags(), bx@, 0);
        let mut res: Vec<&Tag> = Vec::new();
        let mut i: usize = 0;
        assert(res@.map_values(|t: &Tag| *t) + goal =~= goal);
        while i < self.boxes.len()
            invariant
                i <= self.boxes@.len() == self.tags@.len(),
                b == self.boxes(),
                self.wf(),
                self.boxes().len() == 0 || bx@.len() == self.dims(),
                goal == res@.map_values(|t: &Tag| *t) + overlapping_tags(b, self.tags(), bx@, i as int),
            decreases self.boxes@.len() - i,
        {
            let ghost r0 = res@.map_values(|t: &Tag| *t);
            assert(b[i as int] == self.boxes@[i as int]@);
            let ov = bx.overlaps(BoxRef::new(self.boxes[i].as_slice()));
            if ov {
                res.push(&self.tags[i]);
            }
            proof {
                let rest = overlapping_tags(b, self.tags(), bx@, i + 1);
                if ov {
                    assert(res@.map_values(|t: &Tag| *t) =~= r0.push(self.tags()[i as int]));
                    assert(r0 + (seq![self.tags()[i as int]] + rest) =~= res@.map_values(|t: &Tag| *t) + rest);
                } else {
                    assert(overlapping_tags(b, self.tags(), bx@, i as int) =~= rest);
                }
            }
            i = i + 1;
        }
        assert(res@.map_values(|t: &Tag| *t) + Seq::<Tag>::empty() =~= res@.map_values(|t: &Tag| *t));
        res
    }
}

/// A set of tagged boxes, partitioned into worlds identified by integers: the overlaps are only
/// looked for between boxes of the same world.
#[derive(Debug, Clone)]
pub struct BoxUniverse<Tag> {
    worlds: Vec<(u64, BoxWorld<Tag>)>,
}

/// The world `k` of the worlds `ws` (sorted by identifier), if there is one.
pub open spec fn world_in<Tag>(ws: Seq<(u64, BoxWorld<Tag>)>, k: u64) -> Option<BoxWorld<Tag>> {
    if exists|i: int| 0 <= i < ws.len() && (#[trigger] ws[i]).0 == k {
        Some(ws[choose|i: int| 0 <= i < ws.len() && (#[trigger] ws[i]).0 == k].1)
    } else {
        None
    }
}

/// The tags of the pairs of overlapping boxes of each world from the `i0`-th on, world after
/// world in increasing order of identifiers.
pub open spec fn universe_pairs<Tag>(ws: Seq<(u64, BoxWorld<Tag>)>, i0: int) -> Seq<(Tag, Tag)>
    decreases ws.len() - i0,
{
    if i0 >= ws.len() || i0 < 0 {
        seq![]
    } else {
        tag_pairs(ws[i0].1.tags(), pairs_from(ws[i0].1.boxes(), 0)) + universe_pairs(ws, i0 + 1)
    }
}

impl<Tag> BoxUniverse<Tag> {
    /// The worlds, in increasing order of identifiers.
    pub closed spec fn worlds(&self) -> Seq<(u64, BoxWorld<Tag>)> {
        self.worlds@
    }

    /// The world `k`, if there is one.
    pub open spec fn world_of(&self, k: u64) -> Option<BoxWorld<Tag>> {
        world_in(self.worlds(), k)
    }

    /// The worlds are sorted by identifier, without repeats, and each is well formed.
    pub open spec fn wf(&self) -> bool {
        &&& forall|i: int, j: int| 0 <= i < j < self.worlds().len() ==> (#[trigger] self.worlds()[i]).0 < (
        #[trigger] self.worlds()[j]).0
        &&& forall|i: int| 0 <= i < self.worlds().len() ==> (#[trigger] self.worlds()[i]).1.wf()
    }

    /// No world.
    pub fn new() -> (res: BoxUniverse<Tag>)
        ensures
            res.wf(),
            res.worlds().len() == 0,
    {
        BoxUniverse { worlds: Vec::new() }
    }

    /// The position of the first world whose identifier is not below `world`.
    fn position(&self, world: u64) -> (p: usize)
        requires
            self.wf(),
        ensures
            p <= self.worlds().len(),
            forall|i: int| 0 <= i < p ==> (#[trigger] self.worlds()[i]).0 < world,
            p < self.worlds().len() ==> self.worlds()[p as int].0 >= world,
    {
        let mut p: usize = 0;
        while p < self.worlds.len()
            invariant
                p <= self.worlds@.len(),
                forall|i: int| 0 <= i < p ==> (#[trigger] self.worlds()[i]).0 < world,
            decreases self.worlds@.len() - p,
        {
            if self.worlds[p].0 >= world {
                return p;
            }
            p = p + 1;
        }
        p
    }

    /// Adds a box to the world `world` (made, for boxes of its dimension, if there is none),
    /// with the tag that overlaps report.
    pub fn add_box(&mut self, world: &u64, bx: &[Segment], tag: Tag)
        requires
            old(self).wf(),
            old(self).world_of(*world) matches Some(w) ==> bx@.len() == w.dims(),
        ensures
            final(self).wf(),
            forall|k: u64| k != *world ==> #[trigger] final(self).world_of(k) == old(self).world_of(k),
            final(self).world_of(*world) matches Some(w) && w.tags() == match old(self).world_of(*world) {
                Some(w0) => w0.tags().push(tag),
                None => seq![tag],
            } && w.boxes() == match old(self).world_of(*world) {
                Some(w0) => w0.boxes().push(bx@),
                None => seq![bx@],
            } && w.dims() == match old(self).world_of(*world) {
                Some(w0) => w0.dims(),
                None => bx@.len(),
            },
    {
        let k = *world;
        let p = self.position(k);
        let ghost ws0 = self.worlds();
        if p < self.worlds.len() && self.worlds[p].0 == k {
            let (key, mut w) = self.worlds.remove(p);
            proof {
                assert(world_in(ws0, k) == Some(w)) by {
                    let i = choose|i: int| 0 <= i < ws0.len() && (#[trigger] ws0[i]).0 == k;
                    if i != p {
                        if i < p {
                            assert(ws0[i].0 < k);
                        } else {
                            assert(ws0[p as int].0 < ws0[i].0);
                        }
                    }
                }
                assert(ws0[p as int].1.wf());
            }
            w.add(bx, tag);
            self.worlds.insert(p, (key, w));
            proof {
                let ws = self.worlds();
                assert(ws =~= ws0.update(p as int, (key, w)));
                assert forall|kk: u64| kk != k implies #[trigger] world_in(ws, kk) == world_in(ws0, kk) by {
                    if exists|i: int| 0 <= i < ws0.len() && (#[trigger] ws0[i]).0 == kk {
                        let i = choose|i: int| 0 <= i < ws0.len() && (#[trigger] ws0[i]).0 == kk;
                        assert(ws[i].0 == kk);
                        let i2 = choose|i2: int| 0 <= i2 < ws.len() && (#[trigger] ws[i2]).0 == kk;
                        if i2 != i {
                            if i2 < i {
                                assert(ws0[i2].0 < ws0[i].0);
                            } else {
                                assert(ws0[i].0 < ws0[i2].0);
                            }
                        }
                    } else {
                        if exists|i: int| 0 <= i < ws.len() && (#[trigger] ws[i]).0 == kk {
                            let i = choose|i: int| 0 <= i < ws.len() && (#[trigger] ws[i]).0 == kk;
                            assert(ws0[i].0 == kk);
                        }
                    }
                }
                assert(world_in(ws, k) == Some(w)) by {
                    assert(ws[p as int].0 == k);
                    let i = choose|i: int| 0 <= i < ws.len() && (#[trigger] ws[i]).0 == k;
                    if i != p {
                        if i < p {
                            assert(ws0[i].0 < k);
                        } else {
                            assert(ws0[p as int].0 < ws0[i].0);
                        }
                    }
                }
            }
        } else {
            let mut w: BoxWorld<Tag> = BoxWorld::new(bx.len());
            w.add(bx, tag);
            proof {
                assert(world_in(ws0, k) is None) by {
                    if exists|i: int| 0 <= i < ws0.len() && (#[trigger] ws0[i]).0 == k {
                        let i = choose|i: int| 0 <= i < ws0.len() && (#[trigger] ws0[i]).0 == k;
                        if i < p {
                            assert(ws0[i].0 < k);
                        } else if i > p {
                            assert(ws0[p as int].0 < ws0[i].0);
                        }
                    }
                }
                assert(w.boxes() =~= seq![bx@]);
                assert(w.tags() =~= seq![tag]);
            }
            self.worlds.insert(p, (k, w));
            proof {
                let ws = self.worlds();
                assert(ws =~= ws0.insert(p as int, (k, w)));
                assert forall|kk: u64| kk != k implies #[trigger] world_in(ws, kk) == world_in(ws0, kk) by {
                    if exists|i: int| 0 <= i < ws0.len() && (#[trigger] ws0[i]).0 == kk {
                        let i = choose|i: int| 0 <= i < ws0.len() && (#[trigger] ws0[i]).0 == kk;
                        let j = if i < p { i } else { i + 1 };
                        assert(ws[j].0 == kk);
                        let i2 = choose|i2: int| 0 <= i2 < ws.len() && (#[trigger] ws[i2]).0 == kk;
                        if i2 != j {
                            if i2 < j {
                                assert(ws[i2].0 < ws[j].0);
                            } else {
                                assert(ws[j].0 < ws[i2].0);
                            }
                        }
                    } else {
                        if exists|i: int| 0 <= i < ws.len() && (#[trigger] ws[i]).0 == kk {
                            let i = choose|i: int| 0 <= i < ws.len() && (#[trigger] ws[i]).0 == kk;
                            if i < p {
                                assert(ws0[i].0 == kk);
                            } else if i > p {
                                assert(ws0[i - 1].0 == kk);
                            }
                        }
                    }
                }
                assert(world_in(ws, k) == Some(w)) by {
                    assert(ws[p as int].0 == k);
                    let i = choose|i: int| 0 <= i < ws.len() && (#[trigger] ws[i]).0 == k;
                    if i != p {
                        if i < p {
                            assert(ws0[i].0 < k);
                        } else {
                            assert(ws0[i - 1].0 >= k);
                            if p < ws0.len() {
                                assert(ws0[p as int].0 > k);
                            }
                        }
                    }
                }
            }
        }
    }

    /// The tags of the pairs of overlapping boxes, world after world in increasing order of
    /// identifiers (boxes of different worlds never overlap).
    pub fn overlapping_boxes(&self) -> (res: Vec<(&Tag, &Tag)>)
        requires
            self.wf(),
            forall|i: int| 0 <= i < self.worlds().len() ==> (#[trigger] self.worlds()[i]).1.dims() > 0,
        ensures
            res@.map_values(|p: (&Tag, &Tag)| (*p.0, *p.1)) == universe_pairs(self.worlds(), 0),
    {
        let ghost ws = self.worlds();
        let ghost goal = universe_pairs(ws, 0);
        let mut res: Vec<(&Tag, &Tag)> = Vec::new();
        let mut i: usize = 0;
        assert(res@.map_values(|p: (&Tag, &Tag)| (*p.0, *p.1)) + goal =~= goal);
        while i < self.worlds.len()
            invariant
                i <= self.worlds@.len(),
                ws == self.worlds(),
                self.wf(),
                forall|j: int| 0 <= j < ws.len() ==> (#[trigger] ws[j]).1.dims() > 0,
                goal == res@.map_values(|p: (&Tag, &Tag)| (*p.0, *p.1)) + universe_pairs(ws, i as int),
            decreases self.worlds@.len() - i,
        {
            let ghost r0 = res@.map_values(|p: (&Tag, &Tag)| (*p.0, *p.1));
            let pairs = self.worlds[i].1.overlapping_boxes();
            let mut k: usize = 0;
            while k < pairs.len()
                invariant
                    k <= pairs@.len(),
                    res@.map_values(|p: (&Tag, &Tag)| (*p.0, *p.1)) == r0 + pairs@.map_values(|p: (&Tag, &Tag)| (*p.0, *p.1)).subrange(0, k as int),
                decreases pairs@.len() - k,
            {
                let ghost rb = res@;
                res.push(pairs[k]);
                assert(res@ =~= rb.push(pairs@[k as int]));
                assert(res@.map_values(|p: (&Tag, &Tag)| (*p.0, *p.1)) =~= rb.map_values(|p: (&Tag, &Tag)| (*p.0, *p.1)).push((*pairs@[k as int].0, *pairs@[k as int].1)));
                assert(res@.map_values(|p: (&Tag, &Tag)| (*p.0, *p.1)) =~= r0 + pairs@.map_values(|p: (&Tag, &Tag)| (*p.0, *p.1)).subrange(0, k + 1));
                k = k + 1;
            }
            proof {
                let here = pairs@.map_values(|p: (&Tag, &Tag)| (*p.0, *p.1));
                assert(here.subrange(0, k as int) =~= here);
                assert(universe_pairs(ws, i as int) == here + universe_pairs(ws, i + 1));
                assert(goal =~= res@.map_values(|p: (&Tag, &Tag)| (*p.0, *p.1)) + universe_pairs(ws, i + 1));
            }
            i = i + 1;
        }
        assert(res@.map_values(|p: (&Tag, &Tag)| (*p.0, *p.1)) + Seq::<(Tag, Tag)>::empty() =~= res@.map_values(|p: (&Tag, &Tag)| (*p.0, *p.1)));
        res
    }

    /// The tags of the boxes of the world `world` that overlap `bx`, in order (none if there is
    /// no such world).
    pub fn find_overlapping_with(&self, world: &u64, bx: BoxRef<'_>) -> (res: Vec<&Tag>)
        requires
            self.wf(),
            self.world_of(*world) matches Some(w) ==> w.dims() > 0 && (w.boxes().len() == 0 || bx@.len() == w.dims()),
        ensures
            res@.map_values(|t: &Tag| *t) == match self.world_of(*world) {
                Some(w) => overlapping_tags(w.boxes(), w.tags(), bx@, 0),
                None => Seq::<Tag>::empty(),
            },
    {
        let k = *world;
        let p = self.position(k);
        let ghost ws = self.worlds();
        if p < self.worlds.len() && self.worlds[p].0 == k {
            proof {
                assert(world_in(ws, k) == Some(ws[p as int].1)) by {
                    let i = choose|i: int| 0 <= i < ws.len() && (#[trigger] ws[i]).0 == k;
                    if i != p {
                        if i < p {
                            assert(ws[i].0 < k);
                        } else {
                            assert(ws[p as int].0 < ws[i].0);
                        }
                    }
                }
            }
            self.worlds[p].1.find_overlapping_with(bx)
        } else {
            proof {
                if exists|i: int| 0 <= i < ws.len() && (#[trigger] ws[i]).0 == k {
                    let i = choose|i: int| 0 <= i < ws.len() && (#[trigger] ws[i]).0 == k;
                    if i < p {
                        assert(ws[i].0 < k);
                    } else if i > p {
                        assert(ws[p as int].0 < ws[i].0);
                    }
                }
            }
            let res: Vec<&Tag> = Vec::new();
            assert(res@.map_values(|t: &Tag| *t) =~= Seq::<Tag>::empty());
            res
        }
    }

    /// Whether there is a world `world`.
    pub fn has_world(&self, world: &u64) -> (res: bool)
        requires
            self.wf(),
        ensures
            res == self.world_of(*world) is Some,
    {
        let k = *world;
        let p = self.position(k);
        let ghost ws = self.worlds();
        proof {
            if exists|i: int| 0 <= i < ws.len() && (#[trigger] ws[i]).0 == k {
                let i = choose|i: int| 0 <= i < ws.len() && (#[trigger] ws[i]).0 == k;
                if i < p {
                    assert(ws[i].0 < k);
                } else if i > p {
                    assert(ws[p as int].0 < ws[i].0);
                }
            }
        }
        p < self.worlds.len() && self.worlds[p].0 == k
    }
}

impl<Tag> Default for BoxUniverse<Tag> {
    fn default() -> (res: BoxUniverse<Tag>)
        ensures
            res.wf(),
            res.worlds().len() == 0,
    {
        BoxUniverse::new()
    }
}

/// Whether `t` picks, for each generator, a position within its length.
pub open spec fn bounded(t: Seq<int>, lens: Seq<int>) -> bool {
    t.len() == lens.len() && forall|j: int| 0 <= j < t.len() ==> 0 <= #[trigger] t[j] < lens[j]
}

/// The last position below `j` that can still be increased, or -1 if none can.
pub open spec fn last_incr(t: Seq<int>, lens: Seq<int>, j: int) -> int
    decreases j,
{
    if j <= 0 {
        -1
    } else if t[j - 1] + 1 < lens[j - 1] {
        j - 1
    } else {
        last_incr(t, lens, j - 1)
    }
}

/// The combination after `t`: the last position that can be increased is, and those after it
/// start over; `None` after the last combination.
pub open spec fn succ_tuple(t: Seq<int>, lens: Seq<int>) -> Option<Seq<int>> {
    let j = last_incr(t, lens, t.len() as int);
    if j < 0 {
        None
    } else {
        Some(Seq::new(t.len(), |k: int| if k < j {
            t[k]
        } else if k == j {
            t[j] + 1
        } else {
            0
        }))
    }
}

/// The first combination: the first value of each generator, if none is empty.
pub open spec fn first_tuple(lens: Seq<int>) -> Option<Seq<int>> {
    if forall|j: int| 0 <= j < lens.len() ==> #[trigger] lens[j] > 0 {
        Some(Seq::new(lens.len(), |k: int| 0))
    } else {
        None
    }
}

proof fn lemma_last_incr(t: Seq<int>, lens: Seq<int>, j: int)
    requires
        0 <= j <= t.len(),
        t.len() == lens.len(),
    ensures
        -1 <= last_incr(t, lens, j) < j,
        last_incr(t, lens, j) >= 0 ==> t[last_incr(t, lens, j)] + 1 < lens[last_incr(t, lens, j)],
        forall|k: int| last_incr(t, lens, j) < k < j ==> #[trigger] t[k] + 1 >= lens[k],
    decreases j,
{
    if j > 0 && !(t[j - 1] + 1 < lens[j - 1]) {
        lemma_last_incr(t, lens, j - 1);
    }
}

/// The combination after `t` is a combination, and comes after `t` in lexicographic order.
pub proof fn lemma_succ_after(t: Seq<int>, lens: Seq<int>)
    requires
        bounded(t, lens),
        succ_tuple(t, lens) is Some,
    ensures
        bounded(succ_tuple(t, lens)->Some_0, lens),
        lex_lt(t, succ_tuple(t, lens)->Some_0),
{
    lemma_last_incr(t, lens, t.len() as int);
    let j = last_incr(t, lens, t.len() as int);
    let u = succ_tuple(t, lens)->Some_0;
    assert forall|k: int| 0 <= k < u.len() implies 0 <= #[trigger] u[k] < lens[k] by {
        assert(0 <= t[k] < lens[k]);
    }
    assert(t.subrange(0, j) =~= u.subrange(0, j));
    assert(t[j] < u[j]);
}

/// No combination lies strictly between `t` and the one after it.
pub proof fn lemma_succ_next(t: Seq<int>, lens: Seq<int>, v: Seq<int>)
    requires
        bounded(t, lens),
        succ_tuple(t, lens) is Some,
        bounded(v, lens),
        lex_lt(t, v),
    ensures
        v == succ_tuple(t, lens)->Some_0 || lex_lt(succ_tuple(t, lens)->Some_0, v),
{
    lemma_last_incr(t, lens, t.len() as int);
    let j = last_incr(t, lens, t.len() as int);
    let u = succ_tuple(t, lens)->Some_0;
    let i = choose|i: int| 0 <= i < t.len() && i < v.len() && t.subrange(0, i) == v.subrange(0, i) && #[trigger] t[i] < v[i];
    assert(t[i] + 1 < lens[i]);
    if i < j {
        assert forall|k: int| 0 <= k < i implies u[k] == v[k] by {
            assert(t.subrange(0, i)[k] == v.subrange(0, i)[k]);
        }
        assert(u.subrange(0, i) =~= v.subrange(0, i));
        assert(u[i] < v[i]);
    } else {
        assert(i == j);
        assert forall|k: int| 0 <= k < j implies u[k] == v[k] by {
            assert(t.subrange(0, i)[k] == v.subrange(0, i)[k]);
        }
        if u[j] < v[j] {
            assert(u.subrange(0, j) =~= v.subrange(0, j));
        } else if u != v {
            lemma_lex_total(u, v);
            if lex_lt(v, u) {
                let k = choose|k: int| 0 <= k < v.len() && k < u.len() && v.subrange(0, k) == u.subrange(0, k) && #[trigger] v[k] < u[k];
                if k < j {
                    assert(v[k] == u[k]);
                }
                assert(false);
            }
        }
    }
}

/// There is no combination after one that has no successor.
pub proof fn lemma_succ_last(t: Seq<int>, lens: Seq<int>, v: Seq<int>)
    requires
        bounded(t, lens),
        succ_tuple(t, lens) is None,
        bounded(v, lens),
    ensures
        !lex_lt(t, v),
{
    lemma_last_incr(t, lens, t.len() as int);
    if lex_lt(t, v) {
        let i = choose|i: int| 0 <= i < t.len() && i < v.len() && t.subrange(0, i) == v.subrange(0, i) && #[trigger] t[i] < v[i];
        assert(t[i] + 1 < lens[i]);
        assert(false);
    }
}

/// The first combination comes before every other one; there is none when it is `None`.
pub proof fn lemma_first(lens: Seq<int>, v: Seq<int>)
    requires
        bounded(v, lens),
    ensures
        first_tuple(lens) is Some,
        bounded(first_tuple(lens)->Some_0, lens),
        v == first_tuple(lens)->Some_0 || lex_lt(first_tuple(lens)->Some_0, v),
{
    assert forall|j: int| 0 <= j < lens.len() implies #[trigger] lens[j] > 0 by {
        assert(0 <= v[j] < lens[j]);
    }
    let f = first_tuple(lens)->Some_0;
    if v != f {
        lemma_lex_total(f, v);
        if lex_lt(v, f) {
            let k = choose|k: int| 0 <= k < v.len() && k < f.len() && v.subrange(0, k) == f.subrange(0, k) && #[trigger] v[k] < f[k];
            assert(false);
        }
    }
}

/// Where the enumeration of the combinations stands.
pub enum CombState {
    /// Not started yet.
    Start,
    /// At the combination of positions given.
    At(Seq<int>),
    /// Past the last combination.
    Done,
}

/// The values at the positions `t` of the generators.
pub open spec fn values_at<T>(gens: Seq<Seq<T>>, t: Seq<int>) -> Seq<T> {
    Seq::new(t.len(), |l: int| gens[l][t[l]])
}

/// The enumeration of all the combinations of values that can be picked, one from each
/// generator, in lexicographic order of their positions.
pub struct Combination<T> {
    generators: Vec<Vec<T>>,
    idx: Vec<usize>,
    sol: Vec<T>,
    is_first: bool,
    finished: bool,
}

impl<T: Copy> Combination<T> {
    /// The values of the generators.
    pub closed spec fn gens(&self) -> Seq<Seq<T>> {
        self.generators@.map_values(|g: Vec<T>| g@)
    }

    /// The number of values of each generator.
    pub open spec fn lens(&self) -> Seq<int> {
        self.gens().map_values(|g: Seq<T>| g.len() as int)
    }

    /// Where the enumeration stands.
    pub closed spec fn state(&self) -> CombState {
        if self.finished {
            CombState::Done
        } else if self.is_first {
            CombState::Start
        } else {
            CombState::At(self.idx@.map_values(|i: usize| i as int))
        }
    }

    /// The positions are within the generators, and the values are those at the positions.
    pub closed spec fn wf(&self) -> bool {
        &&& self.idx@.len() == self.generators@.len()
        &&& (!self.finished && self.is_first) ==> self.sol@.len() == 0
        &&& (!self.finished && !self.is_first) ==> {
            &&& bounded(self.idx@.map_values(|i: usize| i as int), self.lens())
            &&& self.sol@ == values_at(self.gens(), self.idx@.map_values(|i: usize| i as int))
        }
    }

    /// The enumeration of the combinations of values of `instances`, not started yet.
    pub fn new(instances: Vec<Vec<T>>) -> (res: Combination<T>)
        ensures
            res.wf(),
            res.gens() == instances@.map_values(|g: Vec<T>| g@),
            res.state() == CombState::Start,
    {
        let size = instances.len();
        let mut idx: Vec<usize> = Vec::new();
        let mut i: usize = 0;
        while i < size
            invariant
                i <= size == instances@.len(),
                idx@.len() == i,
            decreases size - i,
        {
            idx.push(0);
            i = i + 1;
        }
        Combination { generators: instances, idx, sol: Vec::new(), is_first: true, finished: false }
    }

    /// Moves to the next combination: the first one at the start, then each time the next one
    /// in lexicographic order of positions, until there is none.
    pub fn advance(&mut self)
        requires
            old(self).wf(),
        ensures
            final(self).wf(),
            final(self).gens() == old(self).gens(),
            final(self).state() == match old(self).state() {
                CombState::Start => match first_tuple(old(self).lens()) {
                    Some(f) => CombState::At(f),
                    None => CombState::Done,
                },
                CombState::At(t) => match succ_tuple(t, old(self).lens()) {
                    Some(u) => CombState::At(u),
                    None => CombState::Done,
                },
                CombState::Done => CombState::Done,
            },
    {
        if self.finished {
            return;
        }
        let n = self.generators.len();
        let ghost lens = self.lens();
        let ghost gens = self.gens();
        proof {
            assert forall|k: int| 0 <= k < n implies #[trigger] self.generators@[k]@.len() == lens[k] by {
                assert(gens[k] == self.generators@[k]@);
            }
        }
        if self.is_first {
            let mut k: usize = 0;
            while k < n
                invariant
                    k <= n == self.generators@.len() == lens.len() == self.idx@.len(),
                    gens == self.gens(),
                    lens == self.lens(),
                    gens == old(self).gens(),
                    lens == old(self).lens(),
                    !old(self).finished && old(self).is_first,
                    !self.finished && self.is_first,
                    forall|j: int| 0 <= j < n ==> #[trigger] self.generators@[j]@.len() == lens[j],
                    forall|j: int| 0 <= j < k ==> #[trigger] lens[j] > 0,
                decreases n - k,
            {
                if self.generators[k].len() == 0 {
                    self.finished = true;
                    self.is_first = false;
                    return;
                }
                k = k + 1;
            }
            let mut sol: Vec<T> = Vec::new();
            let mut idx: Vec<usize> = Vec::new();
            let mut k: usize = 0;
            while k < n
                invariant
                    k <= n == self.generators@.len() == lens.len(),
                    gens == self.gens(),
                    forall|j: int| 0 <= j < n ==> #[trigger] self.generators@[j]@.len() == lens[j],
                    forall|j: int| 0 <= j < n ==> #[trigger] lens[j] > 0,
                    idx@.len() == k,
                    forall|j: int| 0 <= j < k ==> #[trigger] idx@[j] == 0,
                    sol@ == values_at(gens, Seq::new(k as nat, |j: int| 0int)),
                decreases n - k,
            {
                idx.push(0);
                assert(self.generators@[k as int]@.len() > 0);
                sol.push(self.generators[k][0]);
                proof {
                    assert(gens[k as int] == self.generators@[k as int]@);
                    assert(sol@ =~= values_at(gens, Seq::new((k + 1) as nat, |j: int| 0int)));
                }
                k = k + 1;
            }
            self.idx = idx;
            self.sol = sol;
            self.is_first = false;
            proof {
                assert(self.idx@.map_values(|i: usize| i as int) =~= Seq::new(n as nat, |j: int| 0int));
                assert(first_tuple(lens) == Some(Seq::new(lens.len(), |j: int| 0int)));
            }
            return;
        }
        let ghost t = self.idx@.map_values(|i: usize| i as int);
        let mut j: usize = n;
        while j > 0
            invariant
                j <= n == self.generators@.len() == lens.len() == self.idx@.len(),
                t == self.idx@.map_values(|i: usize| i as int),
                bounded(t, lens),
                forall|k: int| 0 <= k < n ==> #[trigger] self.generators@[k]@.len() == lens[k],
                last_incr(t, lens, n as int) == last_incr(t, lens, j as int),
            ensures
                j <= n,
                last_incr(t, lens, n as int) == last_incr(t, lens, j as int),
                j == 0 || t[j - 1] + 1 < lens[j - 1],
            decreases j,
        {
            assert(t[j - 1] == self.idx@[j - 1] as int);
            let len = self.generators[j - 1].len();
            if self.idx[j - 1] + 1 < len {
                break;
            }
            j = j - 1;
        }
        proof {
            lemma_last_incr(t, lens, n as int);
        }
        if j == 0 {
            self.finished = true;
            return;
        }
        let p = j - 1;
        let ghost u = succ_tuple(t, lens)->Some_0;
        proof {
            assert(last_incr(t, lens, j as int) == p);
        }
        while self.sol.len() > p
            invariant
                p < n == self.generators@.len() == lens.len() == self.idx@.len(),
                self.sol@.len() >= p,
                self.sol@.subrange(0, p as int) == values_at(gens, t).subrange(0, p as int),
                t == self.idx@.map_values(|i: usize| i as int),
                gens == self.gens(),
                lens == self.lens(),
                !self.finished && !self.is_first,
            decreases self.sol@.len(),
        {
            let ghost before = self.sol@;
            self.sol.pop();
            assert(self.sol@.subrange(0, p as int) =~= before.subrange(0, p as int));
        }
        assert(self.sol@ =~= values_at(gens, t).subrange(0, p as int));
        assert(t[p as int] == self.idx@[p as int] as int);
        let plen = self.generators[p].len();
        assert(self.idx@[p as int] + 1 < plen);
        let np = self.idx[p] + 1;
        self.idx.set(p, np);
        proof {
            assert(gens[p as int] == self.generators@[p as int]@);
        }
        self.sol.push(self.generators[p][np]);
        let mut k: usize = j;
        while k < n
            invariant
                j <= k <= n == self.generators@.len() == lens.len() == self.idx@.len(),
                p == j - 1,
                gens == self.gens(),
                lens == self.lens(),
                !self.finished && !self.is_first,
                bounded(t, lens),
                u == succ_tuple(t, lens)->Some_0,
                last_incr(t, lens, n as int) == p,
                forall|i: int| 0 <= i < n ==> #[trigger] self.generators@[i]@.len() == lens[i],
                forall|i: int| 0 <= i < k ==> #[trigger] self.idx@[i] as int == u[i],
                forall|i: int| k <= i < n ==> #[trigger] self.idx@[i] as int == t[i],
                self.sol@ == values_at(gens, u).subrange(0, k as int),
            decreases n - k,
        {
            proof {
                assert(lens[k as int] > 0) by {
                    assert(0 <= t[k as int] < lens[k as int]);
                }
                assert(gens[k as int] == self.generators@[k as int]@);
            }
            self.idx.set(k, 0);
            let ghost before = self.sol@;
            self.sol.push(self.generators[k][0]);
            assert(self.sol@ =~= values_at(gens, u).subrange(0, k + 1));
            k = k + 1;
        }
        proof {
            assert(self.idx@.map_values(|i: usize| i as int) =~= u);
            assert(values_at(gens, u).subrange(0, n as int) =~= values_at(gens, u));
            lemma_succ_after(t, lens);
        }
    }

    /// The current combination: `None` past the last one.
    pub fn get(&self) -> (res: Option<&[T]>)
        requires
            self.wf(),
            !(self.state() is Start && self.gens().len() > 0),
        ensures
            match self.state() {
                CombState::Done => res is None,
                CombState::At(t) => res matches Some(s) && s@ == values_at(self.gens(), t),
                CombState::Start => res matches Some(s) && s@.len() == 0,
            },
    {
        if self.finished {
            None
        } else {
            Some(self.sol.as_slice())
        }
    }
}

impl<T: Copy> Combination<T> {
    /// Moves to the next combination and returns it: `None` past the last one.
    pub fn next(&mut self) -> (res: Option<&[T]>)
        requires
            old(self).wf(),
        ensures
            final(self).wf(),
            final(self).gens() == old(self).gens(),
            final(self).state() == match old(self).state() {
                CombState::Start => match first_tuple(old(self).lens()) {
                    Some(f) => CombState::At(f),
                    None => CombState::Done,
                },
                CombState::At(t) => match succ_tuple(t, old(self).lens()) {
                    Some(u) => CombState::At(u),
                    None => CombState::Done,
                },
                CombState::Done => CombState::Done,
            },
            match final(self).state() {
                CombState::At(t) => res matches Some(s) && s@ == values_at(final(self).gens(), t),
                _ => res is None,
            },
    {
        self.advance();
        if self.finished {
            None
        } else {
            Some(self.sol.as_slice())
        }
    }
}

/// The enumeration of all the combinations of values that can be picked, one from each of the
/// `generators`: `enumerate(vec![vec![0, 1], vec![5, 6]])` gives `[0, 5]`, `[0, 6]`, `[1, 5]`
/// and `[1, 6]`, in this order.
pub fn enumerate<T: Copy>(generators: Vec<Vec<T>>) -> (res: Combination<T>)
    ensures
        res.wf(),
        res.gens() == generators@.map_values(|g: Vec<T>| g@),
        res.state() == CombState::Start,
{
    Combination::new(generators)
}

} // verus!
