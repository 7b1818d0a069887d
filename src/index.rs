use vstd::prelude::*;

verus! {

/// A half-open range of lines `[start, stop)` contributed by one build
/// variant.
#[derive(Debug)]
pub struct LabeledRange {
    pub start: u32,
    pub stop: u32,
    pub variant: String,
}

/// A range as plain values: start, stop and variant.
pub type RangeView = (u32, u32, Seq<char>);

impl View for LabeledRange {
    type V = RangeView;

    open spec fn view(&self) -> RangeView {
        (self.start, self.stop, self.variant@)
    }
}

impl LabeledRange {
    pub fn new(start: u32, stop: u32, variant: String) -> (r: LabeledRange)
        ensures
            r@ == (start, stop, variant@),
    {
        LabeledRange { start, stop, variant }
    }

    pub fn copy(&self) -> (r: LabeledRange)
        ensures
            r@ == self@,
    {
        LabeledRange { start: self.start, stop: self.stop, variant: self.variant.clone() }
    }
}

/// The set of ranges listed in `s`.
pub open spec fn range_set(s: Seq<LabeledRange>) -> Set<RangeView> {
    Set::new(|t: RangeView| exists|i: int| 0 <= i < s.len() && (#[trigger] s[i])@ == t)
}

/// Range `t` and `[start, stop)` share a line.
pub open spec fn overlaps(t: RangeView, start: int, stop: int) -> bool {
    t.0 < stop && t.1 > start
}

/// Line `p` lies both in range `t` and in `[start, stop)`.
pub open spec fn shared_line(t: RangeView, start: int, stop: int, p: int) -> bool {
    t.0 <= p < t.1 && start <= p < stop
}

/// A non-empty stored range overlaps a non-empty query `[start, stop)`
/// exactly when the two share a line; in particular a query that stops where
/// the range starts does not overlap it.
pub proof fn lemma_overlap_half_open(t: RangeView, start: int, stop: int)
    requires
        t.0 < t.1,
        start < stop,
    ensures
        overlaps(t, start, stop) <==> exists|p: int| #[trigger] shared_line(t, start, stop, p),
        stop == t.0 ==> !overlaps(t, start, stop),
{
    if overlaps(t, start, stop) {
        let p = if t.0 >= start {
            t.0 as int
        } else {
            start
        };
        assert(shared_line(t, start, stop, p));
    }
}

/// Line `p` lies in some range of `s`.
pub open spec fn covered(s: Set<RangeView>, p: int) -> bool {
    exists|t: RangeView| #[trigger] s.contains(t) && t.0 <= p < t.1
}

/// The per-file interval index, kept in a `rust_lapper::Lapper`.
#[verifier::external_body]
pub struct FileUsageIndex {
    tree: rust_lapper::Lapper<u32, String>,
}

/// The ranges that an index holds.
pub uninterp spec fn index_ranges(t: FileUsageIndex) -> Set<RangeView>;

impl View for FileUsageIndex {
    type V = Set<RangeView>;

    open spec fn view(&self) -> Set<RangeView> {
        index_ranges(*self)
    }
}

impl FileUsageIndex {
    /// Relies on `rust_lapper::Lapper::new`: the index holds the given
    /// intervals (it sorts them and keeps each one).
    #[verifier::external_body]
    pub fn from_ranges(ranges: Vec<LabeledRange>) -> (r: FileUsageIndex)
        ensures
            index_ranges(r) == range_set(ranges@),
    {
        let ivs = ranges.into_iter().map(
            |x| rust_lapper::Interval { start: x.start, stop: x.stop, val: x.variant },
        ).collect();
        FileUsageIndex { tree: rust_lapper::Lapper::new(ivs) }
    }

    /// Relies on `rust_lapper::Lapper::merge_overlaps`: overlapping or
    /// touching intervals are joined into one that spans them all and keeps
    /// the value of the first, so the lines covered stay the same.
    #[verifier::external_body]
    pub fn merge_overlaps(&mut self)
        ensures
            forall|p: int| covered(index_ranges(*final(self)), p) <==> covered(index_ranges(*old(self)), p),
            forall|t: RangeView| #[trigger]
                index_ranges(*final(self)).contains(t) ==> exists|u: RangeView|
                    #[trigger] index_ranges(*old(self)).contains(u) && u.2 == t.2,
    {
        self.tree.merge_overlaps();
    }

    /// Relies on `rust_lapper::Lapper::find`: every interval with
    /// `start < stop` and `stop > start` of the query, and no other.
    #[verifier::external_body]
    pub fn find(&self, start: u32, stop: u32) -> (r: Vec<LabeledRange>)
        ensures
            range_set(r@) == index_ranges(*self).filter(|t: RangeView| overlaps(t, start as int, stop as int)),
    {
        self.tree.find(start, stop).map(
            |i| LabeledRange { start: i.start, stop: i.stop, variant: i.val.clone() },
        ).collect()
    }

    /// Relies on `rust_lapper::Lapper::iter`: every interval that the index
    /// holds.
    #[verifier::external_body]
    pub fn ranges(&self) -> (r: Vec<LabeledRange>)
        ensures
            range_set(r@) == index_ranges(*self),
    {
        self.tree.iter().map(
            |i| LabeledRange { start: i.start, stop: i.stop, variant: i.val.clone() },
        ).collect()
    }
}

} // verus!
