use vstd::prelude::*;
use crate::change::lemma_range_set_push;
use crate::index::{covered, range_set, LabeledRange, RangeView};
use crate::interval::{covers, sorted, within, Interval};

verus! {

/// One file that a translation unit touched: its line count, its path, and
/// the line ranges that the preprocessor skipped.
pub struct File {
    pub lines: u32,
    pub path: String,
    pub skips: Vec<Interval>,
}

/// The report of one translation unit: the unit, its arguments, and the
/// files it touched.
pub struct Info {
    pub tu: String,
    pub args: String,
    pub files: Vec<File>,
}

/// A file entry that the analysis can take: its ranges lie in `[1, lines]`,
/// come in ascending order, and `lines` leaves room for one past the end.
pub open spec fn file_ok(f: File) -> bool {
    &&& f.lines < u32::MAX
    &&& within(f.skips@, f.lines as int)
    &&& sorted(f.skips@)
}

/// Line `p` of the file was compiled. Where `parses_used_lines` holds the
/// report lists used ranges; else it lists skipped ones, and the used lines
/// are the rest of `[1, lines]`.
pub open spec fn line_used(f: File, parses_used_lines: bool, p: int) -> bool {
    if parses_used_lines {
        covers(f.skips@, p)
    } else {
        1 <= p <= f.lines && !covers(f.skips@, p)
    }
}

/// Whether `file_ok(f)` holds.
pub fn check_file(f: &File) -> (r: bool)
    ensures
        r == file_ok(*f),
{
    if f.lines == u32::MAX {
        return false;
    }
    let n = f.skips.len();
    let mut k: usize = 0;
    while k < n
        invariant
            n == f.skips@.len(),
            k <= n,
            forall|i: int| 0 <= i < k ==> 1 <= #[trigger] f.skips@[i].begin <= f.skips@[i].end <= f.lines,
            forall|i: int, j: int|
                #![trigger f.skips@[i], f.skips@[j]]
                0 <= i < j < k ==> f.skips@[i].begin <= f.skips@[j].begin && f.skips@[i].end <= f.skips@[j].end,
        decreases n - k,
    {
        let x = f.skips[k];
        if !(1 <= x.begin && x.begin <= x.end && x.end <= f.lines) {
            return false;
        }
        if k > 0 {
            let y = f.skips[k - 1];
            if !(y.begin <= x.begin && y.end <= x.end) {
                return false;
            }
        }
        proof {
            assert forall|i: int, j: int|
                #![trigger f.skips@[i], f.skips@[j]]
                0 <= i < j < k + 1 implies f.skips@[i].begin <= f.skips@[j].begin && f.skips@[i].end <= f.skips@[j].end by {
                if j == k && i < k - 1 {
                    assert(f.skips@[i].begin <= f.skips@[k - 1].begin && f.skips@[i].end <= f.skips@[k - 1].end);
                }
            }
        }
        k = k + 1;
    }
    true
}

/// The closed ranges `closed` as half-open ranges tagged with `variant`.
pub fn label_ranges(closed: &Vec<Interval>, variant: &String) -> (r: Vec<LabeledRange>)
    requires
        forall|i: int| 0 <= i < closed@.len() ==> (#[trigger] closed@[i]).end < u32::MAX,
    ensures
        forall|t: RangeView| #[trigger] range_set(r@).contains(t) ==> t.2 == variant@,
        forall|p: int| #[trigger] covered(range_set(r@), p) <==> covers(closed@, p),
{
    let mut r: Vec<LabeledRange> = Vec::new();
    let mut k: usize = 0;
    while k < closed.len()
        invariant
            k <= closed@.len(),
            forall|i: int| 0 <= i < closed@.len() ==> (#[trigger] closed@[i]).end < u32::MAX,
            forall|t: RangeView| #[trigger] range_set(r@).contains(t) ==> t.2 == variant@,
            forall|p: int| #[trigger] covered(range_set(r@), p) <==> covers(closed@.take(k as int), p),
        decreases closed@.len() - k,
    {
        let c = closed[k];
        let x = LabeledRange::new(c.begin, c.end + 1, variant.clone());
        proof {
            lemma_range_set_push(r@, x);
            let s2 = range_set(r@).insert(x@);
            assert forall|p: int| #[trigger] covered(s2, p) <==> covers(closed@.take(k + 1), p) by {
                let tk = closed@.take(k as int);
                let tk1 = closed@.take(k + 1);
                if covered(s2, p) {
                    let t = choose|t: RangeView| #[trigger] s2.contains(t) && t.0 <= p < t.1;
                    if t == x@ {
                        assert(tk1[k as int] == c);
                    } else {
                        assert(covered(range_set(r@), p));
                        let i = choose|i: int| 0 <= i < tk.len() && (#[trigger] tk[i]).begin <= p <= tk[i].end;
                        assert(tk1[i] == tk[i]);
                    }
                }
                if covers(tk1, p) {
                    let i = choose|i: int| 0 <= i < tk1.len() && (#[trigger] tk1[i]).begin <= p <= tk1[i].end;
                    if i < k {
                        assert(tk1[i] == tk[i]);
                        assert(covers(tk, p));
                        assert(covered(range_set(r@), p) == covers(tk, p));
                        let t = choose|t: RangeView| #[trigger] range_set(r@).contains(t) && t.0 <= p < t.1;
                        assert(s2.contains(t));
                    } else {
                        assert(tk1[i] == c);
                        assert(s2.contains(x@));
                    }
                }
            }
        }
        r.push(x);
        k = k + 1;
    }
    proof {
        assert(closed@.take(closed@.len() as int) =~= closed@);
    }
    r
}

/// The used ranges of one file entry, tagged with `variant`.
pub fn used_ranges(f: &File, variant: &String, parses_used_lines: bool) -> (r: Vec<LabeledRange>)
    requires
        file_ok(*f),
    ensures
        forall|t: RangeView| #[trigger] range_set(r@).contains(t) ==> t.2 == variant@,
        forall|p: int| #[trigger] covered(range_set(r@), p) <==> line_used(*f, parses_used_lines, p),
{
    if parses_used_lines {
        proof {
            assert forall|i: int| 0 <= i < f.skips@.len() implies (#[trigger] f.skips@[i]).end < u32::MAX by {
                assert(f.skips@[i].begin <= f.skips@[i].end <= f.lines);
            }
        }
        label_ranges(&f.skips, variant)
    } else {
        let used = Interval::invert(f.skips.as_slice(), f.lines);
        proof {
            assert forall|i: int| 0 <= i < used@.len() implies (#[trigger] used@[i]).end < u32::MAX by {
                assert(used@[i].begin <= used@[i].end <= f.lines);
            }
        }
        label_ranges(&used, variant)
    }
}

} // verus!
