use vstd::prelude::*;
use crate::directives::{patch_balanced, patch_is_balanced};
use crate::index::{range_set, LabeledRange, RangeView};

verus! {

/// How a file changed: at some old line ranges, or as a whole.
#[derive(Debug)]
pub enum Change {
    /// The changed ranges, in old line numbers.
    Partly(Vec<LabeledRange>),
    /// The whole file must be taken as changed.
    Full,
}

/// The ranges of a partial change; none for a full one.
pub open spec fn change_ranges(c: Change) -> Set<RangeView> {
    match c {
        Change::Partly(v) => range_set(v@),
        Change::Full => Set::empty(),
    }
}

/// One hunk of a diff, as the range of old lines it replaces.
#[derive(Debug)]
pub struct Hunk {
    pub old_lines: LabeledRange,
}

/// The half-open old-line range of a hunk: a hunk that only adds lines still
/// claims the line where it adds them.
pub open spec fn hunk_range(old_start: u32, old_lines: u32) -> RangeView {
    (old_start, (old_start + if old_lines >= 1 {
        old_lines
    } else {
        1
    }) as u32, Seq::<char>::empty())
}

impl Hunk {
    /// The hunk that starts at old line `old_start` and removes `old_lines`
    /// lines.
    pub fn from(old_start: u32, old_lines: u32) -> (r: Hunk)
        requires
            old_start + if old_lines >= 1 {
                old_lines
            } else {
                1
            } <= u32::MAX,
        ensures
            r.old_lines@ == hunk_range(old_start, old_lines),
            r.old_lines.start < r.old_lines.stop,
    {
        let len = if old_lines >= 1 {
            old_lines
        } else {
            1
        };
        Hunk { old_lines: LabeledRange::new(old_start, old_start + len, String::new()) }
    }
}

/// The diff of one file: its path before the change, its hunks, and the text
/// of its unified diff.
pub struct FileDiff {
    pub old_path: String,
    pub hunks: Vec<Hunk>,
    pub patch: String,
}

/// Some entry of the change set `cs` is for file `f`.
pub open spec fn has_change(cs: Seq<(String, Change)>, f: Seq<char>) -> bool {
    exists|i: int| 0 <= i < cs.len() && (#[trigger] cs[i]).0@ == f
}

/// Some entry of `cs` marks file `f` as changed as a whole.
pub open spec fn is_full(cs: Seq<(String, Change)>, f: Seq<char>) -> bool {
    exists|i: int| 0 <= i < cs.len() && (#[trigger] cs[i]).0@ == f && cs[i].1 is Full
}

/// The changed ranges that `cs` records for file `f`.
pub open spec fn partial_ranges(cs: Seq<(String, Change)>, f: Seq<char>) -> Set<RangeView> {
    Set::new(
        |t: RangeView|
            exists|i: int|
                0 <= i < cs.len() && (#[trigger] cs[i]).0@ == f && change_ranges(cs[i].1).contains(
                    t,
                ),
    )
}

/// No two entries of `cs` are for the same file.
pub open spec fn keys_unique(cs: Seq<(String, Change)>) -> bool {
    forall|a: int, b: int|
        #![trigger cs[a], cs[b]]
        0 <= a < cs.len() && 0 <= b < cs.len() && a != b ==> cs[a].0@ != cs[b].0@
}

/// Among the first `n` diffs, one for file `f` is unbalanced.
pub open spec fn diffs_full(ds: Seq<FileDiff>, n: int, f: Seq<char>) -> bool {
    exists|i: int|
        0 <= i < n && (#[trigger] ds[i]).old_path@ == f && !patch_balanced(ds[i].patch@)
}

/// Among the first `n` diffs, one for file `f` has a hunk or is unbalanced.
pub open spec fn diffs_touch(ds: Seq<FileDiff>, n: int, f: Seq<char>) -> bool {
    exists|i: int|
        0 <= i < n && (#[trigger] ds[i]).old_path@ == f && (ds[i].hunks@.len() > 0
            || !patch_balanced(ds[i].patch@))
}

/// The hunk ranges of the first `n` diffs for file `f`.
pub open spec fn diffs_ranges(ds: Seq<FileDiff>, n: int, f: Seq<char>) -> Set<RangeView> {
    Set::new(
        |t: RangeView|
            exists|i: int, j: int|
                0 <= i < n && (#[trigger] ds[i]).old_path@ == f && 0 <= j < ds[i].hunks@.len()
                    && (#[trigger] ds[i].hunks@[j]).old_lines@ == t,
    )
}

fn position_of(cs: &Vec<(String, Change)>, key: &String) -> (r: Option<usize>)
    ensures
        match r {
            Some(k) => k < cs@.len() && cs@[k as int].0@ == key@,
            None => forall|k: int| 0 <= k < cs@.len() ==> (#[trigger] cs@[k]).0@ != key@,
        },
{
    let mut k: usize = 0;
    while k < cs.len()
        invariant
            k <= cs@.len(),
            forall|m: int| 0 <= m < k ==> (#[trigger] cs@[m]).0@ != key@,
        decreases cs@.len() - k,
    {
        if cs[k].0 == *key {
            return Some(k);
        }
        k = k + 1;
    }
    None
}

pub proof fn lemma_range_set_push(s: Seq<LabeledRange>, x: LabeledRange)
    ensures
        range_set(s.push(x)) == range_set(s).insert(x@),
{
    assert forall|t: RangeView| range_set(s.push(x)).contains(t) implies range_set(s).insert(
        x@,
    ).contains(t) by {
        let i = choose|i: int| 0 <= i < s.push(x).len() && (#[trigger] s.push(x)[i])@ == t;
        if i < s.len() {
            assert(s.push(x)[i] == s[i]);
        }
    }
    assert forall|t: RangeView| range_set(s).insert(x@).contains(t) implies range_set(
        s.push(x),
    ).contains(t) by {
        if t == x@ {
            assert(s.push(x)[s.len() as int] == x);
        } else {
            let i = choose|i: int| 0 <= i < s.len() && (#[trigger] s[i])@ == t;
            assert(s.push(x)[i] == s[i]);
        }
    }
    assert(range_set(s.push(x)) =~= range_set(s).insert(x@));
}

/// The change that the diffs `ds` make to file `f`, given whether each one's
/// hunks are balanced.
fn change_for(ds: &Vec<FileDiff>, balanced: &Vec<bool>, f: &String) -> (r: Option<Change>)
    requires
        balanced@.len() == ds@.len(),
        forall|i: int| 0 <= i < ds@.len() ==> #[trigger] balanced@[i] == patch_balanced(ds@[i].patch@),
    ensures
        r is None <==> !diffs_touch(ds@, ds@.len() as int, f@),
        (r matches Some(Change::Full)) <==> diffs_full(ds@, ds@.len() as int, f@),
        r matches Some(Change::Partly(v)) ==> range_set(v@) == diffs_ranges(ds@, ds@.len() as int, f@),
{
    let mut full = false;
    let mut touched = false;
    let mut v: Vec<LabeledRange> = Vec::new();
    let mut k: usize = 0;
    while k < ds.len()
        invariant
            k <= ds@.len(),
            balanced@.len() == ds@.len(),
            forall|i: int| 0 <= i < ds@.len() ==> #[trigger] balanced@[i] == patch_balanced(ds@[i].patch@),
            full == diffs_full(ds@, k as int, f@),
            touched == diffs_touch(ds@, k as int, f@),
            range_set(v@) == diffs_ranges(ds@, k as int, f@),
        decreases ds@.len() - k,
    {
        let d = &ds[k];
        if d.old_path == *f {
            if !balanced[k] {
                full = true;
            }
            if d.hunks.len() > 0 || !balanced[k] {
                touched = true;
            }
            let mut j: usize = 0;
            while j < d.hunks.len()
                invariant
                    k < ds@.len(),
                    *d == ds@[k as int],
                    d.old_path@ == f@,
                    j <= d.hunks@.len(),
                    range_set(v@) == diffs_ranges(ds@, k as int, f@).union(
                        Set::new(|t: RangeView| exists|jj: int| 0 <= jj < j && (#[trigger] d.hunks@[jj]).old_lines@ == t),
                    ),
                decreases d.hunks@.len() - j,
            {
                let x = d.hunks[j].old_lines.copy();
                proof {
                    lemma_range_set_push(v@, x);
                }
                v.push(x);
                proof {
                    assert(Set::new(|t: RangeView| exists|jj: int| 0 <= jj < j + 1 && (#[trigger] d.hunks@[jj]).old_lines@ == t)
                        =~= Set::new(|t: RangeView| exists|jj: int| 0 <= jj < j && (#[trigger] d.hunks@[jj]).old_lines@ == t).insert(x@));
                    assert(range_set(v@) =~= diffs_ranges(ds@, k as int, f@).union(
                        Set::new(|t: RangeView| exists|jj: int| 0 <= jj < j + 1 && (#[trigger] d.hunks@[jj]).old_lines@ == t),
                    ));
                }
                j = j + 1;
            }
            proof {
                assert forall|t: RangeView| #[trigger] diffs_ranges(ds@, k + 1, f@).contains(t) <==> range_set(v@).contains(t) by {
                    if diffs_ranges(ds@, k + 1, f@).contains(t) {
                        let (i, jj) = choose|i: int, jj: int|
                            0 <= i < k + 1 && (#[trigger] ds@[i]).old_path@ == f@ && 0 <= jj < ds@[i].hunks@.len()
                                && (#[trigger] ds@[i].hunks@[jj]).old_lines@ == t;
                        if i < k {
                            assert(diffs_ranges(ds@, k as int, f@).contains(t));
                        }
                    }
                    if range_set(v@).contains(t) && !diffs_ranges(ds@, k as int, f@).contains(t) {
                        let jj = choose|jj: int| 0 <= jj < j && (#[trigger] d.hunks@[jj]).old_lines@ == t;
                        assert(ds@[k as int].hunks@[jj].old_lines@ == t);
                    }
                }
                assert(range_set(v@) =~= diffs_ranges(ds@, k + 1, f@));
            }
        } else {
            proof {
                assert(diffs_ranges(ds@, k + 1, f@) =~= diffs_ranges(ds@, k as int, f@));
            }
        }
        k = k + 1;
    }
    if full {
        Some(Change::Full)
    } else if touched {
        Some(Change::Partly(v))
    } else {
        None
    }
}

/// Some entry of `r` is `f`.
pub open spec fn listed(r: Seq<String>, f: Seq<char>) -> bool {
    exists|a: int| 0 <= a < r.len() && (#[trigger] r[a])@ == f
}

/// The distinct old paths of the diffs, each once.
fn distinct_paths(ds: &Vec<FileDiff>) -> (out: Vec<String>)
    ensures
        forall|a: int, b: int| #![trigger out@[a], out@[b]] 0 <= a < out@.len() && 0 <= b < out@.len() && a != b ==> out@[a]@ != out@[b]@,
        forall|i: int| 0 <= i < ds@.len() ==> listed(out@, (#[trigger] ds@[i]).old_path@),
{
    let mut r: Vec<String> = Vec::new();
    let mut k: usize = 0;
    let n = ds.len();
    while k < n
        invariant
            n == ds@.len(),
            k <= n,
            forall|a: int, b: int| #![trigger r@[a], r@[b]] 0 <= a < r@.len() && 0 <= b < r@.len() && a != b ==> r@[a]@ != r@[b]@,
            forall|i: int| 0 <= i < k ==> listed(r@, (#[trigger] ds@[i]).old_path@),
        decreases n - k,
    {
        let p = &ds[k].old_path;
        let mut found = false;
        let mut m: usize = 0;
        while m < r.len()
            invariant
                m <= r@.len(),
                found <==> exists|a: int| 0 <= a < m && (#[trigger] r@[a])@ == p@,
            decreases r@.len() - m,
        {
            if r[m] == *p {
                found = true;
            }
            m = m + 1;
        }
        let ghost old_r = r@;
        if !found {
            r.push(p.clone());
            proof {
                assert forall|a: int, b: int| #![trigger r@[a], r@[b]] 0 <= a < r@.len() && 0 <= b < r@.len() && a != b implies r@[a]@ != r@[b]@ by {
                    if a < old_r.len() && b < old_r.len() {
                        assert(r@[a] == old_r[a] && r@[b] == old_r[b]);
                    } else if a < old_r.len() {
                        assert(r@[a] == old_r[a]);
                    } else {
                        assert(r@[b] == old_r[b]);
                    }
                }
                assert forall|i: int| 0 <= i < k + 1 implies listed(r@, (#[trigger] ds@[i]).old_path@) by {
                    if i < k {
                        assert(listed(old_r, ds@[i].old_path@));
                        let a = choose|a: int| 0 <= a < old_r.len() && (#[trigger] old_r[a])@ == ds@[i].old_path@;
                        assert(r@[a] == old_r[a]);
                    } else {
                        assert(r@[old_r.len() as int]@ == ds@[i].old_path@);
                    }
                }
            }
        } else {
            proof {
                assert forall|i: int| 0 <= i < k + 1 implies listed(r@, (#[trigger] ds@[i]).old_path@) by {
                    if i == k {
                        let a = choose|a: int| 0 <= a < m && (#[trigger] r@[a])@ == p@;
                    }
                }
            }
        }
        k = k + 1;
    }
    r
}

proof fn lemma_push_other(cs: Seq<(String, Change)>, e: (String, Change), g: Seq<char>)
    requires
        e.0@ != g,
    ensures
        has_change(cs.push(e), g) == has_change(cs, g),
        is_full(cs.push(e), g) == is_full(cs, g),
        partial_ranges(cs.push(e), g) == partial_ranges(cs, g),
{
    let c2 = cs.push(e);
    if has_change(c2, g) {
        let i = choose|i: int| 0 <= i < c2.len() && (#[trigger] c2[i]).0@ == g;
        assert(c2[i] == cs[i]);
    }
    if has_change(cs, g) {
        let i = choose|i: int| 0 <= i < cs.len() && (#[trigger] cs[i]).0@ == g;
        assert(c2[i] == cs[i]);
    }
    if is_full(c2, g) {
        let i = choose|i: int| 0 <= i < c2.len() && (#[trigger] c2[i]).0@ == g && c2[i].1 is Full;
        assert(c2[i] == cs[i]);
    }
    if is_full(cs, g) {
        let i = choose|i: int| 0 <= i < cs.len() && (#[trigger] cs[i]).0@ == g && cs[i].1 is Full;
        assert(c2[i] == cs[i]);
    }
    assert forall|t: RangeView| partial_ranges(c2, g).contains(t) <==> partial_ranges(cs, g).contains(t) by {
        if partial_ranges(c2, g).contains(t) {
            let i = choose|i: int| 0 <= i < c2.len() && (#[trigger] c2[i]).0@ == g && change_ranges(c2[i].1).contains(t);
            assert(c2[i] == cs[i]);
        }
        if partial_ranges(cs, g).contains(t) {
            let i = choose|i: int| 0 <= i < cs.len() && (#[trigger] cs[i]).0@ == g && change_ranges(cs[i].1).contains(t);
            assert(c2[i] == cs[i]);
        }
    }
    assert(partial_ranges(c2, g) =~= partial_ranges(cs, g));
}

proof fn lemma_push_new(cs: Seq<(String, Change)>, e: (String, Change))
    requires
        !has_change(cs, e.0@),
    ensures
        has_change(cs.push(e), e.0@),
        is_full(cs.push(e), e.0@) == (e.1 is Full),
        partial_ranges(cs.push(e), e.0@) == change_ranges(e.1),
{
    let c2 = cs.push(e);
    let g = e.0@;
    assert(c2[cs.len() as int] == e);
    if is_full(c2, g) {
        let i = choose|i: int| 0 <= i < c2.len() && (#[trigger] c2[i]).0@ == g && c2[i].1 is Full;
        if i < cs.len() {
            assert(c2[i] == cs[i]);
        }
    }
    assert forall|t: RangeView| partial_ranges(c2, g).contains(t) <==> change_ranges(e.1).contains(t) by {
        if partial_ranges(c2, g).contains(t) {
            let i = choose|i: int| 0 <= i < c2.len() && (#[trigger] c2[i]).0@ == g && change_ranges(c2[i].1).contains(t);
            if i < cs.len() {
                assert(c2[i] == cs[i]);
            }
        }
    }
    assert(partial_ranges(c2, g) =~= change_ranges(e.1));
}

proof fn lemma_untouched_no_ranges(ds: Seq<FileDiff>, f: Seq<char>)
    requires
        !diffs_touch(ds, ds.len() as int, f),
    ensures
        diffs_ranges(ds, ds.len() as int, f) == Set::<RangeView>::empty(),
{
    assert forall|t: RangeView| !diffs_ranges(ds, ds.len() as int, f).contains(t) by {
        if diffs_ranges(ds, ds.len() as int, f).contains(t) {
            let (i, j) = choose|i: int, j: int|
                0 <= i < ds.len() && (#[trigger] ds[i]).old_path@ == f && 0 <= j < ds[i].hunks@.len()
                    && (#[trigger] ds[i].hunks@[j]).old_lines@ == t;
        }
    }
    assert(diffs_ranges(ds, ds.len() as int, f) =~= Set::<RangeView>::empty());
}

proof fn lemma_no_entry(cs: Seq<(String, Change)>, f: Seq<char>)
    requires
        !has_change(cs, f),
    ensures
        !is_full(cs, f),
        partial_ranges(cs, f) == Set::<RangeView>::empty(),
{
    if is_full(cs, f) {
        let i = choose|i: int| 0 <= i < cs.len() && (#[trigger] cs[i]).0@ == f && cs[i].1 is Full;
    }
    assert forall|t: RangeView| !partial_ranges(cs, f).contains(t) by {
        if partial_ranges(cs, f).contains(t) {
            let i = choose|i: int| 0 <= i < cs.len() && (#[trigger] cs[i]).0@ == f && change_ranges(cs[i].1).contains(t);
        }
    }
    assert(partial_ranges(cs, f) =~= Set::<RangeView>::empty());
}

/// The change set of a diff: for each file, `Full` where one of its diffs
/// leaves preprocessor conditionals unbalanced in some hunk, else the ranges
/// of all its hunks. Files with neither get no entry.
pub fn collect_changes(diffs: &Vec<FileDiff>) -> (cs: Vec<(String, Change)>)
    ensures
        keys_unique(cs@),
        forall|f: Seq<char>| #[trigger]
            has_change(cs@, f) <==> diffs_touch(diffs@, diffs@.len() as int, f),
        forall|f: Seq<char>| #[trigger]
            is_full(cs@, f) <==> diffs_full(diffs@, diffs@.len() as int, f),
        forall|f: Seq<char>|
            !is_full(cs@, f) ==> #[trigger] partial_ranges(cs@, f) == diffs_ranges(
                diffs@,
                diffs@.len() as int,
                f,
            ),
{
    let mut balanced: Vec<bool> = Vec::new();
    let mut k: usize = 0;
    while k < diffs.len()
        invariant
            k <= diffs@.len(),
            balanced@.len() == k,
            forall|i: int| 0 <= i < k ==> #[trigger] balanced@[i] == patch_balanced(diffs@[i].patch@),
        decreases diffs@.len() - k,
    {
        balanced.push(patch_is_balanced(diffs[k].patch.as_str()));
        k = k + 1;
    }
    let paths = distinct_paths(diffs);
    let mut cs: Vec<(String, Change)> = Vec::new();
    let mut m: usize = 0;
    while m < paths.len()
        invariant
            m <= paths@.len(),
            balanced@.len() == diffs@.len(),
            forall|i: int| 0 <= i < diffs@.len() ==> #[trigger] balanced@[i] == patch_balanced(diffs@[i].patch@),
            forall|a: int, b: int| #![trigger paths@[a], paths@[b]] 0 <= a < paths@.len() && 0 <= b < paths@.len() && a != b ==> paths@[a]@ != paths@[b]@,
            forall|c: int| #![trigger cs@[c]] 0 <= c < cs@.len() ==> exists|a: int| 0 <= a < m && (#[trigger] paths@[a])@ == cs@[c].0@,
            keys_unique(cs@),
            forall|a: int| 0 <= a < m ==> (#[trigger] has_change(cs@, paths@[a]@) <==> diffs_touch(diffs@, diffs@.len() as int, paths@[a]@)),
            forall|a: int| 0 <= a < m ==> (#[trigger] is_full(cs@, paths@[a]@) <==> diffs_full(diffs@, diffs@.len() as int, paths@[a]@)),
            forall|a: int| 0 <= a < m && !is_full(cs@, paths@[a]@) ==> #[trigger] partial_ranges(cs@, paths@[a]@) == diffs_ranges(diffs@, diffs@.len() as int, paths@[a]@),
        decreases paths@.len() - m,
    {
        let f = &paths[m];
        let c = change_for(diffs, &balanced, f);
        let ghost old_cs = cs@;
        proof {
            assert forall|c: int| 0 <= c < old_cs.len() implies (#[trigger] old_cs[c]).0@ != f@ by {
                let a = choose|a: int| 0 <= a < m && (#[trigger] paths@[a])@ == old_cs[c].0@;
                assert(paths@[a]@ != paths@[m as int]@);
            }
            if has_change(old_cs, f@) {
                let c = choose|c: int| 0 <= c < old_cs.len() && (#[trigger] old_cs[c]).0@ == f@;
            }
        }
        match c {
            Some(ch) => {
                let e = (f.clone(), ch);
                proof {
                    lemma_push_new(old_cs, e);
                    assert forall|a: int| 0 <= a < m implies (#[trigger] paths@[a])@ != e.0@ by {
                        assert(paths@[a]@ != paths@[m as int]@);
                    }
                    assert forall|a: int| 0 <= a < m implies {
                        &&& has_change(old_cs.push(e), (#[trigger] paths@[a])@) == has_change(old_cs, paths@[a]@)
                        &&& is_full(old_cs.push(e), paths@[a]@) == is_full(old_cs, paths@[a]@)
                        &&& partial_ranges(old_cs.push(e), paths@[a]@) == partial_ranges(old_cs, paths@[a]@)
                    } by {
                        lemma_push_other(old_cs, e, paths@[a]@);
                    }
                    let c2 = old_cs.push(e);
                    assert forall|x: int, y: int| #![trigger c2[x], c2[y]] 0 <= x < c2.len() && 0 <= y < c2.len() && x != y implies c2[x].0@ != c2[y].0@ by {
                        if x < old_cs.len() && y < old_cs.len() {
                            assert(c2[x] == old_cs[x] && c2[y] == old_cs[y]);
                        } else if x < old_cs.len() {
                            assert(c2[x] == old_cs[x]);
                        } else {
                            assert(c2[y] == old_cs[y]);
                        }
                    }
                    assert forall|c: int| #![trigger c2[c]] 0 <= c < c2.len() implies exists|a: int| 0 <= a < m + 1 && (#[trigger] paths@[a])@ == c2[c].0@ by {
                        if c < old_cs.len() {
                            assert(c2[c] == old_cs[c]);
                            let a = choose|a: int| 0 <= a < m && (#[trigger] paths@[a])@ == old_cs[c].0@;
                        } else {
                            assert(paths@[m as int]@ == c2[c].0@);
                        }
                    }
                }
                cs.push(e);
            },
            None => {
                proof {
                    lemma_no_entry(old_cs, f@);
                    lemma_untouched_no_ranges(diffs@, f@);
                }
            },
        }
        m = m + 1;
    }
    proof {
        assert forall|f: Seq<char>| #[trigger] has_change(cs@, f) <==> diffs_touch(diffs@, diffs@.len() as int, f) by {
            if listed(paths@, f) {
                let a = choose|a: int| 0 <= a < paths@.len() && (#[trigger] paths@[a])@ == f;
                assert(has_change(cs@, paths@[a]@) <==> diffs_touch(diffs@, diffs@.len() as int, paths@[a]@));
            } else {
                if has_change(cs@, f) {
                    let c = choose|c: int| 0 <= c < cs@.len() && (#[trigger] cs@[c]).0@ == f;
                    let a = choose|a: int| 0 <= a < m && (#[trigger] paths@[a])@ == cs@[c].0@;
                }
                if diffs_touch(diffs@, diffs@.len() as int, f) {
                    let i = choose|i: int| 0 <= i < diffs@.len() && (#[trigger] diffs@[i]).old_path@ == f && (diffs@[i].hunks@.len() > 0 || !patch_balanced(diffs@[i].patch@));
                    assert(listed(paths@, diffs@[i].old_path@));
                }
            }
        }
        assert forall|f: Seq<char>| #[trigger] is_full(cs@, f) <==> diffs_full(diffs@, diffs@.len() as int, f) by {
            if listed(paths@, f) {
                let a = choose|a: int| 0 <= a < paths@.len() && (#[trigger] paths@[a])@ == f;
                assert(is_full(cs@, paths@[a]@) <==> diffs_full(diffs@, diffs@.len() as int, paths@[a]@));
            } else {
                assert(!has_change(cs@, f)) by {
                    if has_change(cs@, f) {
                        let c = choose|c: int| 0 <= c < cs@.len() && (#[trigger] cs@[c]).0@ == f;
                        let a = choose|a: int| 0 <= a < m && (#[trigger] paths@[a])@ == cs@[c].0@;
                    }
                }
                lemma_no_entry(cs@, f);
                if diffs_full(diffs@, diffs@.len() as int, f) {
                    let i = choose|i: int| 0 <= i < diffs@.len() && (#[trigger] diffs@[i]).old_path@ == f && !patch_balanced(diffs@[i].patch@);
                    assert(listed(paths@, diffs@[i].old_path@));
                }
            }
        }
        assert forall|f: Seq<char>| !is_full(cs@, f) implies #[trigger] partial_ranges(cs@, f) == diffs_ranges(diffs@, diffs@.len() as int, f) by {
            if listed(paths@, f) {
                let a = choose|a: int| 0 <= a < paths@.len() && (#[trigger] paths@[a])@ == f;
                assert(partial_ranges(cs@, paths@[a]@) == diffs_ranges(diffs@, diffs@.len() as int, paths@[a]@));
            } else {
                assert(!has_change(cs@, f)) by {
                    if has_change(cs@, f) {
                        let c = choose|c: int| 0 <= c < cs@.len() && (#[trigger] cs@[c]).0@ == f;
                        let a = choose|a: int| 0 <= a < m && (#[trigger] paths@[a])@ == cs@[c].0@;
                    }
                }
                lemma_no_entry(cs@, f);
                assert(!diffs_touch(diffs@, diffs@.len() as int, f)) by {
                    if diffs_touch(diffs@, diffs@.len() as int, f) {
                        let i = choose|i: int| 0 <= i < diffs@.len() && (#[trigger] diffs@[i]).old_path@ == f && (diffs@[i].hunks@.len() > 0 || !patch_balanced(diffs@[i].patch@));
                        assert(listed(paths@, diffs@[i].old_path@));
                    }
                }
                lemma_untouched_no_ranges(diffs@, f);
            }
        }
    }
    cs
}

} // verus!
