use vstd::prelude::*;
use crate::change::{lemma_range_set_push, listed};
use crate::index::{covered, range_set, FileUsageIndex, LabeledRange, RangeView};
use crate::report::{check_file, file_ok, line_used, used_ranges, File, Info};

verus! {

/// Why an operation on a usage snapshot failed.
#[derive(Clone, Copy, PartialEq, Eq, Structural, Debug)]
pub enum UsageError {
    /// A report's ranges are out of order or out of bounds.
    MalformedInput,
    /// An accumulation did not bring exactly one variant that the snapshot
    /// lacks.
    AccumulationConflict,
}

/// The usage snapshot of one build commit: for each file, the line ranges
/// that each variant compiled, and for each variant its compiler-invocation
/// fingerprint.
pub struct UsageStorage {
    pub repo: String,
    pub used_lines: Vec<(String, FileUsageIndex)>,
    pub commands: Vec<(String, Option<String>)>,
}

/// Some entry of `u` is for file `f`.
pub open spec fn has_file(u: Seq<(String, FileUsageIndex)>, f: Seq<char>) -> bool {
    exists|i: int| 0 <= i < u.len() && (#[trigger] u[i]).0@ == f
}

/// The ranges recorded for file `f`.
pub open spec fn file_ranges(u: Seq<(String, FileUsageIndex)>, f: Seq<char>) -> Set<RangeView> {
    Set::new(
        |t: RangeView|
            exists|i: int| 0 <= i < u.len() && (#[trigger] u[i]).0@ == f && u[i].1@.contains(t),
    )
}

/// No two entries of `u` are for the same file.
pub open spec fn files_unique(u: Seq<(String, FileUsageIndex)>) -> bool {
    forall|a: int, b: int|
        #![trigger u[a], u[b]]
        0 <= a < u.len() && 0 <= b < u.len() && a != b ==> u[a].0@ != u[b].0@
}

/// The variants that `c` records.
pub open spec fn variants(c: Seq<(String, Option<String>)>) -> Set<Seq<char>> {
    Set::new(|v: Seq<char>| exists|i: int| 0 <= i < c.len() && (#[trigger] c[i]).0@ == v)
}

/// No variant is recorded twice.
pub open spec fn variants_unique(c: Seq<(String, Option<String>)>) -> bool {
    forall|a: int, b: int|
        #![trigger c[a], c[b]]
        0 <= a < c.len() && 0 <= b < c.len() && a != b ==> c[a].0@ != c[b].0@
}

pub open spec fn opt_view(o: Option<String>) -> Option<Seq<char>> {
    match o {
        Some(s) => Some(s@),
        None => None,
    }
}

/// The pairs of variant and fingerprint that `c` records.
pub open spec fn fingerprints(c: Seq<(String, Option<String>)>) -> Set<(Seq<char>, Option<Seq<char>>)> {
    Set::new(
        |e: (Seq<char>, Option<Seq<char>>)|
            exists|i: int| 0 <= i < c.len() && ((#[trigger] c[i]).0@, opt_view(c[i].1)) == e,
    )
}

/// Every file entry of every report is one that the analysis can take.
pub open spec fn reports_ok(infos: Seq<Info>) -> bool {
    forall|i: int, j: int|
        0 <= i < infos.len() && 0 <= j < infos[i].files@.len() ==> file_ok(
            #[trigger] infos[i].files@[j],
        )
}

/// Some report has an entry for file `f`.
pub open spec fn reported(infos: Seq<Info>, f: Seq<char>) -> bool {
    exists|i: int, j: int|
        0 <= i < infos.len() && 0 <= j < infos[i].files@.len() && (
        #[trigger] infos[i].files@[j]).path@ == f
}

/// One of the first `n` entries of `info` is for file `f` and uses line `p`.
pub open spec fn used_in(info: Info, mode: bool, f: Seq<char>, p: int, n: int) -> bool {
    exists|j: int|
        0 <= j < n && (#[trigger] info.files@[j]).path@ == f && line_used(info.files@[j], mode, p)
}

/// Some report's entry for file `f` uses line `p`.
pub open spec fn reported_used(infos: Seq<Info>, mode: bool, f: Seq<char>, p: int) -> bool {
    exists|i: int| 0 <= i < infos.len() && used_in(#[trigger] infos[i], mode, f, p, infos[i].files@.len() as int)
}

pub proof fn lemma_range_set_concat(a: Seq<LabeledRange>, b: Seq<LabeledRange>)
    ensures
        range_set(a + b) == range_set(a).union(range_set(b)),
    decreases b.len(),
{
    if b.len() == 0 {
        assert(a + b =~= a);
        assert(range_set(b) =~= Set::<RangeView>::empty());
        assert(range_set(a).union(range_set(b)) =~= range_set(a));
    } else {
        let b0 = b.drop_last();
        let x = b.last();
        lemma_range_set_concat(a, b0);
        assert(a + b =~= (a + b0).push(x));
        assert(b =~= b0.push(x));
        lemma_range_set_push(a + b0, x);
        lemma_range_set_push(b0, x);
        assert(range_set(a + b) =~= range_set(a).union(range_set(b)));
    }
}

/// Checks every file entry and lists the distinct file paths.
fn checked_paths(infos: &Vec<Info>) -> (r: Option<Vec<String>>)
    ensures
        r is None <==> !reports_ok(infos@),
        r matches Some(out) ==> {
            &&& forall|a: int, b: int|
                #![trigger out@[a], out@[b]]
                0 <= a < out@.len() && 0 <= b < out@.len() && a != b ==> out@[a]@ != out@[b]@
            &&& forall|i: int, j: int|
                0 <= i < infos@.len() && 0 <= j < infos@[i].files@.len() ==> listed(
                    out@,
                    (#[trigger] infos@[i].files@[j]).path@,
                )
            &&& forall|a: int| 0 <= a < out@.len() ==> reported(infos@, (#[trigger] out@[a])@)
        },
{
    let mut out: Vec<String> = Vec::new();
    let mut i: usize = 0;
    while i < infos.len()
        invariant
            i <= infos@.len(),
            forall|a: int, b: int|
                #![trigger out@[a], out@[b]]
                0 <= a < out@.len() && 0 <= b < out@.len() && a != b ==> out@[a]@ != out@[b]@,
            forall|i2: int, j: int|
                0 <= i2 < i && 0 <= j < infos@[i2].files@.len() ==> file_ok(#[trigger] infos@[i2].files@[j])
                    && listed(out@, infos@[i2].files@[j].path@),
            forall|a: int| 0 <= a < out@.len() ==> reported(infos@, (#[trigger] out@[a])@),
        decreases infos@.len() - i,
    {
        let info = &infos[i];
        let mut j: usize = 0;
        while j < info.files.len()
            invariant
                i < infos@.len(),
                *info == infos@[i as int],
                j <= info.files@.len(),
                forall|a: int, b: int|
                    #![trigger out@[a], out@[b]]
                    0 <= a < out@.len() && 0 <= b < out@.len() && a != b ==> out@[a]@ != out@[b]@,
                forall|i2: int, j2: int|
                    0 <= i2 < i && 0 <= j2 < infos@[i2].files@.len() ==> file_ok(#[trigger] infos@[i2].files@[j2])
                        && listed(out@, infos@[i2].files@[j2].path@),
                forall|j2: int| 0 <= j2 < j ==> file_ok(#[trigger] info.files@[j2]) && listed(out@, info.files@[j2].path@),
                forall|a: int| 0 <= a < out@.len() ==> reported(infos@, (#[trigger] out@[a])@),
            decreases info.files@.len() - j,
        {
            let file = &info.files[j];
            if !check_file(file) {
                return None;
            }
            let mut found = false;
            let mut m: usize = 0;
            while m < out.len()
                invariant
                    m <= out@.len(),
                    found <==> exists|a: int| 0 <= a < m && (#[trigger] out@[a])@ == file.path@,
                decreases out@.len() - m,
            {
                if out[m] == file.path {
                    found = true;
                }
                m = m + 1;
            }
            let ghost old_out = out@;
            if !found {
                out.push(file.path.clone());
                proof {
                    assert forall|a: int, b: int|
                        #![trigger out@[a], out@[b]]
                        0 <= a < out@.len() && 0 <= b < out@.len() && a != b implies out@[a]@ != out@[b]@ by {
                        if a < old_out.len() && b < old_out.len() {
                            assert(out@[a] == old_out[a] && out@[b] == old_out[b]);
                        } else if a < old_out.len() {
                            assert(out@[a] == old_out[a]);
                        } else {
                            assert(out@[b] == old_out[b]);
                        }
                    }
                    assert forall|g: Seq<char>| listed(old_out, g) implies listed(out@, g) by {
                        let a = choose|a: int| 0 <= a < old_out.len() && (#[trigger] old_out[a])@ == g;
                        assert(out@[a] == old_out[a]);
                    }
                    assert(out@[old_out.len() as int]@ == file.path@);
                    assert(infos@[i as int].files@[j as int] == *file);
                    assert(reported(infos@, file.path@));
                    assert forall|a: int| 0 <= a < out@.len() implies reported(infos@, (#[trigger] out@[a])@) by {
                        if a < old_out.len() {
                            assert(out@[a] == old_out[a]);
                        }
                    }
                }
            } else {
                proof {
                    let a = choose|a: int| 0 <= a < m && (#[trigger] out@[a])@ == file.path@;
                }
            }
            j = j + 1;
        }
        i = i + 1;
    }
    Some(out)
}

/// All used ranges that the reports give for file `f`, tagged with `variant`.
fn gather(infos: &Vec<Info>, f: &String, variant: &String, mode: bool) -> (r: Vec<LabeledRange>)
    requires
        reports_ok(infos@),
    ensures
        forall|t: RangeView| #[trigger] range_set(r@).contains(t) ==> t.2 == variant@,
        forall|p: int| #[trigger] covered(range_set(r@), p) <==> reported_used(infos@, mode, f@, p),
{
    let mut v: Vec<LabeledRange> = Vec::new();
    let mut i: usize = 0;
    while i < infos.len()
        invariant
            i <= infos@.len(),
            reports_ok(infos@),
            forall|t: RangeView| #[trigger] range_set(v@).contains(t) ==> t.2 == variant@,
            forall|p: int| #[trigger] covered(range_set(v@), p) <==> exists|i2: int| 0 <= i2 < i && used_in(#[trigger] infos@[i2], mode, f@, p, infos@[i2].files@.len() as int),
        decreases infos@.len() - i,
    {
        let info = &infos[i];
        let mut j: usize = 0;
        while j < info.files.len()
            invariant
                i < infos@.len(),
                *info == infos@[i as int],
                j <= info.files@.len(),
                reports_ok(infos@),
                forall|t: RangeView| #[trigger] range_set(v@).contains(t) ==> t.2 == variant@,
                forall|p: int| #[trigger] covered(range_set(v@), p) <==> (exists|i2: int| 0 <= i2 < i && used_in(#[trigger] infos@[i2], mode, f@, p, infos@[i2].files@.len() as int)) || used_in(*info, mode, f@, p, j as int),
            decreases info.files@.len() - j,
        {
            let file = &info.files[j];
            if file.path == *f {
                proof {
                    assert(file_ok(infos@[i as int].files@[j as int]));
                }
                let mut w = used_ranges(file, variant, mode);
                let ghost old_v = v@;
                let ghost ww = w@;
                v.append(&mut w);
                proof {
                    lemma_range_set_concat(old_v, ww);
                    assert(v@ == old_v + ww);
                    assert forall|p: int| #[trigger] covered(range_set(v@), p) <==> (exists|i2: int| 0 <= i2 < i && used_in(#[trigger] infos@[i2], mode, f@, p, infos@[i2].files@.len() as int)) || used_in(*info, mode, f@, p, j + 1) by {
                        if covered(range_set(v@), p) {
                            let t = choose|t: RangeView| #[trigger] range_set(v@).contains(t) && t.0 <= p < t.1;
                            if range_set(old_v).contains(t) {
                                assert(covered(range_set(old_v), p));
                                if used_in(*info, mode, f@, p, j as int) {
                                    let j2 = choose|j2: int| 0 <= j2 < j && (#[trigger] info.files@[j2]).path@ == f@ && line_used(info.files@[j2], mode, p);
                                }
                            } else {
                                assert(covered(range_set(ww), p));
                                assert(info.files@[j as int] == *file);
                            }
                        }
                        if used_in(*info, mode, f@, p, j + 1) {
                            let j2 = choose|j2: int| 0 <= j2 < j + 1 && (#[trigger] info.files@[j2]).path@ == f@ && line_used(info.files@[j2], mode, p);
                            if j2 < j {
                                assert(used_in(*info, mode, f@, p, j as int));
                                assert(covered(range_set(old_v), p));
                                let t = choose|t: RangeView| #[trigger] range_set(old_v).contains(t) && t.0 <= p < t.1;
                                assert(range_set(v@).contains(t));
                            } else {
                                assert(info.files@[j2] == *file);
                                assert(covered(range_set(ww), p));
                                let t = choose|t: RangeView| #[trigger] range_set(ww).contains(t) && t.0 <= p < t.1;
                                assert(range_set(v@).contains(t));
                            }
                        }
                        if exists|i2: int| 0 <= i2 < i && used_in(#[trigger] infos@[i2], mode, f@, p, infos@[i2].files@.len() as int) {
                            assert(covered(range_set(old_v), p));
                            let t = choose|t: RangeView| #[trigger] range_set(old_v).contains(t) && t.0 <= p < t.1;
                            assert(range_set(v@).contains(t));
                        }
                    }
                }
            } else {
                proof {
                    assert forall|p: int| used_in(*info, mode, f@, p, j + 1) == used_in(*info, mode, f@, p, j as int) by {
                        if used_in(*info, mode, f@, p, j + 1) {
                            let j2 = choose|j2: int| 0 <= j2 < j + 1 && (#[trigger] info.files@[j2]).path@ == f@ && line_used(info.files@[j2], mode, p);
                            assert(info.files@[j as int] == *file);
                        }
                    }
                }
            }
            j = j + 1;
        }
        proof {
            assert forall|p: int| #[trigger] covered(range_set(v@), p) <==> exists|i2: int| 0 <= i2 < i + 1 && used_in(#[trigger] infos@[i2], mode, f@, p, infos@[i2].files@.len() as int) by {
                if exists|i2: int| 0 <= i2 < i + 1 && used_in(#[trigger] infos@[i2], mode, f@, p, infos@[i2].files@.len() as int) {
                    let i2 = choose|i2: int| 0 <= i2 < i + 1 && used_in(#[trigger] infos@[i2], mode, f@, p, infos@[i2].files@.len() as int);
                    if i2 == i {
                        assert(used_in(*info, mode, f@, p, j as int));
                    }
                }
            }
        }
        i = i + 1;
    }
    v
}

impl UsageStorage {
    /// Builds the snapshot of one variant from the reports of its translation
    /// units: for each file, the lines that some unit compiled, joined into
    /// maximal ranges tagged with `variant`. Fails with `MalformedInput` if a
    /// report's ranges are out of order or out of bounds.
    pub fn from(
        repo: String,
        compile_commands_hash: Option<String>,
        variant: String,
        infos: &Vec<Info>,
        parses_used_lines: bool,
    ) -> (r: Result<UsageStorage, UsageError>)
        ensures
            r is Err <==> !reports_ok(infos@),
            r matches Err(e) ==> e == UsageError::MalformedInput,
            r matches Ok(s) ==> {
                &&& s.repo@ == repo@
                &&& s.commands@.len() == 1
                &&& s.commands@[0].0@ == variant@
                &&& s.commands@[0].1 == compile_commands_hash
                &&& files_unique(s.used_lines@)
                &&& forall|f: Seq<char>| #[trigger] has_file(s.used_lines@, f) <==> reported(infos@, f)
                &&& forall|f: Seq<char>, t: RangeView|
                    #[trigger] file_ranges(s.used_lines@, f).contains(t) ==> t.2 == variant@
                &&& forall|f: Seq<char>, p: int|
                    #[trigger] covered(file_ranges(s.used_lines@, f), p) <==> reported_used(
                        infos@,
                        parses_used_lines,
                        f,
                        p,
                    )
            },
    {
        let paths = match checked_paths(infos) {
            Some(p) => p,
            None => {
                return Err(UsageError::MalformedInput);
            },
        };
        let mut u: Vec<(String, FileUsageIndex)> = Vec::new();
        let mut m: usize = 0;
        while m < paths.len()
            invariant
                m <= paths@.len(),
                reports_ok(infos@),
                u@.len() == m,
                forall|c: int| 0 <= c < m ==> (#[trigger] u@[c]).0@ == paths@[c]@,
                forall|c: int, t: RangeView| #![trigger u@[c].1@.contains(t)] 0 <= c < m && u@[c].1@.contains(t) ==> t.2 == variant@,
                forall|c: int, p: int| #![trigger covered(u@[c].1@, p)] 0 <= c < m ==> (covered(u@[c].1@, p) <==> reported_used(infos@, parses_used_lines, paths@[c]@, p)),
            decreases paths@.len() - m,
        {
            let f = &paths[m];
            let v = gather(infos, f, &variant, parses_used_lines);
            let ghost vs = range_set(v@);
            let mut idx = FileUsageIndex::from_ranges(v);
            idx.merge_overlaps();
            let ghost old_u = u@;
            u.push((f.clone(), idx));
            proof {
                assert forall|c: int| 0 <= c < m + 1 implies (#[trigger] u@[c]).0@ == paths@[c]@ by {
                    if c < m {
                        assert(u@[c] == old_u[c]);
                    }
                }
                assert forall|c: int, t: RangeView| #![trigger u@[c].1@.contains(t)] 0 <= c < m + 1 && u@[c].1@.contains(t) implies t.2 == variant@ by {
                    if c < m {
                        assert(u@[c] == old_u[c]);
                    } else {
                        let w = choose|w: RangeView| #[trigger] vs.contains(w) && w.2 == t.2;
                    }
                }
                assert forall|c: int, p: int| #![trigger covered(u@[c].1@, p)] 0 <= c < m + 1 implies (covered(u@[c].1@, p) <==> reported_used(infos@, parses_used_lines, paths@[c]@, p)) by {
                    if c < m {
                        assert(u@[c] == old_u[c]);
                    }
                }
            }
            m = m + 1;
        }
        proof {
            assert forall|a: int, b: int| #![trigger u@[a], u@[b]] 0 <= a < u@.len() && 0 <= b < u@.len() && a != b implies u@[a].0@ != u@[b].0@ by {
                assert(paths@[a]@ != paths@[b]@);
            }
            assert forall|f: Seq<char>| #[trigger] has_file(u@, f) <==> reported(infos@, f) by {
                if has_file(u@, f) {
                    let c = choose|c: int| 0 <= c < u@.len() && (#[trigger] u@[c]).0@ == f;
                    assert(reported(infos@, paths@[c]@));
                }
                if reported(infos@, f) {
                    let (i, j) = choose|i: int, j: int| 0 <= i < infos@.len() && 0 <= j < infos@[i].files@.len() && (#[trigger] infos@[i].files@[j]).path@ == f;
                    assert(listed(paths@, f));
                    let a = choose|a: int| 0 <= a < paths@.len() && (#[trigger] paths@[a])@ == f;
                    assert(u@[a].0@ == f);
                }
            }
            assert forall|f: Seq<char>, t: RangeView| #[trigger] file_ranges(u@, f).contains(t) implies t.2 == variant@ by {
                let c = choose|c: int| 0 <= c < u@.len() && (#[trigger] u@[c]).0@ == f && u@[c].1@.contains(t);
            }
            assert forall|f: Seq<char>, p: int| #[trigger] covered(file_ranges(u@, f), p) <==> reported_used(infos@, parses_used_lines, f, p) by {
                if covered(file_ranges(u@, f), p) {
                    let t = choose|t: RangeView| #[trigger] file_ranges(u@, f).contains(t) && t.0 <= p < t.1;
                    let c = choose|c: int| 0 <= c < u@.len() && (#[trigger] u@[c]).0@ == f && u@[c].1@.contains(t);
                    assert(covered(u@[c].1@, p));
                }
                if reported_used(infos@, parses_used_lines, f, p) {
                    let i = choose|i: int| 0 <= i < infos@.len() && used_in(#[trigger] infos@[i], parses_used_lines, f, p, infos@[i].files@.len() as int);
                    let j = choose|j: int| 0 <= j < infos@[i].files@.len() && (#[trigger] infos@[i].files@[j]).path@ == f && line_used(infos@[i].files@[j], parses_used_lines, p);
                    assert(listed(paths@, infos@[i].files@[j].path@));
                    let a = choose|a: int| 0 <= a < paths@.len() && (#[trigger] paths@[a])@ == f;
                    assert(covered(u@[a].1@, p));
                    let t = choose|t: RangeView| #[trigger] u@[a].1@.contains(t) && t.0 <= p < t.1;
                    assert(file_ranges(u@, f).contains(t));
                }
            }
        }
        let mut commands: Vec<(String, Option<String>)> = Vec::new();
        commands.push((variant, compile_commands_hash));
        Ok(UsageStorage { repo, used_lines: u, commands })
    }
}

fn copy_opt(o: &Option<String>) -> (r: Option<String>)
    ensures
        r == *o,
{
    match o {
        Some(s) => Some(s.clone()),
        None => None,
    }
}

/// `result` is `old` with `new` accumulated into it: the variants and
/// fingerprints of both, and for each file the ranges of both.
pub open spec fn merged(old: UsageStorage, new: UsageStorage, result: UsageStorage) -> bool {
    &&& result.repo == old.repo
    &&& variants(result.commands@) == variants(old.commands@).union(variants(new.commands@))
    &&& fingerprints(result.commands@) == fingerprints(old.commands@).union(
        fingerprints(new.commands@),
    )
    &&& forall|f: Seq<char>| #[trigger]
        has_file(result.used_lines@, f) == (has_file(old.used_lines@, f) || has_file(
            new.used_lines@,
            f,
        ))
    &&& forall|f: Seq<char>| #[trigger]
        file_ranges(result.used_lines@, f) == file_ranges(old.used_lines@, f).union(
            file_ranges(new.used_lines@, f),
        )
}

/// `new` can be accumulated into `old`: it brings exactly one variant, and
/// `old` lacks it.
pub open spec fn accepts(old: UsageStorage, new: UsageStorage) -> bool {
    new.commands@.len() == 1 && !variants(old.commands@).contains(new.commands@[0].0@)
}

proof fn lemma_variants_push(c: Seq<(String, Option<String>)>, e: (String, Option<String>))
    ensures
        variants(c.push(e)) == variants(c).insert(e.0@),
        fingerprints(c.push(e)) == fingerprints(c).insert((e.0@, opt_view(e.1))),
{
    let c2 = c.push(e);
    assert forall|v: Seq<char>| variants(c2).contains(v) <==> variants(c).insert(e.0@).contains(v) by {
        if variants(c2).contains(v) {
            let i = choose|i: int| 0 <= i < c2.len() && (#[trigger] c2[i]).0@ == v;
            if i < c.len() {
                assert(c2[i] == c[i]);
            }
        }
        if variants(c).contains(v) {
            let i = choose|i: int| 0 <= i < c.len() && (#[trigger] c[i]).0@ == v;
            assert(c2[i] == c[i]);
        }
        assert(c2[c.len() as int] == e);
    }
    assert(variants(c2) =~= variants(c).insert(e.0@));
    assert forall|x: (Seq<char>, Option<Seq<char>>)| fingerprints(c2).contains(x) <==> fingerprints(c).insert((e.0@, opt_view(e.1))).contains(x) by {
        if fingerprints(c2).contains(x) {
            let i = choose|i: int| 0 <= i < c2.len() && ((#[trigger] c2[i]).0@, opt_view(c2[i].1)) == x;
            if i < c.len() {
                assert(c2[i] == c[i]);
            }
        }
        if fingerprints(c).contains(x) {
            let i = choose|i: int| 0 <= i < c.len() && ((#[trigger] c[i]).0@, opt_view(c[i].1)) == x;
            assert(c2[i] == c[i]);
        }
        assert(c2[c.len() as int] == e);
    }
    assert(fingerprints(c2) =~= fingerprints(c).insert((e.0@, opt_view(e.1))));
}

proof fn lemma_single(c: Seq<(String, Option<String>)>)
    requires
        c.len() == 1,
    ensures
        variants(c) == Set::<Seq<char>>::empty().insert(c[0].0@),
        fingerprints(c) == Set::<(Seq<char>, Option<Seq<char>>)>::empty().insert((c[0].0@, opt_view(c[0].1))),
{
    assert(c =~= Seq::<(String, Option<String>)>::empty().push(c[0]));
    lemma_variants_push(Seq::<(String, Option<String>)>::empty(), c[0]);
    assert(variants(Seq::<(String, Option<String>)>::empty()) =~= Set::<Seq<char>>::empty());
    assert(fingerprints(Seq::<(String, Option<String>)>::empty()) =~= Set::<(Seq<char>, Option<Seq<char>>)>::empty());
}

/// Removing entry `k` and adding `e` for the same file: the other files keep
/// their ranges, that file gets those of `e` besides the others it had.
proof fn lemma_replace_entry(u: Seq<(String, FileUsageIndex)>, k: int, e: (String, FileUsageIndex), g: Seq<char>)
    requires
        0 <= k < u.len(),
        e.0@ == u[k].0@,
    ensures
        has_file(u.remove(k).push(e), g) == has_file(u, g),
        file_ranges(u.remove(k).push(e), g) == if g == e.0@ {
            file_ranges(u.remove(k), g).union(e.1@)
        } else {
            file_ranges(u, g)
        },
        g == e.0@ ==> file_ranges(u, g) == file_ranges(u.remove(k), g).union(u[k].1@),
{
    let r = u.remove(k);
    let u2 = r.push(e);
    assert forall|i: int| 0 <= i < r.len() implies #[trigger] r[i] == if i < k { u[i] } else { u[i + 1] } by {}
    if has_file(u2, g) {
        let i = choose|i: int| 0 <= i < u2.len() && (#[trigger] u2[i]).0@ == g;
        if i < r.len() {
            assert(u2[i] == r[i]);
            if i >= k {
                assert(u[i + 1].0@ == g);
            }
        } else {
            assert(u[k].0@ == g);
        }
    }
    if has_file(u, g) {
        let i = choose|i: int| 0 <= i < u.len() && (#[trigger] u[i]).0@ == g;
        if i < k {
            assert(u2[i] == u[i]);
        } else if i > k {
            assert(u2[i - 1] == u[i]);
        } else {
            assert(u2[r.len() as int] == e);
        }
    }
    assert forall|t: RangeView| file_ranges(u2, g).contains(t) <==> (if g == e.0@ { file_ranges(r, g).union(e.1@) } else { file_ranges(u, g) }).contains(t) by {
        if file_ranges(u2, g).contains(t) {
            let i = choose|i: int| 0 <= i < u2.len() && (#[trigger] u2[i]).0@ == g && u2[i].1@.contains(t);
            if i < r.len() {
                assert(u2[i] == r[i]);
                if i < k {
                    assert(u[i] == r[i]);
                } else {
                    assert(u[i + 1] == r[i]);
                }
            } else {
                assert(u2[i] == e);
            }
        }
        if g == e.0@ {
            if file_ranges(r, g).contains(t) {
                let i = choose|i: int| 0 <= i < r.len() && (#[trigger] r[i]).0@ == g && r[i].1@.contains(t);
                assert(u2[i] == r[i]);
            }
            if e.1@.contains(t) {
                assert(u2[r.len() as int] == e);
            }
        } else {
            if file_ranges(u, g).contains(t) {
                let i = choose|i: int| 0 <= i < u.len() && (#[trigger] u[i]).0@ == g && u[i].1@.contains(t);
                if i < k {
                    assert(u2[i] == u[i]);
                } else if i > k {
                    assert(u2[i - 1] == u[i]);
                }
            }
        }
    }
    assert(file_ranges(u2, g) =~= if g == e.0@ { file_ranges(r, g).union(e.1@) } else { file_ranges(u, g) });
    if g == e.0@ {
        assert forall|t: RangeView| file_ranges(u, g).contains(t) <==> file_ranges(r, g).union(u[k].1@).contains(t) by {
            if file_ranges(u, g).contains(t) {
                let i = choose|i: int| 0 <= i < u.len() && (#[trigger] u[i]).0@ == g && u[i].1@.contains(t);
                if i < k {
                    assert(r[i] == u[i]);
                } else if i > k {
                    assert(r[i - 1] == u[i]);
                }
            }
            if file_ranges(r, g).contains(t) {
                let i = choose|i: int| 0 <= i < r.len() && (#[trigger] r[i]).0@ == g && r[i].1@.contains(t);
            }
        }
        assert(file_ranges(u, g) =~= file_ranges(r, g).union(u[k].1@));
    }
}

proof fn lemma_push_entry(u: Seq<(String, FileUsageIndex)>, e: (String, FileUsageIndex), g: Seq<char>)
    ensures
        has_file(u.push(e), g) == (has_file(u, g) || e.0@ == g),
        file_ranges(u.push(e), g) == if g == e.0@ {
            file_ranges(u, g).union(e.1@)
        } else {
            file_ranges(u, g)
        },
{
    let u2 = u.push(e);
    if has_file(u2, g) {
        let i = choose|i: int| 0 <= i < u2.len() && (#[trigger] u2[i]).0@ == g;
        if i < u.len() {
            assert(u2[i] == u[i]);
        }
    }
    if has_file(u, g) {
        let i = choose|i: int| 0 <= i < u.len() && (#[trigger] u[i]).0@ == g;
        assert(u2[i] == u[i]);
    }
    assert(u2[u.len() as int] == e);
    assert forall|t: RangeView| file_ranges(u2, g).contains(t) <==> (if g == e.0@ { file_ranges(u, g).union(e.1@) } else { file_ranges(u, g) }).contains(t) by {
        if file_ranges(u2, g).contains(t) {
            let i = choose|i: int| 0 <= i < u2.len() && (#[trigger] u2[i]).0@ == g && u2[i].1@.contains(t);
            if i < u.len() {
                assert(u2[i] == u[i]);
            }
        }
        if file_ranges(u, g).contains(t) {
            let i = choose|i: int| 0 <= i < u.len() && (#[trigger] u[i]).0@ == g && u[i].1@.contains(t);
            assert(u2[i] == u[i]);
        }
    }
    assert(file_ranges(u2, g) =~= if g == e.0@ { file_ranges(u, g).union(e.1@) } else { file_ranges(u, g) });
}

fn find_file(u: &Vec<(String, FileUsageIndex)>, key: &String) -> (r: Option<usize>)
    ensures
        match r {
            Some(k) => k < u@.len() && u@[k as int].0@ == key@,
            None => !has_file(u@, key@),
        },
{
    let mut k: usize = 0;
    while k < u.len()
        invariant
            k <= u@.len(),
            forall|m: int| 0 <= m < k ==> (#[trigger] u@[m]).0@ != key@,
        decreases u@.len() - k,
    {
        if u[k].0 == *key {
            return Some(k);
        }
        k = k + 1;
    }
    None
}

impl UsageStorage {
    /// Accumulates the snapshot `new` of one more variant into `self`: each
    /// file's ranges become those of both, and the variant's fingerprint is
    /// added. Fails with `AccumulationConflict`, and leaves `self` as it was,
    /// unless `new` brings exactly one variant that `self` lacks.
    pub fn merge_into(&mut self, new: &UsageStorage) -> (r: Result<(), UsageError>)
        ensures
            r is Err <==> !accepts(*old(self), *new),
            r matches Err(e) ==> e == UsageError::AccumulationConflict && *final(self) == *old(self),
            r is Ok ==> merged(*old(self), *new, *final(self)),
    {
        if new.commands.len() != 1 {
            return Err(UsageError::AccumulationConflict);
        }
        let v = &new.commands[0].0;
        let mut c: usize = 0;
        while c < self.commands.len()
            invariant
                c <= self.commands@.len(),
                new.commands@.len() == 1,
                *v == new.commands@[0].0,
                forall|m: int| 0 <= m < c ==> (#[trigger] self.commands@[m]).0@ != v@,
            decreases self.commands@.len() - c,
        {
            if self.commands[c].0 == *v {
                proof {
                    assert(new.commands@[0].0@ == v@);
                    assert(variants(self.commands@).contains(v@));
                }
                return Err(UsageError::AccumulationConflict);
            }
            c = c + 1;
        }
        let ghost old_self = *self;
        proof {
            assert(!variants(self.commands@).contains(v@)) by {
                if variants(self.commands@).contains(v@) {
                    let i = choose|i: int| 0 <= i < self.commands@.len() && (#[trigger] self.commands@[i]).0@ == v@;
                }
            }
            lemma_single(new.commands@);
        }
        let e = (v.clone(), copy_opt(&new.commands[0].1));
        proof {
            lemma_variants_push(self.commands@, e);
        }
        self.commands.push(e);
        proof {
            assert(variants(self.commands@) =~= variants(old_self.commands@).union(variants(new.commands@)));
            assert(fingerprints(self.commands@) =~= fingerprints(old_self.commands@).union(fingerprints(new.commands@)));
        }
        let mut i: usize = 0;
        while i < new.used_lines.len()
            invariant
                i <= new.used_lines@.len(),
                self.repo == old_self.repo,
                variants(self.commands@) == variants(old_self.commands@).union(variants(new.commands@)),
                fingerprints(self.commands@) == fingerprints(old_self.commands@).union(fingerprints(new.commands@)),
                forall|f: Seq<char>| #[trigger] has_file(self.used_lines@, f) == (has_file(old_self.used_lines@, f) || has_file(new.used_lines@.take(i as int), f)),
                forall|f: Seq<char>| #[trigger] file_ranges(self.used_lines@, f) == file_ranges(old_self.used_lines@, f).union(file_ranges(new.used_lines@.take(i as int), f)),
            decreases new.used_lines@.len() - i,
        {
            let npath = &new.used_lines[i].0;
            let ntree = &new.used_lines[i].1;
            let ghost before = self.used_lines@;
            let ghost tk = new.used_lines@.take(i as int);
            let ghost tk1 = new.used_lines@.take(i + 1);
            proof {
                assert(tk1 =~= tk.push(new.used_lines@[i as int]));
            }
            match find_file(&self.used_lines, npath) {
                Some(k) => {
                    let (p, otree) = self.used_lines.remove(k);
                    let mut a = otree.ranges();
                    let mut b = ntree.ranges();
                    let ghost av = a@;
                    let ghost bv = b@;
                    a.append(&mut b);
                    proof {
                        lemma_range_set_concat(av, bv);
                    }
                    let merged_tree = FileUsageIndex::from_ranges(a);
                    let e2 = (p, merged_tree);
                    let ghost e = e2;
                    self.used_lines.push(e2);
                    proof {
                        assert(self.used_lines@ == before.remove(k as int).push(e));
                        assert forall|f: Seq<char>| #[trigger] has_file(self.used_lines@, f) == (has_file(old_self.used_lines@, f) || has_file(tk1, f)) by {
                            lemma_replace_entry(before, k as int, e, f);
                            lemma_push_entry(tk, new.used_lines@[i as int], f);
                        }
                        assert forall|f: Seq<char>| #[trigger] file_ranges(self.used_lines@, f) == file_ranges(old_self.used_lines@, f).union(file_ranges(tk1, f)) by {
                            lemma_replace_entry(before, k as int, e, f);
                            lemma_push_entry(tk, new.used_lines@[i as int], f);
                            if f == e.0@ {
                                assert(before[k as int].1 == otree);
                                assert(e.1@ == otree@.union(ntree@));
                                assert(new.used_lines@[i as int].0@ == f);
                                assert(file_ranges(tk1, f) == file_ranges(tk, f).union(ntree@));
                                assert(file_ranges(before, f) == file_ranges(before.remove(k as int), f).union(otree@));
                                assert(file_ranges(before, f) == file_ranges(old_self.used_lines@, f).union(file_ranges(tk, f)));
                                assert(file_ranges(self.used_lines@, f) == file_ranges(before.remove(k as int), f).union(e.1@));
                                let rr = file_ranges(before.remove(k as int), f);
                                let lhs = file_ranges(self.used_lines@, f);
                                let rhs = file_ranges(old_self.used_lines@, f).union(file_ranges(tk1, f));
                                assert forall|x: RangeView| lhs.contains(x) <==> rhs.contains(x) by {
                                    assert(lhs.contains(x) == (rr.contains(x) || otree@.contains(x) || ntree@.contains(x)));
                                    assert(file_ranges(before, f).contains(x) == (rr.contains(x) || otree@.contains(x)));
                                    assert(file_ranges(before, f).contains(x) == (file_ranges(old_self.used_lines@, f).contains(x) || file_ranges(tk, f).contains(x)));
                                    assert(file_ranges(tk1, f).contains(x) == (file_ranges(tk, f).contains(x) || ntree@.contains(x)));
                                }
                                assert(lhs =~= rhs);
                            }
                        }
                    }
                },
                None => {
                    let copy = FileUsageIndex::from_ranges(ntree.ranges());
                    let e = (npath.clone(), copy);
                    let ghost ge = e;
                    self.used_lines.push(e);
                    proof {
                        assert forall|f: Seq<char>| #[trigger] has_file(self.used_lines@, f) == (has_file(old_self.used_lines@, f) || has_file(tk1, f)) by {
                            lemma_push_entry(before, ge, f);
                            lemma_push_entry(tk, new.used_lines@[i as int], f);
                        }
                        assert forall|f: Seq<char>| #[trigger] file_ranges(self.used_lines@, f) == file_ranges(old_self.used_lines@, f).union(file_ranges(tk1, f)) by {
                            lemma_push_entry(before, ge, f);
                            lemma_push_entry(tk, new.used_lines@[i as int], f);
                            if f == ge.0@ {
                                assert(file_ranges(self.used_lines@, f) =~= file_ranges(old_self.used_lines@, f).union(file_ranges(tk1, f)));
                            }
                        }
                    }
                },
            }
            i = i + 1;
        }
        proof {
            assert(new.used_lines@.take(new.used_lines@.len() as int) =~= new.used_lines@);
        }
        Ok(())
    }
}

/// Accumulation does not depend on the order in which variants come: two
/// snapshots accumulated in either order give the same files, ranges,
/// variants and fingerprints.
pub proof fn lemma_accumulation_order_free(
    s: UsageStorage,
    a: UsageStorage,
    b: UsageStorage,
    sa: UsageStorage,
    sab: UsageStorage,
    sb: UsageStorage,
    sba: UsageStorage,
)
    requires
        merged(s, a, sa),
        merged(sa, b, sab),
        merged(s, b, sb),
        merged(sb, a, sba),
    ensures
        forall|f: Seq<char>| #[trigger] has_file(sab.used_lines@, f) == has_file(sba.used_lines@, f),
        forall|f: Seq<char>| #[trigger] file_ranges(sab.used_lines@, f) == file_ranges(sba.used_lines@, f),
        variants(sab.commands@) == variants(sba.commands@),
        fingerprints(sab.commands@) == fingerprints(sba.commands@),
{
    assert forall|f: Seq<char>| #[trigger] file_ranges(sab.used_lines@, f) == file_ranges(sba.used_lines@, f) by {
        assert(file_ranges(sab.used_lines@, f) == file_ranges(sa.used_lines@, f).union(file_ranges(b.used_lines@, f)));
        assert(file_ranges(sba.used_lines@, f) == file_ranges(sb.used_lines@, f).union(file_ranges(a.used_lines@, f)));
        assert(file_ranges(sab.used_lines@, f) =~= file_ranges(sba.used_lines@, f));
    }
    assert forall|f: Seq<char>| #[trigger] has_file(sab.used_lines@, f) == has_file(sba.used_lines@, f) by {
        assert(has_file(sa.used_lines@, f) == (has_file(s.used_lines@, f) || has_file(a.used_lines@, f)));
        assert(has_file(sb.used_lines@, f) == (has_file(s.used_lines@, f) || has_file(b.used_lines@, f)));
    }
    assert(variants(sab.commands@) =~= variants(sba.commands@));
    assert(fingerprints(sab.commands@) =~= fingerprints(sba.commands@));
}

/// Once a variant has been accumulated, accumulating a snapshot of it again
/// is refused.
pub proof fn lemma_accumulation_rejects_repeat(s: UsageStorage, a: UsageStorage, sa: UsageStorage, a2: UsageStorage)
    requires
        accepts(s, a),
        merged(s, a, sa),
        a2.commands@.len() == 1,
        a2.commands@[0].0@ == a.commands@[0].0@,
    ensures
        !accepts(sa, a2),
{
    assert(variants(a.commands@).contains(a.commands@[0].0@));
    assert(variants(sa.commands@).contains(a2.commands@[0].0@));
}

} // verus!
