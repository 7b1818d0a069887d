use vstd::prelude::*;
use crate::change::{change_ranges, listed, Change};
use crate::text::chars_of;
use crate::index::{overlaps, range_set, FileUsageIndex, RangeView};
use crate::storage::{file_ranges, variants, UsageStorage};

verus! {

/// Where the last component of `p` begins: just past its last `/`.
pub open spec fn name_start(p: Seq<char>) -> int
    decreases p.len(),
{
    if p.len() == 0 {
        0
    } else if p.last() == '/' {
        p.len() as int
    } else {
        name_start(p.drop_last())
    }
}

/// Position of the last `.` in `s`, or -1.
pub open spec fn last_dot(s: Seq<char>) -> int
    decreases s.len(),
{
    if s.len() == 0 {
        -1
    } else if s.last() == '.' {
        s.len() - 1
    } else {
        last_dot(s.drop_last())
    }
}

/// The extension of the last component of `/`-separated path `p`: what
/// follows its last `.`, where that dot is not the component's first
/// character.
pub open spec fn extension_of(p: Seq<char>) -> Option<Seq<char>> {
    let name = p.subrange(name_start(p), p.len() as int);
    let d = last_dot(name);
    if d > 0 {
        Some(name.subrange(d + 1, name.len() as int))
    } else {
        None
    }
}

/// `p` joined onto `base` with a `/`; an absolute `p` stands alone.
pub open spec fn joined_path(base: Seq<char>, p: Seq<char>) -> Seq<char> {
    if p.len() > 0 && p[0] == '/' {
        p
    } else if base.len() == 0 || base.last() == '/' {
        base + p
    } else {
        base + seq!['/'] + p
    }
}

/// `p` joined onto `base`.
pub fn join_path(base: &str, p: &str) -> (r: String)
    ensures
        r@ == joined_path(base@, p@),
{
    proof {
        reveal_strlit("/");
    }
    let pn = p.unicode_len();
    if pn > 0 && p.get_char(0) == '/' {
        return String::from_str(p);
    }
    let bn = base.unicode_len();
    let mut r = String::from_str(base);
    if !(bn == 0 || base.get_char(bn - 1) == '/') {
        r.append("/");
    }
    r.append(p);
    r
}

/// `c` is the lower-case ASCII letter `l`, or its upper-case form.
pub open spec fn ascii_is(c: char, l: char) -> bool {
    c == l || (c as u32) + 32 == (l as u32)
}

/// An extension of assembly source: `s` or `asm`, in any case.
pub open spec fn is_asm_ext(e: Option<Seq<char>>) -> bool {
    match e {
        Some(s) => (s.len() == 1 && ascii_is(s[0], 's')) || (s.len() == 3 && ascii_is(s[0], 'a')
            && ascii_is(s[1], 's') && ascii_is(s[2], 'm')),
        None => false,
    }
}

fn char_is(c: char, l: char) -> (r: bool)
    ensures
        r == ascii_is(c, l),
{
    c == l || (c as u32) + 32 == (l as u32)
}

/// Whether path `p` names assembly source (`.s` or `.asm`, in any case).
pub fn is_assembly_path(p: &String) -> (r: bool)
    ensures
        r == is_asm_ext(extension_of(p@)),
{
    let v = chars_of(p.as_str());
    let n = v.len();
    let mut i = n;
    proof {
        assert(v@.take(n as int) =~= v@);
    }
    while i > 0 && v[i - 1] != '/'
        invariant
            n == v@.len(),
            i <= n,
            name_start(v@) == name_start(v@.take(i as int)),
        decreases i,
    {
        proof {
            assert(v@.take(i as int).drop_last() =~= v@.take(i - 1));
        }
        i = i - 1;
    }
    proof {
        assert(v@.take(n as int) =~= v@);
        if i > 0 {
            assert(v@.take(i as int).last() == v@[i - 1]);
        }
        assert(name_start(v@) == i);
    }
    let ghost name = v@.subrange(i as int, n as int);
    let mut j = n;
    while j > i && v[j - 1] != '.'
        invariant
            n == v@.len(),
            i <= j <= n,
            name == v@.subrange(i as int, n as int),
            last_dot(name) == last_dot(v@.subrange(i as int, j as int)),
        decreases j,
    {
        proof {
            assert(v@.subrange(i as int, j as int).drop_last() =~= v@.subrange(i as int, j - 1));
        }
        j = j - 1;
    }
    proof {
        assert(v@.subrange(i as int, n as int) =~= name);
        if j > i {
            assert(v@.subrange(i as int, j as int).last() == v@[j - 1]);
        }
    }
    if j - i <= 1 {
        return false;
    }
    proof {
        assert(last_dot(name) == j - 1 - i);
        assert(name.subrange(j - i, name.len() as int) =~= v@.subrange(j as int, n as int));
    }
    let len = n - j;
    if len == 1 {
        char_is(v[j], 's')
    } else if len == 3 {
        char_is(v[j], 'a') && char_is(v[j + 1], 's') && char_is(v[j + 2], 'm')
    } else {
        false
    }
}

/// No string occurs twice in `s`.
pub open spec fn distinct(s: Seq<String>) -> bool {
    forall|a: int, b: int| #![trigger s[a], s[b]] 0 <= a < s.len() && 0 <= b < s.len() && a != b ==> s[a]@ != s[b]@
}

/// Adds `s` to `out` unless it is there.
fn add_unique(out: &mut Vec<String>, s: &String)
    requires
        distinct(old(out)@),
    ensures
        distinct(final(out)@),
        forall|x: Seq<char>| #[trigger] listed(final(out)@, x) <==> (listed(old(out)@, x) || x == s@),
{
    let mut k: usize = 0;
    while k < out.len()
        invariant
            k <= out@.len(),
            out@ == old(out)@,
            distinct(out@),
            forall|m: int| 0 <= m < k ==> (#[trigger] out@[m])@ != s@,
        decreases out@.len() - k,
    {
        if out[k] == *s {
            proof {
                assert forall|x: Seq<char>| #[trigger] listed(out@, x) <==> (listed(out@, x) || x == s@) by {
                    if x == s@ {
                        assert(out@[k as int]@ == x);
                    }
                }
            }
            return;
        }
        k = k + 1;
    }
    let ghost before = out@;
    out.push(s.clone());
    proof {
        assert forall|a: int, b: int| #![trigger out@[a], out@[b]] 0 <= a < out@.len() && 0 <= b < out@.len() && a != b implies out@[a]@ != out@[b]@ by {
            if a < before.len() && b < before.len() {
                assert(out@[a] == before[a] && out@[b] == before[b]);
            } else if a < before.len() {
                assert(out@[a] == before[a]);
            } else {
                assert(out@[b] == before[b]);
            }
        }
        assert forall|x: Seq<char>| #[trigger] listed(out@, x) <==> (listed(before, x) || x == s@) by {
            if listed(out@, x) {
                let a = choose|a: int| 0 <= a < out@.len() && (#[trigger] out@[a])@ == x;
                if a < before.len() {
                    assert(out@[a] == before[a]);
                }
            }
            if listed(before, x) {
                let a = choose|a: int| 0 <= a < before.len() && (#[trigger] before[a])@ == x;
                assert(out@[a] == before[a]);
            }
            assert(out@[before.len() as int]@ == s@);
        }
    }
}

/// A range of `ranges` that variant `s` contributed is reached by `change`:
/// any range where the change is full, else one overlapping a changed range.
pub open spec fn hit(ranges: Set<RangeView>, change: Change, s: Seq<char>) -> bool {
    exists|t: RangeView|
        #[trigger] ranges.contains(t) && t.2 == s && (change is Full || exists|x: RangeView|
            #[trigger] change_ranges(change).contains(x) && overlaps(t, x.0 as int, x.1 as int))
}

/// `change` reaches some range of `ranges`: any range where the change is
/// full, else one that overlaps a changed range.
pub open spec fn reaches(ranges: Set<RangeView>, change: Change) -> bool {
    change is Full || exists|t: RangeView, x: RangeView|
        #[trigger] ranges.contains(t) && #[trigger] change_ranges(change).contains(x) && overlaps(
            t,
            x.0 as int,
            x.1 as int,
        )
}

impl UsageStorage {
    /// Whether `lines` reaches any range of `tree`: always for a full change,
    /// else where a changed range overlaps a stored one.
    pub fn is_using_lines(tree: &FileUsageIndex, lines: &Change) -> (r: bool)
        ensures
            r == reaches(tree@, *lines),
    {
        match lines {
            Change::Partly(v) => {
                let mut k: usize = 0;
                while k < v.len()
                    invariant
                        k <= v@.len(),
                        *lines == Change::Partly(*v),
                        forall|t: RangeView, i: int|
                            0 <= i < k && #[trigger] tree@.contains(t) ==> !overlaps(
                                t,
                                (#[trigger] v@[i]).start as int,
                                v@[i].stop as int,
                            ),
                    decreases v@.len() - k,
                {
                    let found = tree.find(v[k].start, v[k].stop);
                    if found.len() > 0 {
                        proof {
                            let t = found@[0]@;
                            let x = v@[k as int]@;
                            assert(range_set(found@).contains(t));
                            assert(tree@.filter(|t: RangeView| overlaps(t, v@[k as int].start as int, v@[k as int].stop as int)).contains(t));
                            assert(tree@.contains(t));
                            assert(overlaps(t, x.0 as int, x.1 as int));
                            assert(range_set(v@).contains(x));
                            assert(change_ranges(*lines).contains(x));
                            assert(reaches(tree@, *lines));
                        }
                        return true;
                    }
                    proof {
                        assert forall|t: RangeView| #[trigger] tree@.contains(t) implies !overlaps(t, v@[k as int].start as int, v@[k as int].stop as int) by {
                            if overlaps(t, v@[k as int].start as int, v@[k as int].stop as int) {
                                assert(tree@.filter(|t: RangeView| overlaps(t, v@[k as int].start as int, v@[k as int].stop as int)).contains(t));
                                let i = choose|i: int| 0 <= i < found@.len() && (#[trigger] found@[i])@ == t;
                            }
                        }
                    }
                    k = k + 1;
                }
                proof {
                    assert(change_ranges(*lines) == range_set(v@));
                    assert forall|t: RangeView, x: RangeView| #[trigger] tree@.contains(t) && #[trigger] range_set(v@).contains(x) implies !overlaps(t, x.0 as int, x.1 as int) by {
                        let i = choose|i: int| 0 <= i < v@.len() && (#[trigger] v@[i])@ == x;
                    }
                }
                false
            },
            Change::Full => true,
        }
    }
}

/// Adds to `out` the variant of every range of `index` that `change` reaches.
fn collect_hits(index: &FileUsageIndex, change: &Change, out: &mut Vec<String>)
    requires
        distinct(old(out)@),
    ensures
        distinct(final(out)@),
        forall|x: Seq<char>| #[trigger] listed(final(out)@, x) <==> (listed(old(out)@, x) || hit(index@, *change, x)),
{
    let ghost start = out@;
    match change {
        Change::Full => {
            let all = index.ranges();
            let mut k: usize = 0;
            while k < all.len()
                invariant
                    k <= all@.len(),
                    distinct(out@),
                    range_set(all@) == index@,
                    *change == Change::Full,
                    forall|x: Seq<char>| #[trigger] listed(out@, x) <==> (listed(start, x) || exists|i: int| 0 <= i < k && (#[trigger] all@[i]).variant@ == x),
                decreases all@.len() - k,
            {
                add_unique(out, &all[k].variant);
                proof {
                    assert forall|x: Seq<char>| #[trigger] listed(out@, x) <==> (listed(start, x) || exists|i: int| 0 <= i < k + 1 && (#[trigger] all@[i]).variant@ == x) by {
                        if exists|i: int| 0 <= i < k + 1 && (#[trigger] all@[i]).variant@ == x {
                            let i = choose|i: int| 0 <= i < k + 1 && (#[trigger] all@[i]).variant@ == x;
                            if i < k {
                            }
                        }
                    }
                }
                k = k + 1;
            }
            proof {
                assert forall|x: Seq<char>| #[trigger] listed(out@, x) <==> (listed(start, x) || hit(index@, *change, x)) by {
                    if exists|i: int| 0 <= i < all@.len() && (#[trigger] all@[i]).variant@ == x {
                        let i = choose|i: int| 0 <= i < all@.len() && (#[trigger] all@[i]).variant@ == x;
                        assert(range_set(all@).contains(all@[i]@));
                    }
                    if hit(index@, *change, x) {
                        let t = choose|t: RangeView| #[trigger] index@.contains(t) && t.2 == x && (change is Full || exists|y: RangeView| #[trigger] change_ranges(*change).contains(y) && overlaps(t, y.0 as int, y.1 as int));
                        assert(range_set(all@).contains(t));
                        let i = choose|i: int| 0 <= i < all@.len() && (#[trigger] all@[i])@ == t;
                    }
                }
            }
        },
        Change::Partly(v) => {
            let mut k: usize = 0;
            while k < v.len()
                invariant
                    k <= v@.len(),
                    distinct(out@),
                    *change == Change::Partly(*v),
                    forall|x: Seq<char>| #[trigger] listed(out@, x) <==> (listed(start, x) || exists|t: RangeView, i: int| 0 <= i < k && #[trigger] index@.contains(t) && t.2 == x && overlaps(t, (#[trigger] v@[i]).start as int, v@[i].stop as int)),
                decreases v@.len() - k,
            {
                let found = index.find(v[k].start, v[k].stop);
                let ghost before = out@;
                let mut j: usize = 0;
                while j < found.len()
                    invariant
                        j <= found@.len(),
                        distinct(out@),
                        forall|x: Seq<char>| #[trigger] listed(out@, x) <==> (listed(before, x) || exists|jj: int| 0 <= jj < j && (#[trigger] found@[jj]).variant@ == x),
                    decreases found@.len() - j,
                {
                    add_unique(out, &found[j].variant);
                    proof {
                        assert forall|x: Seq<char>| #[trigger] listed(out@, x) <==> (listed(before, x) || exists|jj: int| 0 <= jj < j + 1 && (#[trigger] found@[jj]).variant@ == x) by {
                            if exists|jj: int| 0 <= jj < j + 1 && (#[trigger] found@[jj]).variant@ == x {
                                let jj = choose|jj: int| 0 <= jj < j + 1 && (#[trigger] found@[jj]).variant@ == x;
                            }
                        }
                    }
                    j = j + 1;
                }
                proof {
                    let q = v@[k as int];
                    assert forall|x: Seq<char>| #[trigger] listed(out@, x) <==> (listed(start, x) || exists|t: RangeView, i: int| 0 <= i < k + 1 && #[trigger] index@.contains(t) && t.2 == x && overlaps(t, (#[trigger] v@[i]).start as int, v@[i].stop as int)) by {
                        if exists|jj: int| 0 <= jj < found@.len() && (#[trigger] found@[jj]).variant@ == x {
                            let jj = choose|jj: int| 0 <= jj < found@.len() && (#[trigger] found@[jj]).variant@ == x;
                            assert(range_set(found@).contains(found@[jj]@));
                            let t = found@[jj]@;
                            assert(index@.filter(|t: RangeView| overlaps(t, q.start as int, q.stop as int)).contains(t));
                            assert(index@.contains(t) && t.2 == x && overlaps(t, v@[k as int].start as int, v@[k as int].stop as int));
                        }
                        if exists|t: RangeView, i: int| 0 <= i < k + 1 && #[trigger] index@.contains(t) && t.2 == x && overlaps(t, (#[trigger] v@[i]).start as int, v@[i].stop as int) {
                            let (t, i) = choose|t: RangeView, i: int| 0 <= i < k + 1 && #[trigger] index@.contains(t) && t.2 == x && overlaps(t, (#[trigger] v@[i]).start as int, v@[i].stop as int);
                            if i == k {
                                assert(index@.filter(|t: RangeView| overlaps(t, q.start as int, q.stop as int)).contains(t));
                                assert(range_set(found@).contains(t));
                                let jj = choose|jj: int| 0 <= jj < found@.len() && (#[trigger] found@[jj])@ == t;
                                assert(found@[jj].variant@ == x);
                            }
                        }
                    }
                }
                k = k + 1;
            }
            proof {
                assert(change_ranges(*change) == range_set(v@));
                assert forall|x: Seq<char>| #[trigger] listed(out@, x) <==> (listed(start, x) || hit(index@, *change, x)) by {
                    if exists|t: RangeView, i: int| 0 <= i < v@.len() && #[trigger] index@.contains(t) && t.2 == x && overlaps(t, (#[trigger] v@[i]).start as int, v@[i].stop as int) {
                        let (t, i) = choose|t: RangeView, i: int| 0 <= i < v@.len() && #[trigger] index@.contains(t) && t.2 == x && overlaps(t, (#[trigger] v@[i]).start as int, v@[i].stop as int);
                        assert(range_set(v@).contains(v@[i]@));
                    }
                    if hit(index@, *change, x) {
                        let t = choose|t: RangeView| #[trigger] index@.contains(t) && t.2 == x && (change is Full || exists|y: RangeView| #[trigger] change_ranges(*change).contains(y) && overlaps(t, y.0 as int, y.1 as int));
                        let y = choose|y: RangeView| #[trigger] change_ranges(*change).contains(y) && overlaps(t, y.0 as int, y.1 as int);
                        let i = choose|i: int| 0 <= i < v@.len() && (#[trigger] v@[i])@ == y;
                        assert(index@.contains(t) && overlaps(t, v@[i].start as int, v@[i].stop as int));
                    }
                }
            }
        },
    }
}

/// Variant `s` has a recorded fingerprint, and `updates` gives it a
/// different current one.
pub open spec fn fingerprint_changed(
    c: Seq<(String, Option<String>)>,
    updates: Option<Vec<(String, String)>>,
    s: Seq<char>,
) -> bool {
    match updates {
        Some(m) => exists|i: int, j: int|
            0 <= i < c.len() && 0 <= j < m@.len() && (#[trigger] c[i]).0@ == s && c[i].1 is Some
                && (#[trigger] m@[j]).0@ == s && m@[j].1@ != c[i].1->0@,
        None => false,
    }
}

/// Some change reaches a range that variant `s` recorded for the changed
/// file.
pub open spec fn lines_changed(
    u: Seq<(String, FileUsageIndex)>,
    cs: Seq<(String, Change)>,
    s: Seq<char>,
) -> bool {
    exists|c: int| 0 <= c < cs.len() && hit(file_ranges(u, (#[trigger] cs[c]).0@), cs[c].1, s)
}

/// Some changed file is assembly source.
pub open spec fn any_asm(cs: Seq<(String, Change)>) -> bool {
    exists|c: int| 0 <= c < cs.len() && is_asm_ext(extension_of((#[trigger] cs[c]).0@))
}

/// A file of `alarm`, joined onto `repo`, is changed.
pub open spec fn alarm_changed(
    repo: Seq<char>,
    alarm: Option<Vec<String>>,
    cs: Seq<(String, Change)>,
) -> bool {
    match alarm {
        Some(l) => exists|a: int, c: int|
            0 <= a < l@.len() && 0 <= c < cs.len() && (#[trigger] cs[c]).0@ == joined_path(
                repo,
                (#[trigger] l@[a])@,
            ),
        None => false,
    }
}

proof fn lemma_hit_entries(u: Seq<(String, FileUsageIndex)>, ch: Change, f: Seq<char>, s: Seq<char>)
    ensures
        hit(file_ranges(u, f), ch, s) <==> exists|k: int| 0 <= k < u.len() && (#[trigger] u[k]).0@ == f && hit(u[k].1@, ch, s),
{
    if hit(file_ranges(u, f), ch, s) {
        let t = choose|t: RangeView| #[trigger] file_ranges(u, f).contains(t) && t.2 == s && (ch is Full || exists|y: RangeView| #[trigger] change_ranges(ch).contains(y) && overlaps(t, y.0 as int, y.1 as int));
        let k = choose|k: int| 0 <= k < u.len() && (#[trigger] u[k]).0@ == f && u[k].1@.contains(t);
        assert(hit(u[k].1@, ch, s));
    }
    if exists|k: int| 0 <= k < u.len() && (#[trigger] u[k]).0@ == f && hit(u[k].1@, ch, s) {
        let k = choose|k: int| 0 <= k < u.len() && (#[trigger] u[k]).0@ == f && hit(u[k].1@, ch, s);
        let t = choose|t: RangeView| #[trigger] u[k].1@.contains(t) && t.2 == s && (ch is Full || exists|y: RangeView| #[trigger] change_ranges(ch).contains(y) && overlaps(t, y.0 as int, y.1 as int));
        assert(file_ranges(u, f).contains(t));
    }
}

impl UsageStorage {
    /// Every variant that the snapshot records, each once.
    pub fn get_all_variants(&self) -> (r: Vec<String>)
        ensures
            distinct(r@),
            forall|x: Seq<char>| #[trigger] listed(r@, x) <==> variants(self.commands@).contains(x),
    {
        let mut out: Vec<String> = Vec::new();
        let mut i: usize = 0;
        while i < self.commands.len()
            invariant
                i <= self.commands@.len(),
                distinct(out@),
                forall|x: Seq<char>| #[trigger] listed(out@, x) <==> exists|k: int| 0 <= k < i && (#[trigger] self.commands@[k]).0@ == x,
            decreases self.commands@.len() - i,
        {
            add_unique(&mut out, &self.commands[i].0);
            proof {
                assert forall|x: Seq<char>| #[trigger] listed(out@, x) <==> exists|k: int| 0 <= k < i + 1 && (#[trigger] self.commands@[k]).0@ == x by {
                    if exists|k: int| 0 <= k < i + 1 && (#[trigger] self.commands@[k]).0@ == x {
                        let k = choose|k: int| 0 <= k < i + 1 && (#[trigger] self.commands@[k]).0@ == x;
                    }
                }
            }
            i = i + 1;
        }
        out
    }

    /// The variants that a change affects, each once: those whose compiler
    /// invocation has a new fingerprint in `new_fingerprints`, and those
    /// that recorded a range of a changed file that the change reaches.
    pub fn get_affected(
        &self,
        new_fingerprints: &Option<Vec<(String, String)>>,
        changes: &Vec<(String, Change)>,
    ) -> (r: Vec<String>)
        ensures
            distinct(r@),
            forall|x: Seq<char>| #[trigger] listed(r@, x) <==> (fingerprint_changed(self.commands@, *new_fingerprints, x) || lines_changed(self.used_lines@, changes@, x)),
    {
        let mut out: Vec<String> = Vec::new();
        if let Some(m) = new_fingerprints {
            let mut i: usize = 0;
            while i < self.commands.len()
                invariant
                    i <= self.commands@.len(),
                    *new_fingerprints == Some(*m),
                    distinct(out@),
                    forall|x: Seq<char>| #[trigger] listed(out@, x) <==> exists|i2: int, j: int|
                        0 <= i2 < i && 0 <= j < m@.len() && (#[trigger] self.commands@[i2]).0@ == x && self.commands@[i2].1 is Some
                            && (#[trigger] m@[j]).0@ == x && m@[j].1@ != self.commands@[i2].1->0@,
                decreases self.commands@.len() - i,
            {
                let entry = &self.commands[i];
                match &entry.1 {
                    Some(o) => {
                        let ghost before = out@;
                        let mut j: usize = 0;
                        while j < m.len()
                            invariant
                                i < self.commands@.len(),
                                *entry == self.commands@[i as int],
                                entry.1 == Some(*o),
                                j <= m@.len(),
                                distinct(out@),
                                forall|x: Seq<char>| #[trigger] listed(out@, x) <==> (listed(before, x) || exists|j2: int|
                                    0 <= j2 < j && entry.0@ == x && (#[trigger] m@[j2]).0@ == x && m@[j2].1@ != o@),
                            decreases m@.len() - j,
                        {
                            if m[j].0 == entry.0 && !(m[j].1 == *o) {
                                add_unique(&mut out, &entry.0);
                            }
                            proof {
                                assert forall|x: Seq<char>| #[trigger] listed(out@, x) <==> (listed(before, x) || exists|j2: int|
                                    0 <= j2 < j + 1 && entry.0@ == x && (#[trigger] m@[j2]).0@ == x && m@[j2].1@ != o@) by {
                                    if exists|j2: int| 0 <= j2 < j + 1 && entry.0@ == x && (#[trigger] m@[j2]).0@ == x && m@[j2].1@ != o@ {
                                        let j2 = choose|j2: int| 0 <= j2 < j + 1 && entry.0@ == x && (#[trigger] m@[j2]).0@ == x && m@[j2].1@ != o@;
                                    }
                                }
                            }
                            j = j + 1;
                        }
                        proof {
                            assert forall|x: Seq<char>| #[trigger] listed(out@, x) <==> exists|i2: int, j: int|
                                0 <= i2 < i + 1 && 0 <= j < m@.len() && (#[trigger] self.commands@[i2]).0@ == x && self.commands@[i2].1 is Some
                                    && (#[trigger] m@[j]).0@ == x && m@[j].1@ != self.commands@[i2].1->0@ by {
                                if exists|i2: int, j: int|
                                    0 <= i2 < i + 1 && 0 <= j < m@.len() && (#[trigger] self.commands@[i2]).0@ == x && self.commands@[i2].1 is Some
                                        && (#[trigger] m@[j]).0@ == x && m@[j].1@ != self.commands@[i2].1->0@ {
                                    let (i2, j2) = choose|i2: int, j: int|
                                        0 <= i2 < i + 1 && 0 <= j < m@.len() && (#[trigger] self.commands@[i2]).0@ == x && self.commands@[i2].1 is Some
                                            && (#[trigger] m@[j]).0@ == x && m@[j].1@ != self.commands@[i2].1->0@;
                                    if i2 == i {
                                        assert(0 <= j2 < m@.len() && entry.0@ == x && m@[j2].0@ == x && m@[j2].1@ != o@);
                                    }
                                }
                                if exists|j2: int| 0 <= j2 < m@.len() && entry.0@ == x && (#[trigger] m@[j2]).0@ == x && m@[j2].1@ != o@ {
                                    let j2 = choose|j2: int| 0 <= j2 < m@.len() && entry.0@ == x && (#[trigger] m@[j2]).0@ == x && m@[j2].1@ != o@;
                                    assert(self.commands@[i as int].0@ == x && m@[j2].0@ == x);
                                }
                            }
                        }
                    },
                    None => {
                        proof {
                            assert forall|x: Seq<char>| #[trigger] listed(out@, x) <==> exists|i2: int, j: int|
                                0 <= i2 < i + 1 && 0 <= j < m@.len() && (#[trigger] self.commands@[i2]).0@ == x && self.commands@[i2].1 is Some
                                    && (#[trigger] m@[j]).0@ == x && m@[j].1@ != self.commands@[i2].1->0@ by {
                                if exists|i2: int, j: int|
                                    0 <= i2 < i + 1 && 0 <= j < m@.len() && (#[trigger] self.commands@[i2]).0@ == x && self.commands@[i2].1 is Some
                                        && (#[trigger] m@[j]).0@ == x && m@[j].1@ != self.commands@[i2].1->0@ {
                                    let (i2, j2) = choose|i2: int, j: int|
                                        0 <= i2 < i + 1 && 0 <= j < m@.len() && (#[trigger] self.commands@[i2]).0@ == x && self.commands@[i2].1 is Some
                                            && (#[trigger] m@[j]).0@ == x && m@[j].1@ != self.commands@[i2].1->0@;
                                }
                            }
                        }
                    },
                }
                i = i + 1;
            }
        }
        let ghost fp_part = out@;
        proof {
            assert forall|x: Seq<char>| #[trigger] listed(fp_part, x) <==> fingerprint_changed(self.commands@, *new_fingerprints, x) by {
                if new_fingerprints is None {
                    if listed(fp_part, x) {
                        let a = choose|a: int| 0 <= a < fp_part.len() && (#[trigger] fp_part[a])@ == x;
                    }
                }
            }
        }
        let mut c: usize = 0;
        while c < changes.len()
            invariant
                c <= changes@.len(),
                distinct(out@),
                forall|x: Seq<char>| #[trigger] listed(out@, x) <==> (listed(fp_part, x) || exists|c2: int| 0 <= c2 < c && hit(file_ranges(self.used_lines@, (#[trigger] changes@[c2]).0@), changes@[c2].1, x)),
            decreases changes@.len() - c,
        {
            let ch = &changes[c];
            let ghost before = out@;
            let mut k: usize = 0;
            while k < self.used_lines.len()
                invariant
                    c < changes@.len(),
                    *ch == changes@[c as int],
                    k <= self.used_lines@.len(),
                    distinct(out@),
                    forall|x: Seq<char>| #[trigger] listed(out@, x) <==> (listed(before, x) || exists|k2: int| 0 <= k2 < k && (#[trigger] self.used_lines@[k2]).0@ == ch.0@ && hit(self.used_lines@[k2].1@, ch.1, x)),
                decreases self.used_lines@.len() - k,
            {
                let ghost mid = out@;
                if self.used_lines[k].0 == ch.0 {
                    collect_hits(&self.used_lines[k].1, &ch.1, &mut out);
                }
                proof {
                    assert forall|x: Seq<char>| #[trigger] listed(out@, x) <==> (listed(before, x) || exists|k2: int| 0 <= k2 < k + 1 && (#[trigger] self.used_lines@[k2]).0@ == ch.0@ && hit(self.used_lines@[k2].1@, ch.1, x)) by {
                        if exists|k2: int| 0 <= k2 < k + 1 && (#[trigger] self.used_lines@[k2]).0@ == ch.0@ && hit(self.used_lines@[k2].1@, ch.1, x) {
                            let k2 = choose|k2: int| 0 <= k2 < k + 1 && (#[trigger] self.used_lines@[k2]).0@ == ch.0@ && hit(self.used_lines@[k2].1@, ch.1, x);
                        }
                        if listed(mid, x) && !listed(before, x) {
                            let k2 = choose|k2: int| 0 <= k2 < k && (#[trigger] self.used_lines@[k2]).0@ == ch.0@ && hit(self.used_lines@[k2].1@, ch.1, x);
                        }
                    }
                }
                k = k + 1;
            }
            proof {
                assert forall|x: Seq<char>| #[trigger] listed(out@, x) <==> (listed(fp_part, x) || exists|c2: int| 0 <= c2 < c + 1 && hit(file_ranges(self.used_lines@, (#[trigger] changes@[c2]).0@), changes@[c2].1, x)) by {
                    lemma_hit_entries(self.used_lines@, ch.1, ch.0@, x);
                    if exists|c2: int| 0 <= c2 < c + 1 && hit(file_ranges(self.used_lines@, (#[trigger] changes@[c2]).0@), changes@[c2].1, x) {
                        let c2 = choose|c2: int| 0 <= c2 < c + 1 && hit(file_ranges(self.used_lines@, (#[trigger] changes@[c2]).0@), changes@[c2].1, x);
                    }
                    if listed(before, x) && !listed(fp_part, x) {
                        let c2 = choose|c2: int| 0 <= c2 < c && hit(file_ranges(self.used_lines@, (#[trigger] changes@[c2]).0@), changes@[c2].1, x);
                    }
                }
            }
            c = c + 1;
        }
        out
    }

    /// The variants that a change affects. Every variant, where
    /// `force_on_asm_change` holds and an assembly file changed, or where a
    /// file of `alarm_list` (taken relative to the snapshot's repository)
    /// changed; else those of `get_affected`.
    pub fn find_affected_variants(
        &self,
        new_fingerprints: &Option<Vec<(String, String)>>,
        changes: &Vec<(String, Change)>,
        alarm_list: &Option<Vec<String>>,
        force_on_asm_change: bool,
    ) -> (r: Vec<String>)
        ensures
            distinct(r@),
            forall|x: Seq<char>| #[trigger] listed(r@, x) <==> if (force_on_asm_change && any_asm(changes@)) || alarm_changed(self.repo@, *alarm_list, changes@) {
                variants(self.commands@).contains(x)
            } else {
                fingerprint_changed(self.commands@, *new_fingerprints, x) || lines_changed(self.used_lines@, changes@, x)
            },
    {
        if force_on_asm_change {
            let mut c: usize = 0;
            while c < changes.len()
                invariant
                    c <= changes@.len(),
                    force_on_asm_change,
                    forall|c2: int| 0 <= c2 < c ==> !is_asm_ext(extension_of((#[trigger] changes@[c2]).0@)),
                decreases changes@.len() - c,
            {
                if is_assembly_path(&changes[c].0) {
                    proof {
                        assert(any_asm(changes@));
                    }
                    return self.get_all_variants();
                }
                c = c + 1;
            }
        }
        proof {
            if force_on_asm_change && any_asm(changes@) {
                let c2 = choose|c2: int| 0 <= c2 < changes@.len() && is_asm_ext(extension_of((#[trigger] changes@[c2]).0@));
            }
        }
        let ghost no_asm = !(force_on_asm_change && any_asm(changes@));
        if let Some(l) = alarm_list {
            let mut a: usize = 0;
            while a < l.len()
                invariant
                    a <= l@.len(),
                    *alarm_list == Some(*l),
                    no_asm == !(force_on_asm_change && any_asm(changes@)),
                    no_asm,
                    forall|a2: int, c2: int| 0 <= a2 < a && 0 <= c2 < changes@.len() ==> (#[trigger] changes@[c2]).0@ != joined_path(self.repo@, (#[trigger] l@[a2])@),
                decreases l@.len() - a,
            {
                let p = join_path(self.repo.as_str(), l[a].as_str());
                let mut c: usize = 0;
                while c < changes.len()
                    invariant
                        a < l@.len(),
                        *alarm_list == Some(*l),
                        c <= changes@.len(),
                        p@ == joined_path(self.repo@, l@[a as int]@),
                        forall|c2: int| 0 <= c2 < c ==> (#[trigger] changes@[c2]).0@ != p@,
                    decreases changes@.len() - c,
                {
                    if changes[c].0 == p {
                        proof {
                            let lv = (*alarm_list)->0;
                            assert(lv@[a as int] == l@[a as int]);
                            assert(changes@[c as int].0@ == joined_path(self.repo@, lv@[a as int]@));
                            assert(alarm_changed(self.repo@, *alarm_list, changes@));
                        }
                        return self.get_all_variants();
                    }
                    c = c + 1;
                }
                a = a + 1;
            }
        }
        proof {
            if alarm_changed(self.repo@, *alarm_list, changes@) {
                let l = alarm_list->0;
                let (a2, c2) = choose|a2: int, c2: int|
                    0 <= a2 < l@.len() && 0 <= c2 < changes@.len() && (#[trigger] changes@[c2]).0@ == joined_path(self.repo@, (#[trigger] l@[a2])@);
            }
        }
        self.get_affected(new_fingerprints, changes)
    }
}

} // verus!
