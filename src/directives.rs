use vstd::prelude::*;
use crate::text::{
    chars_of, find_newline, has_prefix_at, lemma_split_step, skip_space, split_lines, starts_with,
    trim_start,
};

verus! {

/// What one line of a diff does to preprocessor conditional nesting.
#[derive(Clone, Copy, PartialEq, Eq, Structural, Debug)]
pub enum Directive {
    /// `#if`, `#ifdef`, `#ifndef`: opens a conditional.
    Open,
    /// `#elif`, `#else`: needs an open conditional.
    Branch,
    /// `#endif`: closes a conditional.
    Close,
    /// Anything else.
    Other,
}

/// The text of a line that a directive is read from: leading white space,
/// then one diff marker (`+` or `-`) and the white space after it, removed.
pub open spec fn directive_text(line: Seq<char>) -> Seq<char> {
    let t = trim_start(line);
    if t.len() > 0 && (t[0] == '+' || t[0] == '-') {
        trim_start(t.drop_first())
    } else {
        t
    }
}

pub open spec fn directive_of(line: Seq<char>) -> Directive {
    let d = directive_text(line);
    if starts_with(d, seq!['#', 'i', 'f']) {
        Directive::Open
    } else if starts_with(d, seq!['#', 'e', 'l', 'i', 'f']) || starts_with(
        d,
        seq!['#', 'e', 'l', 's', 'e'],
    ) {
        Directive::Branch
    } else if starts_with(d, seq!['#', 'e', 'n', 'd', 'i', 'f']) {
        Directive::Close
    } else {
        Directive::Other
    }
}

/// Nesting depth after one more line, or `None` where the line needs an open
/// conditional and there is none.
pub open spec fn step(depth: int, line: Seq<char>) -> Option<int> {
    step_by(depth, directive_of(line))
}

pub open spec fn step_by(depth: int, d: Directive) -> Option<int> {
    match d {
        Directive::Open => Some(depth + 1),
        Directive::Branch => if depth > 0 {
            Some(depth)
        } else {
            None
        },
        Directive::Close => if depth > 0 {
            Some(depth - 1)
        } else {
            None
        },
        Directive::Other => Some(depth),
    }
}

/// Nesting depth after the lines `ls`, starting outside any conditional, or
/// `None` if some line needed an open conditional that was not there.
pub open spec fn depth_after(ls: Seq<Seq<char>>) -> Option<int>
    decreases ls.len(),
{
    if ls.len() == 0 {
        Some(0)
    } else {
        match depth_after(ls.drop_last()) {
            Some(d) => step(d, ls.last()),
            None => None,
        }
    }
}

/// Every conditional that the lines open they also close, and no line
/// branches or closes outside a conditional.
pub open spec fn balanced(ls: Seq<Seq<char>>) -> bool {
    depth_after(ls) == Some(0int)
}

/// Once a line has failed, no later line mends it.
pub proof fn lemma_failure_sticks(a: Seq<Seq<char>>, b: Seq<Seq<char>>)
    requires
        depth_after(a) is None,
    ensures
        depth_after(a + b) is None,
    decreases b.len(),
{
    if b.len() > 0 {
        lemma_failure_sticks(a, b.drop_last());
        assert((a + b).drop_last() =~= a + b.drop_last());
    } else {
        assert(a + b =~= a);
    }
}

proof fn lemma_push_depth(a: Seq<Seq<char>>, l: Seq<char>)
    ensures
        depth_after(a.push(l)) == match depth_after(a) {
            Some(d) => step(d, l),
            None => None,
        },
{
    assert(a.push(l).drop_last() =~= a);
}

/// How the line `v[start..end]` bears on conditional nesting.
pub fn directive_at(v: &Vec<char>, start: usize, end: usize) -> (r: Directive)
    requires
        start <= end <= v@.len(),
    ensures
        r == directive_of(v@.subrange(start as int, end as int)),
{
    let ghost line = v@.subrange(start as int, end as int);
    let mut i = skip_space(v, start, end);
    proof {
        let t = trim_start(line);
        assert(t == trim_start(v@.subrange(i as int, end as int)));
        if i < end {
            assert(trim_start(v@.subrange(i as int, end as int)) == v@.subrange(i as int, end as int));
        } else {
            assert(v@.subrange(i as int, end as int).len() == 0);
        }
    }
    if i < end && (v[i] == '+' || v[i] == '-') {
        proof {
            assert(v@.subrange(i as int, end as int).drop_first() =~= v@.subrange(i + 1, end as int));
        }
        i = skip_space(v, i + 1, end);
    }
    proof {
        assert(directive_text(line) == trim_start(v@.subrange(i as int, end as int)));
        if i < end {
            assert(trim_start(v@.subrange(i as int, end as int)) == v@.subrange(i as int, end as int));
        } else {
            assert(v@.subrange(i as int, end as int) =~= Seq::<char>::empty());
        }
        assert(directive_text(line) == v@.subrange(i as int, end as int));
    }
    if has_prefix_at(v, i, end, &vec!['#', 'i', 'f']) {
        Directive::Open
    } else if has_prefix_at(v, i, end, &vec!['#', 'e', 'l', 'i', 'f']) || has_prefix_at(
        v,
        i,
        end,
        &vec!['#', 'e', 'l', 's', 'e'],
    ) {
        Directive::Branch
    } else if has_prefix_at(v, i, end, &vec!['#', 'e', 'n', 'd', 'i', 'f']) {
        Directive::Close
    } else {
        Directive::Other
    }
}

/// Whether the preprocessor conditionals in `content` are balanced: every
/// `#if`, `#ifdef` or `#ifndef` is closed by an `#endif`, and no `#elif`,
/// `#else` or `#endif` stands outside an open conditional. Each line is read
/// after its leading white space and one leading diff marker (`+` or `-`).
pub fn check_hunk_balanced_directives(content: &str) -> (r: bool)
    ensures
        r == balanced(split_lines(content@)),
{
    let v = chars_of(content);
    let n = v.len();
    let mut pos: usize = 0;
    let mut depth: usize = 0;
    let ghost mut done: Seq<Seq<char>> = seq![];
    proof {
        assert(v@.subrange(0, n as int) =~= v@);
        assert(done + split_lines(v@) =~= split_lines(v@));
    }
    while pos < n
        invariant
            n == v@.len(),
            v@ == content@,
            pos <= n,
            depth <= pos,
            split_lines(v@) == done + split_lines(v@.subrange(pos as int, n as int)),
            depth_after(done) == Some(depth as int),
        decreases n - pos,
    {
        let e = find_newline(&v, pos);
        proof {
            lemma_split_step(v@, pos as int, e as int);
        }
        let ghost line = v@.subrange(pos as int, e as int);
        let d = directive_at(&v, pos, e);
        proof {
            lemma_push_depth(done, line);
        }
        let next = if e < n {
            e + 1
        } else {
            e
        };
        proof {
            if e < n {
                assert(split_lines(v@) == done.push(line) + split_lines(
                    v@.subrange(next as int, n as int),
                ));
            } else {
                assert(v@.subrange(next as int, n as int) =~= Seq::<char>::empty());
                assert(split_lines(v@) == done.push(line) + split_lines(
                    v@.subrange(next as int, n as int),
                ));
            }
        }
        match d {
            Directive::Open => {
                depth = depth + 1;
            },
            Directive::Branch => {
                if depth == 0 {
                    proof {
                        lemma_failure_sticks(
                            done.push(line),
                            split_lines(v@.subrange(next as int, n as int)),
                        );
                    }
                    return false;
                }
            },
            Directive::Close => {
                if depth == 0 {
                    proof {
                        lemma_failure_sticks(
                            done.push(line),
                            split_lines(v@.subrange(next as int, n as int)),
                        );
                    }
                    return false;
                }
                depth = depth - 1;
            },
            Directive::Other => {},
        }
        proof {
            done = done.push(line);
        }
        pos = next;
    }
    proof {
        assert(v@.subrange(pos as int, n as int) =~= Seq::<char>::empty());
        assert(done + split_lines(v@.subrange(pos as int, n as int)) =~= done);
    }
    depth == 0
}

/// Whether every hunk of a unified diff keeps conditional nesting balanced on
/// both sides. A hunk starts at a line beginning with `@@`; within it, lines
/// beginning with `+` are the added side and all other lines the removed
/// side. Lines before the first hunk are headers and are not read. `rm` and
/// `add` hold the two sides of the hunk that is open.
pub open spec fn hunks_balanced(
    ls: Seq<Seq<char>>,
    in_hunk: bool,
    rm: Seq<Seq<char>>,
    add: Seq<Seq<char>>,
) -> bool
    decreases ls.len(),
{
    if ls.len() == 0 {
        balanced(rm) && balanced(add)
    } else {
        let l = ls[0];
        let rest = ls.drop_first();
        if starts_with(l, seq!['@', '@']) {
            balanced(rm) && balanced(add) && hunks_balanced(rest, true, seq![], seq![])
        } else if in_hunk {
            if starts_with(l, seq!['+']) {
                hunks_balanced(rest, true, rm, add.push(l))
            } else {
                hunks_balanced(rest, true, rm.push(l), add)
            }
        } else {
            hunks_balanced(rest, false, rm, add)
        }
    }
}

/// A diff text whose hunks all keep conditional nesting balanced on both sides.
pub open spec fn patch_balanced(patch: Seq<char>) -> bool {
    hunks_balanced(split_lines(patch), false, seq![], seq![])
}

/// The nesting state for one side of a hunk: its depth, or `failed`.
pub open spec fn side_state(depth: usize, failed: bool) -> Option<int> {
    if failed {
        None
    } else {
        Some(depth as int)
    }
}

fn advance(depth: usize, failed: bool, d: Directive) -> (r: (usize, bool))
    requires
        depth < usize::MAX,
    ensures
        side_state(r.0, r.1) == match side_state(depth, failed) {
            Some(x) => step_by(x, d),
            None => None,
        },
        r.0 <= depth + 1,
{
    if failed {
        return (depth, true);
    }
    match d {
        Directive::Open => (depth + 1, false),
        Directive::Branch => if depth == 0 {
            (0, true)
        } else {
            (depth, false)
        },
        Directive::Close => if depth == 0 {
            (0, true)
        } else {
            (depth - 1, false)
        },
        Directive::Other => (depth, false),
    }
}

/// Whether every hunk of the unified diff `patch` keeps preprocessor
/// conditional nesting balanced, on its removed side and on its added side.
/// Where one does not, a line-based view of the change cannot be trusted.
pub fn patch_is_balanced(patch: &str) -> (r: bool)
    ensures
        r == patch_balanced(patch@),
{
    let v = chars_of(patch);
    let n = v.len();
    let mut pos: usize = 0;
    let mut in_hunk = false;
    let mut rm_depth: usize = 0;
    let mut rm_failed = false;
    let mut add_depth: usize = 0;
    let mut add_failed = false;
    let ghost mut rm: Seq<Seq<char>> = seq![];
    let ghost mut add: Seq<Seq<char>> = seq![];
    proof {
        assert(v@.subrange(0, n as int) =~= v@);
    }
    while pos < n
        invariant
            n == v@.len(),
            v@ == patch@,
            pos <= n,
            rm_depth <= pos,
            add_depth <= pos,
            patch_balanced(patch@) == hunks_balanced(
                split_lines(v@.subrange(pos as int, n as int)),
                in_hunk,
                rm,
                add,
            ),
            depth_after(rm) == side_state(rm_depth, rm_failed),
            depth_after(add) == side_state(add_depth, add_failed),
        decreases n - pos,
    {
        let e = find_newline(&v, pos);
        proof {
            lemma_split_step(v@, pos as int, e as int);
        }
        let ghost line = v@.subrange(pos as int, e as int);
        let next = if e < n {
            e + 1
        } else {
            e
        };
        let ghost tail = split_lines(v@.subrange(next as int, n as int));
        proof {
            if e == n {
                assert(v@.subrange(next as int, n as int) =~= Seq::<char>::empty());
            }
            let ls = split_lines(v@.subrange(pos as int, n as int));
            assert(ls == seq![line] + tail);
            assert(ls[0] == line);
            assert(ls.drop_first() =~= tail);
            assert(hunks_balanced(ls, in_hunk, rm, add) == if starts_with(line, seq!['@', '@']) {
                balanced(rm) && balanced(add) && hunks_balanced(tail, true, seq![], seq![])
            } else if in_hunk {
                if starts_with(line, seq!['+']) {
                    hunks_balanced(tail, true, rm, add.push(line))
                } else {
                    hunks_balanced(tail, true, rm.push(line), add)
                }
            } else {
                hunks_balanced(tail, false, rm, add)
            });
        }
        let hunk_mark = vec!['@', '@'];
        let plus = vec!['+'];
        proof {
            assert(hunk_mark@ =~= seq!['@', '@']);
            assert(plus@ =~= seq!['+']);
        }
        if has_prefix_at(&v, pos, e, &hunk_mark) {
            if rm_failed || rm_depth != 0 || add_failed || add_depth != 0 {
                return false;
            }
            in_hunk = true;
            proof {
                rm = seq![];
                add = seq![];
            }
        } else if in_hunk {
            let d = directive_at(&v, pos, e);
            if has_prefix_at(&v, pos, e, &plus) {
                let (a, b) = advance(add_depth, add_failed, d);
                add_depth = a;
                add_failed = b;
                proof {
                    lemma_push_depth(add, line);
                    add = add.push(line);
                }
            } else {
                let (a, b) = advance(rm_depth, rm_failed, d);
                rm_depth = a;
                rm_failed = b;
                proof {
                    lemma_push_depth(rm, line);
                    rm = rm.push(line);
                }
            }
        }
        pos = next;
    }
    proof {
        assert(v@.subrange(pos as int, n as int) =~= Seq::<char>::empty());
    }
    !rm_failed && rm_depth == 0 && !add_failed && add_depth == 0
}

proof fn lemma_no_open_depth(ls: Seq<Seq<char>>)
    requires
        forall|j: int| 0 <= j < ls.len() ==> directive_of(#[trigger] ls[j]) != Directive::Open,
    ensures
        depth_after(ls) == Some(0int) || depth_after(ls) is None,
    decreases ls.len(),
{
    if ls.len() > 0 {
        let a = ls.drop_last();
        assert forall|j: int| 0 <= j < a.len() implies directive_of(#[trigger] a[j]) != Directive::Open by {
            assert(a[j] == ls[j]);
        }
        lemma_no_open_depth(a);
        assert(directive_of(ls[ls.len() - 1]) != Directive::Open);
    }
}

/// A closing or branching directive with no opening one before it leaves
/// the lines unbalanced, whatever follows.
pub proof fn lemma_unopened_close_unbalanced(ls: Seq<Seq<char>>, i: int)
    requires
        0 <= i < ls.len(),
        directive_of(ls[i]) == Directive::Close || directive_of(ls[i]) == Directive::Branch,
        forall|j: int| 0 <= j < i ==> directive_of(#[trigger] ls[j]) != Directive::Open,
    ensures
        !balanced(ls),
{
    let a = ls.take(i);
    assert forall|j: int| 0 <= j < a.len() implies directive_of(#[trigger] a[j]) != Directive::Open by {
        assert(a[j] == ls[j]);
    }
    lemma_no_open_depth(a);
    lemma_push_depth(a, ls[i]);
    assert(depth_after(a.push(ls[i])) is None);
    lemma_failure_sticks(a.push(ls[i]), ls.skip(i + 1));
    assert(a.push(ls[i]) + ls.skip(i + 1) =~= ls);
}

/// Lines that open one conditional, then close it, with nothing else
/// bearing on nesting between, are balanced.
pub proof fn lemma_matched_pair_balanced(ls: Seq<Seq<char>>)
    requires
        ls.len() >= 2,
        directive_of(ls[0]) == Directive::Open,
        directive_of(ls[ls.len() - 1]) == Directive::Close,
        forall|j: int| 0 < j < ls.len() - 1 ==> directive_of(#[trigger] ls[j]) == Directive::Other,
    ensures
        balanced(ls),
{
    assert forall|k: int| 1 <= k < ls.len() implies depth_after(#[trigger] ls.take(k)) == Some(1int) by {
        lemma_take_depth_one(ls, k);
    }
    assert(ls.take(ls.len() - 1) == ls.drop_last());
    assert(ls.take(ls.len() as int) =~= ls);
    assert(depth_after(ls.take(ls.len() - 1)) == Some(1int));
}

proof fn lemma_take_depth_one(ls: Seq<Seq<char>>, k: int)
    requires
        ls.len() >= 2,
        1 <= k < ls.len(),
        directive_of(ls[0]) == Directive::Open,
        forall|j: int| 0 < j < ls.len() - 1 ==> directive_of(#[trigger] ls[j]) == Directive::Other,
    ensures
        depth_after(ls.take(k)) == Some(1int),
    decreases k,
{
    if k == 1 {
        assert(ls.take(1).drop_last() =~= Seq::<Seq<char>>::empty());
        assert(depth_after(ls.take(1).drop_last()) == Some(0int));
        assert(ls.take(1).last() == ls[0]);
        assert(step(0, ls[0]) == Some(1int));
    } else {
        lemma_take_depth_one(ls, k - 1);
        assert(ls.take(k).drop_last() =~= ls.take(k - 1));
        assert(ls.take(k).last() == ls[k - 1]);
        assert(directive_of(ls[k - 1]) == Directive::Other);
        assert(depth_after(ls.take(k).drop_last()) == Some(1int));
        assert(step(1, ls[k - 1]) == Some(1int));
    }
}

} // verus!
