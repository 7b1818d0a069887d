use vstd::prelude::*;

verus! {

/// A closed range of 1-based line numbers `[begin, end]`.
#[derive(Clone, Copy, PartialEq, Eq, Structural, Debug)]
pub struct Interval {
    pub begin: u32,
    pub end: u32,
}

/// Line `p` lies in some range of `s`.
pub open spec fn covers(s: Seq<Interval>, p: int) -> bool {
    exists|i: int| 0 <= i < s.len() && (#[trigger] s[i]).begin <= p <= s[i].end
}

/// Every range of `s` is non-empty and lies within `[1, n]`.
pub open spec fn within(s: Seq<Interval>, n: int) -> bool {
    forall|i: int| 0 <= i < s.len() ==> 1 <= #[trigger] s[i].begin <= s[i].end <= n
}

/// Ranges come in ascending order of both their begin and their end
/// (sorted and non-overlapping, or at most sharing their borders).
pub open spec fn sorted(s: Seq<Interval>) -> bool {
    forall|i: int, j: int|
        #![trigger s[i], s[j]]
        0 <= i < j < s.len() ==> s[i].begin <= s[j].begin && s[i].end <= s[j].end
}

/// Ranges are ascending, with at least one line between two of them.
pub open spec fn separated(s: Seq<Interval>) -> bool {
    forall|i: int, j: int| #![trigger s[i], s[j]] 0 <= i < j < s.len() ==> s[i].end + 1 < s[j].begin
}

/// `g` is the list of maximal gaps that `s` leaves in `[1, n]`.
pub open spec fn is_complement(g: Seq<Interval>, s: Seq<Interval>, n: int) -> bool {
    &&& within(g, n)
    &&& separated(g)
    &&& forall|p: int| #[trigger] covers(g, p) <==> (1 <= p <= n && !covers(s, p))
}

/// Separated ranges are also sorted in the sense that `Interval::invert` asks for.
pub proof fn lemma_separated_is_sorted(s: Seq<Interval>, n: int)
    requires
        within(s, n),
        separated(s),
    ensures
        sorted(s),
{
    assert forall|i: int, j: int| #![trigger s[i], s[j]] 0 <= i < j < s.len() implies s[i].begin
        <= s[j].begin && s[i].end <= s[j].end by {
        assert(s[i].begin <= s[i].end && s[j].begin <= s[j].end);
    }
}

proof fn lemma_drop_first_covers(a: Seq<Interval>, n: int, p: int)
    requires
        a.len() > 0,
        within(a, n),
        separated(a),
    ensures
        covers(a.drop_first(), p) <==> (covers(a, p) && p > a[0].end),
{
    let t = a.drop_first();
    if covers(t, p) {
        let i = choose|i: int| 0 <= i < t.len() && (#[trigger] t[i]).begin <= p <= t[i].end;
        assert(t[i] == a[i + 1]);
        assert(a[0].end + 1 < a[i + 1].begin);
    }
    if covers(a, p) && p > a[0].end {
        let i = choose|i: int| 0 <= i < a.len() && (#[trigger] a[i]).begin <= p <= a[i].end;
        assert(i != 0);
        assert(t[i - 1] == a[i]);
    }
}

proof fn lemma_first_is_least(c: Seq<Interval>, n: int, p: int)
    requires
        c.len() > 0,
        within(c, n),
        separated(c),
        covers(c, p),
    ensures
        c[0].begin <= p,
{
    let i = choose|i: int| 0 <= i < c.len() && (#[trigger] c[i]).begin <= p <= c[i].end;
    if i > 0 {
        assert(c[0].end + 1 < c[i].begin);
    }
}

/// Two separated lists of ranges that cover the same lines are equal.
proof fn lemma_separated_unique(a: Seq<Interval>, b: Seq<Interval>, n: int)
    requires
        within(a, n),
        within(b, n),
        separated(a),
        separated(b),
        forall|p: int| #[trigger] covers(a, p) == covers(b, p),
    ensures
        a == b,
    decreases a.len() + b.len(),
{
    if a.len() == 0 {
        if b.len() > 0 {
            assert(covers(b, b[0].begin as int));
            assert(!covers(a, b[0].begin as int));
        }
        assert(b =~= a);
    } else if b.len() == 0 {
        assert(covers(a, a[0].begin as int));
        assert(!covers(b, a[0].begin as int));
    } else {
        let x = a[0];
        let y = b[0];
        assert(covers(a, x.begin as int));
        assert(covers(b, y.begin as int));
        assert(covers(a, y.begin as int));
        assert(covers(b, x.begin as int));
        lemma_first_is_least(a, n, y.begin as int);
        lemma_first_is_least(b, n, x.begin as int);
        assert(x.begin == y.begin);
        if x.end < y.end {
            let p = x.end + 1;
            assert(b[0].begin <= p <= b[0].end);
            assert(covers(b, p));
            lemma_drop_first_covers(a, n, p);
            assert(covers(a.drop_first(), p));
            let i = choose|i: int|
                0 <= i < a.drop_first().len() && (#[trigger] a.drop_first()[i]).begin <= p
                    <= a.drop_first()[i].end;
            assert(a.drop_first()[i] == a[i + 1]);
            assert(a[0].end + 1 < a[i + 1].begin);
        }
        if y.end < x.end {
            let p = y.end + 1;
            assert(a[0].begin <= p <= a[0].end);
            assert(covers(a, p));
            lemma_drop_first_covers(b, n, p);
            assert(covers(b.drop_first(), p));
            let i = choose|i: int|
                0 <= i < b.drop_first().len() && (#[trigger] b.drop_first()[i]).begin <= p
                    <= b.drop_first()[i].end;
            assert(b.drop_first()[i] == b[i + 1]);
            assert(b[0].end + 1 < b[i + 1].begin);
        }
        assert(x == y);
        let ta = a.drop_first();
        let tb = b.drop_first();
        assert forall|p: int| #[trigger] covers(ta, p) == covers(tb, p) by {
            lemma_drop_first_covers(a, n, p);
            lemma_drop_first_covers(b, n, p);
        }
        assert forall|i: int, j: int| #![trigger ta[i], ta[j]] 0 <= i < j < ta.len() implies ta[i].end + 1 < ta[j].begin by {
            assert(ta[i] == a[i + 1] && ta[j] == a[j + 1]);
        }
        assert forall|i: int, j: int| #![trigger tb[i], tb[j]] 0 <= i < j < tb.len() implies tb[i].end + 1 < tb[j].begin by {
            assert(tb[i] == b[i + 1] && tb[j] == b[j + 1]);
        }
        assert forall|i: int| 0 <= i < ta.len() implies 1 <= #[trigger] ta[i].begin <= ta[i].end <= n by {
            assert(ta[i] == a[i + 1]);
        }
        assert forall|i: int| 0 <= i < tb.len() implies 1 <= #[trigger] tb[i].begin <= tb[i].end <= n by {
            assert(tb[i] == b[i + 1]);
        }
        lemma_separated_unique(ta, tb, n);
        assert(a =~= seq![x] + ta);
        assert(b =~= seq![y] + tb);
    }
}

/// Complementing twice within `[1, n]` gives back any list of ranges that
/// are separated by at least one line: the complement of the complement is
/// the list itself. Both complements are of lists that `Interval::invert`
/// accepts.
pub proof fn lemma_double_complement(r: Seq<Interval>, g: Seq<Interval>, rr: Seq<Interval>, n: int)
    requires
        within(r, n),
        separated(r),
        is_complement(g, r, n),
        is_complement(rr, g, n),
    ensures
        sorted(r),
        sorted(g),
        rr == r,
{
    lemma_separated_is_sorted(r, n);
    lemma_separated_is_sorted(g, n);
    assert forall|p: int| #[trigger] covers(rr, p) == covers(r, p) by {
        if covers(r, p) {
            let i = choose|i: int| 0 <= i < r.len() && (#[trigger] r[i]).begin <= p <= r[i].end;
        }
        assert(covers(g, p) <==> (1 <= p <= n && !covers(r, p)));
    }
    lemma_separated_unique(rr, r, n);
}

impl Interval {
    pub fn new(begin: u32, end: u32) -> (r: Interval)
        requires
            begin <= end,
        ensures
            r.begin == begin,
            r.end == end,
    {
        Interval { begin, end }
    }

    /// The lines of `[1, end]` that no range of `intervals` covers, as a sorted
    /// list of maximal ranges.
    pub fn invert(intervals: &[Interval], end: u32) -> (r: Vec<Interval>)
        requires
            within(intervals@, end as int),
            sorted(intervals@),
        ensures
            is_complement(r@, intervals@, end as int),
    {
        let ghost s = intervals@;
        let mut inverted: Vec<Interval> = Vec::new();
        let mut last: u64 = 1;
        let mut done = false;
        let mut k: usize = 0;
        while k < intervals.len() && !done
            invariant
                s == intervals@,
                within(s, end as int),
                sorted(s),
                0 <= k <= s.len(),
                1 <= last <= end as int + 1,
                done ==> last == end as int + 1,
                !done && k > 0 ==> last == s[k - 1].end + 1,
                !done ==> forall|i: int| 0 <= i < k ==> #[trigger] s[i].end < last,
                k == 0 ==> last == 1,
                within(inverted@, end as int),
                separated(inverted@),
                forall|j: int| 0 <= j < inverted@.len() ==> #[trigger] inverted@[j].end + 1 < last,
                forall|p: int|
                    1 <= p < last ==> (#[trigger] covers(inverted@, p) <==> !covers(s, p)),
            decreases s.len() - k,
        {
            let inter = intervals[k];
            proof {
                assert(s[k as int] == inter);
            }
            if inter.begin > 1 && inter.begin as u64 > last {
                let ghost old_inv = inverted@;
                let gap = Interval::new(last as u32, inter.begin - 1);
                inverted.push(gap);
                proof {
                    assert forall|p: int| 1 <= p < inter.begin implies (#[trigger] covers(
                        inverted@,
                        p,
                    ) <==> !covers(s, p)) by {
                        if p < last {
                            if covers(inverted@, p) {
                                let j = choose|j: int|
                                    0 <= j < inverted@.len() && (#[trigger] inverted@[j]).begin <= p
                                        <= inverted@[j].end;
                                if j < old_inv.len() {
                                    assert(inverted@[j] == old_inv[j]);
                                } else {
                                    assert(p >= last);
                                }
                                assert(covers(old_inv, p));
                            }
                            if covers(old_inv, p) {
                                let j = choose|j: int|
                                    0 <= j < old_inv.len() && (#[trigger] old_inv[j]).begin <= p
                                        <= old_inv[j].end;
                                assert(inverted@[j] == old_inv[j]);
                            }
                        } else {
                            let n = inverted@.len() - 1;
                            assert(inverted@[n] == gap);
                            if covers(s, p) {
                                let i = choose|i: int|
                                    0 <= i < s.len() && (#[trigger] s[i]).begin <= p <= s[i].end;
                                if i < k {
                                } else if i > k {
                                    assert(s[k as int].begin <= s[i].begin);
                                }
                            }
                        }
                    }
                    assert forall|j: int, j2: int|
                        0 <= j < j2 < inverted@.len() implies #[trigger] inverted@[j].end + 1
                        < #[trigger] inverted@[j2].begin by {
                        if j2 < old_inv.len() {
                            assert(inverted@[j] == old_inv[j]);
                            assert(inverted@[j2] == old_inv[j2]);
                        } else {
                            assert(inverted@[j] == old_inv[j]);
                        }
                    }
                    assert forall|j: int| 0 <= j < inverted@.len() implies 1 <= #[trigger] inverted@[j].begin
                        <= inverted@[j].end <= end as int by {
                        if j < old_inv.len() {
                            assert(inverted@[j] == old_inv[j]);
                        }
                    }
                }
            } else {
                proof {
                    assert forall|p: int| 1 <= p < inter.begin implies (#[trigger] covers(
                        inverted@,
                        p,
                    ) <==> !covers(s, p)) by {
                        assert(p < last);
                    }
                }
            }
            let ghost prev_last = last;
            last = inter.end as u64 + 1;
            if inter.end == end {
                done = true;
            }
            proof {
                assert forall|p: int| 1 <= p < last implies (#[trigger] covers(
                    inverted@,
                    p,
                ) <==> !covers(s, p)) by {
                    if p >= inter.begin {
                        assert(covers(s, p)) by {
                            assert(s[k as int].begin <= p <= s[k as int].end);
                        }
                        if covers(inverted@, p) {
                            let j = choose|j: int|
                                0 <= j < inverted@.len() && (#[trigger] inverted@[j]).begin <= p
                                    <= inverted@[j].end;
                            assert(inverted@[j].end + 1 < prev_last || inverted@[j].end < inter.begin);
                        }
                    }
                }
                assert forall|i: int| 0 <= i < k + 1 implies #[trigger] s[i].end < last by {
                    if i < k {
                        assert(s[i].begin <= s[k as int].begin && s[i].end <= s[k as int].end);
                    }
                }
            }
            k = k + 1;
        }
        proof {
            assert forall|p: int| last <= p implies !covers(s, p) || p > end by {
                if covers(s, p) && p <= end {
                    let i = choose|i: int| 0 <= i < s.len() && (#[trigger] s[i]).begin <= p <= s[i].end;
                    if i >= k {
                        assert(!done);
                    }
                }
            }
        }
        if last <= end as u64 {
            let ghost old_inv = inverted@;
            let gap = Interval::new(last as u32, end);
            inverted.push(gap);
            proof {
                assert forall|j: int, j2: int|
                    0 <= j < j2 < inverted@.len() implies #[trigger] inverted@[j].end + 1
                    < #[trigger] inverted@[j2].begin by {
                    assert(inverted@[j] == old_inv[j]);
                    if j2 < old_inv.len() {
                        assert(inverted@[j2] == old_inv[j2]);
                    }
                }
                assert forall|j: int| 0 <= j < inverted@.len() implies 1 <= #[trigger] inverted@[j].begin
                    <= inverted@[j].end <= end as int by {
                    if j < old_inv.len() {
                        assert(inverted@[j] == old_inv[j]);
                    }
                }
                assert forall|p: int| #[trigger] covers(inverted@, p) <==> (1 <= p <= end && !covers(s, p)) by {
                    if covers(inverted@, p) {
                        let j = choose|j: int|
                            0 <= j < inverted@.len() && (#[trigger] inverted@[j]).begin <= p
                                <= inverted@[j].end;
                        if j < old_inv.len() {
                            assert(inverted@[j] == old_inv[j]);
                            assert(covers(old_inv, p));
                        }
                    }
                    if 1 <= p < last && covers(old_inv, p) {
                        let j = choose|j: int|
                            0 <= j < old_inv.len() && (#[trigger] old_inv[j]).begin <= p <= old_inv[j].end;
                        assert(inverted@[j] == old_inv[j]);
                    }
                    if last <= p <= end {
                        assert(inverted@[old_inv.len() as int] == gap);
                    }
                }
            }
        } else {
            proof {
                assert forall|p: int| #[trigger] covers(inverted@, p) <==> (1 <= p <= end && !covers(s, p)) by {
                    if covers(inverted@, p) {
                        let j = choose|j: int|
                            0 <= j < inverted@.len() && (#[trigger] inverted@[j]).begin <= p
                                <= inverted@[j].end;
                    }
                }
            }
        }
        inverted
    }
}

} // verus!
