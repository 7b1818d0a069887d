use vstd::prelude::*;

verus! {

/// Position of the first `'\n'` at or after `i`, or `s.len()` if there is none.
pub open spec fn newline_from(s: Seq<char>, i: int) -> int
    decreases s.len() - i,
{
    if i < 0 || i >= s.len() {
        s.len() as int
    } else if s[i] == '\n' {
        i
    } else {
        newline_from(s, i + 1)
    }
}

/// The lines of `s`: the pieces between `'\n'` characters, with no empty
/// piece after a final `'\n'`.
pub open spec fn split_lines(s: Seq<char>) -> Seq<Seq<char>>
    decreases s.len(),
{
    if s.len() == 0 {
        seq![]
    } else {
        let k = newline_from(s, 0);
        if 0 <= k < s.len() {
            seq![s.subrange(0, k)] + split_lines(s.subrange(k + 1, s.len() as int))
        } else {
            seq![s]
        }
    }
}

/// `s` begins with `p`.
pub open spec fn starts_with(s: Seq<char>, p: Seq<char>) -> bool {
    p.len() <= s.len() && s.subrange(0, p.len() as int) == p
}

/// The characters that Unicode calls white space (`char::is_whitespace`).
pub open spec fn is_space(c: char) -> bool {
    let u = c as u32;
    ||| 9 <= u <= 13
    ||| u == 32
    ||| u == 0x85
    ||| u == 0xa0
    ||| u == 0x1680
    ||| 0x2000 <= u <= 0x200a
    ||| u == 0x2028
    ||| u == 0x2029
    ||| u == 0x202f
    ||| u == 0x205f
    ||| u == 0x3000
}

/// `s` without its leading white space.
pub open spec fn trim_start(s: Seq<char>) -> Seq<char>
    decreases s.len(),
{
    if s.len() > 0 && is_space(s[0]) {
        trim_start(s.drop_first())
    } else {
        s
    }
}

pub fn is_space_char(c: char) -> (r: bool)
    ensures
        r == is_space(c),
{
    let u = c as u32;
    (9 <= u && u <= 13) || u == 32 || u == 0x85 || u == 0xa0 || u == 0x1680 || (0x2000 <= u && u
        <= 0x200a) || u == 0x2028 || u == 0x2029 || u == 0x202f || u == 0x205f || u == 0x3000
}

/// The characters of `s`, one by one.
pub fn chars_of(s: &str) -> (r: Vec<char>)
    ensures
        r@ == s@,
{
    let mut r: Vec<char> = Vec::new();
    for c in it: s.chars()
        invariant
            r@ == it.seq().take(it.index() as int),
    {
        r.push(c);
    }
    r
}

/// Index of the first `'\n'` in `v[from..]`, or `v.len()`.
pub fn find_newline(v: &Vec<char>, from: usize) -> (e: usize)
    requires
        from <= v@.len(),
    ensures
        from <= e <= v@.len(),
        e == newline_from(v@.subrange(from as int, v@.len() as int), 0) + from,
        e < v@.len() ==> v@[e as int] == '\n',
        forall|m: int| from <= m < e ==> v@[m] != '\n',
{
    let ghost t = v@.subrange(from as int, v@.len() as int);
    let mut e = from;
    while e < v.len() && v[e] != '\n'
        invariant
            from <= e <= v@.len(),
            t == v@.subrange(from as int, v@.len() as int),
            forall|m: int| from <= m < e ==> v@[m] != '\n',
        decreases v@.len() - e,
    {
        e = e + 1;
    }
    proof {
        lemma_newline_from(t, 0, e - from);
    }
    e
}

proof fn lemma_newline_from(t: Seq<char>, i: int, e: int)
    requires
        0 <= i <= e <= t.len(),
        forall|m: int| i <= m < e ==> t[m] != '\n',
        e == t.len() || t[e] == '\n',
    ensures
        newline_from(t, i) == e,
    decreases e - i,
{
    if i < e {
        lemma_newline_from(t, i + 1, e);
    }
}

/// The lines of `v[from..]` are the line that ends at the next `'\n'`
/// followed by the lines after it.
pub proof fn lemma_split_step(v: Seq<char>, from: int, e: int)
    requires
        0 <= from < v.len(),
        from <= e <= v.len(),
        e == newline_from(v.subrange(from, v.len() as int), 0) + from,
    ensures
        e < v.len() ==> split_lines(v.subrange(from, v.len() as int)) == seq![v.subrange(from, e)]
            + split_lines(v.subrange(e + 1, v.len() as int)),
        e == v.len() ==> split_lines(v.subrange(from, v.len() as int)) == seq![v.subrange(from, e)],
{
    let t = v.subrange(from, v.len() as int);
    let k = e - from;
    assert(t.subrange(0, k) =~= v.subrange(from, e));
    if e < v.len() {
        assert(t.subrange(k + 1, t.len() as int) =~= v.subrange(e + 1, v.len() as int));
    } else {
        assert(t.subrange(0, k) =~= t);
    }
}

/// Skips white space in `v[i..end]`.
pub fn skip_space(v: &Vec<char>, i: usize, end: usize) -> (j: usize)
    requires
        i <= end <= v@.len(),
    ensures
        i <= j <= end,
        trim_start(v@.subrange(i as int, end as int)) == trim_start(v@.subrange(j as int, end as int)),
        j < end ==> !is_space(v@[j as int]),
{
    let mut j = i;
    while j < end && is_space_char(v[j])
        invariant
            i <= j <= end <= v@.len(),
            trim_start(v@.subrange(i as int, end as int)) == trim_start(
                v@.subrange(j as int, end as int),
            ),
        decreases end - j,
    {
        proof {
            assert(v@.subrange(j as int, end as int).drop_first() =~= v@.subrange(
                j + 1,
                end as int,
            ));
        }
        j = j + 1;
    }
    proof {
        if j < end {
            assert(v@.subrange(j as int, end as int)[0] == v@[j as int]);
        }
    }
    j
}

/// `v[i..end]` begins with `p`.
pub fn has_prefix_at(v: &Vec<char>, i: usize, end: usize, p: &Vec<char>) -> (r: bool)
    requires
        i <= end <= v@.len(),
    ensures
        r == starts_with(v@.subrange(i as int, end as int), p@),
{
    if p.len() > end - i {
        return false;
    }
    let mut k: usize = 0;
    while k < p.len()
        invariant
            i <= end <= v@.len(),
            p@.len() <= end - i,
            0 <= k <= p@.len(),
            forall|m: int| 0 <= m < k ==> v@[i + m] == p@[m],
        decreases p@.len() - k,
    {
        if v[i + k] != p[k] {
            proof {
                assert(v@.subrange(i as int, end as int).subrange(0, p@.len() as int)[k as int]
                    == v@[i + k]);
            }
            return false;
        }
        k = k + 1;
    }
    proof {
        assert(v@.subrange(i as int, end as int).subrange(0, p@.len() as int) =~= p@);
    }
    true
}

} // verus!
