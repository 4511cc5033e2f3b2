//! Character-level text helpers: Unicode white space, trimming, collapsing
//! runs of white space, and conversions between strings and character vectors.

use vstd::prelude::*;

verus! {

/// The Unicode `White_Space` property (PropList.txt), which `char::is_whitespace`,
/// `str::trim` and the regex class `\s` all go by.
pub open spec fn white_space(c: char) -> bool {
    let u = c as u32;
    ||| 0x09 <= u <= 0x0d
    ||| u == 0x20
    ||| u == 0x85
    ||| u == 0xa0
    ||| u == 0x1680
    ||| 0x2000 <= u <= 0x200a
    ||| u == 0x2028
    ||| u == 0x2029
    ||| u == 0x202f
    ||| u == 0x205f
    ||| u == 0x3000
}

/// `s` without its leading white space.
pub open spec fn trim_start(s: Seq<char>) -> Seq<char>
    decreases s.len(),
{
    if s.len() > 0 && white_space(s[0]) {
        trim_start(s.drop_first())
    } else {
        s
    }
}

/// `s` without its trailing white space.
pub open spec fn trim_end(s: Seq<char>) -> Seq<char>
    decreases s.len(),
{
    if s.len() > 0 && white_space(s.last()) {
        trim_end(s.drop_last())
    } else {
        s
    }
}

/// `s` without its leading and trailing white space, as `str::trim` gives it.
pub open spec fn trimmed(s: Seq<char>) -> Seq<char> {
    trim_end(trim_start(s))
}

/// Every character of `s` is white space.
pub open spec fn all_white_space(s: Seq<char>) -> bool {
    forall|i: int| 0 <= i < s.len() ==> white_space(#[trigger] s[i])
}

/// `s` with every maximal run of white space replaced by one space, as a
/// replacement of the pattern `\s+` by `" "` gives it.
pub open spec fn collapse_white_space(s: Seq<char>) -> Seq<char>
    decreases s.len(),
{
    if s.len() == 0 {
        s
    } else if white_space(s[0]) {
        proof {
            lemma_trim_start_shorter(s);
        }
        seq![' '] + collapse_white_space(trim_start(s))
    } else {
        seq![s[0]] + collapse_white_space(s.drop_first())
    }
}

/// Trimming the start drops a prefix: what is left is a suffix of `s`, and it
/// is strictly shorter when `s` starts with white space.
pub proof fn lemma_trim_start_shorter(s: Seq<char>)
    ensures
        trim_start(s).len() <= s.len(),
        s.len() > 0 && white_space(s[0]) ==> trim_start(s).len() < s.len(),
        trim_start(s) =~= s.subrange(s.len() - trim_start(s).len(), s.len() as int),
    decreases s.len(),
{
    if s.len() > 0 && white_space(s[0]) {
        lemma_trim_start_shorter(s.drop_first());
    }
}

/// After the leading white space of a suffix has been stepped over, trimming
/// the start of the suffix that remains gives the same result.
proof fn lemma_trim_start_step(s: Seq<char>, i: int)
    requires
        0 <= i < s.len(),
        white_space(s[i]),
    ensures
        trim_start(s.subrange(i, s.len() as int)) == trim_start(s.subrange(i + 1, s.len() as int)),
{
    assert(s.subrange(i, s.len() as int).drop_first() =~= s.subrange(i + 1, s.len() as int));
}

proof fn lemma_trim_end_step(s: Seq<char>, j: int)
    requires
        0 < j <= s.len(),
        white_space(s[j - 1]),
    ensures
        trim_end(s.subrange(0, j)) == trim_end(s.subrange(0, j - 1)),
{
    assert(s.subrange(0, j).drop_last() =~= s.subrange(0, j - 1));
}

/// The characters of `s` that are not white space, in order.
pub open spec fn non_white(s: Seq<char>) -> Seq<char>
    decreases s.len(),
{
    if s.len() == 0 {
        s
    } else if white_space(s[0]) {
        non_white(s.drop_first())
    } else {
        seq![s[0]] + non_white(s.drop_first())
    }
}

/// The number of white-space characters in `s`.
pub open spec fn white_count(s: Seq<char>) -> nat
    decreases s.len(),
{
    if s.len() == 0 {
        0
    } else {
        (if white_space(s[0]) {
            1nat
        } else {
            0nat
        }) + white_count(s.drop_first())
    }
}

/// The number of maximal runs of white space in `s`.
pub open spec fn white_runs(s: Seq<char>) -> nat
    decreases s.len(),
{
    if s.len() == 0 {
        0
    } else if white_space(s[0]) {
        proof {
            lemma_trim_start_shorter(s);
        }
        1 + white_runs(trim_start(s))
    } else {
        white_runs(s.drop_first())
    }
}

/// Facts about the leading white space that trimming drops.
pub proof fn lemma_trim_start_parts(s: Seq<char>)
    ensures
        trim_start(s).len() <= s.len(),
        trim_start(s) == s.skip(s.len() - trim_start(s).len()),
        all_white_space(s.take(s.len() - trim_start(s).len())),
        trim_start(s).len() > 0 ==> !white_space(trim_start(s)[0]),
        non_white(trim_start(s)) == non_white(s),
    decreases s.len(),
{
    if s.len() > 0 && white_space(s[0]) {
        let d = s.drop_first();
        lemma_trim_start_parts(d);
        let t = trim_start(s);
        assert(t == trim_start(d));
        let k = s.len() - t.len();
        assert(d.skip(k - 1) =~= s.skip(k));
        assert forall|i: int| 0 <= i < k implies white_space(#[trigger] s.take(k)[i]) by {
            if i > 0 {
                assert(s.take(k)[i] == d.take(k - 1)[i - 1]);
            }
        }
    } else {
        assert(s.skip(0) =~= s);
    }
}

/// Facts about the trailing white space that trimming drops.
pub proof fn lemma_trim_end_parts(s: Seq<char>)
    ensures
        trim_end(s).len() <= s.len(),
        trim_end(s) == s.take(trim_end(s).len() as int),
        all_white_space(s.skip(trim_end(s).len() as int)),
        trim_end(s).len() > 0 ==> !white_space(trim_end(s).last()),
    decreases s.len(),
{
    if s.len() > 0 && white_space(s.last()) {
        let d = s.drop_last();
        lemma_trim_end_parts(d);
        let t = trim_end(s);
        assert(t == trim_end(d));
        let n = t.len() as int;
        assert(d.take(n) =~= s.take(n));
        let tail = s.skip(n);
        let dtail = d.skip(n);
        assert(tail =~= dtail.push(s.last()));
        assert forall|i: int| 0 <= i < tail.len() implies white_space(#[trigger] tail[i]) by {
            if i < dtail.len() {
                assert(tail[i] == dtail[i]);
            }
        }
    } else {
        assert(s.take(s.len() as int) =~= s);
    }
}

/// Trimming keeps a contiguous part of the text, drops only white space
/// before and after it, and the part kept neither starts nor ends with white
/// space.
pub proof fn lemma_trimmed(s: Seq<char>)
    ensures
        exists|lo: int|
            0 <= lo && lo + trimmed(s).len() <= s.len() && #[trigger] s.subrange(
                lo,
                lo + trimmed(s).len(),
            ) == trimmed(s) && all_white_space(s.take(lo)) && all_white_space(
                s.skip(lo + trimmed(s).len()),
            ),
        trimmed(s).len() > 0 ==> !white_space(trimmed(s)[0]) && !white_space(trimmed(s).last()),
{
    lemma_trim_start_parts(s);
    let a = trim_start(s);
    lemma_trim_end_parts(a);
    let t = trimmed(s);
    let lo = s.len() - a.len();
    assert(t.len() <= a.len());
    assert(s.subrange(lo, lo + t.len()) =~= a.take(t.len() as int));
    assert(s.skip(lo + t.len()) =~= a.skip(t.len() as int));
    if t.len() > 0 {
        assert(t[0] == a[0]);
    }
}

/// Collapsing white space keeps every other character in order, leaves only
/// single spaces as white space, never two in a row, and one per run of
/// white space in the input.
pub proof fn lemma_collapse_white_space(s: Seq<char>)
    ensures
        non_white(collapse_white_space(s)) == non_white(s),
        white_count(collapse_white_space(s)) == white_runs(s),
        forall|i: int|
            0 <= i < collapse_white_space(s).len() && white_space(
                #[trigger] collapse_white_space(s)[i],
            ) ==> collapse_white_space(s)[i] == ' ',
        forall|i: int|
            0 <= i < collapse_white_space(s).len() - 1 && white_space(
                #[trigger] collapse_white_space(s)[i],
            ) ==> !white_space(collapse_white_space(s)[i + 1]),
    decreases s.len(),
{
    let c = collapse_white_space(s);
    if s.len() > 0 {
        if white_space(s[0]) {
            lemma_trim_start_shorter(s);
            lemma_trim_start_parts(s);
            let t = trim_start(s);
            lemma_collapse_white_space(t);
            let r = collapse_white_space(t);
            assert(c == seq![' '] + r);
            assert(white_space(' '));
            assert(c.drop_first() =~= r);
            assert(non_white(c) == non_white(r));
            if r.len() > 0 {
                // What follows the space starts where the run ended.
                assert(t.len() > 0);
                assert(!white_space(t[0]));
                assert(r[0] == t[0]);
            }
            assert forall|i: int| 0 <= i < c.len() - 1 && white_space(#[trigger] c[i]) implies !white_space(c[i + 1]) by {
                if i > 0 {
                    assert(c[i] == r[i - 1]);
                    assert(c[i + 1] == r[i]);
                }
            }
            assert forall|i: int| 0 <= i < c.len() && white_space(#[trigger] c[i]) implies c[i] == ' ' by {
                if i > 0 {
                    assert(c[i] == r[i - 1]);
                }
            }
        } else {
            let d = s.drop_first();
            lemma_collapse_white_space(d);
            let r = collapse_white_space(d);
            assert(c == seq![s[0]] + r);
            assert(c.drop_first() =~= r);
            assert forall|i: int| 0 <= i < c.len() - 1 && white_space(#[trigger] c[i]) implies !white_space(c[i + 1]) by {
                assert(i > 0);
                assert(c[i] == r[i - 1]);
                assert(c[i + 1] == r[i]);
            }
            assert forall|i: int| 0 <= i < c.len() && white_space(#[trigger] c[i]) implies c[i] == ' ' by {
                assert(i > 0);
                assert(c[i] == r[i - 1]);
            }
        }
    }
}

/// Decides `white_space`.
pub fn is_white_space(c: char) -> (b: bool)
    ensures
        b == white_space(c),
{
    let u = c as u32;
    (0x09 <= u && u <= 0x0d) || u == 0x20 || u == 0x85 || u == 0xa0 || u == 0x1680 || (0x2000
        <= u && u <= 0x200a) || u == 0x2028 || u == 0x2029 || u == 0x202f || u == 0x205f || u
        == 0x3000
}

/// The characters of `s`, in order.
pub fn chars_of(s: &str) -> (v: Vec<char>)
    ensures
        v@ == s@,
{
    let mut v: Vec<char> = Vec::new();
    for c in it: s.chars()
        invariant
            v@ == it.seq().take(it.index()),
    {
        v.push(c);
    }
    v
}

/// Appends one character to a string (`String::push`).
#[verifier::external_body]
pub(crate) fn push_char(s: &mut String, c: char)
    ensures
        final(s)@ == old(s)@.push(c),
{
    s.push(c);
}

/// The characters `v[lo..hi]` as a string.
pub fn string_of_range(v: &Vec<char>, lo: usize, hi: usize) -> (s: String)
    requires
        lo <= hi <= v.len(),
    ensures
        s@ == v@.subrange(lo as int, hi as int),
{
    let mut s = String::new();
    let mut i = lo;
    while i < hi
        invariant
            lo <= i <= hi <= v.len(),
            s@ == v@.subrange(lo as int, i as int),
        decreases hi - i,
    {
        push_char(&mut s, v[i]);
        assert(v@.subrange(lo as int, i + 1) =~= v@.subrange(lo as int, i as int).push(v@[i as int]));
        i += 1;
    }
    s
}

/// The characters of `v` as a string.
pub fn string_of(v: &Vec<char>) -> (s: String)
    ensures
        s@ == v@,
{
    let s = string_of_range(v, 0, v.len());
    assert(v@.subrange(0, v@.len() as int) =~= v@);
    s
}

/// The bounds `(lo, hi)` of the trimmed part of `v[from..to]`.
pub fn trim_bounds(v: &Vec<char>, from: usize, to: usize) -> (r: (usize, usize))
    requires
        from <= to <= v.len(),
    ensures
        from <= r.0 <= r.1 <= to,
        v@.subrange(r.0 as int, r.1 as int) == trimmed(v@.subrange(from as int, to as int)),
{
    let ghost s = v@.subrange(from as int, to as int);
    let mut lo = from;
    while lo < to && is_white_space(v[lo])
        invariant
            from <= lo <= to <= v.len(),
            s == v@.subrange(from as int, to as int),
            trim_start(s) == trim_start(v@.subrange(lo as int, to as int)),
        decreases to - lo,
    {
        proof {
            lemma_trim_start_step(v@.subrange(0, to as int), lo as int);
            assert(v@.subrange(0, to as int).subrange(lo as int, to as int) =~= v@.subrange(lo as int, to as int));
            assert(v@.subrange(0, to as int).subrange(lo + 1, to as int) =~= v@.subrange(lo + 1, to as int));
        }
        lo += 1;
    }
    let ghost rest = v@.subrange(lo as int, to as int);
    assert(trim_start(rest) == rest);
    let mut hi = to;
    while hi > lo && is_white_space(v[hi - 1])
        invariant
            from <= lo <= hi <= to <= v.len(),
            trim_start(s) == rest,
            rest == v@.subrange(lo as int, to as int),
            trim_end(rest) == trim_end(v@.subrange(lo as int, hi as int)),
        decreases hi - lo,
    {
        proof {
            let t = v@.subrange(lo as int, hi as int);
            lemma_trim_end_step(t, t.len() as int);
            assert(t.subrange(0, t.len() as int) =~= t);
            assert(t.subrange(0, t.len() - 1) =~= v@.subrange(lo as int, hi - 1));
        }
        hi -= 1;
    }
    (lo, hi)
}

/// Whether every character of `v[from..to]` is white space.
pub fn range_is_blank(v: &Vec<char>, from: usize, to: usize) -> (b: bool)
    requires
        from <= to <= v.len(),
    ensures
        b == all_white_space(v@.subrange(from as int, to as int)),
{
    let mut i = from;
    while i < to
        invariant
            from <= i <= to <= v.len(),
            forall|k: int| from <= k < i ==> white_space(#[trigger] v@[k]),
        decreases to - i,
    {
        if !is_white_space(v[i]) {
            assert(!white_space(v@.subrange(from as int, to as int)[i - from]));
            return false;
        }
        i += 1;
    }
    assert forall|k: int| 0 <= k < to - from implies white_space(
        #[trigger] v@.subrange(from as int, to as int)[k],
    ) by {
        assert(v@.subrange(from as int, to as int)[k] == v@[from + k]);
    }
    true
}

/// `v[from..to]` with every run of white space replaced by one space.
pub fn collapse_range(v: &Vec<char>, from: usize, to: usize) -> (out: Vec<char>)
    requires
        from <= to <= v.len(),
    ensures
        out@ == collapse_white_space(v@.subrange(from as int, to as int)),
{
    let mut out: Vec<char> = Vec::new();
    let mut i = from;
    while i < to
        invariant
            from <= i <= to <= v.len(),
            out@ + collapse_white_space(v@.subrange(i as int, to as int)) == collapse_white_space(
                v@.subrange(from as int, to as int),
            ),
        decreases to - i,
    {
        let ghost here = v@.subrange(i as int, to as int);
        if is_white_space(v[i]) {
            out.push(' ');
            let mut j = i;
            while j < to && is_white_space(v[j])
                invariant
                    i <= j <= to <= v.len(),
                    trim_start(here) == trim_start(v@.subrange(j as int, to as int)),
                    here == v@.subrange(i as int, to as int),
                decreases to - j,
            {
                proof {
                    lemma_trim_start_step(v@.subrange(0, to as int), j as int);
                    assert(v@.subrange(0, to as int).subrange(j as int, to as int) =~= v@.subrange(j as int, to as int));
                    assert(v@.subrange(0, to as int).subrange(j + 1, to as int) =~= v@.subrange(j + 1, to as int));
                }
                j += 1;
            }
            assert(trim_start(v@.subrange(j as int, to as int)) == v@.subrange(j as int, to as int));
            assert(collapse_white_space(here) == seq![' '] + collapse_white_space(trim_start(here)));
            i = j;
        } else {
            out.push(v[i]);
            assert(here.drop_first() =~= v@.subrange(i + 1, to as int));
            i += 1;
        }
    }
    out
}


/// Whether `a` and `b` hold the same characters.
pub fn same_text(a: &str, b: &str) -> (r: bool)
    ensures
        r == (a@ == b@),
{
    let x = chars_of(a);
    let y = chars_of(b);
    if x.len() != y.len() {
        return false;
    }
    let mut i: usize = 0;
    while i < x.len()
        invariant
            i <= x.len() == y.len(),
            x@ == a@,
            y@ == b@,
            forall|k: int| 0 <= k < i ==> x@[k] == y@[k],
        decreases x.len() - i,
    {
        if x[i] != y[i] {
            assert(x@[i as int] != y@[i as int]);
            return false;
        }
        i += 1;
    }
    assert(x@ =~= y@);
    true
}


/// `s` without its leading and trailing white space (`str::trim`).
pub fn trim_text(s: &str) -> (r: String)
    ensures
        r@ == trimmed(s@),
{
    let v = chars_of(s);
    let (lo, hi) = trim_bounds(&v, 0, v.len());
    assert(v@.subrange(0, v@.len() as int) =~= v@);
    string_of_range(&v, lo, hi)
}

/// Appends the characters of `t` to `s`.
pub fn push_text(s: &mut String, t: &str)
    ensures
        final(s)@ == old(s)@ + t@,
{
    let v = chars_of(t);
    let mut i: usize = 0;
    while i < v.len()
        invariant
            i <= v.len(),
            v@ == t@,
            s@ == old(s)@ + v@.take(i as int),
        decreases v.len() - i,
    {
        push_char(s, v[i]);
        assert(v@.take(i + 1) =~= v@.take(i as int).push(v@[i as int]));
        i += 1;
    }
    assert(v@.take(v.len() as int) =~= v@);
}

} // verus!
