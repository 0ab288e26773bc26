use vstd::prelude::*;

verus! {

/// Relies on `FromIterator<char>` for `String`: the string holds the chars in order.
#[verifier::external_body]
pub(crate) fn string_of_chars(chars: &Vec<char>) -> (r: String)
    ensures
        r@ == chars@,
{
    chars.iter().collect()
}

/// The characters of `s`, in order.
pub fn chars_of(s: &str) -> (r: Vec<char>)
    ensures
        r@ == s@,
{
    let mut out: Vec<char> = Vec::new();
    for c in it: s.chars()
        invariant
            out@ == it.history(),
            it.seq() == s@,
    {
        out.push(c);
    }
    out
}

/// The chars of `v` from `from` up to `to`.
pub fn sub_chars(v: &Vec<char>, from: usize, to: usize) -> (r: Vec<char>)
    requires
        from <= to <= v@.len(),
    ensures
        r@ == v@.subrange(from as int, to as int),
{
    let mut out: Vec<char> = Vec::new();
    let mut i: usize = from;
    while i < to
        invariant
            from <= i <= to <= v@.len(),
            out@ == v@.subrange(from as int, i as int),
        decreases to - i,
    {
        out.push(v[i]);
        i = i + 1;
    }
    out
}

/// Whether `v` starts with `pre`.
pub fn starts_with(v: &Vec<char>, pre: &Vec<char>) -> (r: bool)
    ensures
        r == pre@.is_prefix_of(v@),
{
    if pre.len() > v.len() {
        return false;
    }
    let mut i: usize = 0;
    while i < pre.len()
        invariant
            i <= pre@.len() <= v@.len(),
            pre@.subrange(0, i as int) == v@.subrange(0, i as int),
        decreases pre@.len() - i,
    {
        if pre[i] != v[i] {
            assert(pre@.subrange(0, pre@.len() as int)[i as int] != v@.subrange(0, pre@.len() as int)[i as int]);
            return false;
        }
        assert(pre@.subrange(0, i + 1) == pre@.subrange(0, i as int).push(pre@[i as int]));
        assert(v@.subrange(0, i + 1) == v@.subrange(0, i as int).push(v@[i as int]));
        i = i + 1;
    }
    assert(pre@.subrange(0, pre@.len() as int) == pre@);
    true
}

/// A line without the `'\r'` of a `"\r\n"` ending.
pub open spec fn strip_cr(line: Seq<char>) -> Seq<char> {
    if line.len() > 0 && line.last() == '\r' {
        line.drop_last()
    } else {
        line
    }
}

/// After reading `s`: the lines that a `'\n'` has ended, and the line still open.
pub open spec fn line_scan(s: Seq<char>) -> (Seq<Seq<char>>, Seq<char>)
    decreases s.len(),
{
    if s.len() == 0 {
        (seq![], seq![])
    } else {
        let (ended, open) = line_scan(s.drop_last());
        if s.last() == '\n' {
            (ended.push(strip_cr(open)), seq![])
        } else {
            (ended, open.push(s.last()))
        }
    }
}

/// The lines of a text: split at `'\n'`, a `'\r'` before it dropped, and an
/// empty remainder after the last `'\n'` not counted as a line.
pub open spec fn lines_of(s: Seq<char>) -> Seq<Seq<char>> {
    let (ended, open) = line_scan(s);
    if open.len() == 0 {
        ended
    } else {
        ended.push(open)
    }
}

pub open spec fn views_of(v: Seq<String>) -> Seq<Seq<char>> {
    v.map_values(|l: String| l@)
}

/// The lines of `s`, as `lines_of` states them.
pub fn split_lines(s: &str) -> (r: Vec<String>)
    ensures
        views_of(r@) == lines_of(s@),
{
    let chars = chars_of(s);
    let mut ended: Vec<String> = Vec::new();
    let mut open: Vec<char> = Vec::new();
    let mut i: usize = 0;
    while i < chars.len()
        invariant
            i <= chars@.len(),
            chars@ == s@,
            (views_of(ended@), open@) == line_scan(chars@.take(i as int)),
        decreases chars@.len() - i,
    {
        let c = chars[i];
        proof {
            assert(chars@.take(i + 1).drop_last() == chars@.take(i as int));
        }
        if c == '\n' {
            if open.len() > 0 && open[open.len() - 1] == '\r' {
                open.pop();
            }
            let line = string_of_chars(&open);
            let ghost before = ended@;
            ended.push(line);
            open = Vec::new();
            proof {
                assert(views_of(ended@) == views_of(before).push(line@));
            }
        } else {
            open.push(c);
        }
        i = i + 1;
    }
    proof {
        assert(chars@.take(i as int) == s@);
    }
    if open.len() > 0 {
        let line = string_of_chars(&open);
        let ghost before = ended@;
        ended.push(line);
        proof {
            assert(views_of(ended@) == views_of(before).push(line@));
        }
    }
    ended
}

} // verus!
