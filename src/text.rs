//! Characters and lines: the model of text that every selection works on.
use vstd::prelude::*;

verus! {

broadcast use vstd::string::axiom_spec_iter, vstd::string::next_postcondition;

/// Relies on `String::push`: the character is appended at the end.
pub assume_specification[ String::push ](s: &mut String, ch: char)
    ensures
        final(s)@ == old(s)@.push(ch),
;

/// Relies on `String::with_capacity`: an empty string (with room reserved).
pub assume_specification[ String::with_capacity ](capacity: usize) -> (r: String)
    ensures
        r@ == Seq::<char>::empty(),
;

/// The characters of `s`, in order.
pub fn chars_of(s: &str) -> (r: Vec<char>)
    ensures
        r@ == s@,
{
    let mut r: Vec<char> = Vec::new();
    for c in it: s.chars()
        invariant
            r@ == it.seq().take(it.index()),
    {
        r.push(c);
    }
    assert(r@ =~= s@);
    r
}

/// A `String` holding the characters `s[from..to]`.
pub fn string_of(s: &[char], from: usize, to: usize) -> (r: String)
    requires
        from <= to <= s@.len(),
    ensures
        r@ == s@.subrange(from as int, to as int),
{
    let mut r = String::new();
    let mut i = from;
    while i < to
        invariant
            from <= i <= to <= s@.len(),
            r@ == s@.subrange(from as int, i as int),
        decreases to - i,
    {
        r.push(s[i]);
        i = i + 1;
        assert(r@ =~= s@.subrange(from as int, i as int));
    }
    r
}

/// Appends the characters `s` to `out`.
pub fn push_chars(out: &mut String, s: &[char])
    ensures
        final(out)@ == old(out)@ + s@,
{
    let mut i: usize = 0;
    while i < s.len()
        invariant
            0 <= i <= s@.len(),
            out@ == old(out)@ + s@.take(i as int),
        decreases s@.len() - i,
    {
        out.push(s[i]);
        i = i + 1;
        assert(out@ =~= old(out)@ + s@.take(i as int));
    }
    assert(s@.take(s@.len() as int) =~= s@);
}

/// Offset of the first line feed in `s`, or `s.len()` when there is none.
pub open spec fn line_break(s: Seq<char>) -> int
    decreases s.len(),
{
    if s.len() == 0 {
        0
    } else if s[0] == '\n' {
        0
    } else {
        1 + line_break(s.drop_first())
    }
}

/// A line that ended in a line feed loses one carriage return before it.
pub open spec fn trim_cr(line: Seq<char>) -> Seq<char> {
    if line.len() > 0 && line.last() == '\r' {
        line.drop_last()
    } else {
        line
    }
}

/// The lines of a text: pieces ended by a line feed (or by the end of the
/// text, for a last piece that is not empty), without their line ending. A
/// line ending is a line feed or a carriage return followed by one.
pub open spec fn lines_of(s: Seq<char>) -> Seq<Seq<char>>
    decreases s.len(),
{
    if s.len() == 0 {
        Seq::empty()
    } else {
        let k = line_break(s);
        if 0 <= k < s.len() {
            seq![trim_cr(s.take(k))] + lines_of(s.skip(k + 1))
        } else {
            seq![s]
        }
    }
}

/// Lines joined with a line feed between each two of them.
pub open spec fn join_lines(ls: Seq<Seq<char>>) -> Seq<char>
    decreases ls.len(),
{
    if ls.len() == 0 {
        Seq::empty()
    } else if ls.len() == 1 {
        ls[0]
    } else {
        join_lines(ls.drop_last()) + seq!['\n'] + ls.last()
    }
}

/// The views of a sequence of character vectors.
pub open spec fn views(v: Seq<Vec<char>>) -> Seq<Seq<char>> {
    v.map_values(|l: Vec<char>| l@)
}

proof fn lemma_line_break(s: Seq<char>, k: int)
    requires
        0 <= k <= s.len(),
        forall|j: int| 0 <= j < k ==> s[j] != '\n',
        k == s.len() || s[k] == '\n',
    ensures
        line_break(s) == k,
    decreases s.len(),
{
    if s.len() > 0 && s[0] != '\n' {
        let t = s.drop_first();
        assert forall|j: int| 0 <= j < k - 1 implies t[j] != '\n' by {
            assert(t[j] == s[j + 1]);
        }
        if k < s.len() {
            assert(t[k - 1] == s[k]);
        }
        lemma_line_break(t, k - 1);
    }
}

/// The lines of `s`, as `lines_of` describes them.
pub fn split_lines(s: &[char]) -> (r: Vec<Vec<char>>)
    ensures
        views(r@) == lines_of(s@),
{
    let n = s.len();
    let mut out: Vec<Vec<char>> = Vec::new();
    let mut i: usize = 0;
    assert(s@.skip(0) =~= s@);
    while i < n
        invariant
            n == s@.len(),
            0 <= i <= n,
            lines_of(s@) == views(out@) + lines_of(s@.skip(i as int)),
        decreases n - i,
    {
        let ghost rest = s@.skip(i as int);
        let mut j = i;
        while j < n && s[j] != '\n'
            invariant
                i <= j <= n,
                n == s@.len(),
                forall|m: int| i <= m < j ==> s@[m] != '\n',
            decreases n - j,
        {
            j = j + 1;
        }
        proof {
            assert forall|m: int| 0 <= m < j - i implies rest[m] != '\n' by {
                assert(rest[m] == s@[i + m]);
            }
            if j < n {
                assert(rest[j - i] == s@[j as int]);
            }
            lemma_line_break(rest, j - i);
        }
        let mut end = j;
        if j < n && j > i && s[j - 1] == '\r' {
            end = j - 1;
        }
        let mut line: Vec<char> = Vec::new();
        let mut m = i;
        while m < end
            invariant
                i <= m <= end <= n,
                n == s@.len(),
                line@ == s@.subrange(i as int, m as int),
            decreases end - m,
        {
            line.push(s[m]);
            m = m + 1;
            assert(line@ =~= s@.subrange(i as int, m as int));
        }
        let ghost old_out = out@;
        out.push(line);
        proof {
            assert(views(out@) =~= views(old_out).push(line@));
            if j < n {
                assert(rest.take(j - i) =~= s@.subrange(i as int, j as int));
                assert(line@ == trim_cr(rest.take(j - i))) by {
                    if j > i && s@[j - 1] == '\r' {
                        assert(s@.subrange(i as int, j as int).drop_last() =~= s@.subrange(
                            i as int,
                            j - 1,
                        ));
                    }
                }
                assert(rest.skip(j - i + 1) =~= s@.skip(j + 1));
                assert(lines_of(rest) == seq![line@] + lines_of(s@.skip(j + 1)));
                assert(views(out@) + lines_of(s@.skip(j + 1)) =~= views(old_out) + lines_of(
                    rest,
                ));
            } else {
                assert(rest =~= s@.subrange(i as int, j as int));
                assert(lines_of(rest) == seq![line@]);
                assert(s@.skip(n as int) =~= Seq::<char>::empty());
                assert(views(out@) + lines_of(s@.skip(n as int)) =~= views(old_out) + lines_of(
                    rest,
                ));
            }
        }
        if j < n {
            i = j + 1;
        } else {
            i = n;
        }
    }
    assert(s@.skip(n as int) =~= Seq::<char>::empty());
    assert(views(out@) + lines_of(s@.skip(n as int)) =~= views(out@));
    out
}

/// `join_lines` of the lines `ls[from..to]`, as a `String`.
pub fn join_range(ls: &Vec<Vec<char>>, from: usize, to: usize) -> (r: String)
    requires
        from <= to <= ls@.len(),
    ensures
        r@ == join_lines(views(ls@).subrange(from as int, to as int)),
{
    let mut r = String::new();
    let mut i = from;
    while i < to
        invariant
            from <= i <= to <= ls@.len(),
            r@ == join_lines(views(ls@).subrange(from as int, i as int)),
        decreases to - i,
    {
        let ghost before = views(ls@).subrange(from as int, i as int);
        let ghost after = views(ls@).subrange(from as int, i + 1);
        if i > from {
            r.push('\n');
        }
        push_chars(&mut r, ls[i].as_slice());
        proof {
            assert(after.drop_last() =~= before);
            assert(after.last() == ls@[i as int]@);
            if i == from {
                assert(after.len() == 1);
            }
            assert(r@ =~= join_lines(after));
        }
        i = i + 1;
    }
    r
}

} // verus!
