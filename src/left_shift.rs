//! The left-shift decoration: removes the indentation that all lines share.
use vstd::prelude::*;

use crate::scan::{is_space, space};
use crate::text::{chars_of, join_lines, lines_of, push_chars, split_lines, views};

verus! {

/// Length of the run of spaces at the start of `l`.
pub open spec fn padding_len(l: Seq<char>) -> int
    decreases l.len(),
{
    if l.len() == 0 || !is_space(l[0]) {
        0
    } else {
        1 + padding_len(l.drop_first())
    }
}

/// The run of spaces at the start of `l`.
pub open spec fn left_padding(l: Seq<char>) -> Seq<char> {
    l.take(padding_len(l))
}

/// Among the lines that are not empty, the padding of the first one whose
/// padding is shortest; `None` when every line is empty.
pub open spec fn least_padding(ls: Seq<Seq<char>>) -> Option<Seq<char>>
    decreases ls.len(),
{
    if ls.len() == 0 {
        None
    } else {
        let prev = least_padding(ls.drop_last());
        let l = ls.last();
        if l.len() == 0 {
            prev
        } else {
            let p = left_padding(l);
            match prev {
                None => Some(p),
                Some(q) => if p.len() < q.len() {
                    Some(p)
                } else {
                    Some(q)
                },
            }
        }
    }
}

/// The padding that every line loses: empty where no line has any.
pub open spec fn common_padding(s: Seq<char>) -> Seq<char> {
    match least_padding(lines_of(s)) {
        Some(p) => p,
        None => Seq::empty(),
    }
}

/// `l` without the prefix `p`, or `l` itself where it does not start with `p`.
pub open spec fn strip_padding(p: Seq<char>, l: Seq<char>) -> Seq<char> {
    if p.is_prefix_of(l) {
        l.skip(p.len() as int)
    } else {
        l
    }
}

/// The left-shifted text: unchanged when the common padding is empty, else
/// its lines, each without that padding, joined by line feeds.
pub open spec fn left_shifted(s: Seq<char>) -> Seq<char> {
    let p = common_padding(s);
    if p.len() == 0 {
        s
    } else {
        join_lines(lines_of(s).map_values(|l: Seq<char>| strip_padding(p, l)))
    }
}

proof fn lemma_padding_len(l: Seq<char>, k: int)
    requires
        0 <= k <= l.len(),
        forall|j: int| 0 <= j < k ==> is_space(l[j]),
        k == l.len() || !is_space(l[k]),
    ensures
        padding_len(l) == k,
    decreases l.len(),
{
    if l.len() > 0 && is_space(l[0]) {
        let t = l.drop_first();
        assert forall|j: int| 0 <= j < k - 1 implies is_space(t[j]) by {
            assert(t[j] == l[j + 1]);
        }
        if k < l.len() {
            assert(t[k - 1] == l[k]);
        }
        lemma_padding_len(t, k - 1);
    }
}

fn padding_of(l: &Vec<char>) -> (r: Vec<char>)
    ensures
        r@ == left_padding(l@),
{
    let mut k: usize = 0;
    while k < l.len() && space(l[k])
        invariant
            0 <= k <= l@.len(),
            forall|j: int| 0 <= j < k ==> is_space(l@[j]),
        decreases l@.len() - k,
    {
        k = k + 1;
    }
    proof {
        lemma_padding_len(l@, k as int);
    }
    let mut r: Vec<char> = Vec::new();
    let mut i: usize = 0;
    while i < k
        invariant
            0 <= i <= k <= l@.len(),
            r@ == l@.take(i as int),
        decreases k - i,
    {
        r.push(l[i]);
        i = i + 1;
        assert(r@ =~= l@.take(i as int));
    }
    r
}

fn starts_with(l: &Vec<char>, p: &Vec<char>) -> (r: bool)
    ensures
        r == p@.is_prefix_of(l@),
{
    if p.len() > l.len() {
        return false;
    }
    let mut i: usize = 0;
    while i < p.len()
        invariant
            p@.len() <= l@.len(),
            0 <= i <= p@.len(),
            forall|j: int| 0 <= j < i ==> p@[j] == l@[j],
        decreases p@.len() - i,
    {
        if p[i] != l[i] {
            return false;
        }
        i = i + 1;
    }
    assert(p@ =~= l@.take(p@.len() as int));
    true
}

/// Appends `input` to `buf` with the indentation common to its non-empty
/// lines removed (see `left_shifted`).
pub fn lines(input: &str, buf: &mut String)
    ensures
        final(buf)@ == old(buf)@ + left_shifted(input@),
{
    let chars = chars_of(input);
    let ls = split_lines(chars.as_slice());
    let ghost lv = views(ls@);
    let mut found = false;
    let mut best: Vec<char> = Vec::new();
    let mut i: usize = 0;
    while i < ls.len()
        invariant
            0 <= i <= ls@.len(),
            lv == views(ls@),
            !found ==> best@.len() == 0,
            least_padding(lv.take(i as int)) == (if found {
                Some(best@)
            } else {
                None
            }),
        decreases ls@.len() - i,
    {
        assert(lv.take(i + 1).drop_last() =~= lv.take(i as int));
        assert(lv.take(i + 1).last() == ls@[i as int]@);
        if ls[i].len() > 0 {
            let p = padding_of(&ls[i]);
            if !found || p.len() < best.len() {
                best = p;
            }
            found = true;
        }
        i = i + 1;
    }
    assert(lv.take(ls@.len() as int) =~= lv);
    assert(common_padding(input@) == best@);
    if best.len() == 0 {
        push_chars(buf, chars.as_slice());
        return;
    }
    let ghost stripped = lv.map_values(|l: Seq<char>| strip_padding(best@, l));
    let ghost start = buf@;
    let mut k: usize = 0;
    while k < ls.len()
        invariant
            0 <= k <= ls@.len(),
            lv == views(ls@),
            stripped == lv.map_values(|l: Seq<char>| strip_padding(best@, l)),
            buf@ == start + join_lines(stripped.take(k as int)),
        decreases ls@.len() - k,
    {
        let ghost before = stripped.take(k as int);
        let ghost after = stripped.take(k + 1);
        if k > 0 {
            buf.push('\n');
        }
        let line = &ls[k];
        if starts_with(line, &best) {
            push_chars(buf, line.as_slice().split_at(best.len()).1);
        } else {
            push_chars(buf, line.as_slice());
        }
        proof {
            assert(after.drop_last() =~= before);
            assert(after.last() == strip_padding(best@, line@));
            if k == 0 {
                assert(after.len() == 1);
            }
            assert(buf@ =~= start + join_lines(after));
        }
        k = k + 1;
    }
    assert(stripped.take(ls@.len() as int) =~= stripped);
    assert(buf@ == start + left_shifted(input@));
}

} // verus!
