//! Resolving a strategy: the text it selects from a source file.
use vstd::prelude::*;

use crate::anchor::{end_tag, marks, start_tag, NamedAnchor, Strategy, StrategyView};
use crate::linker::Linker;
use crate::lang::query_compiles;
use crate::query::{match_range, query_render, QueryError, QueryList};
use crate::source::{join_between, lines_between, text_between, File};
use crate::text::{chars_of, join_lines, join_range, lines_of, split_lines, string_of, views};

verus! {

/// The first line at or after `from` that marks the region `name` with `tag`,
/// or the number of lines.
pub open spec fn first_marked(ls: Seq<Seq<char>>, tag: Seq<char>, name: Seq<char>, from: int) -> int
    decreases ls.len() - from,
{
    if from < 0 || from >= ls.len() {
        ls.len() as int
    } else if marks(ls[from], tag, name) {
        from
    } else {
        first_marked(ls, tag, name, from + 1)
    }
}

/// The lines strictly between the first line that opens the region `name`
/// and the next line that closes it (or the end); none where it is never
/// opened.
pub open spec fn named_region(ls: Seq<Seq<char>>, name: Seq<char>) -> Seq<Seq<char>> {
    let i = first_marked(ls, start_tag(), name, 0);
    if i >= ls.len() {
        Seq::empty()
    } else {
        ls.subrange(i + 1, first_marked(ls, end_tag(), name, i + 1))
    }
}

/// The text that a strategy other than a query selects from `contents`.
pub open spec fn selected(st: StrategyView, contents: Seq<char>) -> Option<Seq<char>> {
    let ls = lines_of(contents);
    match st {
        StrategyView::Full => Some(contents),
        StrategyView::Between(a, b) => Some(join_lines(lines_between(ls, a as int, b as int))),
        StrategyView::HereDown(n) => Some(join_lines(lines_between(ls, n as int, ls.len() as int))),
        StrategyView::DownTo(n) => Some(join_lines(lines_between(ls, 1, n as int))),
        StrategyView::ThisLine(n) => if 1 <= n <= ls.len() {
            Some(ls[n - 1])
        } else {
            None
        },
        StrategyView::Named(name) => Some(join_lines(named_region(ls, name))),
        StrategyView::Query(_, _) => None,
    }
}

/// What the query anchor `name` with `bindings` selects from `source`:
/// `None` where it fails (its template does not render, or renders to text
/// that is not a query); else the lines of the first match, or nothing
/// where the file has no language or tree, no query is registered under
/// the name, or nothing matches.
pub open spec fn query_outcome(
    source: &File,
    queries: &QueryList,
    name: Seq<char>,
    bindings: Seq<(Seq<char>, Seq<char>)>,
) -> Option<Option<Seq<char>>> {
    match source.language {
        None => Some(None),
        Some(l) => match queries.lookup(l, name) {
            None => Some(None),
            Some(q) => match source.tree {
                None => Some(None),
                Some(t) => match query_render(q.template_text(), bindings) {
                    None => None,
                    Some(text) => if query_compiles(t.lang(), text) {
                        Some(
                            match match_range(t.lang(), t.text(), text) {
                                Some(rg) => Some(
                                    text_between(source.contents@, rg.start as int, rg.end as int),
                                ),
                                None => None,
                            },
                        )
                    } else {
                        None
                    },
                },
            },
        },
    }
}

/// A result of `find_content` as a value: `None` for an error.
pub open spec fn result_view(r: Result<Option<String>, QueryError>) -> Option<Option<Seq<char>>> {
    match r {
        Ok(o) => Some(opt_view(o)),
        Err(_) => None,
    }
}

/// The view of an optional string.
pub open spec fn opt_view(o: Option<String>) -> Option<Seq<char>> {
    match o {
        Some(s) => Some(s@),
        None => None,
    }
}

proof fn lemma_first_marked(ls: Seq<Seq<char>>, tag: Seq<char>, name: Seq<char>, from: int)
    requires
        0 <= from <= ls.len(),
    ensures
        from <= first_marked(ls, tag, name, from) <= ls.len(),
    decreases ls.len() - from,
{
    if from < ls.len() && !marks(ls[from], tag, name) {
        lemma_first_marked(ls, tag, name, from + 1);
    }
}

fn first_marked_from(
    ls: &Vec<Vec<char>>,
    tag: &[char],
    anchor: &NamedAnchor,
    from: usize,
) -> (r: usize)
    requires
        from <= ls@.len(),
    ensures
        r == first_marked(views(ls@), tag@, anchor.0@, from as int),
        from <= r <= ls@.len(),
{
    proof {
        lemma_first_marked(views(ls@), tag@, anchor.0@, from as int);
    }
    let mut i = from;
    while i < ls.len()
        invariant
            from <= i <= ls@.len(),
            first_marked(views(ls@), tag@, anchor.0@, from as int) == first_marked(
                views(ls@),
                tag@,
                anchor.0@,
                i as int,
            ),
        decreases ls@.len() - i,
    {
        assert(views(ls@)[i as int] == ls@[i as int]@);
        if !anchor.missing_in(ls[i].as_slice(), tag) {
            return i;
        }
        i = i + 1;
    }
    i
}

impl Strategy {
    /// The text this strategy selects from `contents`, for every strategy
    /// but a query (see `selected`).
    pub fn select_lines(&self, contents: &str) -> (r: Option<String>)
        ensures
            opt_view(r) == selected(self@, contents@),
    {
        let c = chars_of(contents);
        let ls = split_lines(c.as_slice());
        let n = ls.len();
        match self {
            Strategy::Full => Some(string_of(c.as_slice(), 0, c.len())),
            Strategy::Between { start, end } => Some(join_between(&ls, *start, *end)),
            Strategy::HereDown(k) => Some(join_between(&ls, *k, n)),
            Strategy::DownTo(k) => Some(join_between(&ls, 1, *k)),
            Strategy::ThisLine(k) => {
                if *k >= 1 && *k <= n {
                    let line = &ls[*k - 1];
                    assert(views(ls@)[*k - 1] == line@);
                    Some(string_of(line.as_slice(), 0, line.len()))
                } else {
                    None
                }
            },
            Strategy::Named(anchor) => {
                let start_tag_chars = vec!['A', 'N', 'C', 'H', 'O', 'R', ':'];
                let end_tag_chars = vec!['A', 'N', 'C', 'H', 'O', 'R', '_', 'E', 'N', 'D', ':'];
                assert(start_tag_chars@ =~= start_tag());
                assert(end_tag_chars@ =~= end_tag());
                let i = first_marked_from(&ls, start_tag_chars.as_slice(), anchor, 0);
                if i >= n {
                    assert(join_lines(Seq::<Seq<char>>::empty()) == Seq::<char>::empty());
                    return Some(String::new());
                }
                let j = first_marked_from(&ls, end_tag_chars.as_slice(), anchor, i + 1);
                Some(join_range(&ls, i + 1, j))
            },
            Strategy::Query(_) => None,
        }
    }

    /// The text this strategy selects from `source`. A query selects the
    /// lines of its first match, and nothing where the file has no
    /// language or tree or no query is registered under the name; it fails
    /// where the query template does not render to a query.
    pub fn find_content(&self, source: &File, linker: &Linker) -> (r: Result<
        Option<String>,
        QueryError,
    >)
        ensures
            !(self is Query) ==> (r matches Ok(o) && opt_view(o) == selected(
                self@,
                source.contents@,
            )),
            self matches Strategy::Query(q) ==> result_view(r) == query_outcome(
                source,
                &linker.queries,
                q.name@,
                q.bindings.pair_views(),
            ),
    {
        match self {
            Strategy::Query(anchor) => {
                let lang = match source.language {
                    Some(l) => l,
                    None => {
                        return Ok(None);
                    },
                };
                let query = match linker.queries.fetch(lang, anchor.name.as_str()) {
                    Some(q) => q,
                    None => {
                        return Ok(None);
                    },
                };
                match query.find(source, &anchor.bindings) {
                    Ok(Some(range)) => {
                        let t = range.fetch_lines(source);
                        assert(t@ == text_between(
                            source.contents@,
                            range.start as int,
                            range.end as int,
                        ));
                        Ok(Some(t))
                    },
                    Ok(None) => Ok(None),
                    Err(e) => Err(e),
                }
            },
            _ => Ok(self.select_lines(source.contents.as_str())),
        }
    }
}

} // verus!
