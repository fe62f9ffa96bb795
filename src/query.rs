//! Structural queries: templates of tree-sitter queries, registered per
//! language and name, rendered with a query anchor's bindings and run on a
//! file's syntax tree.
use vstd::prelude::*;

use crate::lang::{capture_views, first_match, first_match_of, query_compiles, Capture, Language};
use crate::query_anchor::{pair_views, Bindings};
use crate::source::{File, SourceRange};
use std::collections::BTreeMap;
use handlebars::TemplateError as HbTemplateError;
use tree_sitter::LanguageError as GrammarError;
use tree_sitter::QueryError as TsQueryError;

verus! {

#[verifier::external_type_specification]
#[verifier::external_body]
pub struct ExHbTemplateError(HbTemplateError);

#[verifier::external_type_specification]
#[verifier::external_body]
pub struct ExRenderError(handlebars::RenderError);

/// Whether `template` is a well-formed handlebars template.
pub uninterp spec fn template_compiles(template: Seq<char>) -> bool;

/// What handlebars renders `template` to, with HTML escaping, over the map
/// from the binding names to their values; none where rendering fails.
pub uninterp spec fn query_render(
    template: Seq<char>,
    bindings: Seq<(Seq<char>, Seq<char>)>,
) -> Option<Seq<char>>;

/// Relies on `handlebars::Template::compile`: it fails exactly where the
/// template is not well formed.
#[verifier::external_body]
pub(crate) fn check_template(template: &str) -> (r: Result<(), HbTemplateError>)
    ensures
        r is Ok <==> template_compiles(template@),
{
    handlebars::Template::compile(template).map(|_| ())
}

/// Relies on `handlebars::Handlebars::render_template`, on a new registry,
/// with the bindings as a map from names to strings for its data.
#[verifier::external_body]
fn render_query(template: &str, bindings: &Vec<(String, String)>) -> (r: Result<
    String,
    handlebars::RenderError,
>)
    ensures
        match r {
            Ok(s) => query_render(template@, pair_views(bindings@)) == Some(s@),
            Err(_) => query_render(template@, pair_views(bindings@)) is None,
        },
{
    let data: BTreeMap<&str, &str> = bindings.iter().map(|(k, v)| (k.as_str(), v.as_str())).collect();
    handlebars::Handlebars::new().render_template(template, &data)
}

/// Why a query could not be built or run.
#[derive(Debug)]
pub enum QueryError {
    Template(HbTemplateError),
    Render(handlebars::RenderError),
    Query(TsQueryError),
    Language(GrammarError),
    NoSource,
}

/// Whether `l` is the markdown language.
pub open spec fn is_markdown(l: Language) -> bool {
    l == Language::Markdown
}

/// The node kinds that the markdown grammar reports with an end row one
/// past their last line.
pub open spec fn is_block_kind(k: Seq<char>) -> bool {
    k == "section"@ || k == "paragraph"@ || k == "indented_code_block"@ || k == "block_quote"@
        || k == "thematic_break"@ || k == "list"@ || k == "fenced_code_block"@ || k
        == "html_block"@
}

/// The least start row among the captures.
pub open spec fn min_start(cs: Seq<(usize, usize, Seq<char>)>) -> usize
    decreases cs.len(),
{
    if cs.len() <= 1 {
        cs[0].0
    } else if cs.last().0 < min_start(cs.drop_last()) {
        cs.last().0
    } else {
        min_start(cs.drop_last())
    }
}

/// The index of the first capture with the greatest end row.
pub open spec fn max_end_index(cs: Seq<(usize, usize, Seq<char>)>) -> int
    decreases cs.len(),
{
    if cs.len() <= 1 {
        0
    } else if cs.last().1 > cs[max_end_index(cs.drop_last())].1 {
        cs.len() - 1
    } else {
        max_end_index(cs.drop_last())
    }
}

/// One more, where that fits in a `usize`.
pub open spec fn next_row(n: usize) -> usize {
    if n < usize::MAX {
        (n + 1) as usize
    } else {
        n
    }
}

/// The span of a match: from its least start row to its greatest end row,
/// one less where that row ends a markdown block, numbered from one.
pub open spec fn range_of(cs: Seq<(usize, usize, Seq<char>)>, markdown: bool) -> SourceRange {
    if cs.len() == 0 {
        SourceRange { start: 0, end: 0 }
    } else {
        let k = max_end_index(cs);
        let e = cs[k].1;
        let e2 = if markdown && is_block_kind(cs[k].2) && e > 0 {
            (e - 1) as usize
        } else {
            e
        };
        SourceRange { start: next_row(min_start(cs)), end: next_row(e2) }
    }
}

/// The span of the first match of `query_text` in `tree`, if any.
pub open spec fn match_range(lang: Language, text: Seq<char>, query_text: Seq<char>) -> Option<SourceRange> {
    match first_match_of(lang, text, query_text) {
        Some(cs) => Some(range_of(cs, is_markdown(lang))),
        None => None,
    }
}

proof fn lemma_max_end_index(cs: Seq<(usize, usize, Seq<char>)>)
    requires
        cs.len() > 0,
    ensures
        0 <= max_end_index(cs) < cs.len(),
    decreases cs.len(),
{
    if cs.len() > 1 {
        lemma_max_end_index(cs.drop_last());
    }
}

fn block_kind(k: &String) -> (r: bool)
    ensures
        r == is_block_kind(k@),
{
    *k == "section".to_owned() || *k == "paragraph".to_owned() || *k
        == "indented_code_block".to_owned() || *k == "block_quote".to_owned() || *k
        == "thematic_break".to_owned() || *k == "list".to_owned() || *k
        == "fenced_code_block".to_owned() || *k == "html_block".to_owned()
}

impl SourceRange {
    /// The span of the match whose captures are `cs` (see `range_of`).
    pub fn from_captures(cs: &Vec<Capture>, markdown: bool) -> (r: SourceRange)
        ensures
            r == range_of(capture_views(cs@), markdown),
    {
        let ghost v = capture_views(cs@);
        if cs.len() == 0 {
            return SourceRange { start: 0, end: 0 };
        }
        let mut start = cs[0].start_row;
        let mut k: usize = 0;
        let mut i: usize = 1;
        while i < cs.len()
            invariant
                1 <= i <= cs@.len(),
                v == capture_views(cs@),
                start == min_start(v.take(i as int)),
                k == max_end_index(v.take(i as int)),
            decreases cs@.len() - i,
        {
            proof {
                lemma_max_end_index(v.take(i as int));
                assert(v.take(i + 1).drop_last() =~= v.take(i as int));
                assert(v.take(i as int)[k as int] == v[k as int]);
            }
            if cs[i].start_row < start {
                start = cs[i].start_row;
            }
            if cs[i].end_row > cs[k].end_row {
                k = i;
            }
            i = i + 1;
        }
        proof {
            assert(v.take(v.len() as int) =~= v);
            lemma_max_end_index(v);
        }
        let mut e = cs[k].end_row;
        if markdown && block_kind(&cs[k].kind) && e > 0 {
            e = e - 1;
        }
        let s1 = if start < usize::MAX {
            start + 1
        } else {
            start
        };
        let e1 = if e < usize::MAX {
            e + 1
        } else {
            e
        };
        SourceRange { start: s1, end: e1 }
    }
}

/// A query template for one language.
#[derive(Debug)]
pub struct Query {
    lang: Language,
    template: String,
}

impl Query {
    /// The language the query is for.
    pub closed spec fn lang_spec(&self) -> Language {
        self.lang
    }

    /// The template text.
    pub closed spec fn template_text(&self) -> Seq<char> {
        self.template@
    }

    /// The query template `template` for `lang`; fails exactly where it is
    /// not a well-formed template.
    pub fn new(lang: Language, template: &str) -> (r: Result<Query, QueryError>)
        ensures
            r is Ok <==> template_compiles(template@),
            r matches Ok(q) ==> q.lang_spec() == lang && q.template_text() == template@,
            r matches Err(e) ==> e is Template,
    {
        match check_template(template) {
            Ok(()) => Ok(Query { lang, template: template.to_owned() }),
            Err(e) => Err(QueryError::Template(e)),
        }
    }

    pub fn language(&self) -> (r: Language)
        ensures
            r == self.lang_spec(),
    {
        self.lang
    }

    /// The span of the first match of the query, rendered with `bindings`,
    /// in the syntax tree of `source`: none where there is no tree or no
    /// match. Fails where the template does not render, or renders to text
    /// that is not a query.
    pub fn find(&self, source: &File, bindings: &Bindings) -> (r: Result<
        Option<SourceRange>,
        QueryError,
    >)
        ensures
            source.tree is None ==> r matches Ok(None),
            source.tree matches Some(t) ==> match query_render(
                self.template_text(),
                bindings.pair_views(),
            ) {
                None => r matches Err(QueryError::Render(_)),
                Some(text) => if query_compiles(t.lang(), text) {
                    r matches Ok(o) && o == match_range(t.lang(), t.text(), text)
                } else {
                    r matches Err(QueryError::Query(_))
                },
            },
    {
        let tree = match &source.tree {
            Some(t) => t,
            None => {
                return Ok(None);
            },
        };
        let raw = match render_query(self.template.as_str(), bindings.pairs()) {
            Ok(raw) => raw,
            Err(e) => {
                return Err(QueryError::Render(e));
            },
        };
        match first_match(tree, raw.as_str()) {
            Ok(Some(cs)) => {
                let markdown = tree.language() == Language::Markdown;
                Ok(Some(SourceRange::from_captures(&cs, markdown)))
            },
            Ok(None) => Ok(None),
            Err(e) => Err(QueryError::Query(e)),
        }
    }
}

/// The registered queries, by language and name.
#[derive(Debug)]
pub struct QueryList {
    queries: Vec<(Language, String, Query)>,
}

/// The index of the last entry registered under `lang` and `name`, or -1.
pub open spec fn last_query(qs: Seq<(Language, String, Query)>, lang: Language, name: Seq<char>) -> int
    decreases qs.len(),
{
    if qs.len() == 0 {
        -1
    } else if qs.last().0 == lang && qs.last().1@ == name {
        qs.len() - 1
    } else {
        last_query(qs.drop_last(), lang, name)
    }
}

proof fn lemma_last_query(qs: Seq<(Language, String, Query)>, lang: Language, name: Seq<char>)
    ensures
        -1 <= last_query(qs, lang, name) < qs.len(),
    decreases qs.len(),
{
    if qs.len() > 0 {
        lemma_last_query(qs.drop_last(), lang, name);
    }
}

impl QueryList {
    /// The query registered last under `lang` and `name`.
    pub closed spec fn lookup(&self, lang: Language, name: Seq<char>) -> Option<Query> {
        let i = last_query(self.queries@, lang, name);
        if 0 <= i < self.queries@.len() {
            Some(self.queries@[i].2)
        } else {
            None
        }
    }

    /// No queries.
    pub fn new() -> (r: QueryList)
        ensures
            forall|l: Language, n: Seq<char>| r.lookup(l, n) is None,
    {
        QueryList { queries: Vec::new() }
    }

    /// The query registered under `lang` and `name`, if any.
    pub fn fetch(&self, lang: Language, name: &str) -> (r: Option<&Query>)
        ensures
            match r {
                Some(q) => self.lookup(lang, name@) == Some(*q),
                None => self.lookup(lang, name@) is None,
            },
    {
        let key = name.to_owned();
        let mut k = self.queries.len();
        assert(self.queries@.take(k as int) =~= self.queries@);
        while k > 0
            invariant
                0 <= k <= self.queries@.len(),
                key@ == name@,
                last_query(self.queries@, lang, name@) == last_query(
                    self.queries@.take(k as int),
                    lang,
                    name@,
                ),
            decreases k,
        {
            assert(self.queries@.take(k as int).drop_last() =~= self.queries@.take(k - 1));
            if self.queries[k - 1].0 == lang && self.queries[k - 1].1 == key {
                return Some(&self.queries[k - 1].2);
            }
            k = k - 1;
        }
        None
    }

    /// Registers `query` under its language and `name`, in place of any
    /// query registered there before.
    pub fn register(&mut self, name: &str, query: Query)
        ensures
            final(self).lookup(query.lang_spec(), name@) == Some(query),
            forall|l: Language, n: Seq<char>|
                !(l == query.lang_spec() && n == name@) ==> final(self).lookup(l, n)
                    == old(self).lookup(l, n),
    {
        let ghost before = self.queries@;
        let lang = query.language();
        self.queries.push((lang, name.to_owned(), query));
        proof {
            assert(self.queries@.drop_last() =~= before);
            lemma_last_query(before, lang, name@);
            assert forall|l: Language, n: Seq<char>|
                !(l == lang && n == name@) implies self.lookup(l, n) == old(self).lookup(l, n) by {
                lemma_last_query(before, l, n);
                let i = last_query(before, l, n);
                if i >= 0 {
                    assert(self.queries@[i] == before[i]);
                }
            }
        }
    }
}

} // verus!
