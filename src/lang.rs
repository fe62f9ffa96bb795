//! The languages whose files can be parsed into syntax trees, and the calls
//! into tree-sitter that parse them and run queries on them.
use vstd::prelude::*;

use tree_sitter::Language as Grammar;
use tree_sitter::LanguageError as GrammarError;
use tree_sitter::Query as TsQuery;
use tree_sitter::QueryError as TsQueryError;
use tree_sitter::StreamingIterator;

verus! {

/// A language with a syntax grammar.
#[derive(Debug, Clone, Copy, PartialEq, Eq, Hash, Structural)]
pub enum Language {
    Ruby,
    Rust,
    Toml,
    Javascript,
    Elixir,
    Json,
    Markdown,
}

#[verifier::external_type_specification]
#[verifier::external_body]
pub struct ExTree(tree_sitter::Tree);

#[verifier::external_type_specification]
#[verifier::external_body]
pub struct ExTsQuery(TsQuery);

#[verifier::external_type_specification]
#[verifier::external_body]
pub struct ExLanguageError(GrammarError);

#[verifier::external_type_specification]
#[verifier::external_body]
pub struct ExQueryError(TsQueryError);

/// A node captured by a query match, as plain values: its first and last
/// rows (counted from zero; the end row as tree-sitter reports it) and its
/// kind.
#[derive(Debug, Clone)]
pub struct Capture {
    pub start_row: usize,
    pub end_row: usize,
    pub kind: String,
}

/// Whether the grammar of `lang` loads into a tree-sitter parser (its ABI
/// version is one that this tree-sitter reads).
pub uninterp spec fn grammar_loads(lang: Language) -> bool;

/// Relies on the `LANGUAGE` constant of each grammar crate (tree-sitter-ruby,
/// -rust, -toml-ng, -javascript, -elixir, -json, -md), on
/// `tree_sitter::Parser::set_language`, which fails only on the grammar's
/// version, and on `tree_sitter::Parser::parse`, which gives a tree once a
/// language is set and no timeout or cancellation flag is.
#[verifier::external_body]
fn parse_in(lang: Language, text: &str) -> (r: Result<Option<tree_sitter::Tree>, GrammarError>)
    ensures
        r is Ok <==> grammar_loads(lang),
        r matches Ok(t) ==> t is Some,
{
    let g: Grammar = match lang {
        Language::Rust => tree_sitter_rust::LANGUAGE.into(),
        Language::Ruby => tree_sitter_ruby::LANGUAGE.into(),
        Language::Toml => tree_sitter_toml_ng::LANGUAGE.into(),
        Language::Javascript => tree_sitter_javascript::LANGUAGE.into(),
        Language::Elixir => tree_sitter_elixir::LANGUAGE.into(),
        Language::Json => tree_sitter_json::LANGUAGE.into(),
        Language::Markdown => tree_sitter_md::LANGUAGE.into(),
    };
    let mut parser = tree_sitter::Parser::new();
    parser.set_language(&g)?;
    Ok(parser.parse(text, None))
}

/// A syntax tree together with the text and language it was parsed from.
/// Only `Language::parse` makes one, so the tree always belongs to the text.
#[derive(Debug)]
pub struct ParsedTree {
    tree: tree_sitter::Tree,
    text: String,
    lang: Language,
}

impl ParsedTree {
    /// The text the tree was parsed from.
    pub closed spec fn text(&self) -> Seq<char> {
        self.text@
    }

    /// The language the tree was parsed in.
    pub closed spec fn lang(&self) -> Language {
        self.lang
    }

    /// The language the tree was parsed in.
    pub fn language(&self) -> (r: Language)
        ensures
            r == self.lang(),
    {
        self.lang
    }
}

/// The views of captures: first row, last row and kind of each.
pub open spec fn capture_views(cs: Seq<Capture>) -> Seq<(usize, usize, Seq<char>)> {
    cs.map_values(|c: Capture| (c.start_row, c.end_row, c.kind@))
}

/// Whether `text` compiles as a tree-sitter query for `lang`.
pub uninterp spec fn query_compiles(lang: Language, text: Seq<char>) -> bool;

/// The captures of the first match, in tree-sitter's order, of the query
/// `query` on the syntax tree of `contents` in `lang`; none where nothing
/// matches.
pub uninterp spec fn first_match_of(
    lang: Language,
    contents: Seq<char>,
    query: Seq<char>,
) -> Option<Seq<(usize, usize, Seq<char>)>>;

/// Relies on `tree_sitter::Query::new` for the tree's language (it fails
/// exactly where the text is not a query) and on
/// `tree_sitter::QueryCursor::matches` over the text the tree was parsed
/// from: the captures of the first match, as plain values.
#[verifier::external_body]
pub(crate) fn first_match(pt: &ParsedTree, query: &str) -> (r: Result<Option<Vec<Capture>>, TsQueryError>)
    ensures
        match r {
            Ok(Some(cs)) => query_compiles(pt.lang(), query@) && first_match_of(pt.lang(), pt.text(), query@)
                == Some(capture_views(cs@)),
            Ok(None) => query_compiles(pt.lang(), query@) && first_match_of(pt.lang(), pt.text(), query@) is None,
            Err(_) => !query_compiles(pt.lang(), query@),
        },
{
    let q = TsQuery::new(&pt.tree.language(), query)?;
    let mut cursor = tree_sitter::QueryCursor::new();
    let mut matches = cursor.matches(&q, pt.tree.root_node(), pt.text.as_bytes());
    Ok(matches.next().map(|m| m.captures.iter().map(|c| Capture {
        start_row: c.node.start_position().row,
        end_row: c.node.end_position().row,
        kind: c.node.kind().to_owned(),
    }).collect()))
}

/// `p` without trailing separators and trailing `.` components, which end
/// no component of a path.
pub open spec fn trimmed(p: Seq<char>) -> Seq<char>
    decreases p.len(),
{
    if p.len() > 0 && p.last() == '/' {
        trimmed(p.drop_last())
    } else if p.len() >= 2 && p.last() == '.' && p[p.len() - 2] == '/' {
        trimmed(p.drop_last())
    } else if p.len() == 1 && p[0] == '.' {
        Seq::empty()
    } else {
        p
    }
}

/// The extension of the file named by `path`: what follows the last `.` of
/// its last component (trailing separators and `.` components dropped),
/// where that `.` is not the component's first character.
pub open spec fn extension(path: Seq<char>) -> Option<Seq<char>> {
    let t = trimmed(path);
    let f = t.skip(last_index(t, '/') + 1);
    let d = last_index(f, '.');
    if d > 0 {
        Some(f.skip(d + 1))
    } else {
        None
    }
}

/// The last index of `c` in `s`, or -1.
pub open spec fn last_index(s: Seq<char>, c: char) -> int
    decreases s.len(),
{
    if s.len() == 0 {
        -1
    } else if s.last() == c {
        s.len() - 1
    } else {
        last_index(s.drop_last(), c)
    }
}

/// The language of a file extension.
pub open spec fn language_of_extension(e: Seq<char>) -> Option<Language> {
    if e == seq!['r', 'b'] {
        Some(Language::Ruby)
    } else if e == seq!['r', 's'] {
        Some(Language::Rust)
    } else if e == seq!['t', 'o', 'm', 'l'] {
        Some(Language::Toml)
    } else if e == seq!['j', 's'] {
        Some(Language::Javascript)
    } else if e == seq!['e', 'x'] || e == seq!['e', 'x', 's'] {
        Some(Language::Elixir)
    } else if e == seq!['j', 's', 'o', 'n'] {
        Some(Language::Json)
    } else if e == seq!['m', 'd'] || e == seq!['t', 'x', 't'] {
        Some(Language::Markdown)
    } else {
        None
    }
}

/// The language of the file named by `path`, from its extension.
pub open spec fn language_of(path: Seq<char>) -> Option<Language> {
    match extension(path) {
        Some(e) => language_of_extension(e),
        None => None,
    }
}

proof fn lemma_last_index(s: Seq<char>, c: char)
    ensures
        -1 <= last_index(s, c) < s.len(),
        last_index(s, c) >= 0 ==> s[last_index(s, c)] == c,
    decreases s.len(),
{
    if s.len() > 0 && s.last() != c {
        lemma_last_index(s.drop_last(), c);
    }
}

fn last_index_of(s: &[char], c: char) -> (r: Option<usize>)
    ensures
        match r {
            Some(i) => i == last_index(s@, c),
            None => last_index(s@, c) == -1,
        },
        r matches Some(i) ==> i < s@.len(),
{
    let mut k = s.len();
    assert(s@.take(s@.len() as int) =~= s@);
    while k > 0 && s[k - 1] != c
        invariant
            0 <= k <= s@.len(),
            last_index(s@, c) == last_index(s@.take(k as int), c),
        decreases k,
    {
        assert(s@.take(k as int).drop_last() =~= s@.take(k - 1));
        k = k - 1;
    }
    if k == 0 {
        None
    } else {
        assert(s@.take(k as int).last() == c);
        Some(k - 1)
    }
}

fn same(a: &[char], b: &[char]) -> (r: bool)
    ensures
        r == (a@ == b@),
{
    if a.len() != b.len() {
        return false;
    }
    let mut i: usize = 0;
    while i < a.len()
        invariant
            a@.len() == b@.len(),
            0 <= i <= a@.len(),
            forall|j: int| 0 <= j < i ==> a@[j] == b@[j],
        decreases a@.len() - i,
    {
        if a[i] != b[i] {
            return false;
        }
        i = i + 1;
    }
    assert(a@ =~= b@);
    true
}

fn of_extension(e: &[char]) -> (r: Option<Language>)
    ensures
        r == language_of_extension(e@),
{
    let rb = ['r', 'b'];
    let rs = ['r', 's'];
    let toml = ['t', 'o', 'm', 'l'];
    let js = ['j', 's'];
    let ex = ['e', 'x'];
    let exs = ['e', 'x', 's'];
    let json = ['j', 's', 'o', 'n'];
    let md = ['m', 'd'];
    let txt = ['t', 'x', 't'];
    assert(rb@ =~= seq!['r', 'b']);
    assert(rs@ =~= seq!['r', 's']);
    assert(toml@ =~= seq!['t', 'o', 'm', 'l']);
    assert(js@ =~= seq!['j', 's']);
    assert(ex@ =~= seq!['e', 'x']);
    assert(exs@ =~= seq!['e', 'x', 's']);
    assert(json@ =~= seq!['j', 's', 'o', 'n']);
    assert(md@ =~= seq!['m', 'd']);
    assert(txt@ =~= seq!['t', 'x', 't']);
    if same(e, &rb) {
        Some(Language::Ruby)
    } else if same(e, &rs) {
        Some(Language::Rust)
    } else if same(e, &toml) {
        Some(Language::Toml)
    } else if same(e, &js) {
        Some(Language::Javascript)
    } else if same(e, &ex) || same(e, &exs) {
        Some(Language::Elixir)
    } else if same(e, &json) {
        Some(Language::Json)
    } else if same(e, &md) || same(e, &txt) {
        Some(Language::Markdown)
    } else {
        None
    }
}

impl Language {
    /// The language of the file named by `path` (see `language_of`).
    pub fn determine_from_path(path: &str) -> (r: Option<Language>)
        ensures
            r == language_of(path@),
    {
        let full = crate::text::chars_of(path);
        let mut k = full.len();
        assert(full@.take(k as int) =~= full@);
        while k > 0 && (full[k - 1] == '/' || (k >= 2 && full[k - 1] == '.' && full[k - 2] == '/')
            || (k == 1 && full[0] == '.'))
            invariant
                0 <= k <= full@.len(),
                trimmed(full@) == trimmed(full@.take(k as int)),
            decreases k,
        {
            assert(full@.take(k as int).drop_last() =~= full@.take(k - 1));
            if k == 1 && full[0] == '.' && full[0] != '/' {
                assert(trimmed(full@.take(0)) == Seq::<char>::empty());
            }
            k = k - 1;
        }
        let (p, _) = full.as_slice().split_at(k);
        assert(p@ =~= full@.take(k as int));
        assert(trimmed(p@) == p@);
        let n = p.len();
        let start = match last_index_of(p, '/') {
            Some(i) => i + 1,
            None => 0,
        };
        proof {
            lemma_last_index(p@, '/');
        }
        let (_, f) = p.split_at(start);
        assert(f@ =~= p@.skip(last_index(p@, '/') + 1));
        match last_index_of(f, '.') {
            Some(d) => {
                if d == 0 {
                    return None;
                }
                proof {
                    lemma_last_index(f@, '.');
                }
                let (_, e) = f.split_at(d + 1);
                assert(e@ =~= f@.skip(d + 1));
                of_extension(e)
            },
            None => None,
        }
    }

    /// The syntax tree of `source` in this language. Fails exactly where the
    /// grammar cannot be loaded.
    pub fn parse(&self, source: &str) -> (r: Result<Option<ParsedTree>, GrammarError>)
        ensures
            r is Ok <==> grammar_loads(*self),
            r matches Ok(o) ==> o is Some,
            r matches Ok(Some(t)) ==> t.text() == source@ && t.lang() == *self,
    {
        match parse_in(*self, source)? {
            Some(tree) => Ok(Some(ParsedTree { tree, text: source.to_owned(), lang: *self })),
            None => Ok(None),
        }
    }

    /// Compiles `template` as a query template for this language (see
    /// `Query::new`).
    pub fn build_query(&self, template: &str) -> (r: Result<crate::query::Query, crate::query::QueryError>)
        ensures
            r is Ok <==> crate::query::template_compiles(template@),
            r matches Ok(q) ==> q.lang_spec() == *self && q.template_text() == template@,
            r matches Err(e) ==> e is Template,
    {
        crate::query::Query::new(*self, template)
    }
}

} // verus!
