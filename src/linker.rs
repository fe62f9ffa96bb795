//! Linking documents with the files they refer to, and rendering the result.
use vstd::prelude::*;

use crate::anchor::{Decoration, DecorationView, Strategy};
use crate::doc::DocFile;
use crate::error::Error;
use crate::left_shift::{left_shifted, lines};
use crate::strategy::{opt_view, query_outcome, selected};
use crate::lang::Language;
use crate::query::QueryList;
use crate::source::{SharedFile, SourceError, SourceList};
use crate::json::{decimal, json_string, push_decimal, push_lit, push_string};
use crate::query_anchor::pair_views;
use crate::template::{template_output, TemplateError, TemplateList};
use crate::text::{chars_of, push_chars};
use crate::doc::promoted;
use crate::token::{directive_at, law_plain_text_is_one_token, token_views, tokens_of, Token, TokenView};

verus! {

/// One resolved directive: the file it refers to, its strategy, the text
/// selected, and its decoration.
#[derive(Debug)]
pub struct Linkage {
    pub source: SharedFile,
    pub strategy: Strategy,
    pub contents: Option<String>,
    pub decoration: Decoration,
}

/// A piece of an assembly.
#[derive(Debug)]
pub enum Node {
    Text(String),
    Link(Linkage),
}

/// The nodes of a document, in order.
#[derive(Debug)]
pub struct Assembly {
    pub nodes: Vec<Node>,
}

/// What a document is linked with: the cache of source files, the
/// registered queries and the registered templates.
#[derive(Debug)]
pub struct Linker {
    pub sources: SourceList,
    pub queries: QueryList,
    pub templates: TemplateList,
}

/// The selected text of a linkage, empty where nothing was selected.
pub open spec fn data_of(l: &Linkage) -> Seq<char> {
    match l.contents {
        Some(c) => c@,
        None => Seq::empty(),
    }
}

/// Whether `out` is what the node renders to: a text as it is; a link's
/// data as it is, or left-shifted; for a template, what the registered
/// template renders the link's data to, or nothing (a failure) where the
/// template is missing or fails.
pub open spec fn renders_to(n: &Node, templates: &TemplateList, out: Seq<char>, ok: bool) -> bool {
    match n {
        Node::Text(t) => ok && out == t@,
        Node::Link(l) => match l.decoration@ {
            DecorationView::Plain => ok && out == data_of(l),
            DecorationView::LeftShift => ok && out == left_shifted(data_of(l)),
            DecorationView::Template(name) => if templates.names().contains(name) {
                match template_output(templates.text_of(name), linkage_json(l)) {
                    Some(o) => ok && out == o,
                    None => !ok && out == Seq::<char>::empty(),
                }
            } else {
                !ok && out == Seq::<char>::empty()
            },
        },
    }
}

/// Whether each node renders to the piece of `outs` at its place, with
/// `oks` telling which succeeded.
pub open spec fn rendered(
    nodes: Seq<Node>,
    templates: &TemplateList,
    outs: Seq<Seq<char>>,
    oks: Seq<bool>,
) -> bool {
    &&& outs.len() == nodes.len()
    &&& oks.len() == nodes.len()
    &&& forall|k: int|
        0 <= k < outs.len() ==> renders_to(&nodes[k], templates, #[trigger] outs[k], oks[k])
}

/// The pieces `outs` one after another.
pub open spec fn concat(outs: Seq<Seq<char>>) -> Seq<char>
    decreases outs.len(),
{
    if outs.len() == 0 {
        Seq::empty()
    } else {
        concat(outs.drop_last()) + outs.last()
    }
}

impl Linkage {
    /// Appends what this linkage renders to: its text, left-shifted or
    /// through its template as its decoration asks. Fails, appending
    /// nothing, where the template is missing or fails.
    pub fn compile(&self, linker: &Linker, buf: &mut String) -> (r: Result<(), TemplateError>)
        ensures
            self.decoration is Plain ==> r is Ok && final(buf)@ == old(buf)@ + data_of(self),
            self.decoration is LeftShift ==> r is Ok && final(buf)@ == old(buf)@ + left_shifted(
                data_of(self),
            ),
            self.decoration matches Decoration::Template(name) ==> {
                &&& !linker.templates.names().contains(name@) ==> (r matches Err(
                    TemplateError::TemplateMissing(n),
                ) && n@ == name@)
                &&& linker.templates.names().contains(name@) ==> match template_output(
                    linker.templates.text_of(name@),
                    linkage_json(self),
                ) {
                    Some(o) => r is Ok && final(buf)@ == old(buf)@ + o,
                    None => r matches Err(TemplateError::Render(_)),
                }
                &&& r is Err ==> final(buf)@ == old(buf)@
            },
            old(buf)@.is_prefix_of(final(buf)@),
    {
        let ghost start = buf@;
        let empty = String::new();
        let data = match &self.contents {
            Some(c) => c,
            None => &empty,
        };
        assert(data@ == data_of(self));
        match &self.decoration {
            Decoration::Plain => {
                let d = chars_of(data.as_str());
                push_chars(buf, d.as_slice());
            },
            Decoration::LeftShift => lines(data.as_str(), buf),
            Decoration::Template(name) => {
                let out = match linker.templates.render(name.as_str(), self) {
                    Ok(out) => out,
                    Err(e) => {
                        return Err(e);
                    },
                };
                let d = chars_of(out.as_str());
                push_chars(buf, d.as_slice());
            },
        }
        assert(buf@.subrange(0, start.len() as int) =~= start);
        Ok(())
    }

    /// The data that a template renders, as JSON text (see `linkage_json`).
    pub fn template_data(&self) -> (r: String)
        ensures
            r@ == linkage_json(self),
    {
        let mut out = String::new();
        push_lit(&mut out, "{\"source\":{\"path\":");
        push_string(&mut out, self.source.path.as_str());
        push_lit(&mut out, ",\"contents\":");
        push_string(&mut out, self.source.contents.as_str());
        push_lit(&mut out, ",\"language\":");
        push_language(&mut out, self.source.language);
        push_lit(&mut out, "},\"strategy\":");
        push_strategy(&mut out, &self.strategy);
        push_lit(&mut out, ",\"contents\":");
        match &self.contents {
            Some(c) => push_string(&mut out, c.as_str()),
            None => push_lit(&mut out, "null"),
        }
        push_lit(&mut out, ",\"decoration\":");
        push_decoration(&mut out, &self.decoration);
        push_lit(&mut out, "}");
        assert(out@ =~= linkage_json(self));
        out
    }
}

/// The JSON text of a language, as its name; `null` for none.
pub open spec fn language_json(l: Option<Language>) -> Seq<char> {
    match l {
        None => "null"@,
        Some(Language::Ruby) => json_string("Ruby"@),
        Some(Language::Rust) => json_string("Rust"@),
        Some(Language::Toml) => json_string("Toml"@),
        Some(Language::Javascript) => json_string("Javascript"@),
        Some(Language::Elixir) => json_string("Elixir"@),
        Some(Language::Json) => json_string("Json"@),
        Some(Language::Markdown) => json_string("Markdown"@),
    }
}

/// The members `"name":"value"` of bindings, separated by commas.
pub open spec fn binding_members(ps: Seq<(Seq<char>, Seq<char>)>) -> Seq<char>
    decreases ps.len(),
{
    if ps.len() == 0 {
        Seq::empty()
    } else if ps.len() == 1 {
        json_string(ps[0].0) + seq![':'] + json_string(ps[0].1)
    } else {
        binding_members(ps.drop_last()) + seq![','] + json_string(ps.last().0) + seq![':']
            + json_string(ps.last().1)
    }
}

/// The JSON text of a strategy: its variant's name, or an object from that
/// name to its fields.
pub open spec fn strategy_json(st: &Strategy) -> Seq<char> {
    match st {
        Strategy::Named(n) => "{\"Named\":"@ + json_string(n.0@) + "}"@,
        Strategy::Full => json_string("Full"@),
        Strategy::Between { start, end } => "{\"Between\":{\"start\":"@ + decimal(*start as nat)
            + ",\"end\":"@ + decimal(*end as nat) + "}}"@,
        Strategy::HereDown(n) => "{\"HereDown\":"@ + decimal(*n as nat) + "}"@,
        Strategy::DownTo(n) => "{\"DownTo\":"@ + decimal(*n as nat) + "}"@,
        Strategy::ThisLine(n) => "{\"ThisLine\":"@ + decimal(*n as nat) + "}"@,
        Strategy::Query(q) => "{\"Query\":{\"name\":"@ + json_string(q.name@) + ",\"bindings\":{"@
            + binding_members(q.bindings.pair_views()) + "}}}"@,
    }
}

/// The JSON text of a decoration: its variant's name, or an object from
/// that name to the template's name.
pub open spec fn decoration_json(d: &Decoration) -> Seq<char> {
    match d {
        Decoration::Plain => json_string("None"@),
        Decoration::LeftShift => json_string("LeftShift"@),
        Decoration::Template(t) => "{\"Template\":"@ + json_string(t@) + "}"@,
    }
}

/// The data that a template renders for a linkage, as JSON text: the source
/// (path, contents, language), the strategy, the selected contents (`null`
/// where none) and the decoration.
pub open spec fn linkage_json(l: &Linkage) -> Seq<char> {
    "{\"source\":{\"path\":"@ + json_string(l.source.path@) + ",\"contents\":"@ + json_string(
        l.source.contents@,
    ) + ",\"language\":"@ + language_json(l.source.language) + "},\"strategy\":"@
        + strategy_json(&l.strategy) + ",\"contents\":"@ + match l.contents {
        Some(c) => json_string(c@),
        None => "null"@,
    } + ",\"decoration\":"@ + decoration_json(&l.decoration) + "}"@
}

fn push_language(out: &mut String, l: Option<Language>)
    ensures
        final(out)@ == old(out)@ + language_json(l),
{
    match l {
        None => push_lit(out, "null"),
        Some(Language::Ruby) => push_string(out, "Ruby"),
        Some(Language::Rust) => push_string(out, "Rust"),
        Some(Language::Toml) => push_string(out, "Toml"),
        Some(Language::Javascript) => push_string(out, "Javascript"),
        Some(Language::Elixir) => push_string(out, "Elixir"),
        Some(Language::Json) => push_string(out, "Json"),
        Some(Language::Markdown) => push_string(out, "Markdown"),
    }
}

fn push_strategy(out: &mut String, st: &Strategy)
    ensures
        final(out)@ == old(out)@ + strategy_json(st),
{
    let ghost start = out@;
    match st {
        Strategy::Named(n) => {
            push_lit(out, "{\"Named\":");
            push_string(out, n.0.as_str());
            push_lit(out, "}");
        },
        Strategy::Full => push_string(out, "Full"),
        Strategy::Between { start: a, end: b } => {
            push_lit(out, "{\"Between\":{\"start\":");
            push_decimal(out, *a);
            push_lit(out, ",\"end\":");
            push_decimal(out, *b);
            push_lit(out, "}}");
        },
        Strategy::HereDown(n) => {
            push_lit(out, "{\"HereDown\":");
            push_decimal(out, *n);
            push_lit(out, "}");
        },
        Strategy::DownTo(n) => {
            push_lit(out, "{\"DownTo\":");
            push_decimal(out, *n);
            push_lit(out, "}");
        },
        Strategy::ThisLine(n) => {
            push_lit(out, "{\"ThisLine\":");
            push_decimal(out, *n);
            push_lit(out, "}");
        },
        Strategy::Query(q) => {
            push_lit(out, "{\"Query\":{\"name\":");
            push_string(out, q.name.as_str());
            push_lit(out, ",\"bindings\":{");
            let pairs = q.bindings.pairs();
            let ghost ps = pair_views(pairs@);
            let ghost mid = out@;
            let mut i: usize = 0;
            while i < pairs.len()
                invariant
                    0 <= i <= pairs@.len(),
                    ps == pair_views(pairs@),
                    out@ == mid + binding_members(ps.take(i as int)),
                decreases pairs@.len() - i,
            {
                let ghost before = out@;
                if i > 0 {
                    out.push(',');
                }
                push_string(out, pairs[i].0.as_str());
                out.push(':');
                push_string(out, pairs[i].1.as_str());
                proof {
                    let t = ps.take(i + 1);
                    assert(t.drop_last() =~= ps.take(i as int));
                    assert(t.last() == (pairs@[i as int].0@, pairs@[i as int].1@));
                    if i == 0 {
                        assert(t.len() == 1);
                    }
                    assert(out@ =~= mid + binding_members(t));
                }
                i = i + 1;
            }
            assert(ps.take(pairs@.len() as int) =~= ps);
            push_lit(out, "}}}");
        },
    }
    assert(out@ =~= start + strategy_json(st));
}

fn push_decoration(out: &mut String, d: &Decoration)
    ensures
        final(out)@ == old(out)@ + decoration_json(d),
{
    let ghost start = out@;
    match d {
        Decoration::Plain => push_string(out, "None"),
        Decoration::LeftShift => push_string(out, "LeftShift"),
        Decoration::Template(t) => {
            push_lit(out, "{\"Template\":");
            push_string(out, t.as_str());
            push_lit(out, "}");
        },
    }
    assert(out@ =~= start + decoration_json(d));
}

impl Node {
    /// The text of the node before decoration: a text, or a link's
    /// selected text (empty where nothing was selected).
    pub fn string_contents(&self) -> (r: &str)
        ensures
            r@ == match self {
                Node::Text(t) => t@,
                Node::Link(l) => data_of(l),
            },
    {
        proof {
            reveal_strlit("");
        }
        match self {
            Node::Text(data) => data.as_str(),
            Node::Link(link) => match &link.contents {
                Some(c) => c.as_str(),
                None => "",
            },
        }
    }

    /// The size of `string_contents` in bytes.
    pub fn estimated_string_size(&self) -> (r: usize)
        ensures
            r == self.string_contents_bytes(),
    {
        self.string_contents().len()
    }

    /// The size of `string_contents` in bytes.
    pub open spec fn string_contents_bytes(&self) -> usize {
        match self {
            Node::Text(t) => vstd::utf8::encode_utf8(t@).len() as usize,
            Node::Link(l) => match l.contents {
                Some(c) => vstd::utf8::encode_utf8(c@).len() as usize,
                None => 0,
            },
        }
    }

    /// Appends what this node renders to (see `renders_to`).
    pub fn compile(&self, linker: &Linker, buf: &mut String) -> (r: Result<(), TemplateError>)
        ensures
            exists|out: Seq<char>|
                renders_to(self, &linker.templates, out, r is Ok) && #[trigger] (old(buf)@ + out)
                    == final(buf)@,
    {
        match self {
            Node::Text(data) => {
                let d = chars_of(data.as_str());
                push_chars(buf, d.as_slice());
                assert(renders_to(self, &linker.templates, data@, true));
                Ok(())
            },
            Node::Link(link) => {
                let ghost before = buf@;
                let r = link.compile(linker, buf);
                proof {
                    let out = buf@.subrange(before.len() as int, buf@.len() as int);
                    assert(before.is_prefix_of(buf@));
                    assert(before + out =~= buf@);
                    match &link.decoration {
                        Decoration::Plain => {
                            assert(out =~= data_of(link));
                        },
                        Decoration::LeftShift => {
                            assert(out =~= left_shifted(data_of(link)));
                        },
                        Decoration::Template(name) => {
                            if r is Err {
                                assert(out =~= Seq::<char>::empty());
                            } else if linker.templates.names().contains(name@) {
                                let o = template_output(
                                    linker.templates.text_of(name@),
                                    linkage_json(link),
                                )->0;
                                assert(out =~= o);
                            }
                        },
                    }
                    assert(renders_to(self, &linker.templates, out, r is Ok));
                }
                r
            },
        }
    }
}

impl Assembly {
    /// The rendered text of every node, one after another, and the errors
    /// of the nodes whose template was missing or failed: those render to
    /// nothing, and the rest is still rendered.
    pub fn compile_reporting(&self, linker: &Linker) -> (r: (String, Vec<TemplateError>))
        ensures
            exists|outs: Seq<Seq<char>>, oks: Seq<bool>|
                #[trigger] rendered(self.nodes@, &linker.templates, outs, oks) && r.0@ == concat(outs),
    {
        let mut out = String::with_capacity(self.estimated_string_size());
        let mut errors: Vec<TemplateError> = Vec::new();
        let ghost mut outs: Seq<Seq<char>> = Seq::empty();
        let ghost mut oks: Seq<bool> = Seq::empty();
        let mut i: usize = 0;
        while i < self.nodes.len()
            invariant
                0 <= i <= self.nodes@.len(),
                outs.len() == i,
                oks.len() == i,
                forall|k: int|
                    0 <= k < i ==> renders_to(
                        &self.nodes@[k],
                        &linker.templates,
                        #[trigger] outs[k],
                        oks[k],
                    ),
                out@ == concat(outs),
            decreases self.nodes@.len() - i,
        {
            let ghost before = out@;
            let r = self.nodes[i].compile(linker, &mut out);
            proof {
                let piece = choose|p: Seq<char>|
                    renders_to(&self.nodes@[i as int], &linker.templates, p, r is Ok) && #[trigger] (
                    before + p) == out@;
                let o2 = outs.push(piece);
                assert(o2.drop_last() =~= outs);
                outs = o2;
                oks = oks.push(r is Ok);
            }
            match r {
                Ok(()) => {},
                Err(e) => errors.push(e),
            }
            i = i + 1;
        }
        assert(rendered(self.nodes@, &linker.templates, outs, oks));
        (out, errors)
    }

    /// The rendered text of every node, one after another (see
    /// `compile_reporting`, whose errors this drops).
    pub fn compile(&self, linker: &Linker) -> (r: String)
        ensures
            exists|outs: Seq<Seq<char>>, oks: Seq<bool>|
                #[trigger] rendered(self.nodes@, &linker.templates, outs, oks) && r@ == concat(outs),
    {
        self.compile_reporting(linker).0
    }
}

/// Whether node `n` is what token `t` of a document links to: content as
/// it is; a directive that was not parsed written back as a directive; a
/// parsed one as a link with its strategy and decoration, whose selected
/// text is what the strategy selects from the file (for all but queries).
pub open spec fn links_to<C>(t: Token, n: Node, canonical: C, queries: &QueryList) -> bool where
    C: Fn(&str) -> Result<String, SourceError>,
 {
    match t {
        Token::Content(c) => n matches Node::Text(x) && x@ == c@,
        Token::RawAnchor(b) => n matches Node::Text(x) && x@ == seq!['{', '{', '#', 'a', 'a', ' ']
            + b@ + seq!['}', '}'],
        Token::Anchor(a) => n matches Node::Link(l) && l.strategy@ == a.link.strategy@
            && l.decoration@ == a.decoration@ && source_of(a.link.path@, l.source.path@, canonical)
            && contents_of(l, queries),
    }
}

/// Whether `canonical` gave `file` as the canonical path of `path`.
pub open spec fn source_of<C>(path: Seq<char>, file: Seq<char>, canonical: C) -> bool where
    C: Fn(&str) -> Result<String, SourceError>,
 {
    exists|p: &str, c: String| p@ == path && #[trigger] canonical.ensures((p,), Ok(c)) && c@ == file
}

/// Whether a link's selected text is what its strategy selects from its
/// file.
pub open spec fn contents_of(l: Linkage, queries: &QueryList) -> bool {
    match l.strategy {
        Strategy::Query(q) => query_outcome(&l.source, queries, q.name@, q.bindings.pair_views())
            == Some(opt_view(l.contents)),
        _ => opt_view(l.contents) == selected(l.strategy@, l.source.contents@),
    }
}

/// Whether `t` is a directive whose file cannot be had (see `fetch_fails`).
pub open spec fn anchor_fetch_fails<C, R>(t: Token, canonical: C, read: R, e: SourceError) -> bool where
    C: Fn(&str) -> Result<String, SourceError>,
    R: Fn(&str) -> Result<String, SourceError>,
 {
    match t {
        Token::Anchor(a) => fetch_fails(a.link.path@, canonical, read, e),
        _ => false,
    }
}

/// Whether `t` is a query directive whose query fails (its template does
/// not render, or renders to text that is not a query) on the file that
/// `sources` holds under the canonical path of its path.
pub open spec fn query_fails_at<C>(t: Token, sources: SourceList, canonical: C, queries: &QueryList) -> bool where
    C: Fn(&str) -> Result<String, SourceError>,
 {
    match t {
        Token::Anchor(a) => match a.link.strategy {
            Strategy::Query(q) => exists|p: &str, c: String|
                p@ == a.link.path@ && #[trigger] canonical.ensures((p,), Ok(c)) && (sources.lookup(
                    c@,
                ) matches Some(f) && query_outcome(&f, queries, q.name@, q.bindings.pair_views())
                    is None),
            _ => false,
        },
        _ => false,
    }
}

/// Whether `t` is a directive with a query strategy.
pub open spec fn is_query_anchor(t: Token) -> bool {
    match t {
        Token::Anchor(a) => a.link.strategy is Query,
        _ => false,
    }
}

/// Whether fetching `path` through `canonical` and `read` can fail with `e`.
pub open spec fn fetch_fails<C, R>(path: Seq<char>, canonical: C, read: R, e: SourceError) -> bool where
    C: Fn(&str) -> Result<String, SourceError>,
    R: Fn(&str) -> Result<String, SourceError>,
 {
    exists|p: &str| p@ == path && (#[trigger] canonical.ensures((p,), Err(e)) || exists|c: String, q: &str|
        #[trigger] canonical.ensures((p,), Ok(c)) && q@ == c@ && #[trigger] read.ensures((q,), Err(e)))
}

/// The sum of the sizes, or `usize::MAX` where it does not fit.
pub open spec fn size_sum(nodes: Seq<Node>) -> nat
    decreases nodes.len(),
{
    if nodes.len() == 0 {
        0
    } else {
        size_sum(nodes.drop_last()) + nodes.last().string_contents_bytes() as nat
    }
}

fn raw_directive_text(body: &String) -> (r: String)
    ensures
        r@ == seq!['{', '{', '#', 'a', 'a', ' '] + body@ + seq!['}', '}'],
{
    let open = ['{', '{', '#', 'a', 'a', ' '];
    let close = ['}', '}'];
    let mut r = String::new();
    push_chars(&mut r, &open);
    let b = chars_of(body.as_str());
    push_chars(&mut r, b.as_slice());
    push_chars(&mut r, &close);
    assert(r@ =~= seq!['{', '{', '#', 'a', 'a', ' '] + body@ + seq!['}', '}']);
    r
}

impl Linker {
    /// A linker with no cached files, queries or templates.
    pub fn new() -> (r: Linker)
        ensures
            forall|p: Seq<char>| r.sources.lookup(p) is None,
            forall|l: Language, n: Seq<char>| r.queries.lookup(l, n) is None,
            r.templates.names() == Set::<Seq<char>>::empty(),
    {
        Linker { sources: SourceList::new(), queries: QueryList::new(), templates: TemplateList::new() }
    }

    /// The assembly of `doc`: one node per token, in order (see
    /// `links_to`). The file of each link is fetched through the cache
    /// (`SourceList::fetch_with`, with `canonical` and `read`). Fails where
    /// a file cannot be had or a query does not render to a query.
    pub fn build_assembly<C, R>(&mut self, doc: &DocFile, canonical: &C, read: &R) -> (r: Result<
        Assembly,
        Error,
    >) where C: Fn(&str) -> Result<String, SourceError>, R: Fn(&str) -> Result<String, SourceError>
        requires
            forall|p: &str| canonical.requires((p,)),
            forall|p: &str| read.requires((p,)),
        ensures
            final(self).queries == old(self).queries,
            final(self).templates == old(self).templates,
            r matches Ok(a) ==> a.nodes@.len() == doc.ast@.len() && forall|k: int|
                0 <= k < doc.ast@.len() ==> links_to(
                    doc.ast@[k],
                    #[trigger] a.nodes@[k],
                    *canonical,
                    &old(self).queries,
                ),
            (forall|k: int| 0 <= k < doc.ast@.len() ==> !(#[trigger] doc.ast@[k] is Anchor))
                ==> r is Ok,
            r matches Err(Error::Source(e)) ==> exists|k: int|
                0 <= k < doc.ast@.len() && anchor_fetch_fails(
                    #[trigger] doc.ast@[k],
                    *canonical,
                    *read,
                    e,
                ),
            r matches Err(Error::Query(_)) ==> exists|k: int|
                0 <= k < doc.ast@.len() && query_fails_at(
                    #[trigger] doc.ast@[k],
                    final(self).sources,
                    *canonical,
                    &old(self).queries,
                ),
            (forall|k: int, e: SourceError|
                0 <= k < doc.ast@.len() ==> !#[trigger] anchor_fetch_fails(
                    doc.ast@[k],
                    *canonical,
                    *read,
                    e,
                )) && (forall|k: int|
                0 <= k < doc.ast@.len() ==> !query_fails_at(
                    #[trigger] doc.ast@[k],
                    final(self).sources,
                    *canonical,
                    &old(self).queries,
                )) ==> r is Ok,
            r matches Err(e) ==> e is Source || e is Query,
    {
        let mut nodes: Vec<Node> = Vec::new();
        let mut k: usize = 0;
        while k < doc.ast.len()
            invariant
                0 <= k <= doc.ast@.len(),
                nodes@.len() == k,
                forall|p: &str| canonical.requires((p,)),
                forall|p: &str| read.requires((p,)),
                self.queries == old(self).queries,
                self.templates == old(self).templates,
                forall|j: int|
                    0 <= j < k ==> links_to(
                        doc.ast@[j],
                        #[trigger] nodes@[j],
                        *canonical,
                        &old(self).queries,
                    ),
            decreases doc.ast@.len() - k,
        {
            let node = match &doc.ast[k] {
                Token::Content(text) => Node::Text(text.clone()),
                Token::RawAnchor(text) => Node::Text(raw_directive_text(text)),
                Token::Anchor(anchor) => {
                    let p = anchor.link.path.as_str();
                    let ghost before = self.sources;
                    let source = match self.sources.fetch_with(p, canonical, read) {
                        Ok(f) => f,
                        Err(e) => {
                            proof {
                                if canonical.ensures((p,), Err::<String, SourceError>(e)) {
                                    assert(fetch_fails(anchor.link.path@, *canonical, *read, e));
                                } else {
                                    let (c, q) = choose|c: String, q: &str|
                                        #[trigger] canonical.ensures((p,), Ok(c)) && q@ == c@
                                            && before.lookup(c@) is None && #[trigger] read.ensures(
                                            (q,),
                                            Err(e),
                                        );
                                    assert(canonical.ensures((p,), Ok::<String, SourceError>(c)));
                                    assert(read.ensures((q,), Err::<String, SourceError>(e)));
                                    assert(fetch_fails(anchor.link.path@, *canonical, *read, e));
                                }
                                assert(anchor_fetch_fails(doc.ast@[k as int], *canonical, *read, e));
                            }
                            return Err(Error::Source(e));
                        },
                    };
                    let ghost c = choose|c: String|
                            #[trigger] canonical.ensures((p,), Ok(c)) && c@ == source.path@ && self.sources.lookup(
                                source.path@,
                            ) == Some(*source) && (forall|x: Seq<char>|
                                x != source.path@ ==> #[trigger] self.sources.lookup(x) == before.lookup(x))
                                && match before.lookup(source.path@) {
                                Some(g) => g == *source,
                                None => source.language == crate::lang::language_of(source.path@)
                                    && exists|q: &str, t: String|
                                    q@ == c@ && #[trigger] read.ensures((q,), Ok(t)) && source.contents@
                                        == t@,
                            };
                    proof {
                        assert(canonical.ensures((p,), Ok::<String, SourceError>(c)));
                        assert(source_of(anchor.link.path@, source.path@, *canonical));
                    }
                    let contents = match anchor.link.strategy.find_content(&source, self) {
                        Ok(c) => c,
                        Err(e) => {
                            assert(canonical.ensures((p,), Ok::<String, SourceError>(c)));
                            assert(self.sources.lookup(c@) == Some(*source));
                            assert(query_fails_at(
                                doc.ast@[k as int],
                                self.sources,
                                *canonical,
                                &old(self).queries,
                            ));
                            return Err(Error::Query(e));
                        },
                    };
                    let strategy = anchor.link.strategy.duplicate();
                    let l = Linkage {
                        source,
                        contents,
                        strategy,
                        decoration: anchor.decoration.duplicate(),
                    };
                    assert(contents_of(l, &old(self).queries));
                    Node::Link(l)
                },
            };
            assert(links_to(doc.ast@[k as int], node, *canonical, &old(self).queries));
            nodes.push(node);
            k = k + 1;
        }
        Ok(Assembly { nodes })
    }
}

impl Assembly {
    /// The sum of the sizes of the nodes' texts, in bytes: room to reserve
    /// for the rendered text. `usize::MAX` where the sum does not fit.
    pub fn estimated_string_size(&self) -> (r: usize)
        ensures
            r == if size_sum(self.nodes@) > usize::MAX {
                usize::MAX as nat
            } else {
                size_sum(self.nodes@)
            },
    {
        let mut total: usize = 0;
        let mut over = false;
        let mut i: usize = 0;
        while i < self.nodes.len()
            invariant
                0 <= i <= self.nodes@.len(),
                over ==> total == usize::MAX && size_sum(self.nodes@.take(i as int)) > usize::MAX,
                !over ==> total == size_sum(self.nodes@.take(i as int)),
            decreases self.nodes@.len() - i,
        {
            assert(self.nodes@.take(i + 1).drop_last() =~= self.nodes@.take(i as int));
            let n = self.nodes[i].estimated_string_size();
            if !over {
                if usize::MAX - total < n {
                    over = true;
                    total = usize::MAX;
                } else {
                    total = total + n;
                }
            }
            i = i + 1;
        }
        assert(self.nodes@.take(self.nodes@.len() as int) =~= self.nodes@);
        total
    }
}

/// An assembly of one text renders to that text exactly.
pub proof fn law_text_renders_as_is(
    nodes: Seq<Node>,
    templates: &TemplateList,
    outs: Seq<Seq<char>>,
    oks: Seq<bool>,
)
    requires
        nodes.len() == 1,
        nodes[0] is Text,
        rendered(nodes, templates, outs, oks),
    ensures
        nodes[0] matches Node::Text(t) && concat(outs) == t@,
{
    assert(renders_to(&nodes[0], templates, outs[0], oks[0]));
    assert(outs.drop_last() =~= Seq::<Seq<char>>::empty());
    assert(concat(Seq::<Seq<char>>::empty()) == Seq::<char>::empty());
    assert(outs.last() == outs[0]);
    assert(concat(outs) =~= outs[0]);
}

/// A link whose template is not registered renders to nothing and fails;
/// every text node still renders to its text.
pub proof fn law_missing_template_renders_empty(
    nodes: Seq<Node>,
    templates: &TemplateList,
    outs: Seq<Seq<char>>,
    oks: Seq<bool>,
    k: int,
)
    requires
        rendered(nodes, templates, outs, oks),
        0 <= k < nodes.len(),
        nodes[k] matches Node::Link(l) && (l.decoration@ matches DecorationView::Template(name)
            && !templates.names().contains(name)),
    ensures
        outs[k] == Seq::<char>::empty(),
        !oks[k],
        forall|j: int| 0 <= j < nodes.len() && nodes[j] is Text ==> (nodes[j] matches Node::Text(t)
            && #[trigger] outs[j] == t@),
{
    assert(renders_to(&nodes[k], templates, outs[k], oks[k]));
    assert forall|j: int| 0 <= j < nodes.len() && nodes[j] is Text implies (nodes[j] matches Node::Text(t)
        && #[trigger] outs[j] == t@) by {
        assert(renders_to(&nodes[j], templates, outs[j], oks[j]));
    }
}

/// A document in which no directive starts renders to its text exactly:
/// its tokens (`DocFile::with_path_and_source`), the nodes they link to
/// (`Linker::build_assembly`) and their rendering (`Assembly::compile`)
/// give back the text.
pub proof fn law_plain_document_renders_as_is<C>(
    s: Seq<char>,
    doc: DocFile,
    nodes: Seq<Node>,
    canonical: C,
    queries: &QueryList,
    templates: &TemplateList,
    outs: Seq<Seq<char>>,
    oks: Seq<bool>,
) where C: Fn(&str) -> Result<String, SourceError>
    requires
        s.len() > 0,
        forall|j: int| 0 <= j < s.len() ==> !directive_at(s, j),
        token_views(doc.ast@) == tokens_of(s).map_values(|t: TokenView| promoted(doc.path@, t)->0),
        nodes.len() == doc.ast@.len(),
        forall|k: int| 0 <= k < doc.ast@.len() ==> links_to(doc.ast@[k], #[trigger] nodes[k], canonical, queries),
        rendered(nodes, templates, outs, oks),
    ensures
        concat(outs) == s,
{
    law_plain_text_is_one_token(s);
    let tv = tokens_of(s).map_values(|t: TokenView| promoted(doc.path@, t)->0);
    assert(tv.len() == 1);
    assert(tv[0] == TokenView::Content(s));
    assert(token_views(doc.ast@).len() == doc.ast@.len());
    assert(doc.ast@.len() == 1);
    assert(token_views(doc.ast@)[0] == doc.ast@[0]@);
    assert(links_to(doc.ast@[0], nodes[0], canonical, queries));
    law_text_renders_as_is(nodes, templates, outs, oks);
}

} // verus!
