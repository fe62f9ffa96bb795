use anchors_aweigh::anchor::{Decoration, NamedAnchor, Strategy};
use anchors_aweigh::doc::DocFile;
use anchors_aweigh::token::Token;
use anchors_aweigh::lang::{Capture, Language};
use anchors_aweigh::error::Error;
use anchors_aweigh::linker::{Assembly, Linkage, Linker, Node};
use anchors_aweigh::query::{Query, QueryError, QueryList};
use anchors_aweigh::query_anchor::{Bindings, QueryAnchor};
use anchors_aweigh::source::{File, SourceError, SourceList, SourceRange};
use anchors_aweigh::template::{Template, TemplateError, TemplateList};
use std::cell::Cell;
use std::sync::Arc;

const SAMPLE_DOC: &str = "# Sample Doc\n\n```ruby\n{{#aa sample_ruby_file.rb}}\n```\n";

const SAMPLE_RUBY: &str = "require \"set\"

VERSION = \"1.0\"

LIMIT = 2
class Foo
  def one
    1
  end

  def two
    2
  end

  def three
    3
  end
end

class Bar
  def initialize
    @x = 1
  end

  def x
    @x
  end
end
";

const CLASS_QUERY: &str = r#"
    (
        (comment)*
        .
        (class name: (constant) @name (#eq? @name "{{name}}"))
    ) @match
"#;

fn canonical(p: &str) -> Result<String, SourceError> {
    Ok(p.to_owned())
}

fn read_sample(p: &str) -> Result<String, SourceError> {
    if p.ends_with("sample_ruby_file.rb") {
        Ok(SAMPLE_RUBY.to_owned())
    } else {
        Err(SourceError::Io(format!("no such file: {p}")))
    }
}

fn ruby_file() -> File {
    File::with_contents("/fixtures/sample_ruby_file.rb", SAMPLE_RUBY.to_owned())
}

fn bindings(name: &str) -> Bindings {
    let mut b = Bindings::new();
    b.insert("name".to_owned(), name.to_owned());
    b
}

#[test]
fn linker_it_works() {
    let mut linker = Linker::new();
    let doc = DocFile::with_path_and_source("/fixtures/sample_doc.md", SAMPLE_DOC).unwrap();
    let assembly = linker.build_assembly(&doc, &canonical, &read_sample).unwrap();
    assert!(matches!(assembly.nodes[0], Node::Text(_)));
    assert!(matches!(assembly.nodes[1], Node::Link(_)));
    assert!(matches!(assembly.nodes[2], Node::Text(_)));
    let out = assembly.compile(&linker);
    assert_eq!(out, format!("# Sample Doc\n\n```ruby\n{SAMPLE_RUBY}\n```\n"));
}

#[test]
fn missing_file_fails_the_assembly() {
    let mut linker = Linker::new();
    let doc = DocFile::with_path_and_source("/fixtures/doc.md", "a {{#aa missing.rb}} b").unwrap();
    let err = linker.build_assembly(&doc, &canonical, &read_sample).unwrap_err();
    assert!(matches!(err, Error::Source(SourceError::Io(_))));
}

#[test]
fn template_render() {
    let source = Arc::new(ruby_file());
    let linkage = Linkage {
        strategy: Strategy::Full,
        contents: Some(source.contents.clone()),
        decoration: Decoration::Plain,
        source,
    };
    let template = Template::new("### Contents: ```ruby\n{{contents}}```").unwrap();
    let out = template.render(&linkage).unwrap();
    assert_eq!(out, format!("### Contents: ```ruby\n{SAMPLE_RUBY}```"));
}

#[test]
fn template_sees_source_and_strategy() {
    let source = Arc::new(ruby_file());
    let linkage = Linkage {
        strategy: Strategy::ThisLine(3),
        contents: Some("VERSION = \"1.0\"".to_owned()),
        decoration: Decoration::Plain,
        source,
    };
    let template = Template::new("{{source.language}} {{strategy.ThisLine}} {{contents}}").unwrap();
    assert_eq!(template.render(&linkage).unwrap(), "Ruby 3 VERSION = \"1.0\"");
}

#[test]
fn template_errors() {
    assert!(matches!(Template::new("{{#if}}"), Err(TemplateError::Parse(_))));
    let mut list = TemplateList::new();
    list.create("code", "{{contents}}").unwrap();
    assert!(matches!(list.create("code", "x"), Err(TemplateError::NameTaken(n)) if n == "code"));
    let linkage = Linkage {
        strategy: Strategy::Full,
        contents: None,
        decoration: Decoration::Plain,
        source: Arc::new(ruby_file()),
    };
    assert!(matches!(list.render("nope", &linkage), Err(TemplateError::TemplateMissing(n)) if n == "nope"));
}

#[test]
fn open_works() {
    let file = ruby_file();
    assert_eq!(file.contents, SAMPLE_RUBY);
    assert_eq!(file.language, Some(Language::Ruby));
    assert!(file.tree.is_some());
}

#[test]
fn fetch_works() {
    let mut list = SourceList::new();
    let file = list.fetch_with("/fixtures/sample_ruby_file.rb", &canonical, &read_sample).unwrap();
    assert_eq!(file.contents, SAMPLE_RUBY);
    assert_eq!(Arc::strong_count(&file), 2);

    let refetch = list.fetch_with("/fixtures/sample_ruby_file.rb", &canonical, &read_sample).unwrap();
    assert_eq!(refetch.contents, SAMPLE_RUBY);
    assert_eq!(Arc::strong_count(&file), 3);
}

#[test]
fn second_fetch_reads_nothing() {
    let reads = Cell::new(0usize);
    let read = |p: &str| {
        reads.set(reads.get() + 1);
        read_sample(p)
    };
    let mut list = SourceList::new();
    let a = list.fetch_with("/fixtures/sample_ruby_file.rb", &canonical, &read).unwrap();
    let b = list.fetch_with("/fixtures/sample_ruby_file.rb", &canonical, &read).unwrap();
    assert_eq!(reads.get(), 1);
    assert_eq!(a.contents, b.contents);
    assert!(Arc::ptr_eq(&a, &b));
    assert!(list.fetch_with("/fixtures/other.rb", &canonical, &read).is_err());
    assert_eq!(reads.get(), 2);
}

#[test]
fn query_it_works() {
    let ruby_code = ruby_file();
    let by_class = Query::new(Language::Ruby, CLASS_QUERY).unwrap();

    let opt = by_class.find(&ruby_code, &bindings("Foo")).unwrap();
    assert!(matches!(opt, Some(SourceRange { start: 6, end: 18 })));

    let opt = by_class.find(&ruby_code, &bindings("Bar")).unwrap();
    assert!(matches!(opt, Some(SourceRange { start: 20, end: 28 })));

    let opt = by_class.find(&ruby_code, &bindings("Rofl")).unwrap();
    assert!(opt.is_none());
}

#[test]
fn query_errors() {
    assert!(matches!(Query::new(Language::Ruby, "{{#if}}"), Err(QueryError::Template(_))));
    let bad = Query::new(Language::Ruby, "(not_a_node_kind) @x").unwrap();
    assert!(matches!(bad.find(&ruby_file(), &Bindings::new()), Err(QueryError::Query(_))));
    let no_tree = File::with_contents("notes.unknown", "class Foo\nend\n".to_owned());
    let q = Query::new(Language::Ruby, CLASS_QUERY).unwrap();
    assert!(matches!(q.find(&no_tree, &bindings("Foo")), Ok(None)));
}

#[test]
fn query_strategy_selects_lines() {
    let mut linker = Linker::new();
    linker.queries.register("class", Query::new(Language::Ruby, CLASS_QUERY).unwrap());
    let file = ruby_file();
    let strategy = Strategy::Query(QueryAnchor::parse("class?name=Bar").unwrap());
    let text = strategy.find_content(&file, &linker).unwrap().unwrap();
    assert_eq!(text, "class Bar\n  def initialize\n    @x = 1\n  end\n\n  def x\n    @x\n  end\nend");
    let unregistered = Strategy::Query(QueryAnchor::parse("module?name=Bar").unwrap());
    assert_eq!(unregistered.find_content(&file, &linker).unwrap(), None);
}

#[test]
fn query_list_lookup() {
    let mut list = QueryList::new();
    assert!(list.fetch(Language::Ruby, "class").is_none());
    list.register("class", Query::new(Language::Ruby, CLASS_QUERY).unwrap());
    assert!(list.fetch(Language::Ruby, "class").is_some());
    assert!(list.fetch(Language::Rust, "class").is_none());
    assert_eq!(list.fetch(Language::Ruby, "class").unwrap().language(), Language::Ruby);
}

#[test]
fn range_from_captures() {
    let cap = |s: usize, e: usize, k: &str| Capture { start_row: s, end_row: e, kind: k.to_owned() };
    let r = SourceRange::from_captures(&vec![cap(5, 7, "a"), cap(3, 9, "b"), cap(4, 9, "c")], false);
    assert_eq!(r, SourceRange { start: 4, end: 10 });
    let r = SourceRange::from_captures(&vec![cap(2, 6, "paragraph")], true);
    assert_eq!(r, SourceRange { start: 3, end: 6 });
    let r = SourceRange::from_captures(&vec![cap(2, 6, "paragraph")], false);
    assert_eq!(r, SourceRange { start: 3, end: 7 });
    assert_eq!(SourceRange::from_captures(&vec![], true), SourceRange { start: 0, end: 0 });
}

#[test]
fn strategies_select_lines() {
    let text = "one\ntwo\nthree\nfour\n";
    assert_eq!(Strategy::Full.select_lines(text).unwrap(), text);
    assert_eq!(Strategy::Between { start: 2, end: 3 }.select_lines(text).unwrap(), "two\nthree");
    assert_eq!(Strategy::Between { start: 3, end: 99 }.select_lines(text).unwrap(), "three\nfour");
    assert_eq!(Strategy::HereDown(3).select_lines(text).unwrap(), "three\nfour");
    assert_eq!(Strategy::DownTo(2).select_lines(text).unwrap(), "one\ntwo");
    assert_eq!(Strategy::ThisLine(4).select_lines(text).unwrap(), "four");
    assert_eq!(Strategy::ThisLine(5).select_lines(text), None);
    assert_eq!(Strategy::ThisLine(0).select_lines(text), None);
    assert_eq!(SourceRange { start: 1, end: 2 }.fetch_lines(&File::with_contents("a.txt", "x\r\ny\r\nz".to_owned())), "x\ny");
}

#[test]
fn named_region_selection() {
    let text = "a\n# ANCHOR: part\nb\nc\n# ANCHOR_END: part\nd\n";
    let named = Strategy::Named(NamedAnchor::new("part"));
    assert_eq!(named.select_lines(text).unwrap(), "b\nc");
    let open_only = "# ANCHOR: part\nb\nc";
    assert_eq!(named.select_lines(open_only).unwrap(), "b\nc");
    let missing = Strategy::Named(NamedAnchor::new("other"));
    assert_eq!(missing.select_lines(text).unwrap(), "");
}

#[test]
fn missing_template_renders_empty() {
    let mut linker = Linker::new();
    linker.templates.create("shout", "<{{contents}}>").unwrap();
    let source = Arc::new(ruby_file());
    let link = |d: Decoration| {
        Node::Link(Linkage {
            source: source.clone(),
            strategy: Strategy::ThisLine(1),
            contents: Some("  require".to_owned()),
            decoration: d,
        })
    };
    let assembly = Assembly {
        nodes: vec![
            Node::Text("before ".to_owned()),
            link(Decoration::Template("nope".to_owned())),
            Node::Text(" middle ".to_owned()),
            link(Decoration::Template("shout".to_owned())),
            link(Decoration::LeftShift),
            link(Decoration::Plain),
            Node::Text(" after".to_owned()),
        ],
    };
    let (out, errors) = assembly.compile_reporting(&linker);
    assert_eq!(out, "before  middle <  require>require  require after");
    assert_eq!(errors.len(), 1);
    assert!(matches!(&errors[0], TemplateError::TemplateMissing(n) if n == "nope"));
    assert_eq!(assembly.compile(&linker), out);
}

#[test]
fn plain_document_renders_verbatim() {
    let text = "# Title\n\nNothing to include {{here}}.\n";
    let mut linker = Linker::new();
    let doc = DocFile::with_path_and_source("/d/doc.md", text).unwrap();
    let assembly = linker.build_assembly(&doc, &canonical, &read_sample).unwrap();
    assert_eq!(assembly.nodes.len(), 1);
    assert_eq!(assembly.compile(&linker), text);
}

#[test]
fn estimated_sizes() {
    let assembly = Assembly {
        nodes: vec![
            Node::Text("héllo".to_owned()),
            Node::Link(Linkage {
                source: Arc::new(ruby_file()),
                strategy: Strategy::Full,
                contents: None,
                decoration: Decoration::Plain,
            }),
        ],
    };
    assert_eq!(assembly.nodes[0].estimated_string_size(), 6);
    assert_eq!(assembly.nodes[1].string_contents(), "");
    assert_eq!(assembly.estimated_string_size(), 6);
}

#[test]
fn languages_from_extensions() {
    assert_eq!(Language::determine_from_path("a/b/file.rb"), Some(Language::Ruby));
    assert_eq!(Language::determine_from_path("lib.rs"), Some(Language::Rust));
    assert_eq!(Language::determine_from_path("Cargo.toml"), Some(Language::Toml));
    assert_eq!(Language::determine_from_path("x.js"), Some(Language::Javascript));
    assert_eq!(Language::determine_from_path("x.ex"), Some(Language::Elixir));
    assert_eq!(Language::determine_from_path("x.exs"), Some(Language::Elixir));
    assert_eq!(Language::determine_from_path("x.json"), Some(Language::Json));
    assert_eq!(Language::determine_from_path("README.md"), Some(Language::Markdown));
    assert_eq!(Language::determine_from_path("notes.txt"), Some(Language::Markdown));
    assert_eq!(Language::determine_from_path("dir.rb/Makefile"), None);
    assert_eq!(Language::determine_from_path("a.rb/"), Some(Language::Ruby));
    assert_eq!(Language::determine_from_path("src/lib.rs/."), Some(Language::Rust));
    assert_eq!(Language::determine_from_path(".rb"), None);
    assert_eq!(Language::determine_from_path("file.py"), None);
}

#[test]
fn raw_directive_is_written_back() {
    let doc = DocFile {
        path: "/d/doc.md".to_owned(),
        source: String::new(),
        ast: vec![Token::Content("a".to_owned()), Token::RawAnchor("file.rs".to_owned())],
    };
    let mut linker = Linker::new();
    let assembly = linker.build_assembly(&doc, &canonical, &read_sample).unwrap();
    assert_eq!(assembly.compile(&linker), "a{{#aa file.rs}}");
    assert_eq!(Token::parse_tokens("{{#aa file.rs}}"), vec![Token::RawAnchor("file.rs".to_owned())]);
}

#[test]
fn link_source_is_the_fetched_file() {
    let mut linker = Linker::new();
    let doc = DocFile::with_path_and_source("/fixtures/doc.md", "{{#aa sample_ruby_file.rb:3}}").unwrap();
    let assembly = linker.build_assembly(&doc, &canonical, &read_sample).unwrap();
    match &assembly.nodes[0] {
        Node::Link(l) => {
            assert_eq!(l.source.path, "/fixtures/sample_ruby_file.rb");
            assert_eq!(l.contents.as_deref(), Some("VERSION = \"1.0\""));
        }
        other => panic!("unexpected node {other:?}"),
    }
}

#[test]
fn template_data_keeps_text_exactly() {
    let text = "say \"hi\"\\ now\n\ttab\u{1}";
    let linkage = Linkage {
        strategy: Strategy::Query(QueryAnchor::parse("class?name=Foo").unwrap()),
        contents: Some(text.to_owned()),
        decoration: Decoration::Template("t".to_owned()),
        source: Arc::new(ruby_file()),
    };
    let template = Template::new("{{contents}}|{{strategy.Query.name}}|{{strategy.Query.bindings.name}}|{{decoration.Template}}").unwrap();
    assert_eq!(template.render(&linkage).unwrap(), format!("{text}|class|Foo|t"));
}
