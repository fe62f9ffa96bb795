use anchors_aweigh::doc::{DocFile, DocList};
use anchors_aweigh::source::SourceError;
use std::cell::Cell;
use anchors_aweigh::anchor::{Anchor, Decoration, Link, Strategy};
use anchors_aweigh::left_shift::lines;
use anchors_aweigh::token::Token;

const SAMPLE_DOC: &str = "# Sample Doc\n\n```ruby\n{{#aa sample_ruby_file.rb}}\n```\n";

#[test]
fn left_shift_works() {
    let data = "  one\n  two";
    let buf = &mut String::with_capacity(7);
    lines(data, buf);
    assert_eq!(buf, "one\ntwo");

    let data = "one\n  two";
    let buf = &mut String::with_capacity(7);
    lines(data, buf);
    assert_eq!(data, buf);

    let data = " one\n  two";
    let buf = &mut String::with_capacity(7);
    lines(data, buf);
    assert_eq!(buf, "one\n two");

    let data = " one\n\n  two";
    let buf = &mut String::with_capacity(7);
    lines(data, buf);
    assert_eq!(buf, "one\n\n two");
}

#[test]
fn left_shift_appends_to_buffer() {
    let mut buf = String::from(">");
    lines("\t\ta\n\t\tb\n", &mut buf);
    assert_eq!(buf, ">a\nb");
    let mut buf = String::new();
    lines("", &mut buf);
    assert_eq!(buf, "");
}

#[test]
fn raw_anchor_parse_simple() {
    let tokens = Token::parse_tokens("{{#aa file.rs}}");
    assert_eq!(tokens, vec![Token::RawAnchor("file.rs".to_owned())]);
}

#[test]
fn content_parse_simple() {
    let tokens = Token::parse_tokens("...");
    assert_eq!(tokens, vec![Token::Content("...".to_owned())]);
}

#[test]
fn parse_parts_simple() {
    let parts = Token::parse_tokens("aaa{{#aa file.rs}}bbb");
    assert_eq!(
        parts,
        vec![
            Token::Content("aaa".to_owned()),
            Token::RawAnchor("file.rs".to_owned()),
            Token::Content("bbb".to_owned()),
        ]
    );
}

#[test]
fn parse_sample_doc() {
    let parts = Token::parse_tokens(SAMPLE_DOC);
    assert_eq!(
        parts,
        vec![
            Token::Content("# Sample Doc\n\n```ruby\n".to_owned()),
            Token::RawAnchor("sample_ruby_file.rb".to_owned()),
            Token::Content("\n```\n".to_owned()),
        ]
    );
}

#[test]
fn parse_parts_sample_doc() {
    let parts = Token::parse_tokens(SAMPLE_DOC);
    assert_eq!(
        parts,
        vec![
            Token::Content("# Sample Doc\n\n```ruby\n".to_owned()),
            Token::RawAnchor("sample_ruby_file.rb".to_owned()),
            Token::Content("\n```\n".to_owned()),
        ]
    );
}

#[test]
fn plain_text_is_one_content_token() {
    let text = "no directives {{ here }}\n{{#aa }} nor here\n";
    assert_eq!(Token::parse_tokens(text), vec![Token::Content(text.to_owned())]);
    assert_eq!(Token::parse_tokens(""), vec![]);
}

#[test]
fn unmatched_opener_stays_content() {
    let parts = Token::parse_tokens("a{{#aa x\n}}b{{#aa y}}");
    assert_eq!(
        parts,
        vec![Token::Content("a{{#aa x\n}}b".to_owned()), Token::RawAnchor("y".to_owned())]
    );
}

#[test]
fn parse_from_path_works() {
    let file = DocFile::with_path_and_source("/book/src/sample_doc.md", SAMPLE_DOC).unwrap();
    assert_eq!(file.path, "/book/src/sample_doc.md");
    assert_eq!(file.source, SAMPLE_DOC);
    assert_eq!(
        file.ast,
        vec![
            Token::Content("# Sample Doc\n\n```ruby\n".to_owned()),
            Token::Anchor(Anchor {
                decoration: Decoration::Plain,
                link: Link {
                    path: "/book/src/sample_ruby_file.rb".to_owned(),
                    strategy: Strategy::Full,
                }
            }),
            Token::Content("\n```\n".to_owned()),
        ]
    );
}

#[test]
fn relative_paths_resolve_against_document_directory() {
    let doc = DocFile::with_path_and_source("docs/ch1/intro.md", "{{#aa  (<) ../file.rb:block1}}").unwrap();
    match &doc.ast[0] {
        Token::Anchor(a) => {
            assert_eq!(a.link.path, "docs/ch1/../file.rb");
            assert_eq!(a.decoration, Decoration::LeftShift);
        }
        other => panic!("unexpected token {other:?}"),
    }
    let doc = DocFile::with_path_and_source("intro.md", "{{#aa /abs/file.rb}}").unwrap();
    match &doc.ast[0] {
        Token::Anchor(a) => assert_eq!(a.link.path, "/abs/file.rb"),
        other => panic!("unexpected token {other:?}"),
    }
}

#[test]
fn malformed_directive_fails_the_document() {
    assert!(DocFile::with_path_and_source("a.md", "x {{#aa file.rb:1:}x}} y").is_ok());
    assert!(DocFile::with_path_and_source("a.md", "x {{#aa file.rb:zz z}} y").is_err());
}

#[test]
fn creating_and_adding_a_file() {
    let reads = Cell::new(0usize);
    let canonical = |p: &str| -> Result<String, SourceError> { Ok(format!("/book/{p}")) };
    let read = |p: &str| -> Result<String, SourceError> {
        reads.set(reads.get() + 1);
        if p == "/book/sample_doc.md" { Ok(SAMPLE_DOC.to_owned()) } else { Err(SourceError::Io(p.to_owned())) }
    };
    let mut list = DocList::new();
    let doc = list.fetch_with("sample_doc.md", &canonical, &read).unwrap();
    assert_eq!(doc.source, SAMPLE_DOC);
    assert_eq!(doc.path, "/book/sample_doc.md");
    let again = list.fetch_with("sample_doc.md", &canonical, &read).unwrap();
    assert!(std::sync::Arc::ptr_eq(&doc, &again));
    assert_eq!(reads.get(), 1);
    assert!(list.fetch_with("missing.md", &canonical, &read).is_err());
}
