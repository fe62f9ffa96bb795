use anchors_aweigh::anchor::{Anchor, Decoration, NamedAnchor, Strategy};
use anchors_aweigh::query_anchor::QueryAnchor;

#[test]
fn parsing_works() {
    let anchor = QueryAnchor::parse("class?name=Foo").unwrap();
    assert_eq!(anchor.name, "class");
    assert_eq!(anchor.bindings.get("name").unwrap(), "Foo");

    let anchor = QueryAnchor::parse("mod").unwrap();
    assert_eq!(anchor.name, "mod");
    assert!(anchor.bindings.is_empty());

    let anchor = QueryAnchor::parse("class?name=Foo bar&name2=\\?buzz\\&_\"").unwrap();
    assert_eq!(anchor.name, "class");
    assert_eq!(anchor.bindings.get("name").unwrap(), "Foo bar");
    assert_eq!(anchor.bindings.get("name2").unwrap(), "?buzz&_\"");
}

#[test]
fn find_start() {
    let anchor = NamedAnchor::new("test");
    assert!(!anchor.missing_start("  # ANCHOR: test"));
    assert!(anchor.missing_end("  # ANCHOR: test"));
}

#[test]
fn path_with_no_strategy_works() {
    let anchor = Anchor::parse("file.rb ").unwrap();
    assert_eq!(anchor.link.path, "file.rb");
    assert_eq!(anchor.link.strategy, Strategy::Full);
}

#[test]
fn parser_full_strategy() {
    let anchor = Anchor::parse("file.rb").unwrap();
    assert_eq!(anchor.link.path, "file.rb");
    assert_eq!(anchor.link.strategy, Strategy::Full);
}

#[test]
fn parser_named_strategy() {
    let anchor = Anchor::parse("../../file.rb:rofl").unwrap();
    assert_eq!(anchor.link.path, "../../file.rb");
    assert_eq!(anchor.link.strategy, Strategy::Named(NamedAnchor::new("rofl")));
}

#[test]
fn parse_with_leftshift() {
    let anchor = Anchor::parse(" (<) ../file.rb:block1").unwrap();
    assert_eq!(anchor.link.path, "../file.rb");
    assert_eq!(anchor.link.strategy, Strategy::Named(NamedAnchor::new("block1")));
    assert_eq!(anchor.decoration, Decoration::LeftShift);
}

#[test]
fn parse_with_template() {
    let anchor = Anchor::parse(" (codeblock) ../file.rb:block1").unwrap();
    assert_eq!(anchor.link.path, "../file.rb");
    assert_eq!(anchor.link.strategy, Strategy::Named(NamedAnchor::new("block1")));
    assert_eq!(anchor.decoration, Decoration::Template("codeblock".to_owned()));
}

#[test]
fn parser_between_strategy() {
    let anchor = Anchor::parse("file.rb:42:69").unwrap();
    assert_eq!(anchor.link.path, "file.rb");
    assert_eq!(anchor.link.strategy, Strategy::Between { start: 42, end: 69 });
}

#[test]
fn parser_here_down_strategy() {
    let anchor = Anchor::parse("file.rb:2:").unwrap();
    assert_eq!(anchor.link.path, "file.rb");
    assert_eq!(anchor.link.strategy, Strategy::HereDown(2));
}

#[test]
fn parser_down_to_strategy() {
    let anchor = Anchor::parse("file.rb::10").unwrap();
    assert_eq!(anchor.link.path, "file.rb");
    assert_eq!(anchor.link.strategy, Strategy::DownTo(10));
}

#[test]
fn parser_this_line_strategy() {
    let anchor = Anchor::parse("file.rb:42").unwrap();
    assert_eq!(anchor.link.path, "file.rb");
    assert_eq!(anchor.link.strategy, Strategy::ThisLine(42));
}

#[test]
fn parser_query_strategy() {
    let anchor = Anchor::parse("file.rb#class?name=Foo").unwrap();
    assert_eq!(anchor.link.path, "file.rb");
    assert_eq!(
        anchor.link.strategy,
        Strategy::Query(QueryAnchor::parse("class?name=Foo").unwrap())
    );
}

#[test]
fn between_is_sorted_either_way() {
    let anchor = Anchor::parse("file.rb:69:42").unwrap();
    assert_eq!(anchor.link.strategy, Strategy::Between { start: 42, end: 69 });
    let anchor = Anchor::parse("file.rb:7:7").unwrap();
    assert_eq!(anchor.link.strategy, Strategy::Between { start: 7, end: 7 });
}

#[test]
fn full_strategy_has_no_decoration() {
    let anchor = Anchor::parse("file.rb").unwrap();
    assert_eq!(anchor.decoration, Decoration::Plain);
}

#[test]
fn named_strategy_with_dash_and_underscore() {
    let anchor = Anchor::parse("file.rb:_pink-floyd").unwrap();
    assert_eq!(anchor.link.strategy, Strategy::Named(NamedAnchor::new("_pink-floyd")));
}

#[test]
fn malformed_directive_is_an_error() {
    let err = Anchor::parse("file.rb:1:2x").unwrap_err();
    assert_eq!(err.source, "file.rb:1:2x");
    assert!(Anchor::parse("file.rb:a b").is_err());
    assert!(Anchor::parse("").is_err());
    assert!(Anchor::parse("file.rb#class?name").is_err());
}

#[test]
fn number_too_large_is_a_name() {
    let anchor = Anchor::parse("file.rb:99999999999999999999999").unwrap();
    assert_eq!(
        anchor.link.strategy,
        Strategy::Named(NamedAnchor::new("99999999999999999999999"))
    );
}

#[test]
fn query_anchor_errors_carry_the_remainder() {
    let err = QueryAnchor::parse("class?name=Foo&bad").unwrap_err();
    assert_eq!(err.source, "class?name=Foo&bad");
    assert_eq!(err.remainder, "bad");
    assert!(QueryAnchor::parse("class?name=a.b").is_err());
}

#[test]
fn query_anchor_last_binding_wins() {
    let anchor = QueryAnchor::parse("q?a=1&a=2&b=3").unwrap();
    assert_eq!(anchor.bindings.get("a").unwrap(), "2");
    assert_eq!(anchor.bindings.get("b").unwrap(), "3");
    assert_eq!(anchor.bindings.len(), 2);
    assert!(anchor.bindings.get("c").is_none());
}

#[test]
fn named_marker_needs_space_after_tag() {
    let anchor = NamedAnchor::new("test");
    assert!(anchor.missing_start("# ANCHOR:test"));
    assert!(!anchor.missing_end("// ANCHOR_END:\ttest"));
}

#[test]
fn marker_anywhere_on_the_line() {
    let anchor = NamedAnchor::new("test");
    assert!(!anchor.missing_start("ANCHOR:x ANCHOR: test"));
    assert!(!anchor.missing_end("ANCHOR_END:x ANCHOR_END: test"));
    assert!(anchor.missing_end("ANCHOR: test"));
    assert!(anchor.missing_start("ANCHOR_END: test"));
}

#[test]
fn syntax_error_reports_the_leftover() {
    let err = Anchor::parse("file.rb:42:69abc").unwrap_err();
    assert_eq!(err.remainder, "abc");
    let err = Anchor::parse("file.rb extra").unwrap_err();
    assert_eq!(err.remainder, "extra");
}

#[test]
fn between_takes_no_trailing_text() {
    assert!(Anchor::parse("file.rb:1:2 ").is_err());
    assert_eq!(Anchor::parse("file.rb:1:2 ").unwrap_err().remainder, " ");
}
