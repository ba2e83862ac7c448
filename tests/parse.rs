use mdbook_webinclude::{find_links, parse_include_path, parse_range_or_anchor, Directive, LineRange, Selection};

fn range_of(span: &str) -> LineRange {
    match parse_range_or_anchor(Some(span)) {
        Selection::Range(r) => r,
        Selection::Anchor(a) => panic!("anchor {}", a),
    }
}

#[test]
fn single_line_span() {
    assert_eq!(range_of("5"), LineRange::Bounded(4, 5));
}

#[test]
fn bounded_span() {
    assert_eq!(range_of("2:4"), LineRange::Bounded(1, 4));
}

#[test]
fn open_start_span() {
    assert_eq!(range_of(":3"), LineRange::To(3));
}

#[test]
fn open_end_span() {
    assert_eq!(range_of("2:"), LineRange::From(1));
    assert_eq!(range_of("2:x"), LineRange::From(1));
}

#[test]
fn anchor_span() {
    match parse_range_or_anchor(Some("intro")) {
        Selection::Anchor(a) => assert_eq!(a, "intro"),
        Selection::Range(_) => panic!("expected an anchor"),
    }
}

#[test]
fn absent_and_empty_spans() {
    assert!(matches!(parse_range_or_anchor(None), Selection::Range(LineRange::Full)));
    assert_eq!(range_of(""), LineRange::Full);
    assert_eq!(range_of(":"), LineRange::Full);
    assert_eq!(range_of(":x"), LineRange::Full);
}

#[test]
fn third_field_ignored() {
    assert_eq!(range_of("2:4:9"), LineRange::Bounded(1, 4));
}

#[test]
fn zero_and_plus_lines() {
    assert_eq!(range_of("0"), LineRange::Bounded(0, 1));
    assert_eq!(range_of("+3"), LineRange::Bounded(2, 3));
    assert!(matches!(parse_range_or_anchor(Some("99999999999999999999999")), Selection::Anchor(_)));
}

#[test]
fn include_path_with_span() {
    match parse_include_path("https://example.com/a.rs 2:4") {
        Directive::WebInclude { url, selection } => {
            assert_eq!(url, "https://example.com/a.rs");
            assert!(matches!(selection, Selection::Range(LineRange::Bounded(1, 4))));
        }
        other => panic!("{:?}", other),
    }
}

#[test]
fn include_path_normalises_url() {
    match parse_include_path("http://x") {
        Directive::WebInclude { url, selection } => {
            assert_eq!(url, "http://x/");
            assert!(matches!(selection, Selection::Range(LineRange::Full)));
        }
        other => panic!("{:?}", other),
    }
}

#[test]
fn malformed_url() {
    assert!(matches!(parse_include_path("not-a-url 3"), Directive::MalformedUrl { .. }));
}

#[test]
fn links_found_in_order() {
    let doc = "a {{#webinclude http://x/one 1}} b {{#include local.rs}} c {{ #webinclude  http://x/two  anchor}}\n\\{{#webinclude http://x 1}} d";
    let links = find_links(doc);
    assert_eq!(links.len(), 3);
    assert_eq!(links[0].start_index, 2);
    assert_eq!(links[0].end_index, 32);
    assert_eq!(links[0].link_text, "{{#webinclude http://x/one 1}}");
    match &links[1].directive {
        Directive::WebInclude { url, selection } => {
            assert_eq!(url, "http://x/two");
            match selection {
                Selection::Anchor(a) => assert_eq!(a, " anchor"),
                Selection::Range(_) => panic!("expected an anchor"),
            }
        }
        other => panic!("{:?}", other),
    }
    assert!(matches!(links[2].directive, Directive::Escaped));
    assert_eq!(links[2].link_text, "\\{{#webinclude http://x 1}}");
}

#[test]
fn escaped_token_ends_at_first_close() {
    let links = find_links("\\{{#a}} {{#webinclude http://y}}");
    assert_eq!(links.len(), 2);
    assert!(matches!(links[0].directive, Directive::Escaped));
    assert_eq!((links[0].start_index, links[0].end_index), (0, 7));
    assert_eq!(links[0].link_text, "\\{{#a}}");
    assert_eq!((links[1].start_index, links[1].end_index), (8, 32));
    match &links[1].directive {
        Directive::WebInclude { url, selection } => {
            assert_eq!(url, "http://y/");
            assert!(matches!(selection, Selection::Range(LineRange::Full)));
        }
        other => panic!("{:?}", other),
    }
}

#[test]
fn escaped_token_stops_at_newline() {
    let links = find_links("\\{{#a\n}} {{#webinclude http://y}}");
    assert_eq!(links.len(), 1);
    assert!(matches!(links[0].directive, Directive::WebInclude { .. }));
}

#[test]
fn unterminated_token_not_found() {
    assert_eq!(find_links("{{#webinclude http://x 1} and more").len(), 0);
    assert_eq!(find_links("{{#webinclude}}").len(), 0);
}

#[test]
fn unicode_white_space_separates_arguments() {
    let links = find_links("{{\t#webinclude\u{3000}http://x/a}}");
    assert_eq!(links.len(), 1);
    match &links[0].directive {
        Directive::WebInclude { url, .. } => assert_eq!(url, "http://x/a"),
        other => panic!("{:?}", other),
    }
    assert_eq!(find_links("{{#webinclude\u{200b}http://x/a}}").len(), 0);
}
