use bbcode_parser::registry::is_valid_color_value;
use bbcode_parser::render::{escape_html, replace_newline_with_br};
use bbcode_parser::{
    ast_to_html, convert, parse_bbcode_to_ast, BbCodeError, BbCodeOptions, Element, Node, Span,
    TagRegistry, TagSpec, ValueCheck,
};

fn opts() -> BbCodeOptions {
    BbCodeOptions::default()
}

fn single_text(input: &str) -> (Span, String) {
    let ast = parse_bbcode_to_ast(input, &opts()).unwrap();
    assert_eq!(ast.len(), 1);
    match &ast[0] {
        Node::Text { span, text } => (*span, text.clone()),
        _ => panic!("expected one text node"),
    }
}

#[test]
fn default_limits() {
    let o = BbCodeOptions::default();
    assert_eq!(o.max_depth, 3);
    assert_eq!(o.max_tags, 500);
    assert_eq!(o.max_input_size, 51200);
}

#[test]
fn depth_error_reports_deepest_tag_position() {
    let o = BbCodeOptions {
        max_depth: 2,
        ..Default::default()
    };
    let input = "あ[b][i][color=red]x[/color][/i][/b]";
    match parse_bbcode_to_ast(input, &o) {
        Err(BbCodeError::NestDepthExceeded {
            max_depth,
            near,
            span,
            line,
            column,
        }) => {
            assert_eq!(max_depth, 2);
            assert_eq!(near, "[color=red]x[/color]");
            assert_eq!(line, 1);
            assert_eq!(column, 8);
            assert_eq!(span.start, 9);
            assert_eq!(span.end, 9 + "[color=red]x[/color]".len());
        }
        _ => panic!("expected NestDepthExceeded"),
    }
}

#[test]
fn depth_error_line_and_column_after_newline() {
    let o = BbCodeOptions {
        max_depth: 0,
        ..Default::default()
    };
    match parse_bbcode_to_ast("ab\ncd[b]x[/b]", &o) {
        Err(BbCodeError::NestDepthExceeded {
            line, column, span, ..
        }) => {
            assert_eq!(line, 2);
            assert_eq!(column, 3);
            assert_eq!(span.start, 5);
            assert_eq!(span.end, 13);
        }
        _ => panic!("expected NestDepthExceeded"),
    }
}

#[test]
fn depth_inside_unknown_tag_is_not_visited() {
    let o = BbCodeOptions {
        max_depth: 1,
        ..Default::default()
    };
    let (_, text) = single_text_with("[u][b]x[/b][/u]", &o);
    assert_eq!(text, "[u][b]x[/b][/u]");
}

fn single_text_with(input: &str, o: &BbCodeOptions) -> (Span, String) {
    let ast = parse_bbcode_to_ast(input, o).unwrap();
    assert_eq!(ast.len(), 1);
    match &ast[0] {
        Node::Text { span, text } => (*span, text.clone()),
        _ => panic!("expected one text node"),
    }
}

#[test]
fn depth_inside_invalid_color_still_fails() {
    let o = BbCodeOptions {
        max_depth: 1,
        ..Default::default()
    };
    match parse_bbcode_to_ast("[color=1]x[b]y[/b][/color]", &o) {
        Err(BbCodeError::NestDepthExceeded { near, .. }) => assert_eq!(near, "[b]y[/b]"),
        _ => panic!("expected NestDepthExceeded"),
    }
}

#[test]
fn input_size_counts_bytes() {
    let o = BbCodeOptions {
        max_input_size: 5,
        ..Default::default()
    };
    match parse_bbcode_to_ast("ああ", &o) {
        Err(BbCodeError::InputSizeExceeded {
            max_size,
            actual_size,
        }) => {
            assert_eq!(max_size, 5);
            assert_eq!(actual_size, 6);
        }
        _ => panic!("expected InputSizeExceeded"),
    }
    let o = BbCodeOptions {
        max_input_size: 6,
        ..Default::default()
    };
    assert!(parse_bbcode_to_ast("ああ", &o).is_ok());
}

#[test]
fn input_size_checked_before_syntax() {
    let o = BbCodeOptions {
        max_input_size: 0,
        ..Default::default()
    };
    match parse_bbcode_to_ast("[", &o) {
        Err(BbCodeError::InputSizeExceeded {
            max_size,
            actual_size,
        }) => {
            assert_eq!(max_size, 0);
            assert_eq!(actual_size, 1);
        }
        _ => panic!("expected InputSizeExceeded"),
    }
}

#[test]
fn unclosed_tag_counts_toward_limit() {
    let o = BbCodeOptions {
        max_tags: 0,
        ..Default::default()
    };
    match parse_bbcode_to_ast("[b]x", &o) {
        Err(BbCodeError::TagCountExceeded { max_tags }) => assert_eq!(max_tags, 0),
        _ => panic!("expected TagCountExceeded"),
    }
}

#[test]
fn tag_count_at_limit_passes() {
    let o = BbCodeOptions {
        max_tags: 3,
        ..Default::default()
    };
    let ast = parse_bbcode_to_ast("[b][i][color=red]x[/color][/i][/b]", &o).unwrap();
    assert_eq!(ast.len(), 1);
}

#[test]
fn syntax_error_position() {
    match parse_bbcode_to_ast("ab\nあ[", &opts()) {
        Err(BbCodeError::SyntaxError {
            position,
            line,
            column,
        }) => {
            assert_eq!(position, 6);
            assert_eq!(line, 2);
            assert_eq!(column, 2);
        }
        _ => panic!("expected SyntaxError"),
    }
}

#[test]
fn stray_close_tag_is_syntax_error() {
    match parse_bbcode_to_ast("x[/b]", &opts()) {
        Err(BbCodeError::SyntaxError { position, .. }) => assert_eq!(position, 1),
        _ => panic!("expected SyntaxError"),
    }
}

#[test]
fn escaped_bracket_is_literal() {
    let (span, text) = single_text("a\\[b]");
    assert_eq!(text, "a[b]");
    assert_eq!(span, Span { start: 0, end: 5 });
}

#[test]
fn adjacent_text_is_merged() {
    let (span, text) = single_text("x[b]y");
    assert_eq!(text, "x[b]y");
    assert_eq!(span, Span { start: 0, end: 5 });
}

#[test]
fn unknown_tag_kept_verbatim() {
    let (span, text) = single_text("[u]x[b]y[/b][/u]");
    assert_eq!(text, "[u]x[b]y[/b][/u]");
    assert_eq!(span, Span { start: 0, end: 16 });
}

#[test]
fn value_on_simple_tag_falls_back() {
    let (_, text) = single_text("[b=1]x[/b]");
    assert_eq!(text, "[b=1]x[/b]");
}

#[test]
fn tag_names_are_lowercased() {
    let ast = parse_bbcode_to_ast("[B]x[/b]", &opts()).unwrap();
    match &ast[0] {
        Node::Element(el) => {
            assert_eq!(el.name, "b");
            assert_eq!(el.span, Span { start: 0, end: 8 });
        }
        _ => panic!("expected element"),
    }
}

#[test]
fn color_value_is_trimmed() {
    let ast = parse_bbcode_to_ast("[color= red ]x[/color]", &opts()).unwrap();
    match &ast[0] {
        Node::Element(el) => {
            assert_eq!(el.attrs, vec![("value".to_string(), "red".to_string())]);
        }
        _ => panic!("expected element"),
    }
    assert_eq!(
        convert("[color= red ]x[/color]", &opts()).unwrap(),
        "<span style=\"color:red\">x</span>"
    );
}

#[test]
fn color_without_value_renders_children() {
    let ast = parse_bbcode_to_ast("[color]x[/color]", &opts()).unwrap();
    match &ast[0] {
        Node::Element(el) => {
            assert_eq!(el.name, "color");
            assert!(el.attrs.is_empty());
        }
        _ => panic!("expected element"),
    }
    assert_eq!(ast_to_html(&ast), "x");
}

#[test]
fn color_short_hex_and_bad_hex() {
    assert_eq!(
        convert("[color=#abc]x[/color]", &opts()).unwrap(),
        "<span style=\"color:#abc\">x</span>"
    );
    let (_, text) = single_text("[color=#abcd]x[/color]");
    assert_eq!(text, "[color=#abcd]x[/color]");
}

#[test]
fn nested_render() {
    assert_eq!(
        convert("[b]a[i]b[/i][/b]c", &opts()).unwrap(),
        "<b>a<i>b</i></b>c"
    );
}

#[test]
fn text_is_escaped_when_rendered() {
    assert_eq!(
        convert("<a href=\"x\">&</a>", &opts()).unwrap(),
        "&lt;a href=&quot;x&quot;&gt;&amp;&lt;/a&gt;"
    );
    assert_eq!(
        convert("[b=<x>]y[/b]", &opts()).unwrap(),
        "[b=&lt;x&gt;]y[/b]"
    );
}

#[test]
fn line_endings_become_br() {
    assert_eq!(replace_newline_with_br("a\r\nb\rc\nd"), "a<br>b<br>c<br>d");
    assert_eq!(replace_newline_with_br("\r\r\n"), "<br><br>");
    assert_eq!(escape_html("a&b<c>d\"e"), "a&amp;b&lt;c&gt;d&quot;e");
}

#[test]
fn renderer_degrades_unknown_or_invalid_elements() {
    let child = Node::Text {
        span: Span { start: 0, end: 1 },
        text: "x".to_string(),
    };
    let unknown = Element::new("u".to_string(), Span { start: 0, end: 1 }).with_children(vec![child]);
    assert_eq!(ast_to_html(&[Node::Element(unknown)]), "x");

    let child = Node::Text {
        span: Span { start: 0, end: 1 },
        text: "y".to_string(),
    };
    let bad = Element::new("color".to_string(), Span { start: 0, end: 1 })
        .with_attr("value".to_string(), "url(x)".to_string())
        .with_children(vec![child]);
    assert_eq!(bad.attrs.len(), 1);
    assert_eq!(ast_to_html(&[Node::Element(bad)]), "y");

    let child = Node::Text {
        span: Span { start: 0, end: 1 },
        text: "z".to_string(),
    };
    let upper = Element::new("B".to_string(), Span { start: 0, end: 1 }).with_children(vec![child]);
    assert_eq!(ast_to_html(&[Node::Element(upper)]), "z");
}

#[test]
fn registry_lookup() {
    assert_eq!(TagRegistry::get("b"), Some(TagSpec::simple()));
    assert_eq!(TagRegistry::get("I"), Some(TagSpec::simple()));
    assert_eq!(
        TagRegistry::get("Color"),
        Some(TagSpec {
            allow_value_attr: true,
            validate_value_attr: Some(ValueCheck::Color),
        })
    );
    assert_eq!(TagRegistry::get("u"), None);
    assert_eq!(TagRegistry::get("bb"), None);
    let s = TagSpec::simple();
    assert!(!s.allow_value_attr);
    assert_eq!(s.validate_value_attr, None);
}

#[test]
fn color_validator() {
    assert!(is_valid_color_value("red"));
    assert!(is_valid_color_value("  Blue\t"));
    assert!(is_valid_color_value("#fff"));
    assert!(is_valid_color_value("#A0b1C2"));
    assert!(!is_valid_color_value(""));
    assert!(!is_valid_color_value("#ffff"));
    assert!(!is_valid_color_value("#ggg"));
    assert!(!is_valid_color_value("red1"));
    assert!(!is_valid_color_value("javascript:alert(1)"));
}

#[test]
fn color_scenario() {
    let ast = parse_bbcode_to_ast("[color=red]x[/color]", &opts()).unwrap();
    assert_eq!(ast.len(), 1);
    match &ast[0] {
        Node::Element(el) => {
            assert_eq!(el.name, "color");
            assert_eq!(el.attrs, vec![("value".to_string(), "red".to_string())]);
            assert_eq!(el.span, Span { start: 0, end: 20 });
            assert_eq!(el.children.len(), 1);
            match &el.children[0] {
                Node::Text { span, text } => {
                    assert_eq!(text, "x");
                    assert_eq!(*span, Span { start: 11, end: 12 });
                }
                _ => panic!("expected text"),
            }
        }
        _ => panic!("expected element"),
    }
}

#[test]
fn many_unclosed_tags_parse_quickly() {
    let input = "[b]".repeat(40);
    let (span, text) = single_text(&input);
    assert_eq!(text, input);
    assert_eq!(span, Span { start: 0, end: 120 });
    let input = format!("{}x", "[i]".repeat(300));
    let (_, text) = single_text(&input);
    assert_eq!(text, input);
}

#[test]
fn unclosed_tag_before_block_keeps_block() {
    let ast = parse_bbcode_to_ast("[i]a[b]x[/b]", &opts()).unwrap();
    assert_eq!(ast.len(), 2);
    match (&ast[0], &ast[1]) {
        (Node::Text { text, .. }, Node::Element(el)) => {
            assert_eq!(text, "[i]a");
            assert_eq!(el.name, "b");
        }
        _ => panic!("expected text then element"),
    }
}

#[test]
fn nodes_compare_equal() {
    let a = parse_bbcode_to_ast("[b]x[/b]", &opts()).unwrap();
    let b = parse_bbcode_to_ast("[B]x[/B]", &opts()).unwrap();
    assert_eq!(a, b);
}
