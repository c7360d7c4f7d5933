use bbcode_parser::{ast_to_html, parse_bbcode_to_ast, BbCodeError, BbCodeOptions, Node};

#[test]
fn test_basic_parse() {
    let opts = BbCodeOptions::default();
    let ast = parse_bbcode_to_ast("[b]Bold[/b]", &opts).unwrap();
    assert_eq!(ast.len(), 1);

    match &ast[0] {
        Node::Element(el) if el.name == "b" => {
            assert_eq!(el.children.len(), 1);
            match &el.children[0] {
                Node::Text { text, .. } => assert_eq!(text, "Bold"),
                _ => panic!("Expected text inside bold"),
            }
        }
        _ => panic!("Expected Bold node"),
    }
}

#[test]
fn test_color_valid() {
    let opts = BbCodeOptions::default();
    let input = "[color=red]赤文字[/color]";
    let ast = parse_bbcode_to_ast(input, &opts).unwrap();
    assert_eq!(ast.len(), 1);

    match &ast[0] {
        Node::Element(el) if el.name == "color" => {
            assert_eq!(el.attrs, vec![("value".to_string(), "red".to_string())]);
            assert_eq!(el.attrs[0].1, "red");
            assert_eq!(el.children.len(), 1);
        }
        _ => panic!("Expected Color node"),
    }
}

#[test]
fn test_color_invalid() {
    let opts = BbCodeOptions::default();
    let input = "[color=javascript:alert(1)]hack[/color]";
    let ast = parse_bbcode_to_ast(input, &opts).unwrap();
    match &ast[0] {
        Node::Text { text, .. } => {
            assert!(text.contains("hack"), "Should contain original text");
            assert_eq!(text, input);
        }
        _ => panic!("Expected UnknownTag for invalid color"),
    }
}

#[test]
fn test_nest_depth_exceeded() {
    let opts = BbCodeOptions {
        max_depth: 2,
        ..Default::default()
    };
    let input = "[b][i][color=red]Nested[/color][/i][/b]";
    let result = parse_bbcode_to_ast(input, &opts);

    match result {
        Err(BbCodeError::NestDepthExceeded { max_depth, near, .. }) => {
            assert_eq!(max_depth, 2);
            assert!(
                near.contains("[color=red]"),
                "Should mention the third-level tag"
            );
        }
        _ => panic!("Expected NestDepthExceeded error"),
    }
}

#[test]
fn test_generate_html() {
    let opts = BbCodeOptions::default();
    let ast = parse_bbcode_to_ast("[b]Bold[/b]", &opts).unwrap();
    let html = ast_to_html(&ast);
    assert_eq!(html, "<b>Bold</b>");
}

#[test]
fn test_input_size_exceeded() {
    let opts = BbCodeOptions {
        max_input_size: 10,
        ..Default::default()
    };
    let long_input = "a".repeat(50);
    let result = parse_bbcode_to_ast(&long_input, &opts);
    match result {
        Err(BbCodeError::InputSizeExceeded {
            max_size,
            actual_size,
        }) => {
            assert_eq!(max_size, 10);
            assert_eq!(actual_size, 50);
        }
        _ => panic!("Expected InputSizeExceeded error"),
    }
}

#[test]
fn test_tag_count_exceeded() {
    let opts = BbCodeOptions {
        max_tags: 2,
        ..Default::default()
    };
    let input = "[b][i][color=red]three tags[/color][/i][/b]";
    let result = parse_bbcode_to_ast(input, &opts);
    match result {
        Err(BbCodeError::TagCountExceeded { max_tags }) => {
            assert_eq!(max_tags, 2);
        }
        _ => panic!("Expected TagCountExceeded error"),
    }
}

#[test]
fn test_mismatched_tags() {
    let opts = BbCodeOptions::default();
    let input = "[b]Hello[/i]";
    let ast = parse_bbcode_to_ast(input, &opts).unwrap();

    assert_eq!(ast.len(), 1);
    match &ast[0] {
        Node::Text { text, .. } => {
            assert!(
                text.contains("Hello"),
                "Fallback text should contain original content"
            );
            assert!(
                text.contains("[b]"),
                "Should contain the original opening tag"
            );
            assert!(
                text.contains("[/i]"),
                "Should contain the original closing tag"
            );
            assert_eq!(text, "[b]Hello[/i]");
        }
        _ => panic!("Expected UnknownTag for mismatched tags"),
    }
}

#[test]
fn test_newline_to_br() {
    let opts = BbCodeOptions::default();
    let input = "Hello\nWorld";
    let ast = parse_bbcode_to_ast(input, &opts).unwrap();

    assert_eq!(ast.len(), 1);
    match &ast[0] {
        Node::Text { text, .. } => assert_eq!(text, "Hello\nWorld"),
        _ => panic!("Expected a single Text node"),
    }

    let html = ast_to_html(&ast);
    assert_eq!(html, "Hello<br>World");
}

#[test]
fn test_pest_parse_error() {
    let opts = BbCodeOptions::default();
    // An open tag that is never closed degrades to literal text.
    let input = "[b]Unclosed bold";
    match parse_bbcode_to_ast(input, &opts) {
        Ok(ast) => {
            assert_eq!(ast.len(), 1);
            match &ast[0] {
                Node::Text { text, .. } => assert_eq!(text, input),
                _ => panic!("Expected literal text for an unclosed tag"),
            }
        }
        Err(_) => panic!("Expected literal text for an unclosed tag"),
    }
    // A bracket that begins no construct is a syntax error.
    match parse_bbcode_to_ast("[", &opts) {
        Err(BbCodeError::SyntaxError { .. }) => {}
        _ => panic!("Expected SyntaxError for a bare bracket"),
    }
}

#[test]
fn test_color_hash_six_digits() {
    let opts = BbCodeOptions::default();
    let input = "[color=#123ABC]Test[/color]";
    let ast = parse_bbcode_to_ast(input, &opts).unwrap();

    assert_eq!(ast.len(), 1);
    match &ast[0] {
        Node::Element(el) if el.name == "color" => {
            assert_eq!(el.attrs[0].1, "#123ABC");
            assert_eq!(el.children.len(), 1);
            if let Node::Text { text, .. } = &el.children[0] {
                assert_eq!(text, "Test");
            } else {
                panic!("Expected Text node inside color");
            }
        }
        _ => panic!("Expected Color node"),
    }
}

#[test]
fn test_empty_tag_content() {
    let opts = BbCodeOptions::default();
    let input = "[b][/b]";
    let ast = parse_bbcode_to_ast(input, &opts).unwrap();

    assert_eq!(ast.len(), 1);
    match &ast[0] {
        Node::Element(el) if el.name == "b" => {
            assert_eq!(
                el.children.len(),
                0,
                "Empty content should produce an empty children list"
            );
        }
        _ => panic!("Expected Bold node"),
    }
}
