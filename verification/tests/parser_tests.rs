use syntree::element::{Element, ElementType};
use syntree::error::Error;
use syntree::parser::Parser;
use syntree::sanitize::{is_valid, sanitize};
use syntree::Font;

fn parse_ok(input: &str) -> Vec<Element> {
    let mut p = Parser::new(input.to_string()).expect("input should be accepted");
    p.parse();
    p.result()
}

fn check_forest(elems: &[Element]) {
    for (i, e) in elems.iter().enumerate() {
        assert_eq!(e.id, i + 1, "ids are assigned in creation order from 1");
        assert_eq!(e.width, 0);
        assert_eq!(e.indent, 0);
        if e.parent == 0 {
            assert_eq!(e.level, 0, "nodes under the root sit at level 0");
        } else {
            let owner = elems
                .iter()
                .take(i)
                .find(|o| o.id == e.parent)
                .expect("parent must appear earlier in the collection");
            assert_eq!(e.level, owner.level + 1, "level steps by one per nesting");
        }
    }
}

#[test]
fn rejects_empty_string() {
    match Parser::new(String::new()) {
        Err(Error::Parse(m)) => assert_eq!(m, "invalid data provided to parser"),
        _ => panic!("empty input must fail with a parse error"),
    }
}

#[test]
fn rejects_whitespace_only() {
    assert!(matches!(Parser::new("  \t \n ".to_string()), Err(Error::Parse(_))));
}

#[test]
fn rejects_bracket_pair_of_whitespace() {
    assert!(matches!(Parser::new("[ ]".to_string()), Err(Error::Parse(_))));
    assert!(matches!(Parser::new("[]".to_string()), Err(Error::Parse(_))));
}

#[test]
fn rejects_text_without_group() {
    assert!(matches!(Parser::new("no brackets here".to_string()), Err(Error::Parse(_))));
    assert!(matches!(Parser::new("[unclosed".to_string()), Err(Error::Parse(_))));
    assert!(matches!(Parser::new("]backwards[".to_string()), Err(Error::Parse(_))));
}

#[test]
fn accepts_minimal_group() {
    assert!(Parser::new("[a]".to_string()).is_ok());
}

#[test]
fn is_valid_mirrors_constructor() {
    assert!(!is_valid(""));
    assert!(!is_valid("   "));
    assert!(!is_valid("[ ]"));
    assert!(!is_valid("[x][ ]"));
    assert!(is_valid("[x]"));
    assert!(is_valid("junk [x] junk"));
}

#[test]
fn sanitize_normalizes_text() {
    assert_eq!(sanitize("a\tb [c]"), "ab[c]");
    assert_eq!(sanitize("a\nb"), "a b");
    assert_eq!(sanitize("a   b"), "a b");
    assert_eq!(sanitize("[a] [b]"), "[a][b]");
}

#[test]
fn tokenizer_walks_groups() {
    let mut p = Parser::new("[a][b]".to_string()).unwrap();
    assert_eq!(p.next_token(), "[a");
    assert_eq!(p.next_token(), "]");
    assert_eq!(p.next_token(), "[b");
    assert_eq!(p.next_token(), "");
}

#[test]
fn classic_sentence_tree() {
    let elems = parse_ok("[S [NP the dog][VP barks]]");
    assert_eq!(elems.len(), 5);
    check_forest(&elems);
    assert_eq!(elems[0].content, "S");
    assert_eq!(elems[0].parent, 0);
    assert_eq!(elems[0].level, 0);
    assert_eq!(elems[0].element_type, ElementType::Branch);
    assert_eq!(elems[1].content, "NP");
    assert_eq!(elems[1].parent, 1);
    assert_eq!(elems[1].level, 1);
    assert_eq!(elems[1].element_type, ElementType::Branch);
    assert_eq!(elems[2].content, " the dog");
    assert_eq!(elems[2].parent, 2);
    assert_eq!(elems[2].level, 2);
    assert_eq!(elems[2].element_type, ElementType::Leaf);
    assert_eq!(elems[3].content, "VP");
    assert_eq!(elems[3].parent, 1);
    assert_eq!(elems[3].level, 1);
    assert_eq!(elems[4].content, " barks");
    assert_eq!(elems[4].parent, 4);
    assert_eq!(elems[4].level, 2);
}

#[test]
fn nested_tree_levels_and_parents() {
    let elems = parse_ok("[S [NP [D the][N dog]][VP barks]]");
    assert_eq!(elems.len(), 8);
    check_forest(&elems);
    let contents: Vec<&str> = elems.iter().map(|e| e.content.as_str()).collect();
    assert_eq!(contents, vec!["S", "NP", "D", " the", "N", " dog", "VP", " barks"]);
    assert_eq!(elems[1].content, "NP");
    assert_eq!(elems[1].element_type, ElementType::Branch);
    assert_eq!(elems[2].parent, 2);
    assert_eq!(elems[2].level, 2);
    assert_eq!(elems[3].parent, 3);
    assert_eq!(elems[3].level, 3);
}

#[test]
fn multiple_roots_get_subscripts() {
    let mut p = Parser::new("[NP the dog][NP a cat]".to_string()).unwrap();
    p.parse();
    p.auto_subscript();
    let elems = p.result();
    assert_eq!(elems.len(), 4);
    assert_eq!(elems[0].content, "NP");
    assert_eq!(elems[0].parent, 0);
    assert_eq!(elems[2].content, "NP_1");
    assert_eq!(elems[2].parent, 0);
    assert_eq!(elems[1].content, " the dog");
    assert_eq!(elems[3].content, " a cat");
}

#[test]
fn subscripts_count_repeats_from_one() {
    let mut p = Parser::new("[NP a][NP b][NP c]".to_string()).unwrap();
    p.parse();
    p.auto_subscript();
    let elems = p.result();
    let branches: Vec<&str> = elems
        .iter()
        .filter(|e| e.element_type == ElementType::Branch)
        .map(|e| e.content.as_str())
        .collect();
    assert_eq!(branches, vec!["NP", "NP_1", "NP_2"]);
}

#[test]
fn subscripts_reach_two_digits() {
    let input = "[NP a]".repeat(11);
    let mut p = Parser::new(input).unwrap();
    p.parse();
    p.auto_subscript();
    let elems = p.result();
    let branches: Vec<&str> = elems
        .iter()
        .filter(|e| e.element_type == ElementType::Branch)
        .map(|e| e.content.as_str())
        .collect();
    assert_eq!(branches.len(), 11);
    assert_eq!(branches[0], "NP");
    assert_eq!(branches[1], "NP_1");
    assert_eq!(branches[9], "NP_9");
    assert_eq!(branches[10], "NP_10");
}

#[test]
fn subscripting_twice_changes_nothing() {
    let mut p = Parser::new("[NP a][NP b][VP c][NP d]".to_string()).unwrap();
    p.parse();
    p.auto_subscript();
    let once: Vec<String> = p.result().iter().map(|e| e.content.clone()).collect();
    p.auto_subscript();
    let twice: Vec<String> = p.result().iter().map(|e| e.content.clone()).collect();
    assert_eq!(once, twice);
}

#[test]
fn leaves_are_never_subscripted() {
    let mut p = Parser::new("[NP dog][VP dog]".to_string()).unwrap();
    p.parse();
    p.auto_subscript();
    let elems = p.result();
    assert_eq!(elems[1].content, " dog");
    assert_eq!(elems[3].content, " dog");
}

#[test]
fn escaped_brackets_stay_literal() {
    let elems = parse_ok("[A \\[x\\]]");
    assert_eq!(elems.len(), 2);
    check_forest(&elems);
    assert_eq!(elems[0].content, "A");
    assert_eq!(elems[1].content, " [x]");
    assert_eq!(elems[1].level, 1, "escaped brackets open no nesting level");
}

#[test]
fn triangle_marker_is_stripped() {
    let elems = parse_ok("[NP^ dog]");
    assert_eq!(elems.len(), 2);
    assert!(elems[0].triangle);
    assert_eq!(elems[0].content, "NP");
    assert!(!elems[1].triangle);
    assert_eq!(elems[1].content, " dog");
}

#[test]
fn triangle_marker_on_leaf_content() {
    let elems = parse_ok("[NP dog^]");
    assert!(elems[1].triangle);
    assert_eq!(elems[1].content, " dog");
}

#[test]
fn space_placeholder_becomes_space() {
    let elems = parse_ok("[NP the<>dog]");
    assert_eq!(elems.len(), 2);
    assert_eq!(elems[1].content, " the dog");
}

#[test]
fn single_word_groups_nest() {
    let elems = parse_ok("[S[NP][VP]]");
    assert_eq!(elems.len(), 3);
    check_forest(&elems);
    assert_eq!(elems[0].content, "S");
    assert_eq!(elems[1].content, "NP");
    assert_eq!(elems[1].parent, 1);
    assert_eq!(elems[2].content, "VP");
    assert_eq!(elems[2].parent, 1);
}

#[test]
fn stray_close_ends_root_frame() {
    // A leading close bracket is a valid input (a balanced group follows)
    // but its token unwinds the root frame before any node is created.
    let elems = parse_ok("]][a]");
    assert!(elems.is_empty());
}

#[test]
fn line_breaks_collapse_to_spaces() {
    let elems = parse_ok("[NP the\ndog]");
    assert_eq!(elems.len(), 2);
    assert_eq!(elems[1].content, " the dog");
}

#[test]
fn result_before_parse_is_empty() {
    let p = Parser::new("[a]".to_string()).unwrap();
    assert!(p.result().is_empty());
}

#[test]
fn element_new_defaults() {
    let e = Element::new(7, "word".to_string(), 3, 2);
    assert_eq!(e.id, 7);
    assert_eq!(e.content, "word");
    assert_eq!(e.parent, 3);
    assert_eq!(e.level, 2);
    assert!(!e.triangle);
    assert_eq!(e.element_type, ElementType::Leaf);
    assert_eq!(e.width, 0);
    assert_eq!(e.indent, 0);
}

#[test]
fn element_type_defaults_to_leaf() {
    assert_eq!(ElementType::default(), ElementType::Leaf);
}

#[test]
fn font_defaults_to_noto_sans() {
    assert!(matches!(Font::default(), Font::NotoSans));
}

#[test]
fn error_messages_are_kept() {
    let e = Error::Io("disk gone".to_string());
    assert_eq!(e.message(), "disk gone");
    match Parser::new(String::new()) {
        Err(e) => assert_eq!(e.message(), "invalid data provided to parser"),
        Ok(_) => panic!("empty input must be rejected"),
    }
}
