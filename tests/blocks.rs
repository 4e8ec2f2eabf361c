use org_social_lib_rs::blocks::{parse_blocks, process_content_with_blocks, ActivatableElement, OrgBlock};
use std::collections::HashMap;

#[test]
fn test_parse_code_block() {
    let content = r#"Some text before
#+begin_src rust
fn hello() {
    println!("Hello, world!");
}
#+end_src
Some text after"#;

    let elements = parse_blocks(content);
    assert_eq!(elements.len(), 1);

    let ActivatableElement::Block(block) = &elements[0];
    assert_eq!(block.block_type, "src");
    assert_eq!(block.attributes, Some("rust".to_string()));
    assert_eq!(block.start_line, 1);
    assert_eq!(block.end_line, 5);
    assert!(block.content.contains("fn hello()"));
}

#[test]
fn test_parse_quote_block() {
    let content = r#"Text before
#+begin_quote
This is a quote
with multiple lines
#+end_quote
Text after"#;

    let elements = parse_blocks(content);
    assert_eq!(elements.len(), 1);

    let ActivatableElement::Block(block) = &elements[0];
    assert_eq!(block.block_type, "quote");
    assert_eq!(block.attributes, None);
    assert_eq!(block.start_line, 1);
    assert_eq!(block.end_line, 4);
    assert!(block.content.contains("This is a quote"));
}

#[test]
fn test_process_collapsed_blocks() {
    let content = r#"Text before
#+begin_src rust
fn test() {}
#+end_src
Text after"#;

    let mut collapsed_blocks = HashMap::new();
    collapsed_blocks.insert(1, true);

    let (processed_content, elements) = process_content_with_blocks(content, &collapsed_blocks);

    assert!(processed_content.contains("[+] Code block (rust) [...]"));
    assert!(!processed_content.contains("fn test()"));
    assert_eq!(elements.len(), 1);
}

#[test]
fn test_multiple_blocks() {
    let content = r#"Text before
#+begin_src python
print("hello")
#+end_src
Middle text
#+begin_quote
A quote here
#+end_quote
Text after"#;

    let elements = parse_blocks(content);
    assert_eq!(elements.len(), 2);

    let ActivatableElement::Block(block1) = &elements[0];
    assert_eq!(block1.block_type, "src");
    assert_eq!(block1.start_line, 1);

    let ActivatableElement::Block(block2) = &elements[1];
    assert_eq!(block2.block_type, "quote");
    assert_eq!(block2.start_line, 5);
}

#[test]
fn single_src_block_round_trip() {
    let elements = parse_blocks("#+begin_src lang\nCODE\n#+end_src");
    assert_eq!(elements.len(), 1);
    let ActivatableElement::Block(b) = &elements[0];
    assert_eq!(b.block_type, "src");
    assert_eq!(b.attributes.as_deref(), Some("lang"));
    assert_eq!(b.content, "CODE");
    assert_eq!((b.start_line, b.end_line), (0, 2));
}

#[test]
fn unclosed_block_yields_nothing() {
    assert!(parse_blocks("#+begin_quote\nsome text\n#+end_src").is_empty());
}

#[test]
fn upper_case_markers_and_mixed_case_end() {
    let e = parse_blocks("#+BEGIN_SRC rust\nx\n#+END_SRC");
    assert_eq!(e.len(), 1);
    let ActivatableElement::Block(b) = &e[0];
    assert_eq!(b.block_type, "src");
    assert!(parse_blocks("#+begin_src\nx\n#+End_src").is_empty());
}

#[test]
fn nested_same_type_closes_early() {
    let e = parse_blocks("#+begin_quote\n#+begin_quote\ninner\n#+end_quote\nouter\n#+end_quote");
    assert_eq!(e.len(), 1);
    assert_eq!(e[0].end_line(), 3);
}

#[test]
fn element_accessors_and_summary() {
    let mut e = ActivatableElement::Block(OrgBlock {
        block_type: "quote".to_string(),
        attributes: None,
        content: "q".to_string(),
        start_line: 2,
        end_line: 4,
        is_collapsed: false,
    });
    assert_eq!(e.start_line(), 2);
    assert_eq!(e.end_line(), 4);
    assert_eq!(e.get_content(), "q");
    assert_eq!(e.get_summary(), "Quote block");
    assert!(!e.is_collapsed());
    e.toggle_collapsed();
    assert!(e.is_collapsed());
    let other = ActivatableElement::Block(OrgBlock {
        block_type: "Weird".to_string(),
        attributes: Some("a b".to_string()),
        content: String::new(),
        start_line: 0,
        end_line: 1,
        is_collapsed: false,
    });
    assert_eq!(other.get_summary(), "Block (a b)");
}

#[test]
fn expanded_blocks_keep_their_lines() {
    let content = "a\n#+begin_example\nbody\n#+end_example\nz";
    let (out, els) = process_content_with_blocks(content, &HashMap::new());
    assert_eq!(out, content);
    assert!(!els[0].is_collapsed());
}

#[test]
fn closing_a_block_of_a_known_type() {
    let ls: Vec<Vec<char>> = vec!["#+begin_quote", "q", "#+END_QUOTE"]
        .into_iter()
        .map(|l| l.chars().collect())
        .collect();
    let e = org_social_lib_rs::blocks::close_block(0, &ls, "quote".to_string(), "QUOTE".to_string(), None).unwrap();
    assert_eq!(e.end_line(), 2);
    assert_eq!(e.get_content(), "q");
    let open: Vec<Vec<char>> = vec!["#+begin_quote", "q"].into_iter().map(|l| l.chars().collect()).collect();
    assert!(org_social_lib_rs::blocks::close_block(0, &open, "quote".to_string(), "QUOTE".to_string(), None).is_none());
}

#[test]
fn lines_keep_a_final_carriage_return() {
    let ls = org_social_lib_rs::text::lines("a\r\nb\r");
    assert_eq!(ls, vec![vec!['a'], vec!['b', '\r']]);
}
