use rust_static_site::blocks::{markdown_to_blocks, markdown_to_html_node, block_to_blocktype,
    BlockType, is_heading, is_code, is_quote, is_ul, is_ol, extract_heading_content,
    extract_code_content, extract_quote_content, get_heading_block_tag};

#[test]
fn markdown_to_block_test() {
    let markdown = r#"This is a **bolded** paragraph

This is another paragraph with _italic_ text and `code` here
This is the same paragraph on a new line

- This is a list
- with items"#;

    let blocks = markdown_to_blocks(markdown);
    println!("{:?}", blocks);
    let expected = vec![
        "This is a **bolded** paragraph",
        "This is another paragraph with _italic_ text and `code` here\nThis is the same paragraph on a new line",
        "- This is a list\n- with items",
    ];
    assert_eq!(expected, blocks);
}

#[test]
fn test_paragraph() {
    let markdown = r"This is **bolded** paragraph
text in a p
tag here

This is another paragraph with _italic_ text and `code` here
";
    let node = markdown_to_html_node(markdown).unwrap();
    let html = node.to_html().unwrap();
    let expected = "<div><p>This is <b>bolded</b> paragraph text in a p tag here</p><p>This is another paragraph with <i>italic</i> text and <code>code</code> here</p></div>";
    assert_eq!(expected, html);
}

#[test]
fn test_codeblock() {
    let markdown = r"```
This is text that _should_ remain
the **same** even with inline stuff
```";
    let node = markdown_to_html_node(markdown).unwrap();
    let html = node.to_html().unwrap();
    let expected = "<div><pre><code>This is text that _should_ remain\nthe **same** even with inline stuff\n</code></pre></div>";
    assert_eq!(expected, html);
}

#[test]
fn segmentation_counts_and_trims() {
    let blocks = markdown_to_blocks("one  \n\ntwo\nstill two\t\n\nthree");
    assert_eq!(blocks, vec!["one", "two\nstill two", "three"]);
    assert_eq!(markdown_to_blocks(""), Vec::<String>::new());
}

#[test]
fn heading_classification() {
    assert_eq!(block_to_blocktype("# Hello"), BlockType::Heading);
    assert_eq!(get_heading_block_tag("# Hello"), "h1");
    assert_eq!(extract_heading_content("# Hello"), "Hello");
    assert_eq!(block_to_blocktype("### deep"), BlockType::Heading);
    assert_eq!(get_heading_block_tag("### deep"), "h3");
    assert!(is_heading("######"));
    assert!(!is_heading("####### seven"));
    assert_eq!(block_to_blocktype("####### seven"), BlockType::Paragraph);
    assert!(!is_heading("#nospace"));
}

#[test]
fn code_classification() {
    assert!(is_code("```\nx\n```"));
    assert!(!is_code("```"));
    assert!(!is_code("``` \nx\n```"));
    assert_eq!(block_to_blocktype("```\nx\n```"), BlockType::Code);
    assert_eq!(extract_code_content("```\nline one\nline two\n```"), "line one\nline two\n");
}

#[test]
fn quote_and_list_classification() {
    assert!(is_quote("> a\n> b"));
    assert!(!is_quote("> a\nb"));
    assert_eq!(extract_quote_content("> a\n> b"), "a b");
    assert!(is_ul("- a\n- b"));
    assert!(!is_ul("- a\n* b"));
    assert!(is_ol("1. a\n2. b"));
    assert!(!is_ol("1. a\n3. b"));
    assert_eq!(block_to_blocktype("> quoted"), BlockType::Quote);
    assert_eq!(block_to_blocktype("- item"), BlockType::UnorderedList);
    assert_eq!(block_to_blocktype("1. item"), BlockType::OrderedList);
}

#[test]
fn lists_render_as_li_items() {
    let node = markdown_to_html_node("- one\n- two").unwrap();
    assert_eq!(node.to_html().unwrap(), "<div><ul><li>one</li><li>two</li></ul></div>");

    let node = markdown_to_html_node("1. one\n2. two").unwrap();
    assert_eq!(node.to_html().unwrap(), "<div><ol><li>one</li><li>two</li></ol></div>");
}

#[test]
fn quote_renders_as_blockquote() {
    let node = markdown_to_html_node("> a quote\n> continued").unwrap();
    assert_eq!(
        node.to_html().unwrap(),
        "<div><blockquote>a quote continued</blockquote></div>"
    );
}

#[test]
fn end_to_end_title_and_bold() {
    let node = markdown_to_html_node("# Title\n\nSome **bold** text").unwrap();
    assert_eq!(
        node.to_html().unwrap(),
        "<div><h1>Title</h1><p>Some <b>bold</b> text</p></div>"
    );
}

#[test]
fn end_to_end_newline_collapses_to_space() {
    let node = markdown_to_html_node("line one\nline two").unwrap();
    assert_eq!(node.to_html().unwrap(), "<div><p>line one line two</p></div>");
}

#[test]
fn end_to_end_image_and_link() {
    let node = markdown_to_html_node("see ![pic](img.png) and [here](u)").unwrap();
    assert_eq!(
        node.to_html().unwrap(),
        "<div><p>see <img src=\"img.png\" alt=\"pic\"></img> and <a href=\"u\">here</a></p></div>"
    );
}

#[test]
fn malformed_delimiter_aborts_document() {
    match markdown_to_html_node("ok block\n\nbad `tick") {
        Err(rust_static_site::errors::NodeError::ParseError(t)) => assert_eq!(t, "bad `tick"),
        _ => panic!("an unmatched delimiter must abort with a ParseError"),
    }
}
