use rust_static_site::htmlnode::HtmlNode;
use rust_static_site::textnode::{TextNode, TextType};
use rust_static_site::blocks::extract_title;
use rust_static_site::errors::NodeError;

#[test]
fn test_props_to_html() {
    let ptest = HtmlNode {
        tag: None,
        value: None,
        children: Vec::new(),
        props: Some(vec![
            ("href".to_string(), "http://www.google.com".to_string()),
            ("target".to_string(), "_blank".to_string()),
        ]),
    };

    let result = ptest.props_to_html();
    println!("{}", result);
    assert_eq!(" href=\"http://www.google.com\" target=\"_blank\"", result);
}

#[test]
fn test_to_html_with_children() {
    let child = HtmlNode::leaf_node(Some("span"), "child", None);
    let parent = HtmlNode::parent_node("div", vec![child], None);

    assert_eq!(parent.to_html().unwrap(), "<div><span>child</span></div>");
}

#[test]
fn test_to_html_with_grandchildren() {
    let grandchild = HtmlNode::leaf_node(Some("b"), "grandchild", None);
    let child = HtmlNode::parent_node("span", vec![grandchild], None);
    let parent = HtmlNode::parent_node("div", vec![child], None);

    assert_eq!(parent.to_html().unwrap(), "<div><span><b>grandchild</b></span></div>");
}

#[test]
fn text_text() {
    let node = TextNode { text_type: TextType::Plain, text: "This is a text node".to_string(), url: None };
    let html_node = HtmlNode::from(node);
    assert_eq!(html_node.tag, None);
    assert_eq!(html_node.value.unwrap(), "This is a text node");

    let node = TextNode { text_type: TextType::Bold, text: "This is bold text!".to_string(), url: None };
    let html_node = HtmlNode::from(node);
    assert_eq!(html_node.tag, Some("b".to_string()));
    assert_eq!(html_node.value.unwrap(), "This is bold text!");
}

#[test]
fn text_link_and_image_nodes() {
    let node = TextNode {
        text_type: TextType::Link,
        text: "site".to_string(),
        url: Some("https://example.com".to_string()),
    };
    let html_node = HtmlNode::from(node);
    assert_eq!(html_node.tag, Some("a".to_string()));
    assert_eq!(
        html_node.to_html().unwrap(),
        "<a href=\"https://example.com\">site</a>"
    );

    let node = TextNode {
        text_type: TextType::Image,
        text: "a cat".to_string(),
        url: Some("cat.png".to_string()),
    };
    let html_node = HtmlNode::from(node);
    assert_eq!(
        html_node.to_html().unwrap(),
        "<img src=\"cat.png\" alt=\"a cat\"></img>"
    );
}

#[test]
fn to_html_rejects_leaf_without_text() {
    let bad = HtmlNode { tag: None, value: None, children: Vec::new(), props: None };
    match bad.to_html() {
        Err(NodeError::ValueError(t)) => assert_eq!(t, ""),
        _ => panic!("a leaf without text must be a ValueError"),
    }
}

#[test]
fn to_html_rejects_container_without_tag() {
    let child = HtmlNode::leaf_node(None, "text", None);
    let bad = HtmlNode { tag: None, value: None, children: vec![child], props: None };
    match bad.to_html() {
        Err(NodeError::ValueError(t)) => assert_eq!(t, ""),
        _ => panic!("a container without a tag must be a ValueError"),
    }
}

#[test]
fn title_extraction() {
    let markdown = "# Hello";
    let title = extract_title(markdown).unwrap();
    assert_eq!("Hello", title);
}

#[test]
fn title_extraction_rejects_non_heading() {
    match extract_title("just a paragraph") {
        Err(NodeError::ParseError(m)) => assert_eq!(m, "First block must be an h1 heading"),
        _ => panic!("a non-heading first block must be a ParseError"),
    }
    match extract_title("## second level") {
        Err(NodeError::ParseError(_)) => {},
        _ => panic!("a second-level heading must be a ParseError"),
    }
}
