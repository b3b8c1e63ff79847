use rust_static_site::textnode::{TextNode, TextType};
use rust_static_site::utils::{split_nodes_delimeter, split_nodes_image, split_nodes_link,
    extract_markdown_images, extract_markdown_links, text_to_textnodes};
use rust_static_site::errors::NodeError;

fn plain(text: &str) -> TextNode {
    TextNode { text: text.to_string(), text_type: TextType::Plain, url: None }
}

#[test]
fn test_split_delimter() {
    let node = TextNode {
        text: "This is a block with `code stuff` in it.".to_string(),
        text_type: TextType::Plain,
        url: None,
    };
    let new_nodes = split_nodes_delimeter(vec![node], "`", TextType::Code);

    let expect = vec![
        TextNode { text: "This is a block with ".to_string(), text_type: TextType::Plain, url: None },
        TextNode { text: "code stuff".to_string(), text_type: TextType::Code, url: None },
        TextNode { text: " in it.".to_string(), text_type: TextType::Plain, url: None },
    ];
    assert_eq!(expect, new_nodes.unwrap());
}

#[test]
fn test_split_images() {
    let node = TextNode {
        text: "This is text with an ![image](https://i.imgur.com/zjjcJKZ.png) and another ![second image](https://i.imgur.com/3elNhQu.png)".to_string(),
        text_type: TextType::Plain,
        url: None,
    };

    let new_nodes = split_nodes_image(vec![node]).unwrap();
    let expect = vec![
        TextNode { text: "This is text with an ".to_string(), text_type: TextType::Plain, url: None },
        TextNode { text: "image".to_string(), text_type: TextType::Image, url: Some("https://i.imgur.com/zjjcJKZ.png".to_string()) },
        TextNode { text: " and another ".to_string(), text_type: TextType::Plain, url: None },
        TextNode { text: "second image".to_string(), text_type: TextType::Image, url: Some("https://i.imgur.com/3elNhQu.png".to_string()) },
    ];
    assert_eq!(expect, new_nodes);
}

#[test]
fn test_split_links() {
    let node = TextNode {
        text: "This is text with a link [to boot dev](https://www.boot.dev) and [to youtube](https://www.youtube.com/@bootdotdev)".to_string(),
        text_type: TextType::Plain,
        url: None,
    };

    let new_nodes = split_nodes_link(vec![node]).unwrap();
    let expect = vec![
        TextNode { text: "This is text with a link ".to_string(), text_type: TextType::Plain, url: None },
        TextNode { text: "to boot dev".to_string(), text_type: TextType::Link, url: Some("https://www.boot.dev".to_string()) },
        TextNode { text: " and ".to_string(), text_type: TextType::Plain, url: None },
        TextNode { text: "to youtube".to_string(), text_type: TextType::Link, url: Some("https://www.youtube.com/@bootdotdev".to_string()) },
    ];
    assert_eq!(expect, new_nodes);
}

#[test]
fn split_delimiter_three_spans_exactly() {
    let result = split_nodes_delimeter(vec![plain("plain `code` plain")], "`", TextType::Code)
        .unwrap();
    assert_eq!(result.len(), 3);
    assert_eq!(result[0], plain("plain "));
    assert_eq!(
        result[1],
        TextNode { text: "code".to_string(), text_type: TextType::Code, url: None }
    );
    assert_eq!(result[2], plain(" plain"));
}

#[test]
fn split_delimiter_stray_backtick_is_parse_error() {
    match split_nodes_delimeter(vec![plain("one ` stray")], "`", TextType::Code) {
        Err(NodeError::ParseError(t)) => assert_eq!(t, "one ` stray"),
        _ => panic!("a single stray backtick must be a ParseError"),
    }
}

#[test]
fn tokenize_image_and_link() {
    let spans = text_to_textnodes("![alt](u)").unwrap();
    assert_eq!(
        spans,
        vec![TextNode { text: "alt".to_string(), text_type: TextType::Image, url: Some("u".to_string()) }]
    );

    let spans = text_to_textnodes("[t](u)").unwrap();
    assert_eq!(
        spans,
        vec![TextNode { text: "t".to_string(), text_type: TextType::Link, url: Some("u".to_string()) }]
    );
}

#[test]
fn link_extractor_skips_image_pattern() {
    let nodes = split_nodes_link(vec![plain("![alt](u)")]).unwrap();
    assert_eq!(nodes, vec![plain("![alt](u)")]);

    let links = extract_markdown_links("start ![pic](a.png) then [real](b)");
    assert_eq!(links, vec![("real", "b")]);
}

#[test]
fn extract_images_finds_all_in_order() {
    let images = extract_markdown_images("a ![one](u1) b ![two](u2) c");
    assert_eq!(images, vec![("one", "u1"), ("two", "u2")]);
    let none: Vec<(&str, &str)> = extract_markdown_images("no images here");
    assert_eq!(none, Vec::<(&str, &str)>::new());
}

#[test]
fn tokenize_full_pipeline_order() {
    let spans = text_to_textnodes("a _i_ and `c` and **b**").unwrap();
    let expect = vec![
        plain("a "),
        TextNode { text: "i".to_string(), text_type: TextType::Italic, url: None },
        plain(" and "),
        TextNode { text: "c".to_string(), text_type: TextType::Code, url: None },
        plain(" and "),
        TextNode { text: "b".to_string(), text_type: TextType::Bold, url: None },
    ];
    assert_eq!(expect, spans);
}
