//! Inline spans: a typed run of text inside one block.
use vstd::prelude::*;
use vstd::string::*;
use crate::htmlnode::{HtmlNode, HtmlNodeView};

verus! {

/// The kind of an inline span.
#[derive(PartialEq, Eq, Debug, Copy, Clone, Structural)]
pub enum TextType {
    Plain,
    Bold,
    Italic,
    Code,
    Link,
    Image,
}

/// One inline span: its text, its kind, and (for links and images) a URL.
#[derive(Debug)]
pub struct TextNode {
    pub text: String,
    pub text_type: TextType,
    pub url: Option<String>,
}

/// The mathematical value of a `TextNode`.
#[verifier::ext_equal]
pub ghost struct TextNodeView {
    pub text: Seq<char>,
    pub text_type: TextType,
    pub url: Option<Seq<char>>,
}

impl View for TextNode {
    type V = TextNodeView;

    open spec fn view(&self) -> TextNodeView {
        TextNodeView {
            text: self.text@,
            text_type: self.text_type,
            url: match self.url {
                Some(u) => Some(u@),
                None => None,
            },
        }
    }
}

/// A well-formed span carries a URL exactly when it is a link or an image.
pub open spec fn span_wf(t: TextNodeView) -> bool {
    (t.text_type == TextType::Link || t.text_type == TextType::Image) <==> t.url is Some
}

/// The views of a sequence of spans.
pub open spec fn span_views(nodes: Seq<TextNode>) -> Seq<TextNodeView> {
    nodes.map_values(|n: TextNode| n@)
}

/// The element a span maps to: plain text becomes a tag-less leaf, bold,
/// italic and code become `b`, `i` and `code` leaves, a link becomes an
/// `a` leaf with an `href` attribute, and an image becomes an empty `img`
/// leaf with `src` and `alt` attributes.
pub open spec fn spec_span_node(t: TextNodeView) -> HtmlNodeView {
    match t.text_type {
        TextType::Plain => HtmlNodeView {
            tag: None,
            value: Some(t.text),
            children: Seq::empty(),
            props: None,
        },
        TextType::Bold => HtmlNodeView {
            tag: Some(seq!['b']),
            value: Some(t.text),
            children: Seq::empty(),
            props: None,
        },
        TextType::Italic => HtmlNodeView {
            tag: Some(seq!['i']),
            value: Some(t.text),
            children: Seq::empty(),
            props: None,
        },
        TextType::Code => HtmlNodeView {
            tag: Some(seq!['c', 'o', 'd', 'e']),
            value: Some(t.text),
            children: Seq::empty(),
            props: None,
        },
        TextType::Link => HtmlNodeView {
            tag: Some(seq!['a']),
            value: Some(t.text),
            children: Seq::empty(),
            props: Some(seq![(seq!['h', 'r', 'e', 'f'], t.url->0)]),
        },
        TextType::Image => HtmlNodeView {
            tag: Some(seq!['i', 'm', 'g']),
            value: Some(Seq::empty()),
            children: Seq::empty(),
            props: Some(seq![(seq!['s', 'r', 'c'], t.url->0), (seq!['a', 'l', 't'], t.text)]),
        },
    }
}

impl HtmlNode {
    /// The leaf element for one inline span.
    pub fn from(tnode: TextNode) -> (r: HtmlNode)
        requires
            (tnode@.text_type == TextType::Link || tnode@.text_type == TextType::Image)
                ==> tnode@.url is Some,
        ensures
            r@ == spec_span_node(tnode@),
    {
        match tnode.text_type {
            TextType::Plain => {
                let r = HtmlNode::leaf_node(None, tnode.text.as_str(), None);
                proof {
                    assert(r@ =~= spec_span_node(tnode@));
                }
                r
            },
            TextType::Bold => {
                let r = HtmlNode::leaf_node(Some("b"), tnode.text.as_str(), None);
                proof {
                    reveal_strlit("b");
                    assert("b"@ =~= seq!['b']);
                    assert(r@ =~= spec_span_node(tnode@));
                }
                r
            },
            TextType::Italic => {
                let r = HtmlNode::leaf_node(Some("i"), tnode.text.as_str(), None);
                proof {
                    reveal_strlit("i");
                    assert("i"@ =~= seq!['i']);
                    assert(r@ =~= spec_span_node(tnode@));
                }
                r
            },
            TextType::Code => {
                let r = HtmlNode::leaf_node(Some("code"), tnode.text.as_str(), None);
                proof {
                    reveal_strlit("code");
                    assert("code"@ =~= seq!['c', 'o', 'd', 'e']);
                    assert(r@ =~= spec_span_node(tnode@));
                }
                r
            },
            TextType::Link => match tnode.url {
                Some(u) => {
                    let mut props: Vec<(String, String)> = Vec::new();
                    props.push((String::from_str("href"), u));
                    let ghost pv = props@;
                    let r = HtmlNode::leaf_node(Some("a"), tnode.text.as_str(), Some(props));
                    proof {
                        reveal_strlit("a");
                        reveal_strlit("href");
                        assert("a"@ =~= seq!['a']);
                        assert("href"@ =~= seq!['h', 'r', 'e', 'f']);
                        assert(r@.props->0 =~= seq![(seq!['h', 'r', 'e', 'f'], tnode@.url->0)]);
                        assert(r@ =~= spec_span_node(tnode@));
                    }
                    r
                },
                None => {
                    proof {
                        assert(false);
                    }
                    HtmlNode::leaf_node(None, "", None)
                },
            },
            TextType::Image => match tnode.url {
                Some(u) => {
                    let mut props: Vec<(String, String)> = Vec::new();
                    props.push((String::from_str("src"), u));
                    props.push((String::from_str("alt"), tnode.text));
                    let ghost pv = props@;
                    let r = HtmlNode::leaf_node(Some("img"), "", Some(props));
                    proof {
                        reveal_strlit("img");
                        reveal_strlit("src");
                        reveal_strlit("alt");
                        reveal_strlit("");
                        assert("img"@ =~= seq!['i', 'm', 'g']);
                        assert("src"@ =~= seq!['s', 'r', 'c']);
                        assert("alt"@ =~= seq!['a', 'l', 't']);
                        assert(""@ =~= Seq::<char>::empty());
                        assert(r@.props->0 =~= seq![
                            (seq!['s', 'r', 'c'], tnode@.url->0),
                            (seq!['a', 'l', 't'], tnode@.text),
                        ]);
                        assert(r@ =~= spec_span_node(tnode@));
                    }
                    r
                },
                None => {
                    proof {
                        assert(false);
                    }
                    HtmlNode::leaf_node(None, "", None)
                },
            },
        }
    }
}

impl PartialEq for TextNode {
    fn eq(&self, other: &Self) -> (r: bool) {
        let urls_eq = match (&self.url, &other.url) {
            (None, None) => true,
            (Some(a), Some(b)) => *a == *b,
            _ => false,
        };
        let texts_eq = self.text == other.text;
        let types_eq = self.text_type == other.text_type;
        proof {
            if urls_eq && texts_eq && types_eq {
                assert(self@ =~= other@);
            }
        }
        urls_eq && texts_eq && types_eq
    }
}

impl vstd::std_specs::cmp::PartialEqSpecImpl for TextNode {
    open spec fn obeys_eq_spec() -> bool {
        true
    }

    open spec fn eq_spec(&self, other: &Self) -> bool {
        self@ == other@
    }
}

} // verus!
