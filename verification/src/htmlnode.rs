//! The HTML element tree and its serializer.
//!
//! A node is a leaf (it carries text, and optionally a tag) or a container
//! (it carries a tag and children). A leaf without text, or a container
//! without a tag, is a structural defect that serialization reports as
//! `NodeError::ValueError`.
use vstd::prelude::*;
use vstd::string::*;
use crate::errors::NodeError;

verus! {

/// One node of the element tree. A leaf has an empty `children` vector and
/// `value: Some(text)`; a container has children, `tag: Some(..)` and
/// `value: None`. Attributes are rendered in the order they are listed.
#[derive(Debug)]
pub struct HtmlNode {
    pub tag: Option<String>,
    pub value: Option<String>,
    pub children: Vec<HtmlNode>,
    pub props: Option<Vec<(String, String)>>,
}

/// The mathematical value of an `HtmlNode`.
#[verifier::ext_equal]
pub ghost struct HtmlNodeView {
    pub tag: Option<Seq<char>>,
    pub value: Option<Seq<char>>,
    pub children: Seq<HtmlNodeView>,
    pub props: Option<Seq<(Seq<char>, Seq<char>)>>,
}

/// The mathematical value of a node, computed recursively over the tree.
pub open spec fn node_view(n: HtmlNode) -> HtmlNodeView
    decreases n,
    via node_view_decreases
{
    HtmlNodeView {
        tag: match n.tag {
            Some(t) => Some(t@),
            None => None,
        },
        value: match n.value {
            Some(v) => Some(v@),
            None => None,
        },
        children: children_views(n.children@),
        props: spec_props_view(n.props),
    }
}

#[via_fn]
proof fn node_view_decreases(n: HtmlNode) {
    assert(decreases_to!(n => n.children));
    assert(decreases_to!(n.children => n.children@));
    assert(decreases_to!(n => n.children@));
}

/// The mathematical values of a sequence of nodes, in order.
pub open spec fn children_views(cs: Seq<HtmlNode>) -> Seq<HtmlNodeView>
    decreases cs,
{
    if cs.len() == 0 {
        Seq::empty()
    } else {
        seq![node_view(cs[0])] + children_views(cs.subrange(1, cs.len() as int))
    }
}

/// `children_views` maps each node of the sequence to its view.
pub proof fn lemma_children_views(cs: Seq<HtmlNode>)
    ensures
        children_views(cs).len() == cs.len(),
        forall|i: int| 0 <= i < cs.len() ==> children_views(cs)[i] == node_view(cs[i]),
    decreases cs.len(),
{
    if cs.len() > 0 {
        lemma_children_views(cs.subrange(1, cs.len() as int));
        assert forall|i: int| 0 <= i < cs.len() implies children_views(cs)[i] == node_view(
            cs[i],
        ) by {
            if i > 0 {
                assert(cs.subrange(1, cs.len() as int)[i - 1] == cs[i]);
            }
        }
    }
}

impl View for HtmlNode {
    type V = HtmlNodeView;

    open spec fn view(&self) -> HtmlNodeView {
        node_view(*self)
    }
}

/// The view of an attribute list: each key and value as characters.
pub open spec fn spec_props_view(props: Option<Vec<(String, String)>>) -> Option<
    Seq<(Seq<char>, Seq<char>)>,
> {
    match props {
        None => None,
        Some(ps) => Some(Seq::new(ps@.len(), |i: int| (ps@[i].0@, ps@[i].1@))),
    }
}

/// The rendering of an attribute list: ` key="value"` for each attribute,
/// in list order.
pub open spec fn spec_props_html(props: Seq<(Seq<char>, Seq<char>)>) -> Seq<char>
    decreases props.len(),
{
    if props.len() == 0 {
        Seq::empty()
    } else {
        seq![' '] + props[0].0 + seq!['=', '"'] + props[0].1 + seq!['"'] + spec_props_html(
            props.drop_first(),
        )
    }
}

/// The rendering of the attributes a node carries, if any.
pub open spec fn spec_node_props(props: Option<Seq<(Seq<char>, Seq<char>)>>) -> Seq<char> {
    match props {
        None => Seq::empty(),
        Some(ps) => spec_props_html(ps),
    }
}

/// The serialization of one node: a tag-less leaf renders as its raw text,
/// a tagged leaf as `<tag attrs>text</tag>`, a container as `<tag>` +
/// rendered children + `</tag>`. A leaf without text or a container
/// without a tag is a structural violation.
pub open spec fn spec_render(n: HtmlNodeView) -> Result<Seq<char>, ()>
    decreases n,
{
    if n.children.len() == 0 {
        match n.value {
            None => Err(()),
            Some(text) => match n.tag {
                Some(tag) => Ok(
                    seq!['<'] + tag + spec_node_props(n.props) + seq!['>'] + text + seq!['<', '/']
                        + tag + seq!['>'],
                ),
                None => Ok(text),
            },
        }
    } else {
        match n.tag {
            None => Err(()),
            Some(tag) => match spec_render_children(n.children) {
                Err(e) => Err(e),
                Ok(inner) => Ok(seq!['<'] + tag + seq!['>'] + inner + seq!['<', '/'] + tag + seq!['>']),
            },
        }
    }
}

/// The concatenated serializations of a node sequence; the first
/// structural violation, if any, is the result.
pub open spec fn spec_render_children(nodes: Seq<HtmlNodeView>) -> Result<Seq<char>, ()>
    decreases nodes,
{
    if nodes.len() == 0 {
        Ok(Seq::empty())
    } else {
        match spec_render(nodes[0]) {
            Err(e) => Err(e),
            Ok(head) => match spec_render_children(nodes.drop_first()) {
                Err(e) => Err(e),
                Ok(tail) => Ok(head + tail),
            },
        }
    }
}

/// Extending an already rendered prefix of a node sequence by one node.
pub proof fn lemma_render_children_step(nodes: Seq<HtmlNodeView>, i: int)
    requires
        0 <= i < nodes.len(),
    ensures
        ({
            let pre = spec_render_children(nodes.subrange(0, i));
            let ext = spec_render_children(nodes.subrange(0, i + 1));
            match pre {
                Ok(a) => match spec_render(nodes[i]) {
                    Ok(b) => ext == Ok::<Seq<char>, ()>(a + b),
                    Err(e) => ext is Err,
                },
                Err(e) => ext is Err,
            }
        }),
    decreases i,
{
    if i == 0 {
        assert(nodes.subrange(0, 0) =~= Seq::<HtmlNodeView>::empty());
        assert(nodes.subrange(0, 1).drop_first() =~= Seq::<HtmlNodeView>::empty());
        assert(nodes.subrange(0, 1)[0] == nodes[0]);
        match spec_render(nodes[0]) {
            Ok(b) => {
                assert(Seq::<char>::empty() + b =~= b);
                assert(b + Seq::<char>::empty() =~= b);
            },
            Err(e) => {},
        }
    } else {
        lemma_render_children_step(nodes.drop_first(), i - 1);
        assert(nodes.drop_first().subrange(0, i - 1) =~= nodes.subrange(0, i).drop_first());
        assert(nodes.drop_first().subrange(0, i) =~= nodes.subrange(0, i + 1).drop_first());
        assert(nodes.drop_first()[i - 1] == nodes[i]);
        assert(nodes.subrange(0, i)[0] == nodes[0]);
        assert(nodes.subrange(0, i + 1)[0] == nodes[0]);
        match (spec_render(nodes[0]), spec_render_children(nodes.drop_first().subrange(0, i - 1)),
            spec_render(nodes[i])) {
            (Ok(h0), Ok(a1), Ok(b)) => {
                assert((h0 + a1) + b =~= h0 + (a1 + b));
            },
            _ => {},
        }
    }
}

/// Appending one node to a sequence appends its view to the views.
pub proof fn lemma_children_views_push(v: Seq<HtmlNode>, x: HtmlNode)
    ensures
        children_views(v.push(x)) == children_views(v) + seq![node_view(x)],
{
    lemma_children_views(v.push(x));
    lemma_children_views(v);
    assert(children_views(v.push(x)) =~= children_views(v) + seq![node_view(x)]);
}

impl HtmlNode {
    /// A container node: a required tag, children, optional attributes.
    pub fn parent_node(tag: &str, children: Vec<HtmlNode>, props: Option<Vec<(String, String)>>) -> (r:
        Self)
        ensures
            r@.tag == Some(tag@),
            r@.value is None,
            r@.children.len() == children@.len(),
            forall|i: int| 0 <= i < children@.len() ==> r@.children[i] == children@[i]@,
            r@.props == spec_props_view(props),
    {
        proof {
            lemma_children_views(children@);
        }
        HtmlNode { tag: Some(String::from_str(tag)), value: None, children, props }
    }

    /// A leaf node: text, an optional tag, optional attributes.
    pub fn leaf_node(tag: Option<&str>, value: &str, props: Option<Vec<(String, String)>>) -> (r:
        Self)
        ensures
            r@.tag == match tag {
                Some(t) => Some(t@),
                None => None::<Seq<char>>,
            },
            r@.value == Some(value@),
            r@.children.len() == 0,
            r@.props == spec_props_view(props),
    {
        let tag = match tag {
            None => None,
            Some(s) => Some(String::from_str(s)),
        };
        let r = HtmlNode { tag, value: Some(String::from_str(value)), children: Vec::new(), props };
        assert(r@.children =~= Seq::<HtmlNodeView>::empty());
        r
    }

    /// Renders the attributes of this node as ` key="value"` pairs, in
    /// list order; a node without attributes renders to the empty string.
    pub fn props_to_html(&self) -> (r: String)
        ensures
            r@ == spec_node_props(self@.props),
    {
        let mut result = String::new();
        match &self.props {
            None => {},
            Some(props) => {
                let ghost pview = spec_props_view(self.props)->0;
                let mut i: usize = 0;
                while i < props.len()
                    invariant
                        i <= props@.len(),
                        result@ == spec_props_html(pview.subrange(0, i as int)),
                    decreases props@.len() - i,
                {
                    proof {
                        lemma_props_html_step(pview, i as int);
                        reveal_strlit(" ");
                        reveal_strlit("=\"");
                        reveal_strlit("\"");
                        assert(" "@ =~= seq![' ']);
                        assert("=\""@ =~= seq!['=', '"']);
                        assert("\""@ =~= seq!['"']);
                    }
                    let pair = &props[i];
                    result.append(" ");
                    result.append(pair.0.as_str());
                    result.append("=\"");
                    result.append(pair.1.as_str());
                    result.append("\"");
                    i = i + 1;
                }
                assert(pview.subrange(0, props@.len() as int) =~= pview);
            },
        }
        result
    }

    /// Serializes the tree rooted at this node to one flat HTML string.
    pub fn to_html(&self) -> (r: Result<String, NodeError>)
        ensures
            match spec_render(self@) {
                Ok(h) => r matches Ok(s) && s@ == h,
                Err(e) => r matches Err(f) && f matches NodeError::ValueError(t) && t@
                    == Seq::<char>::empty(),
            },
        decreases *self,
    {
        proof {
            lemma_children_views(self.children@);
            reveal_strlit("<");
            reveal_strlit(">");
            reveal_strlit("</");
            assert("<"@ =~= seq!['<']);
            assert(">"@ =~= seq!['>']);
            assert("</"@ =~= seq!['<', '/']);
        }
        if self.children.len() == 0 {
            assert(self@.children.len() == 0);
            match &self.value {
                None => Err(NodeError::ValueError(String::new())),
                Some(text) => {
                    let props = self.props_to_html();
                    match &self.tag {
                        Some(tag) => {
                            let mut out = String::from_str("<");
                            out.append(tag.as_str());
                            out.append(props.as_str());
                            out.append(">");
                            out.append(text.as_str());
                            out.append("</");
                            out.append(tag.as_str());
                            out.append(">");
                            Ok(out)
                        },
                        None => Ok(String::from_str(text.as_str())),
                    }
                },
            }
        } else {
            match &self.tag {
                None => Err(NodeError::ValueError(String::new())),
                Some(tag) => {
                    let mut out = String::from_str("<");
                    out.append(tag.as_str());
                    out.append(">");
                    let ghost cviews = self@.children;
                    let ghost head = seq!['<'] + tag@ + seq!['>'];
                    let mut i: usize = 0;
                    while i < self.children.len()
                        invariant
                            i <= self.children@.len(),
                            spec_render_children(cviews.subrange(0, i as int)) matches Ok(a)
                                && out@ == head + a,
                        decreases self.children@.len() - i,
                    {
                        proof {
                            lemma_render_children_step(cviews, i as int);
                        }
                        let child = &self.children[i];
                        assert(child@ == cviews[i as int]);
                        match child.to_html() {
                            Err(e) => {
                                proof {
                                    lemma_render_children_prefix_err(cviews, i as int + 1);
                                }
                                return Err(e);
                            },
                            Ok(sub) => {
                                out.append(sub.as_str());
                            },
                        }
                        i = i + 1;
                    }
                    assert(cviews.subrange(0, self.children@.len() as int) =~= cviews);
                    out.append("</");
                    out.append(tag.as_str());
                    out.append(">");
                    Ok(out)
                },
            }
        }
    }
}

/// Extending an already rendered attribute prefix by one attribute.
pub proof fn lemma_props_html_step(props: Seq<(Seq<char>, Seq<char>)>, i: int)
    requires
        0 <= i < props.len(),
    ensures
        spec_props_html(props.subrange(0, i + 1)) == spec_props_html(props.subrange(0, i)) + seq![
            ' ',
        ] + props[i].0 + seq!['=', '"'] + props[i].1 + seq!['"'],
    decreases i,
{
    if i == 0 {
        assert(props.subrange(0, 1).drop_first() =~= props.subrange(0, 0));
        assert(props.subrange(0, 1)[0] == props[0]);
        assert(props.subrange(0, 0) =~= Seq::<(Seq<char>, Seq<char>)>::empty());
        assert(spec_props_html(props.subrange(0, 0)) + seq![' '] + props[0].0 + seq!['=', '"']
            + props[0].1 + seq!['"'] =~= seq![' '] + props[0].0 + seq!['=', '"'] + props[0].1
            + seq!['"']);
    } else {
        lemma_props_html_step(props.drop_first(), i - 1);
        assert(props.drop_first().subrange(0, i - 1) =~= props.subrange(0, i).drop_first());
        assert(props.drop_first().subrange(0, i) =~= props.subrange(0, i + 1).drop_first());
        assert(props.drop_first()[i - 1] == props[i]);
        assert(props.subrange(0, i)[0] == props[0]);
        assert(props.subrange(0, i + 1)[0] == props[0]);
        assert(spec_props_html(props.subrange(0, i + 1)) =~= spec_props_html(props.subrange(0, i))
            + seq![' '] + props[i].0 + seq!['=', '"'] + props[i].1 + seq!['"']);
    }
}

/// A structural violation at position `i` makes the whole sequence err.
pub proof fn lemma_render_children_prefix_err(nodes: Seq<HtmlNodeView>, i: int)
    requires
        0 <= i <= nodes.len(),
        spec_render_children(nodes.subrange(0, i)) is Err,
    ensures
        spec_render_children(nodes) is Err,
    decreases i,
{
    if i == 0 {
        assert(nodes.subrange(0, 0) =~= Seq::<HtmlNodeView>::empty());
    } else {
        let pre = nodes.subrange(0, i);
        assert(pre[0] == nodes[0]);
        if nodes.len() > 0 {
            match spec_render(nodes[0]) {
                Err(e) => {},
                Ok(h) => {
                    assert(pre.drop_first() =~= nodes.drop_first().subrange(0, i - 1));
                    lemma_render_children_prefix_err(nodes.drop_first(), i - 1);
                },
            }
        }
    }
}

} // verus!
