use vstd::prelude::*;

verus! {

/// A half-open range of byte offsets into the parsed input.
#[derive(Debug, Clone, Copy, PartialEq, Eq, Structural)]
pub struct Span {
    pub start: usize,
    pub end: usize,
}

/// A node of the syntax tree.
#[derive(Debug, PartialEq, Eq)]
pub enum Node {
    /// Literal text: prose, or a malformed construct kept verbatim.
    Text { span: Span, text: String },
    /// A recognised tag with its content.
    Element(Element),
}

/// A recognised tag: lowercase name, `(key, value)` attributes and children.
#[derive(Debug, PartialEq, Eq)]
pub struct Element {
    pub name: String,
    pub span: Span,
    pub attrs: Vec<(String, String)>,
    pub children: Vec<Node>,
}

/// The mathematical value of a node: strings as character sequences.
pub ghost enum NodeV {
    Text { span: Span, text: Seq<char> },
    Element { name: Seq<char>, span: Span, attrs: Seq<(Seq<char>, Seq<char>)>, children: Seq<NodeV> },
}

pub open spec fn attrs_view(a: Seq<(String, String)>) -> Seq<(Seq<char>, Seq<char>)> {
    a.map_values(|p: (String, String)| (p.0@, p.1@))
}

pub open spec fn node_view(n: Node) -> NodeV
    decreases n,
{
    match n {
        Node::Text { span, text } => NodeV::Text { span, text: text@ },
        Node::Element(e) => NodeV::Element {
            name: e.name@,
            span: e.span,
            attrs: attrs_view(e.attrs@),
            children: nodes_view(e.children@),
        },
    }
}

pub open spec fn nodes_view(s: Seq<Node>) -> Seq<NodeV>
    decreases s,
{
    if s.len() == 0 {
        seq![]
    } else {
        nodes_view(s.drop_last()).push(node_view(s.last()))
    }
}

pub proof fn lemma_nodes_view_len(s: Seq<Node>)
    ensures
        nodes_view(s).len() == s.len(),
    decreases s.len(),
{
    if s.len() > 0 {
        lemma_nodes_view_len(s.drop_last());
    }
}

pub proof fn lemma_nodes_view_concat(a: Seq<Node>, b: Seq<Node>)
    ensures
        nodes_view(a + b) == nodes_view(a) + nodes_view(b),
    decreases b.len(),
{
    if b.len() == 0 {
        assert(a + b =~= a);
        assert(nodes_view(a) + nodes_view(b) =~= nodes_view(a));
    } else {
        assert((a + b).drop_last() =~= a + b.drop_last());
        lemma_nodes_view_concat(a, b.drop_last());
        assert(nodes_view(a) + nodes_view(b) =~= (nodes_view(a) + nodes_view(b.drop_last())).push(
            node_view(b.last()),
        ));
    }
}

impl Element {
    /// An element named `name` over `span`, without attributes or children.
    pub fn new(name: String, span: Span) -> (r: Element)
        ensures
            r.name@ == name@,
            r.span == span,
            r.attrs@.len() == 0,
            r.children@.len() == 0,
    {
        Element { name, span, attrs: Vec::new(), children: Vec::new() }
    }

    /// This element with the attribute `(key, value)` added last.
    pub fn with_attr(self, key: String, value: String) -> (r: Element)
        ensures
            r.name == self.name,
            r.span == self.span,
            attrs_view(r.attrs@) == attrs_view(self.attrs@).push((key@, value@)),
            r.children == self.children,
    {
        let mut e = self;
        e.attrs.push((key, value));
        assert(attrs_view(e.attrs@) =~= attrs_view(self.attrs@).push((key@, value@)));
        e
    }

    /// This element with `children` in place of its children.
    pub fn with_children(self, children: Vec<Node>) -> (r: Element)
        ensures
            r.name == self.name,
            r.span == self.span,
            r.attrs == self.attrs,
            r.children == children,
    {
        let mut e = self;
        e.children = children;
        e
    }
}

} // verus!
