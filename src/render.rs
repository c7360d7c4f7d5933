use vstd::prelude::*;

use crate::ast::{nodes_view, node_view, Element, Node, NodeV};
use crate::registry::{check_value, is_color_value, tag_spec_of, TagRegistry};
use crate::text::{chars_of, is_word, lower, trimmed};

verus! {

/// HTML escape of one character.
pub open spec fn escape_char(c: char) -> Seq<char> {
    if c == '&' {
        "&amp;"@
    } else if c == '<' {
        "&lt;"@
    } else if c == '>' {
        "&gt;"@
    } else if c == '"' {
        "&quot;"@
    } else {
        seq![c]
    }
}

/// `&`, `<`, `>` and `"` replaced by their character references.
pub open spec fn escape(s: Seq<char>) -> Seq<char>
    decreases s.len(),
{
    if s.len() == 0 {
        seq![]
    } else {
        escape_char(s[0]) + escape(s.drop_first())
    }
}

/// Every line ending (`\r\n`, `\r` or `\n`) replaced by `<br>`.
pub open spec fn br(s: Seq<char>) -> Seq<char>
    decreases s.len(),
{
    if s.len() == 0 {
        seq![]
    } else if s[0] == '\r' && s.len() > 1 && s[1] == '\n' {
        "<br>"@ + br(s.skip(2))
    } else if s[0] == '\r' || s[0] == '\n' {
        "<br>"@ + br(s.drop_first())
    } else {
        seq![s[0]] + br(s.drop_first())
    }
}

/// The HTML of a text node.
pub open spec fn text_html(t: Seq<char>) -> Seq<char> {
    br(escape(t))
}

pub open spec fn value_key() -> Seq<char> {
    seq!['v', 'a', 'l', 'u', 'e']
}

/// The value of the first attribute whose key is `value`.
pub open spec fn find_value(a: Seq<(Seq<char>, Seq<char>)>) -> Option<Seq<char>>
    decreases a.len(),
{
    if a.len() == 0 {
        None
    } else if a[0].0 == value_key() {
        Some(a[0].1)
    } else {
        find_value(a.drop_first())
    }
}

/// The HTML of a sequence of nodes.
pub open spec fn html_nodes(s: Seq<NodeV>) -> Seq<char>
    decreases s,
{
    if s.len() == 0 {
        seq![]
    } else {
        html_nodes(s.drop_last()) + html_node(s.last())
    }
}

/// The HTML of an element whose children render as `inner`.
pub open spec fn html_element(name: Seq<char>, attrs: Seq<(Seq<char>, Seq<char>)>, inner: Seq<char>) -> Seq<char> {
    if tag_spec_of(lower(name)) is None {
        inner
    } else if name == seq!['b'] {
        "<b>"@ + inner + "</b>"@
    } else if name == seq!['i'] {
        "<i>"@ + inner + "</i>"@
    } else if name == seq!['c', 'o', 'l', 'o', 'r'] {
        match find_value(attrs) {
            None => inner,
            Some(v) => if !is_color_value(trimmed(v)) {
                inner
            } else {
                "<span style=\"color:"@ + escape(v) + "\">"@ + inner + "</span>"@
            },
        }
    } else {
        inner
    }
}

/// The HTML of one node.
pub open spec fn html_node(n: NodeV) -> Seq<char>
    decreases n,
{
    match n {
        NodeV::Text { text, .. } => text_html(text),
        NodeV::Element { name, attrs, children, .. } => html_element(
            name,
            attrs,
            html_nodes(children),
        ),
    }
}

pub proof fn lemma_html_nodes_step(s: Seq<Node>, k: int)
    requires
        0 <= k < s.len(),
    ensures
        html_nodes(nodes_view(s.take(k + 1))) == html_nodes(nodes_view(s.take(k))) + html_node(
            node_view(s[k]),
        ),
{
    assert(s.take(k + 1).drop_last() =~= s.take(k));
    let v = nodes_view(s.take(k + 1));
    assert(v.drop_last() =~= nodes_view(s.take(k)));
}

/// Renders a sequence of nodes as HTML.
pub fn ast_to_html(nodes: &[Node]) -> (r: String)
    ensures
        r@ == html_nodes(nodes_view(nodes@)),
{
    let mut out = String::new();
    let mut k: usize = 0;
    while k < nodes.len()
        invariant
            k <= nodes@.len(),
            out@ == html_nodes(nodes_view(nodes@.take(k as int))),
        decreases nodes@.len() - k,
    {
        render_node(&nodes[k], &mut out);
        proof {
            lemma_html_nodes_step(nodes@, k as int);
        }
        k = k + 1;
    }
    assert(nodes@.take(nodes@.len() as int) =~= nodes@);
    out
}

/// Appends the HTML of `node` to `out`.
pub fn render_node(node: &Node, out: &mut String)
    ensures
        final(out)@ == old(out)@ + html_node(node_view(*node)),
    decreases node, 1nat,
{
    match node {
        Node::Text { text, .. } => {
            let escaped = escape_html(text.as_str());
            let replaced = replace_newline_with_br(escaped.as_str());
            out.append(replaced.as_str());
        },
        Node::Element(el) => render_element(el, out),
    }
}

/// Appends the HTML of the children of `el` to `out`.
fn render_children(el: &Element, out: &mut String)
    ensures
        final(out)@ == old(out)@ + html_nodes(nodes_view(el.children@)),
    decreases el, 0nat,
{
    let ghost start = out@;
    let mut k: usize = 0;
    while k < el.children.len()
        invariant
            k <= el.children@.len(),
            out@ == start + html_nodes(nodes_view(el.children@.take(k as int))),
        decreases el.children@.len() - k,
    {
        assert(decreases_to!(el => el.children@[k as int]));
        render_node(&el.children[k], out);
        proof {
            lemma_html_nodes_step(el.children@, k as int);
        }
        k = k + 1;
    }
    assert(el.children@.take(el.children@.len() as int) =~= el.children@);
}

/// The value of the first attribute of `el` whose key is `value`.
fn value_attr(el: &Element) -> (r: Option<&String>)
    ensures
        r matches Some(v) ==> find_value(crate::ast::attrs_view(el.attrs@)) == Some(v@),
        r is None ==> find_value(crate::ast::attrs_view(el.attrs@)) is None,
{
    let mut k: usize = 0;
    assert(crate::ast::attrs_view(el.attrs@).skip(0) =~= crate::ast::attrs_view(el.attrs@));
    while k < el.attrs.len()
        invariant
            k <= el.attrs@.len(),
            find_value(crate::ast::attrs_view(el.attrs@)) == find_value(
                crate::ast::attrs_view(el.attrs@).skip(k as int),
            ),
        decreases el.attrs@.len() - k,
    {
        let ghost a = crate::ast::attrs_view(el.attrs@).skip(k as int);
        assert(a.drop_first() =~= crate::ast::attrs_view(el.attrs@).skip(k + 1));
        if is_word(el.attrs[k].0.as_str(), "value") {
            proof {
                reveal_strlit("value");
                assert(a[0].0 =~= value_key());
            }
            return Some(&el.attrs[k].1);
        }
        proof {
            reveal_strlit("value");
            assert(a[0].0 != value_key()) by {
                if a[0].0 == value_key() {
                    assert(el.attrs@[k as int].0@ =~= "value"@);
                }
            }
        }
        k = k + 1;
    }
    None
}

/// Appends the HTML of `el` to `out`.
pub fn render_element(el: &Element, out: &mut String)
    ensures
        final(out)@ == old(out)@ + html_node(node_view(Node::Element(*el))),
    decreases el, 2nat,
{
    proof {
        reveal_strlit("b");
        reveal_strlit("i");
        reveal_strlit("color");
    }
    let ghost start = out@;
    let ghost inner = html_nodes(nodes_view(el.children@));
    let ghost name = el.name@;
    let ghost attrs = crate::ast::attrs_view(el.attrs@);
    assert(html_node(node_view(Node::Element(*el))) == html_element(name, attrs, inner));
    if TagRegistry::get(el.name.as_str()).is_none() {
        render_children(el, out);
        return;
    }
    if is_word(el.name.as_str(), "b") {
        assert(name =~= seq!['b']);
        out.append("<b>");
        render_children(el, out);
        out.append("</b>");
        assert(out@ =~= start + ("<b>"@ + inner + "</b>"@));
    } else if is_word(el.name.as_str(), "i") {
        assert(name =~= seq!['i']);
        assert(name[0] != seq!['b'][0]);
        out.append("<i>");
        render_children(el, out);
        out.append("</i>");
        assert(out@ =~= start + ("<i>"@ + inner + "</i>"@));
    } else if is_word(el.name.as_str(), "color") {
        assert(name =~= seq!['c', 'o', 'l', 'o', 'r']);
        assert(name.len() != seq!['b'].len() && name.len() != seq!['i'].len());
        let value = value_attr(el);
        match value {
            None => {
                render_children(el, out);
            },
            Some(color_val) => {
                let mut ok = true;
                if let Some(spec) = TagRegistry::get("color") {
                    if let Some(check) = spec.validate_value_attr {
                        ok = check_value(check, color_val.as_str());
                    }
                }
                if !ok {
                    render_children(el, out);
                    return;
                }
                let escaped_color = escape_html(color_val.as_str());
                out.append("<span style=\"color:");
                out.append(escaped_color.as_str());
                out.append("\">");
                render_children(el, out);
                out.append("</span>");
                assert(out@ =~= start + ("<span style=\"color:"@ + escape(color_val@) + "\">"@
                    + inner + "</span>"@));
            },
        }
    } else {
        proof {
            assert(name != seq!['b']) by {
                if name == seq!['b'] {
                    assert(name =~= "b"@);
                }
            }
            assert(name != seq!['i']) by {
                if name == seq!['i'] {
                    assert(name =~= "i"@);
                }
            }
            assert(name != seq!['c', 'o', 'l', 'o', 'r']) by {
                if name == seq!['c', 'o', 'l', 'o', 'r'] {
                    assert(name =~= "color"@);
                }
            }
        }
        render_children(el, out);
    }
}

/// Replaces `&`, `<`, `>` and `"` by their character references.
pub fn escape_html(input: &str) -> (r: String)
    ensures
        r@ == escape(input@),
{
    let s = chars_of(input);
    let n = s.len();
    let mut out = String::new();
    let mut i: usize = 0;
    proof {
        reveal_strlit("&amp;");
        reveal_strlit("&lt;");
        reveal_strlit("&gt;");
        reveal_strlit("&quot;");
    }
    assert(s@.subrange(0, n as int) =~= s@);
    while i < n
        invariant
            i <= n == s@.len(),
            escape(s@) == out@ + escape(s@.subrange(i as int, n as int)),
        decreases n - i,
    {
        let ghost rest = s@.subrange(i as int, n as int);
        assert(rest.drop_first() =~= s@.subrange(i + 1, n as int));
        let c = s[i];
        if c == '&' {
            out.append("&amp;");
        } else if c == '<' {
            out.append("&lt;");
        } else if c == '>' {
            out.append("&gt;");
        } else if c == '"' {
            out.append("&quot;");
        } else {
            crate::text::push_char(&mut out, c);
        }
        i = i + 1;
    }
    assert(s@.subrange(n as int, n as int) =~= Seq::<char>::empty());
    assert(out@ + Seq::<char>::empty() =~= out@);
    out
}

/// Replaces `\r\n`, `\r` and `\n` by `<br>`.
pub fn replace_newline_with_br(input: &str) -> (r: String)
    ensures
        r@ == br(input@),
{
    let s = chars_of(input);
    let n = s.len();
    let mut out = String::new();
    let mut i: usize = 0;
    proof {
        reveal_strlit("<br>");
    }
    assert(s@.subrange(0, n as int) =~= s@);
    while i < n
        invariant
            i <= n == s@.len(),
            br(s@) == out@ + br(s@.subrange(i as int, n as int)),
        decreases n - i,
    {
        let ghost rest = s@.subrange(i as int, n as int);
        assert(rest.drop_first() =~= s@.subrange(i + 1, n as int));
        let c = s[i];
        if c == '\r' && i + 1 < n && s[i + 1] == '\n' {
            assert(rest.skip(2) =~= s@.subrange(i + 2, n as int));
            out.append("<br>");
            i = i + 2;
        } else if c == '\r' || c == '\n' {
            out.append("<br>");
            i = i + 1;
        } else {
            crate::text::push_char(&mut out, c);
            i = i + 1;
        }
    }
    assert(s@.subrange(n as int, n as int) =~= Seq::<char>::empty());
    assert(out@ + Seq::<char>::empty() =~= out@);
    out
}

} // verus!
