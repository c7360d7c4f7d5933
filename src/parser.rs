use vstd::prelude::*;

use crate::ast::{
    lemma_nodes_view_concat, lemma_nodes_view_len, node_view, nodes_view, Element, Node, NodeV,
    Span,
};
use crate::error::{err_view, BbCodeError, ErrV};
use crate::options::BbCodeOptions;
use crate::registry::{check_value, tag_spec_of, value_ok, TagRegistry};
use crate::render::{ast_to_html, html_nodes, value_key};
use crate::text::{
    byte_len, byte_offset, byte_offsets, chars_of, lemma_byte_len_encode, lemma_lower_idempotent,
    is_word, line_col, line_col_of, lower, lower_string_of, string_of, trim_chars, trimmed,
};
use crate::tokenizer::{
    token_view, BBCodeParser, token_wf, tokenize_spec, tokens_view, tokens_wf, Token, TokenV,
};

verus! {

/// The bytes of the characters `s[a..b]`.
pub open spec fn span_of(s: Seq<char>, a: int, b: int) -> Span {
    Span { start: byte_offset(s, a) as usize, end: byte_offset(s, b) as usize }
}

/// `s[a..b]` kept verbatim as text.
pub open spec fn fallback(s: Seq<char>, a: int, b: int) -> NodeV {
    NodeV::Text { span: span_of(s, a, b), text: s.subrange(a, b) }
}

/// The error for the tag block `s[a..b]` that lies too deep.
pub open spec fn depth_error(s: Seq<char>, a: int, b: int, max_depth: nat) -> ErrV {
    ErrV::NestDepthExceeded {
        max_depth,
        near: s.subrange(a, b),
        span: span_of(s, a, b),
        line: line_col(s, a).0,
        column: line_col(s, a).1,
    }
}

/// The attributes of an element whose open tag has the value `attr`.
pub open spec fn element_attrs(s: Seq<char>, attr: Option<(usize, usize)>) -> Seq<(Seq<char>, Seq<char>)> {
    match attr {
        Some((a, b)) => seq![(value_key(), trimmed(s.subrange(a as int, b as int)))],
        None => seq![],
    }
}

/// The nodes that token `t` of input `s` gives at nesting `depth`, after `count`
/// tags, with the tag count after it; or the error that stops the parse.
pub open spec fn build_token(s: Seq<char>, t: TokenV, depth: nat, count: nat, o: BbCodeOptions) -> Result<(Seq<NodeV>, nat), ErrV>
    decreases t,
{
    match t {
        TokenV::Plain { start, end } => Ok(
            (seq![NodeV::Text { span: span_of(s, start as int, end as int), text: s.subrange(start as int, end as int) }], count),
        ),
        TokenV::Escaped { start } => Ok(
            (seq![NodeV::Text { span: span_of(s, start as int, start + 2), text: seq!['['] }], count),
        ),
        TokenV::Unclosed { open } => if count + 1 > o.max_tags {
            Err(ErrV::TagCountExceeded { max_tags: o.max_tags as nat })
        } else {
            Ok((seq![fallback(s, open.start as int, open.end as int)], count + 1))
        },
        TokenV::Block { open, children, close_name, end } => {
            let whole = seq![fallback(s, open.start as int, end as int)];
            let name = lower(s.subrange(open.start + 1, open.name_end as int));
            if depth + 1 > o.max_depth {
                Err(depth_error(s, open.start as int, end as int, o.max_depth as nat))
            } else if count + 1 > o.max_tags {
                Err(ErrV::TagCountExceeded { max_tags: o.max_tags as nat })
            } else if name != lower(s.subrange(close_name.0 as int, close_name.1 as int)) {
                Ok((whole, count + 1))
            } else {
                match tag_spec_of(name) {
                    None => Ok((whole, count + 1)),
                    Some(spec) => match build_seq(s, children, depth + 1, count + 1, o) {
                        Err(e) => Err(e),
                        Ok((kids, c)) => if open.attr is Some && !spec.allow_value_attr {
                            Ok((whole, c))
                        } else if open.attr matches Some((a, b)) && spec.validate_value_attr matches Some(check)
                            && !value_ok(check, s.subrange(a as int, b as int)) {
                            Ok((whole, c))
                        } else {
                            Ok(
                                (
                                    seq![
                                        NodeV::Element {
                                            name,
                                            span: span_of(s, open.start as int, end as int),
                                            attrs: element_attrs(s, open.attr),
                                            children: kids,
                                        },
                                    ],
                                    c,
                                ),
                            )
                        },
                    },
                }
            }
        },
    }
}

/// The nodes that the tokens `ts` give, one after another.
pub open spec fn build_seq(s: Seq<char>, ts: Seq<TokenV>, depth: nat, count: nat, o: BbCodeOptions) -> Result<(Seq<NodeV>, nat), ErrV>
    decreases ts,
{
    if ts.len() == 0 {
        Ok((seq![], count))
    } else {
        match build_seq(s, ts.drop_last(), depth, count, o) {
            Err(e) => Err(e),
            Ok((ns, c)) => match build_token(s, ts.last(), depth, c, o) {
                Err(e) => Err(e),
                Ok((ms, c2)) => Ok((ns + ms, c2)),
            },
        }
    }
}

/// `n` after `out`, merged into the last node of `out` where both are text.
pub open spec fn merge_push(out: Seq<NodeV>, n: NodeV) -> Seq<NodeV> {
    if out.len() > 0 && out.last() is Text && n is Text {
        out.drop_last().push(
            NodeV::Text {
                span: Span { start: out.last()->Text_span.start, end: n->Text_span.end },
                text: out.last()->Text_text + n->Text_text,
            },
        )
    } else {
        out.push(n)
    }
}

/// `n` with adjacent text merged at every level below it.
pub open spec fn normalize_node(n: NodeV) -> NodeV
    decreases n,
{
    match n {
        NodeV::Element { name, span, attrs, children } => NodeV::Element {
            name,
            span,
            attrs,
            children: normalize(children),
        },
        NodeV::Text { .. } => n,
    }
}

/// `s` with adjacent text nodes merged, at every level.
pub open spec fn normalize(s: Seq<NodeV>) -> Seq<NodeV>
    decreases s,
{
    if s.len() == 0 {
        seq![]
    } else {
        merge_push(normalize(s.drop_last()), normalize_node(s.last()))
    }
}

/// What parsing `s` under the limits `o` gives.
pub open spec fn parse_spec(s: Seq<char>, o: BbCodeOptions) -> Result<Seq<NodeV>, ErrV> {
    if byte_len(s) > o.max_input_size {
        Err(ErrV::InputSizeExceeded { max_size: o.max_input_size as nat, actual_size: byte_len(s) })
    } else {
        match tokenize_spec(s) {
            Err(j) => Err(
                ErrV::SyntaxError {
                    position: byte_offset(s, j),
                    line: line_col(s, j).0,
                    column: line_col(s, j).1,
                },
            ),
            Ok(ts) => match build_seq(s, ts, 0, 0, o) {
                Err(e) => Err(e),
                Ok((ns, _)) => Ok(normalize(ns)),
            },
        }
    }
}

/// Whether `offs` holds the byte offset of every character boundary of `s`.
pub open spec fn offsets_of(s: Seq<char>, offs: Seq<usize>) -> bool {
    &&& offs.len() == s.len() + 1
    &&& forall|i: int| 0 <= i <= s.len() ==> offs[i] == byte_offset(s, i)
}

/// The outcome of building, as it relates to its specification.
pub open spec fn built(r: Result<Vec<Node>, BbCodeError>, expected: Result<(Seq<NodeV>, nat), ErrV>, count: usize) -> bool {
    match expected {
        Ok((ns, c)) => r matches Ok(v) && nodes_view(v@) == ns && count == c,
        Err(e) => r matches Err(x) && err_view(x) == e,
    }
}

pub proof fn lemma_tokens_view_index(s: Seq<Token>, k: int)
    requires
        0 <= k < s.len(),
    ensures
        tokens_view(s).len() == s.len(),
        tokens_view(s)[k] == token_view(s[k]),
    decreases s.len(),
{
    lemma_tokens_view_len(s);
    if k < s.len() - 1 {
        lemma_tokens_view_index(s.drop_last(), k);
    }
}

pub proof fn lemma_tokens_view_len(s: Seq<Token>)
    ensures
        tokens_view(s).len() == s.len(),
    decreases s.len(),
{
    if s.len() > 0 {
        lemma_tokens_view_len(s.drop_last());
    }
}

pub proof fn lemma_tokens_view_take(s: Seq<Token>, k: int)
    requires
        0 <= k < s.len(),
    ensures
        tokens_view(s.take(k + 1)) == tokens_view(s.take(k)).push(token_view(s[k])),
{
    assert(s.take(k + 1).drop_last() =~= s.take(k));
}

/// Once a prefix of the tokens fails, so does every longer prefix, with the same error.
pub proof fn lemma_build_seq_err(s: Seq<char>, ts: Seq<TokenV>, m: int, n: int, depth: nat, count: nat, o: BbCodeOptions)
    requires
        0 <= m <= n <= ts.len(),
        build_seq(s, ts.take(m), depth, count, o) is Err,
    ensures
        build_seq(s, ts.take(n), depth, count, o) == build_seq(s, ts.take(m), depth, count, o),
    decreases n - m,
{
    if m < n {
        lemma_build_seq_err(s, ts, m, n - 1, depth, count, o);
        assert(ts.take(n).drop_last() =~= ts.take(n - 1));
    }
}

/// The nodes in one element.
fn one(n: Node) -> (v: Vec<Node>)
    ensures
        v@ == seq![n],
        nodes_view(v@) == seq![node_view(n)],
{
    let mut v: Vec<Node> = Vec::new();
    v.push(n);
    assert(v@ =~= seq![n]);
    assert(v@.drop_last() =~= Seq::<Node>::empty());
    assert(nodes_view(Seq::<Node>::empty()) == Seq::<NodeV>::empty());
    assert(nodes_view(v@) =~= seq![node_view(n)]);
    v
}

/// What building needs while it walks the tokens: the limits, and how many tags
/// it has met.
struct BuildAstContext<'a> {
    opts: &'a BbCodeOptions,
    tag_count: usize,
}

impl<'a> BuildAstContext<'a> {
    fn new(opts: &'a BbCodeOptions) -> (r: Self)
        ensures
            *r.opts == *opts,
            r.tag_count == 0,
    {
        BuildAstContext { opts, tag_count: 0 }
    }

    /// Counts one more tag, then fails where the count is past the limit.
    fn on_tag(&mut self) -> (r: Result<(), BbCodeError>)
        ensures
            *final(self).opts == *old(self).opts,
            old(self).tag_count < usize::MAX ==> final(self).tag_count == old(self).tag_count + 1,
            old(self).tag_count + 1 > old(self).opts.max_tags ==> (r matches Err(e) && err_view(e)
                == (ErrV::TagCountExceeded { max_tags: old(self).opts.max_tags as nat })),
            old(self).tag_count + 1 <= old(self).opts.max_tags ==> r is Ok,
    {
        if self.tag_count < usize::MAX {
            self.tag_count = self.tag_count + 1;
            if self.tag_count > self.opts.max_tags {
                return Err(BbCodeError::TagCountExceeded { max_tags: self.opts.max_tags });
            }
            Ok(())
        } else {
            Err(BbCodeError::TagCountExceeded { max_tags: self.opts.max_tags })
        }
    }

    /// Fails where a tag block `s[a..b]` at `depth` lies deeper than the limit.
    fn check_depth(&self, depth: usize, s: &Vec<char>, offs: &Vec<usize>, a: usize, b: usize) -> (r: Result<(), BbCodeError>)
        requires
            a <= b <= s@.len(),
            a < s@.len(),
            offsets_of(s@, offs@),
        ensures
            depth + 1 > self.opts.max_depth ==> (r matches Err(e) && err_view(e) == depth_error(
                s@,
                a as int,
                b as int,
                self.opts.max_depth as nat,
            )),
            depth + 1 <= self.opts.max_depth ==> r is Ok,
    {
        if depth >= self.opts.max_depth {
            let sp = Span { start: offs[a], end: offs[b] };
            let (line, column) = line_col_of(s, a);
            return Err(
                BbCodeError::NestDepthExceeded {
                    max_depth: self.opts.max_depth,
                    near: string_of(s, a, b),
                    span: sp,
                    line,
                    column,
                },
            );
        }
        Ok(())
    }

    /// Builds the nodes of the tokens `ts` at nesting `depth`.
    fn build_list(&mut self, s: &Vec<char>, offs: &Vec<usize>, ts: &Vec<Token>, depth: usize) -> (r: Result<Vec<Node>, BbCodeError>)
        requires
            offsets_of(s@, offs@),
            tokens_wf(s@, tokens_view(ts@)),
            depth <= old(self).opts.max_depth,
        ensures
            *final(self).opts == *old(self).opts,
            built(
                r,
                build_seq(s@, tokens_view(ts@), depth as nat, old(self).tag_count as nat, *old(self).opts),
                final(self).tag_count,
            ),
        decreases ts@, 0nat,
    {
        let ghost c0 = self.tag_count as nat;
        let ghost o = *self.opts;
        let ghost all = tokens_view(ts@);
        let mut out: Vec<Node> = Vec::new();
        let mut k: usize = 0;
        proof {
            lemma_tokens_view_len(ts@);
            assert(ts@.take(0) =~= Seq::<Token>::empty());
        }
        while k < ts.len()
            invariant
                k <= ts@.len(),
                offsets_of(s@, offs@),
                tokens_wf(s@, all),
                all == tokens_view(ts@),
                all.len() == ts@.len(),
                depth <= o.max_depth,
                *self.opts == o,
                o == *old(self).opts,
                c0 == old(self).tag_count,
                build_seq(s@, tokens_view(ts@.take(k as int)), depth as nat, c0, o) == Ok::<(Seq<NodeV>, nat), ErrV>(
                    (nodes_view(out@), self.tag_count as nat),
                ),
            decreases ts@.len() - k,
        {
            proof {
                lemma_tokens_view_index(ts@, k as int);
                lemma_tokens_view_take(ts@, k as int);
                assert(decreases_to!(ts@ => ts@[k as int]));
            }
            let ghost pre = tokens_view(ts@.take(k as int));
            let ghost next = tokens_view(ts@.take(k + 1));
            assert(next.drop_last() == pre);
            assert(next.last() == token_view(ts@[k as int]));
            match self.build_nodes(s, offs, &ts[k], depth) {
                Ok(mut part) => {
                    let ghost prev = out@;
                    let ghost moved = part@;
                    out.append(&mut part);
                    proof {
                        lemma_nodes_view_concat(prev, moved);
                    }
                },
                Err(e) => {
                    proof {
                        lemma_tokens_view_prefix(ts@, k + 1);
                        assert(all.take(k + 1) == next);
                        assert(build_seq(s@, next, depth as nat, c0, o) is Err);
                        lemma_build_seq_err(s@, all, k + 1, ts@.len() as int, depth as nat, c0, o);
                        assert(all.take(ts@.len() as int) =~= all);
                    }
                    return Err(e);
                },
            }
            k = k + 1;
        }
        proof {
            assert(ts@.take(ts@.len() as int) =~= ts@);
        }
        Ok(out)
    }

    /// Builds the nodes of token `t` at nesting `depth`.
    fn build_nodes(&mut self, s: &Vec<char>, offs: &Vec<usize>, t: &Token, depth: usize) -> (r: Result<Vec<Node>, BbCodeError>)
        requires
            offsets_of(s@, offs@),
            token_wf(s@, token_view(*t)),
            depth <= old(self).opts.max_depth,
        ensures
            *final(self).opts == *old(self).opts,
            built(
                r,
                build_token(s@, token_view(*t), depth as nat, old(self).tag_count as nat, *old(self).opts),
                final(self).tag_count,
            ),
            (*t matches Token::Block { .. }) && depth + 1 > old(self).opts.max_depth ==> final(self).tag_count == old(self).tag_count,
            (*t matches Token::Block { .. }) && depth + 1 <= old(self).opts.max_depth && old(self).tag_count + 1 > old(self).opts.max_tags && old(self).tag_count < usize::MAX ==> final(self).tag_count == old(self).tag_count + 1,
            (*t matches Token::Unclosed { .. }) && old(self).tag_count < usize::MAX ==> final(self).tag_count == old(self).tag_count + 1,
            (*t matches Token::Plain { .. }) || (*t matches Token::Escaped { .. }) ==> final(self).tag_count == old(self).tag_count,
        decreases t, 1nat,
    {
        let n_offs: usize = offs.len();
        assert(s@.len() < n_offs);
        match t {
            Token::Plain { start, end } => {
                let sp = Span { start: offs[*start], end: offs[*end] };
                Ok(one(Node::Text { span: sp, text: string_of(s, *start, *end) }))
            },
            Token::Escaped { start } => {
                let sp = Span { start: offs[*start], end: offs[*start + 2] };
                let mut text = String::new();
                crate::text::push_char(&mut text, '[');
                assert(text@ =~= seq!['[']);
                Ok(one(Node::Text { span: sp, text }))
            },
            Token::Unclosed { open } => {
                match self.on_tag() {
                    Err(e) => {
                        return Err(e);
                    },
                    Ok(()) => {},
                }
                let sp = Span { start: offs[open.start], end: offs[open.end] };
                Ok(one(Node::Text { span: sp, text: string_of(s, open.start, open.end) }))
            },
            Token::Block { open, children, close_name, end } => {
                let ghost o = *self.opts;
                match self.check_depth(depth, s, offs, open.start, *end) {
                    Err(e) => {
                        return Err(e);
                    },
                    Ok(()) => {},
                }
                match self.on_tag() {
                    Err(e) => {
                        return Err(e);
                    },
                    Ok(()) => {},
                }
                let sp = Span { start: offs[open.start], end: offs[*end] };
                let whole = Node::Text { span: sp, text: string_of(s, open.start, *end) };
                let open_lc = lower_string_of(s, open.start + 1, open.name_end);
                let close_lc = lower_string_of(s, close_name.0, close_name.1);
                if !is_word(open_lc.as_str(), close_lc.as_str()) {
                    return Ok(one(whole));
                }
                let spec = match TagRegistry::get(open_lc.as_str()) {
                    Some(sp) => sp,
                    None => {
                        proof {
                            lemma_lower_idempotent(s@.subrange(open.start + 1, open.name_end as int));
                        }
                        return Ok(one(whole));
                    },
                };
                proof {
                    lemma_lower_idempotent(s@.subrange(open.start + 1, open.name_end as int));
                    assert(decreases_to!(t => children));
                }
                let kids = match self.build_list(s, offs, children, depth + 1) {
                    Ok(v) => v,
                    Err(e) => {
                        return Err(e);
                    },
                };
                if open.attr.is_some() && !spec.allow_value_attr {
                    return Ok(one(whole));
                }
                match (open.attr, spec.validate_value_attr) {
                    (Some((a, b)), Some(check)) => {
                        let raw = string_of(s, a, b);
                        if !check_value(check, raw.as_str()) {
                            return Ok(one(whole));
                        }
                    },
                    _ => {},
                }
                let elem = Element::new(open_lc, sp).with_children(kids);
                let elem = match open.attr {
                    Some((a, b)) => {
                        let raw = chars_of(string_of(s, a, b).as_str());
                        let t = trim_chars(&raw);
                        let value = string_of(&t, 0, t.len());
                        let key = String::from_str("value");
                        proof {
                            reveal_strlit("value");
                            assert(t@.subrange(0, t@.len() as int) =~= t@);
                            assert(key@ =~= value_key());
                        }
                        elem.with_attr(key, value)
                    },
                    None => elem,
                };
                proof {
                    assert(crate::ast::attrs_view(elem.attrs@) =~= element_attrs(s@, open.attr));
                }
                Ok(one(Node::Element(elem)))
            },
        }
    }
}

pub proof fn lemma_tokens_view_prefix(s: Seq<Token>, k: int)
    requires
        0 <= k <= s.len(),
    ensures
        tokens_view(s).take(k) == tokens_view(s.take(k)),
{
    lemma_tokens_view_len(s);
    lemma_tokens_view_len(s.take(k));
    assert forall|i: int| 0 <= i < k implies tokens_view(s).take(k)[i] == tokens_view(s.take(k))[i] by {
        lemma_tokens_view_index(s, i);
        lemma_tokens_view_index(s.take(k), i);
    }
    assert(tokens_view(s).take(k) =~= tokens_view(s.take(k)));
}

/// Appends `m` to `out`, merged into the last node where both are text.
fn push_merged(out: &mut Vec<Node>, m: Node)
    ensures
        nodes_view(final(out)@) == merge_push(nodes_view(old(out)@), node_view(m)),
{
    let ghost before = out@;
    proof {
        lemma_nodes_view_len(before);
    }
    let n = out.len();
    let last_is_text = if n > 0 {
        match &out[n - 1] {
            Node::Text { .. } => true,
            _ => false,
        }
    } else {
        false
    };
    let m_is_text = match &m {
        Node::Text { .. } => true,
        _ => false,
    };
    if last_is_text && m_is_text {
        let last = out.pop();
        proof {
            assert(before.drop_last() =~= out@);
            assert(nodes_view(before).last() == node_view(before.last()));
            assert(nodes_view(before).drop_last() == nodes_view(out@));
        }
        match (last, m) {
            (Some(Node::Text { span: ps, text: pt }), Node::Text { span: cs, text: ct }) => {
                let mut merged = pt;
                merged.append(ct.as_str());
                let ghost newv = NodeV::Text { span: Span { start: ps.start, end: cs.end }, text: merged@ };
                let new_node = Node::Text { span: Span { start: ps.start, end: cs.end }, text: merged };
                let ghost nn = new_node;
                assert(node_view(nn) == newv);
                out.push(new_node);
                proof {
                    assert(out@.drop_last() =~= before.drop_last());
                    assert(out@.last() == nn);
                    assert(nodes_view(out@) == nodes_view(before.drop_last()).push(newv));
                    assert(nodes_view(before).last() is Text);
                    assert(node_view(m) is Text);
                }
            },
            (_, m2) => {
                proof {
                    assert(false);
                }
                out.push(m2);
            },
        }
    } else {
        out.push(m);
        proof {
            assert(out@.drop_last() =~= before);
            if n > 0 {
                assert(nodes_view(before).last() == node_view(before.last()));
            }
        }
    }
}

/// `nodes` with adjacent text nodes merged, at every level; a merged node spans
/// from the start of the first to the end of the last.
pub fn normalize_text_nodes(nodes: Vec<Node>) -> (r: Vec<Node>)
    ensures
        nodes_view(r@) == normalize(nodes_view(nodes@)),
    decreases nodes,
{
    let ghost src = nodes@;
    let mut out: Vec<Node> = Vec::new();
    proof {
        assert(src.take(0) =~= Seq::<Node>::empty());
    }
    for n in it: nodes
        invariant
            it.seq() == src,
            nodes_view(out@) == normalize(nodes_view(src.take(it.index() as int))),
    {
        let ghost k = it.index() as int;
        proof {
            assert(decreases_to!(nodes => nodes@));
            assert(decreases_to!(nodes@ => nodes@[k]));
        }
        let ghost nv = node_view(n);
        let m = match n {
            Node::Element(el) => {
                let Element { name, span, attrs, children } = el;
                let kids = normalize_text_nodes(children);
                Node::Element(Element { name, span, attrs, children: kids })
            },
            other => other,
        };
        assert(node_view(m) == normalize_node(nv));
        push_merged(&mut out, m);
        proof {
            let pre = nodes_view(src.take(k));
            let next = nodes_view(src.take(k + 1));
            assert(src.take(k + 1).drop_last() =~= src.take(k));
            assert(next.drop_last() == pre);
            assert(next.last() == nv);
        }
    }
    proof {
        assert(src.take(src.len() as int) =~= src);
    }
    out
}

/// Parses `input` into nodes under the limits `opts`.
pub fn parse_bbcode_to_ast(input: &str, opts: &BbCodeOptions) -> (r: Result<Vec<Node>, BbCodeError>)
    ensures
        match parse_spec(input@, *opts) {
            Ok(ns) => r matches Ok(v) && nodes_view(v@) == ns,
            Err(e) => r matches Err(x) && err_view(x) == e,
        },
{
    let bytes_len = input.as_bytes().len();
    proof {
        lemma_byte_len_encode(input@);
    }
    if bytes_len > opts.max_input_size {
        return Err(
            BbCodeError::InputSizeExceeded { max_size: opts.max_input_size, actual_size: bytes_len },
        );
    }
    let s = chars_of(input);
    let offs = byte_offsets(&s, bytes_len);
    let toks = match BBCodeParser::parse(&s) {
        Ok(v) => v,
        Err(end) => {
            let (line, column) = line_col_of(&s, end);
            return Err(BbCodeError::SyntaxError { position: offs[end], line, column });
        },
    };
    let mut ctx = BuildAstContext::new(opts);
    let nodes = match ctx.build_list(&s, &offs, &toks, 0) {
        Ok(v) => v,
        Err(e) => {
            return Err(e);
        },
    };
    Ok(normalize_text_nodes(nodes))
}

/// Parses `input` under the limits `opts` and renders the nodes as HTML.
pub fn convert(input: &str, opts: &BbCodeOptions) -> (r: Result<String, BbCodeError>)
    ensures
        match parse_spec(input@, *opts) {
            Ok(ns) => r matches Ok(h) && h@ == html_nodes(ns),
            Err(e) => r matches Err(x) && err_view(x) == e,
        },
{
    match parse_bbcode_to_ast(input, opts) {
        Ok(nodes) => Ok(ast_to_html(nodes.as_slice())),
        Err(e) => Err(e),
    }
}

} // verus!
