use vstd::prelude::*;

use crate::ast::{NodeV, Span};
use crate::error::ErrV;
use crate::options::BbCodeOptions;
use crate::parser::{build_seq, build_token, merge_push, normalize, normalize_node, parse_spec, span_of};
use crate::registry::{is_color_value, tag_spec_of, value_ok};
use crate::render::{br, escape, escape_char, find_value, html_node, html_nodes, text_html};
use crate::text::{
    byte_len, byte_offset, is_white_space, lemma_slice_bytes, lower, trim_hi, trim_lo, trimmed,
};
use crate::tokenizer::token_wf;
use vstd::utf8::encode_utf8;
use crate::tokenizer::{tokenize_spec, TokenV};

verus! {

// ---------------------------------------------------------------------------
// Rendered text is inert.

/// Whether `x` starts with `p`, which has `k` characters.
pub open spec fn starts_with(x: Seq<char>, p: Seq<char>, k: int) -> bool {
    x.len() >= k && x.take(k) == p
}

/// Characters that must never appear bare in rendered text.
pub open spec fn is_special(c: char) -> bool {
    c == '&' || c == '<' || c == '>' || c == '"' || c == '\r' || c == '\n'
}

/// `x` is a run of `<br>`, the references `&amp;`, `&lt;`, `&gt;`, `&quot;`, and
/// characters other than `&`, `<`, `>`, `"`, CR and LF.
pub open spec fn safe_html(x: Seq<char>) -> bool
    decreases x.len(),
{
    if x.len() == 0 {
        true
    } else if starts_with(x, "<br>"@, 4) {
        safe_html(x.skip(4))
    } else if starts_with(x, "&amp;"@, 5) {
        safe_html(x.skip(5))
    } else if starts_with(x, "&lt;"@, 4) {
        safe_html(x.skip(4))
    } else if starts_with(x, "&gt;"@, 4) {
        safe_html(x.skip(4))
    } else if starts_with(x, "&quot;"@, 6) {
        safe_html(x.skip(6))
    } else {
        !is_special(x[0]) && safe_html(x.drop_first())
    }
}

proof fn lemma_br_prefix(p: Seq<char>, y: Seq<char>)
    requires
        forall|i: int| 0 <= i < p.len() ==> p[i] != '\r' && p[i] != '\n',
    ensures
        br(p + y) == p + br(y),
    decreases p.len(),
{
    if p.len() > 0 {
        let x = p + y;
        assert(x[0] == p[0]);
        assert(x.drop_first() =~= p.drop_first() + y);
        lemma_br_prefix(p.drop_first(), y);
        assert(seq![p[0]] + (p.drop_first() + br(y)) =~= p + br(y));
    } else {
        assert(p + y =~= y);
        assert(p + br(y) =~= br(y));
    }
}

proof fn lemma_safe_prefix(p: Seq<char>, x: Seq<char>)
    requires
        safe_html(x),
        p == "<br>"@ || p == "&amp;"@ || p == "&lt;"@ || p == "&gt;"@ || p == "&quot;"@ || (p.len()
            == 1 && !is_special(p[0])),
    ensures
        safe_html(p + x),
{
    reveal_strlit("<br>");
    reveal_strlit("&amp;");
    reveal_strlit("&lt;");
    reveal_strlit("&gt;");
    reveal_strlit("&quot;");
    let y = p + x;
    assert(y.skip(p.len() as int) =~= x);
    assert(y.take(p.len() as int) =~= p);
    if p.len() == 1 && !is_special(p[0]) {
        assert(y[0] == p[0]);
        assert(y.drop_first() =~= x);
        assert(!starts_with(y, "<br>"@, 4)) by {
            if starts_with(y, "<br>"@, 4) {
                assert(y.take(4)[0] == '<');
            }
        }
        assert(!starts_with(y, "&amp;"@, 5)) by {
            if starts_with(y, "&amp;"@, 5) {
                assert(y.take(5)[0] == '&');
            }
        }
        assert(!starts_with(y, "&lt;"@, 4)) by {
            if starts_with(y, "&lt;"@, 4) {
                assert(y.take(4)[0] == '&');
            }
        }
        assert(!starts_with(y, "&gt;"@, 4)) by {
            if starts_with(y, "&gt;"@, 4) {
                assert(y.take(4)[0] == '&');
            }
        }
        assert(!starts_with(y, "&quot;"@, 6)) by {
            if starts_with(y, "&quot;"@, 6) {
                assert(y.take(6)[0] == '&');
            }
        }
    } else if p == "<br>"@ {
        assert(starts_with(y, "<br>"@, 4));
    } else if p == "&amp;"@ {
        assert(!starts_with(y, "<br>"@, 4)) by {
            if starts_with(y, "<br>"@, 4) {
                assert(y.take(4)[0] == y[0]);
            }
        }
        assert(starts_with(y, "&amp;"@, 5));
    } else if p == "&lt;"@ {
        assert(!starts_with(y, "<br>"@, 4)) by {
            if starts_with(y, "<br>"@, 4) {
                assert(y.take(4)[0] == y[0]);
            }
        }
        assert(!starts_with(y, "&amp;"@, 5)) by {
            if starts_with(y, "&amp;"@, 5) {
                assert(y.take(5)[1] == y[1]);
            }
        }
        assert(starts_with(y, "&lt;"@, 4));
    } else if p == "&gt;"@ {
        assert(!starts_with(y, "<br>"@, 4)) by {
            if starts_with(y, "<br>"@, 4) {
                assert(y.take(4)[0] == y[0]);
            }
        }
        assert(!starts_with(y, "&amp;"@, 5)) by {
            if starts_with(y, "&amp;"@, 5) {
                assert(y.take(5)[1] == y[1]);
            }
        }
        assert(!starts_with(y, "&lt;"@, 4)) by {
            if starts_with(y, "&lt;"@, 4) {
                assert(y.take(4)[1] == y[1]);
            }
        }
        assert(starts_with(y, "&gt;"@, 4));
    } else {
        assert(!starts_with(y, "<br>"@, 4)) by {
            if starts_with(y, "<br>"@, 4) {
                assert(y.take(4)[0] == y[0]);
            }
        }
        assert(!starts_with(y, "&amp;"@, 5)) by {
            if starts_with(y, "&amp;"@, 5) {
                assert(y.take(5)[1] == y[1]);
            }
        }
        assert(!starts_with(y, "&lt;"@, 4)) by {
            if starts_with(y, "&lt;"@, 4) {
                assert(y.take(4)[1] == y[1]);
            }
        }
        assert(!starts_with(y, "&gt;"@, 4)) by {
            if starts_with(y, "&gt;"@, 4) {
                assert(y.take(4)[1] == y[1]);
            }
        }
        assert(starts_with(y, "&quot;"@, 6));
    }
}

proof fn lemma_escape_first(t: Seq<char>)
    requires
        t.len() > 0,
    ensures
        escape(t).len() > 0,
        escape(t)[0] == escape_char(t[0])[0],
        escape(t)[0] == '\n' <==> t[0] == '\n',
        escape(t)[0] == '\r' <==> t[0] == '\r',
{
    reveal_strlit("&amp;");
    reveal_strlit("&lt;");
    reveal_strlit("&gt;");
    reveal_strlit("&quot;");
}

/// The HTML of any text is inert: every `&`, `<`, `>` and `"` that comes from the
/// text is escaped, and line endings become `<br>`.
pub proof fn lemma_text_html_safe(t: Seq<char>)
    ensures
        safe_html(text_html(t)),
    decreases t.len(),
{
    reveal_strlit("<br>");
    reveal_strlit("&amp;");
    reveal_strlit("&lt;");
    reveal_strlit("&gt;");
    reveal_strlit("&quot;");
    let x = escape(t);
    if t.len() == 0 {
        assert(x.len() == 0);
        return;
    }
    let c = t[0];
    let rest = t.drop_first();
    assert(x == escape_char(c) + escape(rest));
    if c == '\r' && t.len() > 1 && t[1] == '\n' {
        lemma_escape_first(rest);
        assert(escape(rest) == escape_char('\n') + escape(rest.drop_first()));
        assert(rest.drop_first() =~= t.skip(2));
        assert(x.skip(2) =~= escape(t.skip(2)));
        lemma_text_html_safe(t.skip(2));
        assert(br(x) == "<br>"@ + br(x.skip(2)));
        lemma_safe_prefix("<br>"@, br(x.skip(2)));
    } else if c == '\r' || c == '\n' {
        if rest.len() > 0 {
            lemma_escape_first(rest);
        }
        assert(x.drop_first() =~= escape(rest));
        lemma_text_html_safe(rest);
        assert(br(x) == "<br>"@ + br(x.drop_first()));
        lemma_safe_prefix("<br>"@, br(escape(rest)));
    } else {
        let p = escape_char(c);
        assert(forall|i: int| 0 <= i < p.len() ==> p[i] != '\r' && p[i] != '\n');
        lemma_br_prefix(p, escape(rest));
        lemma_text_html_safe(rest);
        lemma_safe_prefix(p, br(escape(rest)));
    }
}

/// Whatever a parse gives, rendering one of its text nodes emits inert HTML.
pub proof fn lemma_rendered_text_safe(n: NodeV)
    requires
        n is Text,
    ensures
        safe_html(html_node(n)),
{
    lemma_text_html_safe(n->Text_text);
}

// ---------------------------------------------------------------------------
// Normalized trees have no adjacent text.

/// No two neighbours in `s` are both text.
pub open spec fn no_adjacent_text(s: Seq<NodeV>) -> bool {
    forall|i: int| 0 <= i < s.len() - 1 ==> !(#[trigger] s[i] is Text && s[i + 1] is Text)
}

/// No two neighbours are both text, at any level of `s`.
pub open spec fn merged_tree(s: Seq<NodeV>) -> bool
    decreases s,
{
    &&& no_adjacent_text(s)
    &&& forall|i: int| 0 <= i < s.len() ==> merged_node(#[trigger] s[i])
}

/// No two neighbours are both text, at any level below `n`.
pub open spec fn merged_node(n: NodeV) -> bool
    decreases n,
{
    match n {
        NodeV::Element { children, .. } => merged_tree(children),
        NodeV::Text { .. } => true,
    }
}

proof fn lemma_merge_push(out: Seq<NodeV>, n: NodeV)
    requires
        merged_tree(out),
        merged_node(n),
    ensures
        merged_tree(merge_push(out, n)),
{
    let r = merge_push(out, n);
    if out.len() > 0 && out.last() is Text && n is Text {
        let m = NodeV::Text {
            span: Span { start: out.last()->Text_span.start, end: n->Text_span.end },
            text: out.last()->Text_text + n->Text_text,
        };
        assert(r == out.drop_last().push(m));
        assert forall|i: int| 0 <= i < r.len() - 1 implies !(#[trigger] r[i] is Text && r[i + 1] is Text) by {
            if i == r.len() - 2 {
                assert(r[i] == out[i]);
                assert(out[i + 1] is Text);
            } else {
                assert(r[i] == out[i] && r[i + 1] == out[i + 1]);
            }
        }
        assert forall|i: int| 0 <= i < r.len() implies merged_node(#[trigger] r[i]) by {
            if i < r.len() - 1 {
                assert(r[i] == out[i]);
            }
        }
    } else {
        assert(r == out.push(n));
        assert forall|i: int| 0 <= i < r.len() - 1 implies !(#[trigger] r[i] is Text && r[i + 1] is Text) by {
            if i == r.len() - 2 {
                assert(r[i] == out.last());
            } else {
                assert(r[i] == out[i] && r[i + 1] == out[i + 1]);
            }
        }
        assert forall|i: int| 0 <= i < r.len() implies merged_node(#[trigger] r[i]) by {
            if i < r.len() - 1 {
                assert(r[i] == out[i]);
            }
        }
    }
}

proof fn lemma_normalize_node_merged(n: NodeV)
    ensures
        merged_node(normalize_node(n)),
    decreases n, 1nat,
{
    match n {
        NodeV::Element { children, .. } => {
            lemma_normalize_merged(children);
        },
        NodeV::Text { .. } => {},
    }
}

/// After normalization no two neighbouring nodes are both text, at any level.
pub proof fn lemma_normalize_merged(s: Seq<NodeV>)
    ensures
        merged_tree(normalize(s)),
    decreases s, 0nat,
{
    if s.len() > 0 {
        lemma_normalize_merged(s.drop_last());
        lemma_normalize_node_merged(s.last());
        lemma_merge_push(normalize(s.drop_last()), normalize_node(s.last()));
    }
}

/// A parse that succeeds gives nodes of which no two neighbours are both text,
/// at any level.
pub proof fn lemma_parse_merged(s: Seq<char>, o: BbCodeOptions)
    ensures
        parse_spec(s, o) matches Ok(ns) ==> merged_tree(ns),
{
    if parse_spec(s, o) is Ok {
        let ts = crate::tokenizer::tokenize_spec(s)->Ok_0;
        let ns = crate::parser::build_seq(s, ts, 0, 0, o)->Ok_0.0;
        lemma_normalize_merged(ns);
    }
}

// ---------------------------------------------------------------------------
// The size limit.

/// An input longer than the limit fails with the limit and its exact byte length,
/// whatever else it holds.
pub proof fn lemma_size_limit(s: Seq<char>, o: BbCodeOptions)
    requires
        byte_len(s) > o.max_input_size,
    ensures
        parse_spec(s, o) == Err::<Seq<NodeV>, ErrV>(
            ErrV::InputSizeExceeded { max_size: o.max_input_size as nat, actual_size: byte_len(s) },
        ),
{
}

// ---------------------------------------------------------------------------
// Rejected tag blocks stay verbatim.

/// The tag block `t` is mismatched, unknown, or carries a value that its tag refuses.
pub open spec fn block_rejected(s: Seq<char>, t: TokenV) -> bool {
    t matches TokenV::Block { open, close_name, .. } && {
        let name = lower(s.subrange(open.start + 1, open.name_end as int));
        ||| name != lower(s.subrange(close_name.0 as int, close_name.1 as int))
        ||| tag_spec_of(name) is None
        ||| (open.attr is Some && !tag_spec_of(name)->0.allow_value_attr)
        ||| (open.attr matches Some((a, b)) && tag_spec_of(name)->0.validate_value_attr matches Some(
            check,
        ) && !value_ok(check, s.subrange(a as int, b as int)))
    }
}

/// A rejected tag block gives one text node that holds its source text, whose
/// UTF-8 bytes are those of the input over the node's span.
pub proof fn lemma_rejected_block_verbatim(s: Seq<char>, t: TokenV, depth: nat, count: nat, o: BbCodeOptions)
    requires
        block_rejected(s, t),
        token_wf(s, t),
        build_token(s, t, depth, count, o) is Ok,
    ensures
        build_token(s, t, depth, count, o)->Ok_0.0 == seq![
            NodeV::Text {
                span: span_of(s, t->Block_open.start as int, t->Block_end as int),
                text: s.subrange(t->Block_open.start as int, t->Block_end as int),
            },
        ],
        encode_utf8(s.subrange(t->Block_open.start as int, t->Block_end as int)) == encode_utf8(
            s,
        ).subrange(
            byte_offset(s, t->Block_open.start as int) as int,
            byte_offset(s, t->Block_end as int) as int,
        ),
{
    lemma_slice_bytes(s, t->Block_open.start as int, t->Block_end as int);
}

// ---------------------------------------------------------------------------
// The tag limit.

/// The limits `o` with the tag count left unbounded.
pub open spec fn without_tag_limit(o: BbCodeOptions) -> BbCodeOptions {
    BbCodeOptions { max_depth: o.max_depth, max_tags: usize::MAX, max_input_size: o.max_input_size }
}

/// How many tags a parse of `s` under `o` meets when their number is not bounded;
/// `None` where it fails for another reason.
pub open spec fn tags_met(s: Seq<char>, o: BbCodeOptions) -> Option<nat> {
    match tokenize_spec(s) {
        Ok(ts) => match build_seq(s, ts, 0, 0, without_tag_limit(o)) {
            Ok((_, c)) => Some(c),
            Err(_) => None,
        },
        Err(_) => None,
    }
}

/// Under a lower tag limit, a build that succeeds either succeeds alike or fails
/// on that limit, exactly when it meets more tags than the limit.
proof fn lemma_tag_bound_token(s: Seq<char>, t: TokenV, d: nat, c: nat, o1: BbCodeOptions, o2: BbCodeOptions)
    requires
        o1.max_depth == o2.max_depth,
        o1.max_tags <= o2.max_tags,
        build_token(s, t, d, c, o2) is Ok,
    ensures
        ({
            let (ns, c2) = build_token(s, t, d, c, o2)->Ok_0;
            &&& c2 >= c
            &&& c <= o1.max_tags ==> build_token(s, t, d, c, o1) == (if c2 > o1.max_tags {
                Err::<(Seq<NodeV>, nat), ErrV>(ErrV::TagCountExceeded { max_tags: o1.max_tags as nat })
            } else {
                Ok::<(Seq<NodeV>, nat), ErrV>((ns, c2))
            })
        }),
    decreases t, 1nat,
{
    match t {
        TokenV::Block { open, children, close_name, end } => {
            let name = lower(s.subrange(open.start + 1, open.name_end as int));
            if name == lower(s.subrange(close_name.0 as int, close_name.1 as int)) && tag_spec_of(name) is Some {
                lemma_tag_bound_seq(s, children, d + 1, c + 1, o1, o2);
            }
        },
        _ => {},
    }
}

proof fn lemma_tag_bound_seq(s: Seq<char>, ts: Seq<TokenV>, d: nat, c: nat, o1: BbCodeOptions, o2: BbCodeOptions)
    requires
        o1.max_depth == o2.max_depth,
        o1.max_tags <= o2.max_tags,
        build_seq(s, ts, d, c, o2) is Ok,
    ensures
        ({
            let (ns, c2) = build_seq(s, ts, d, c, o2)->Ok_0;
            &&& c2 >= c
            &&& c <= o1.max_tags ==> build_seq(s, ts, d, c, o1) == (if c2 > o1.max_tags {
                Err::<(Seq<NodeV>, nat), ErrV>(ErrV::TagCountExceeded { max_tags: o1.max_tags as nat })
            } else {
                Ok::<(Seq<NodeV>, nat), ErrV>((ns, c2))
            })
        }),
    decreases ts, 0nat,
{
    if ts.len() > 0 {
        lemma_tag_bound_seq(s, ts.drop_last(), d, c, o1, o2);
        let c1 = build_seq(s, ts.drop_last(), d, c, o2)->Ok_0.1;
        lemma_tag_bound_token(s, ts.last(), d, c1, o1, o2);
    }
}

/// An input that meets more tags than the limit fails on that limit, with the
/// limit itself. Left out: inputs over the size limit, inputs outside the
/// grammar, and inputs that fail on nesting first; tags inside a block that is
/// kept as text are not met.
pub proof fn lemma_tag_limit(s: Seq<char>, o: BbCodeOptions)
    requires
        byte_len(s) <= o.max_input_size,
        tags_met(s, o) matches Some(c) && c > o.max_tags,
    ensures
        parse_spec(s, o) == Err::<Seq<NodeV>, ErrV>(
            ErrV::TagCountExceeded { max_tags: o.max_tags as nat },
        ),
{
    let ts = tokenize_spec(s)->Ok_0;
    lemma_tag_bound_seq(s, ts, 0, 0, o, without_tag_limit(o));
}

// ---------------------------------------------------------------------------
// The nesting limit.

/// The limits `o` with neither nesting nor tag count bounded.
pub open spec fn unbounded(o: BbCodeOptions) -> BbCodeOptions {
    BbCodeOptions { max_depth: usize::MAX, max_tags: usize::MAX, max_input_size: o.max_input_size }
}

/// Whether the tag block `t` is interpreted: its names match and the tag is known,
/// so that building goes into its content.
pub open spec fn is_structural(s: Seq<char>, t: TokenV) -> bool {
    t matches TokenV::Block { open, close_name, .. } && {
        let name = lower(s.subrange(open.start + 1, open.name_end as int));
        name == lower(s.subrange(close_name.0 as int, close_name.1 as int)) && tag_spec_of(name) is Some
    }
}

/// The deepest nesting level that building reaches in token `t` met at depth `d`.
pub open spec fn nest_token(s: Seq<char>, t: TokenV, d: nat) -> nat
    decreases t,
{
    match t {
        TokenV::Block { children, .. } => if is_structural(s, t) {
            nest_seq(s, children, d + 1)
        } else {
            d + 1
        },
        _ => d,
    }
}

/// The deepest nesting level that building reaches in the tokens `ts` at depth `d`.
pub open spec fn nest_seq(s: Seq<char>, ts: Seq<TokenV>, d: nat) -> nat
    decreases ts,
{
    if ts.len() == 0 {
        d
    } else {
        let a = nest_seq(s, ts.drop_last(), d);
        let b = nest_token(s, ts.last(), d);
        if a >= b {
            a
        } else {
            b
        }
    }
}

/// The first tag block, in the order building meets them, that lies in token `t`
/// (met at depth `d`) at nesting level `level`: its start and end.
pub open spec fn first_at_level_token(s: Seq<char>, t: TokenV, d: nat, level: nat) -> Option<(int, int)>
    decreases t,
{
    match t {
        TokenV::Block { open, children, end, .. } => if d + 1 == level {
            Some((open.start as int, end as int))
        } else if is_structural(s, t) && d + 1 < level {
            first_at_level_seq(s, children, d + 1, level)
        } else {
            None
        },
        _ => None,
    }
}

/// The first tag block, in the order building meets them, that lies in the tokens
/// `ts` (met at depth `d`) at nesting level `level`: its start and end.
pub open spec fn first_at_level_seq(s: Seq<char>, ts: Seq<TokenV>, d: nat, level: nat) -> Option<(int, int)>
    decreases ts,
{
    if ts.len() == 0 {
        None
    } else {
        match first_at_level_seq(s, ts.drop_last(), d, level) {
            Some(w) => Some(w),
            None => first_at_level_token(s, ts.last(), d, level),
        }
    }
}

proof fn lemma_nest_at_least(s: Seq<char>, ts: Seq<TokenV>, d: nat)
    ensures
        nest_seq(s, ts, d) >= d,
    decreases ts,
{
    if ts.len() > 0 {
        lemma_nest_at_least(s, ts.drop_last(), d);
    }
}

proof fn lemma_depth_token(s: Seq<char>, t: TokenV, d: nat, c: nat, o1: BbCodeOptions, o2: BbCodeOptions) -> (w: (int, int))
    requires
        o1.max_depth <= o2.max_depth,
        d <= o1.max_depth,
        build_token(s, t, d, c, o2) is Ok,
        build_token(s, t, d, c, o2)->Ok_0.1 <= o1.max_tags,
    ensures
        nest_token(s, t, d) <= o1.max_depth ==> build_token(s, t, d, c, o1) == build_token(s, t, d, c, o2)
            && first_at_level_token(s, t, d, (o1.max_depth + 1) as nat) is None,
        nest_token(s, t, d) > o1.max_depth ==> first_at_level_token(s, t, d, (o1.max_depth + 1) as nat)
            == Some(w) && build_token(s, t, d, c, o1) == Err::<(Seq<NodeV>, nat), ErrV>(
            crate::parser::depth_error(s, w.0, w.1, o1.max_depth as nat),
        ),
    decreases t, 1nat,
{
    match t {
        TokenV::Block { open, children, close_name, end } => {
            if d + 1 > o1.max_depth {
                if is_structural(s, t) {
                    lemma_nest_at_least(s, children, d + 1);
                }
                (open.start as int, end as int)
            } else if is_structural(s, t) {
                lemma_tag_bound_seq(s, children, d + 1, c + 1, o2, o2);
                lemma_depth_seq(s, children, d + 1, c + 1, o1, o2)
            } else {
                (0, 0)
            }
        },
        _ => (0, 0),
    }
}

proof fn lemma_depth_seq(s: Seq<char>, ts: Seq<TokenV>, d: nat, c: nat, o1: BbCodeOptions, o2: BbCodeOptions) -> (w: (int, int))
    requires
        o1.max_depth <= o2.max_depth,
        d <= o1.max_depth,
        build_seq(s, ts, d, c, o2) is Ok,
        build_seq(s, ts, d, c, o2)->Ok_0.1 <= o1.max_tags,
    ensures
        nest_seq(s, ts, d) <= o1.max_depth ==> build_seq(s, ts, d, c, o1) == build_seq(s, ts, d, c, o2)
            && first_at_level_seq(s, ts, d, (o1.max_depth + 1) as nat) is None,
        nest_seq(s, ts, d) > o1.max_depth ==> first_at_level_seq(s, ts, d, (o1.max_depth + 1) as nat)
            == Some(w) && build_seq(s, ts, d, c, o1) == Err::<(Seq<NodeV>, nat), ErrV>(
            crate::parser::depth_error(s, w.0, w.1, o1.max_depth as nat),
        ),
    decreases ts, 0nat,
{
    if ts.len() == 0 {
        (0, 0)
    } else {
        let c1 = build_seq(s, ts.drop_last(), d, c, o2)->Ok_0.1;
        lemma_tag_bound_token(s, ts.last(), d, c1, o2, o2);
        let w1 = lemma_depth_seq(s, ts.drop_last(), d, c, o1, o2);
        if nest_seq(s, ts.drop_last(), d) > o1.max_depth {
            w1
        } else {
            lemma_depth_token(s, ts.last(), d, c1, o1, o2)
        }
    }
}

/// An input whose nesting goes past the limit fails on that limit, and the
/// error names the first tag block, in input order, that building meets at one
/// level past the limit (the deepest one allowed to offend, not the outermost):
/// its source text, its span in bytes, and its line and column in characters. Left
/// out: inputs over the size limit, inputs outside the grammar, and inputs that
/// meet more tags than their limit; blocks inside a block kept as text are not met.
pub proof fn lemma_depth_limit(s: Seq<char>, o: BbCodeOptions) -> (w: (int, int))
    requires
        byte_len(s) <= o.max_input_size,
        tokenize_spec(s) is Ok,
        build_seq(s, tokenize_spec(s)->Ok_0, 0, 0, unbounded(o)) matches Ok((_, c)) && c <= o.max_tags,
        nest_seq(s, tokenize_spec(s)->Ok_0, 0) > o.max_depth,
    ensures
        first_at_level_seq(s, tokenize_spec(s)->Ok_0, 0, (o.max_depth + 1) as nat) == Some(w),
        parse_spec(s, o) == Err::<Seq<NodeV>, ErrV>(
            crate::parser::depth_error(s, w.0, w.1, o.max_depth as nat),
        ),
{
    let ts = tokenize_spec(s)->Ok_0;
    lemma_depth_seq(s, ts, 0, 0, o, unbounded(o))
}

// ---------------------------------------------------------------------------
// The whole rendered output is inert.

/// `p` occurs in `x` from index `i` on.
pub open spec fn occurs_at(x: Seq<char>, i: int, p: Seq<char>) -> bool {
    0 <= i && i + p.len() <= x.len() && x.subrange(i, i + p.len()) == p
}

/// The character references that escaping writes.
pub open spec fn is_entity(p: Seq<char>) -> bool {
    p == "&amp;"@ || p == "&lt;"@ || p == "&gt;"@ || p == "&quot;"@
}

/// The opening tag that gives the colour `v`.
pub open spec fn span_open(v: Seq<char>) -> Seq<char> {
    "<span style=\"color:"@ + v + "\">"@
}

/// The markup that rendering writes: the tags of bold, italic and line breaks, and
/// the colour span, whose value is a colour once white space is trimmed.
pub open spec fn is_markup(p: Seq<char>) -> bool {
    ||| p == "<b>"@
    ||| p == "</b>"@
    ||| p == "<i>"@
    ||| p == "</i>"@
    ||| p == "<br>"@
    ||| p == "</span>"@
    ||| exists|v: Seq<char>| is_color_value(trimmed(v)) && #[trigger] span_open(v) == p
}

/// The `&` at index `i` of `x` begins a character reference.
pub open spec fn begins_entity(x: Seq<char>, i: int) -> bool {
    exists|p: Seq<char>| is_entity(p) && #[trigger] occurs_at(x, i, p)
}

/// Index `i` of `x` lies inside a piece of markup.
pub open spec fn in_markup(x: Seq<char>, i: int) -> bool {
    exists|a: int, p: Seq<char>| is_markup(p) && #[trigger] occurs_at(x, a, p) && a <= i < a + p.len()
}

/// Every `&` of `x` begins a character reference, and every `<`, `>` and `"`
/// lies inside markup.
pub open spec fn inert_html(x: Seq<char>) -> bool {
    forall|i: int|
        0 <= i < x.len() ==> (#[trigger] x[i] == '&' ==> begins_entity(x, i)) && ((x[i] == '<' || x[i]
            == '>' || x[i] == '"') ==> in_markup(x, i))
}

proof fn lemma_occurs_left(a: Seq<char>, b: Seq<char>, i: int, p: Seq<char>)
    requires
        occurs_at(a, i, p),
    ensures
        occurs_at(a + b, i, p),
{
    assert((a + b).subrange(i, i + p.len()) =~= a.subrange(i, i + p.len()));
}

proof fn lemma_occurs_right(a: Seq<char>, b: Seq<char>, i: int, p: Seq<char>)
    requires
        occurs_at(b, i, p),
    ensures
        occurs_at(a + b, i + a.len(), p),
{
    assert((a + b).subrange(i + a.len(), i + a.len() + p.len()) =~= b.subrange(i, i + p.len()));
}

proof fn lemma_inert_concat(a: Seq<char>, b: Seq<char>)
    requires
        inert_html(a),
        inert_html(b),
    ensures
        inert_html(a + b),
{
    let x = a + b;
    assert forall|i: int| 0 <= i < x.len() implies (#[trigger] x[i] == '&' ==> begins_entity(x, i)) && ((
    x[i] == '<' || x[i] == '>' || x[i] == '"') ==> in_markup(x, i)) by {
        if i < a.len() {
            assert(x[i] == a[i]);
            if a[i] == '&' {
                let p = choose|p: Seq<char>| is_entity(p) && #[trigger] occurs_at(a, i, p);
                lemma_occurs_left(a, b, i, p);
            }
            if a[i] == '<' || a[i] == '>' || a[i] == '"' {
                let (k, p) = choose|k: int, p: Seq<char>|
                    is_markup(p) && #[trigger] occurs_at(a, k, p) && k <= i < k + p.len();
                lemma_occurs_left(a, b, k, p);
            }
        } else {
            let j = i - a.len();
            assert(x[i] == b[j]);
            if b[j] == '&' {
                let p = choose|p: Seq<char>| is_entity(p) && #[trigger] occurs_at(b, j, p);
                lemma_occurs_right(a, b, j, p);
            }
            if b[j] == '<' || b[j] == '>' || b[j] == '"' {
                let (k, p) = choose|k: int, p: Seq<char>|
                    is_markup(p) && #[trigger] occurs_at(b, k, p) && k <= j < k + p.len();
                lemma_occurs_right(a, b, k, p);
            }
        }
    }
}

/// A piece of markup without `&` is inert.
proof fn lemma_inert_markup(p: Seq<char>)
    requires
        is_markup(p),
        forall|i: int| 0 <= i < p.len() ==> p[i] != '&',
    ensures
        inert_html(p),
{
    assert(p.subrange(0, p.len() as int) =~= p);
    assert(occurs_at(p, 0, p));
}

proof fn lemma_inert_entity(p: Seq<char>)
    requires
        is_entity(p),
    ensures
        inert_html(p),
{
    reveal_strlit("&amp;");
    reveal_strlit("&lt;");
    reveal_strlit("&gt;");
    reveal_strlit("&quot;");
    assert(p.subrange(0, p.len() as int) =~= p);
    assert(occurs_at(p, 0, p));
}

/// What `safe_html` describes is inert.
proof fn lemma_safe_inert(x: Seq<char>)
    requires
        safe_html(x),
    ensures
        inert_html(x),
    decreases x.len(),
{
    reveal_strlit("<br>");
    reveal_strlit("&amp;");
    reveal_strlit("&lt;");
    reveal_strlit("&gt;");
    reveal_strlit("&quot;");
    if x.len() == 0 {
        return;
    }
    let k: int = if starts_with(x, "<br>"@, 4) {
        4
    } else if starts_with(x, "&amp;"@, 5) {
        5
    } else if starts_with(x, "&lt;"@, 4) {
        4
    } else if starts_with(x, "&gt;"@, 4) {
        4
    } else if starts_with(x, "&quot;"@, 6) {
        6
    } else {
        1
    };
    let head = x.take(k);
    let tail = x.skip(k);
    assert(x =~= head + tail);
    lemma_safe_inert(tail);
    if starts_with(x, "<br>"@, 4) {
        lemma_inert_markup(head);
    } else if starts_with(x, "&amp;"@, 5) || starts_with(x, "&lt;"@, 4) || starts_with(x, "&gt;"@, 4)
        || starts_with(x, "&quot;"@, 6) {
        lemma_inert_entity(head);
    } else {
        assert(tail =~= x.drop_first());
        assert(head[0] == x[0]);
    }
    lemma_inert_concat(head, tail);
}

proof fn lemma_trim_lo_ws(s: Seq<char>, a: int, b: int)
    requires
        0 <= a <= b <= s.len(),
    ensures
        a <= trim_lo(s, a, b) <= b,
        forall|k: int| a <= k < trim_lo(s, a, b) ==> is_white_space(#[trigger] s[k]),
    decreases b - a,
{
    if a < b && is_white_space(s[a]) {
        lemma_trim_lo_ws(s, a + 1, b);
    }
}

proof fn lemma_trim_hi_ws(s: Seq<char>, a: int, b: int)
    requires
        0 <= a <= b <= s.len(),
    ensures
        a <= trim_hi(s, a, b) <= b,
        forall|k: int| trim_hi(s, a, b) <= k < b ==> is_white_space(#[trigger] s[k]),
    decreases b - a,
{
    if a < b && is_white_space(s[b - 1]) {
        lemma_trim_hi_ws(s, a, b - 1);
    }
}

/// A value that is a colour once trimmed holds no `&`, `<`, `>` or `"`.
proof fn lemma_color_plain(v: Seq<char>)
    requires
        is_color_value(trimmed(v)),
    ensures
        forall|k: int| 0 <= k < v.len() ==> !(#[trigger] v[k] == '&' || v[k] == '<' || v[k] == '>' || v[k] == '"'),
{
    let n = v.len() as int;
    lemma_trim_lo_ws(v, 0, n);
    let lo = trim_lo(v, 0, n);
    lemma_trim_hi_ws(v, lo, n);
    let hi = trim_hi(v, lo, n);
    let t = trimmed(v);
    assert forall|k: int| 0 <= k < v.len() implies !(#[trigger] v[k] == '&' || v[k] == '<' || v[k] == '>'
        || v[k] == '"') by {
        if lo <= k < hi {
            assert(v[k] == t[k - lo]);
        }
    }
}

proof fn lemma_escape_plain(v: Seq<char>)
    requires
        forall|k: int| 0 <= k < v.len() ==> !(#[trigger] v[k] == '&' || v[k] == '<' || v[k] == '>' || v[k] == '"'),
    ensures
        escape(v) == v,
    decreases v.len(),
{
    if v.len() > 0 {
        lemma_escape_plain(v.drop_first());
        assert(seq![v[0]] + v.drop_first() =~= v);
    }
}

proof fn lemma_html_node_inert(n: NodeV)
    ensures
        inert_html(html_node(n)),
    decreases n, 1nat,
{
    reveal_strlit("<b>");
    reveal_strlit("</b>");
    reveal_strlit("<i>");
    reveal_strlit("</i>");
    reveal_strlit("</span>");
    reveal_strlit("<span style=\"color:");
    reveal_strlit("\">");
    match n {
        NodeV::Text { text, .. } => {
            lemma_text_html_safe(text);
            lemma_safe_inert(text_html(text));
        },
        NodeV::Element { name, attrs, children, .. } => {
            lemma_html_nodes_inert(children);
            let inner = html_nodes(children);
            if tag_spec_of(lower(name)) is None {
            } else if name == seq!['b'] {
                lemma_inert_markup("<b>"@);
                lemma_inert_markup("</b>"@);
                lemma_inert_concat("<b>"@, inner);
                lemma_inert_concat("<b>"@ + inner, "</b>"@);
            } else if name == seq!['i'] {
                lemma_inert_markup("<i>"@);
                lemma_inert_markup("</i>"@);
                lemma_inert_concat("<i>"@, inner);
                lemma_inert_concat("<i>"@ + inner, "</i>"@);
            } else if name == seq!['c', 'o', 'l', 'o', 'r'] {
                match find_value(attrs) {
                    None => {},
                    Some(v) => if is_color_value(trimmed(v)) {
                        lemma_color_plain(v);
                        lemma_escape_plain(v);
                        let open = span_open(v);
                        assert(is_markup(open));
                        assert forall|i: int| 0 <= i < open.len() implies open[i] != '&' by {
                            let l1 = "<span style=\"color:"@;
                            if i < l1.len() {
                                assert(open[i] == l1[i]);
                            } else if i < l1.len() + v.len() {
                                assert(open[i] == v[i - l1.len()]);
                            } else {
                                assert(open[i] == "\">"@[i - l1.len() - v.len()]);
                            }
                        }
                        lemma_inert_markup(open);
                        lemma_inert_markup("</span>"@);
                        lemma_inert_concat(open, inner);
                        lemma_inert_concat(open + inner, "</span>"@);
                        assert(html_node(n) == open + inner + "</span>"@);
                    },
                }
            }
        },
    }
}

proof fn lemma_html_nodes_inert(s: Seq<NodeV>)
    ensures
        inert_html(html_nodes(s)),
    decreases s, 0nat,
{
    if s.len() > 0 {
        lemma_html_nodes_inert(s.drop_last());
        lemma_html_node_inert(s.last());
        lemma_inert_concat(html_nodes(s.drop_last()), html_node(s.last()));
    }
}

/// Rendering any sequence of nodes, a parse's result included, gives inert HTML:
/// every `&` begins `&amp;`, `&lt;`, `&gt;` or `&quot;`, and every `<`, `>` and
/// `"` lies inside `<b>`, `</b>`, `<i>`, `</i>`, `<br>`, `</span>`, or a colour
/// span whose value is a colour once white space is trimmed.
pub proof fn lemma_rendered_output_inert(s: Seq<NodeV>)
    ensures
        inert_html(html_nodes(s)),
{
    lemma_html_nodes_inert(s);
}

} // verus!
