use vstd::prelude::*;

verus! {

// The grammar, over the characters `s` of the input:
//
//   document = content* EOF
//   content  = tag_block | escaped_bracket | unclosed_tag | text
//   tag_block       = open_tag content* close_tag
//   open_tag        = "[" name ("=" value)? "]"
//   close_tag       = "[/" name "]"
//   escaped_bracket = "\["
//   unclosed_tag    = open_tag
//   text            = one or more characters, none of which is a "[" or a "\" before a "["
//
// where a name is one or more ASCII letters or digits and a value is any run of
// characters without "]" or a newline. Choices are tried in order and repetitions
// are greedy: an open tag whose content is not followed by a close tag is an
// unclosed tag, and what follows it is read as content on its own (that reading
// is the same as the one already made while the close tag was sought).

/// An open tag `s[start..end]`; its name is `s[start + 1..name_end]`, and its value,
/// if any, `s[a..b]` for `attr == Some((a, b))`.
#[derive(Debug, Clone, Copy)]
pub struct OpenTag {
    pub start: usize,
    pub name_end: usize,
    pub attr: Option<(usize, usize)>,
    pub end: usize,
}

/// A piece of the input, positions counted in characters.
#[derive(Debug)]
pub enum Token {
    /// An open tag, its content, and the close tag whose name is
    /// `s[close_name.0..close_name.1]`; the block ends before `end`.
    Block { open: OpenTag, children: Vec<Token>, close_name: (usize, usize), end: usize },
    /// An open tag without a close tag.
    Unclosed { open: OpenTag },
    /// `\[` at `start`.
    Escaped { start: usize },
    /// Text `s[start..end]`.
    Plain { start: usize, end: usize },
}

/// The mathematical value of a token.
pub ghost enum TokenV {
    Block { open: OpenTag, children: Seq<TokenV>, close_name: (usize, usize), end: usize },
    Unclosed { open: OpenTag },
    Escaped { start: usize },
    Plain { start: usize, end: usize },
}

pub open spec fn token_view(t: Token) -> TokenV
    decreases t,
{
    match t {
        Token::Block { open, children, close_name, end } => TokenV::Block {
            open,
            children: tokens_view(children@),
            close_name,
            end,
        },
        Token::Unclosed { open } => TokenV::Unclosed { open },
        Token::Escaped { start } => TokenV::Escaped { start },
        Token::Plain { start, end } => TokenV::Plain { start, end },
    }
}

pub open spec fn tokens_view(s: Seq<Token>) -> Seq<TokenV>
    decreases s,
{
    if s.len() == 0 {
        seq![]
    } else {
        tokens_view(s.drop_last()).push(token_view(s.last()))
    }
}

pub open spec fn is_name_char(c: char) -> bool {
    ('a' <= c <= 'z') || ('A' <= c <= 'Z') || ('0' <= c <= '9')
}

pub open spec fn is_value_char(c: char) -> bool {
    c != ']' && c != '\n'
}

/// Whether a text run stops at index `i`.
pub open spec fn text_stops(s: Seq<char>, i: int) -> bool {
    s[i] == '[' || (s[i] == '\\' && i + 1 < s.len() && s[i + 1] == '[')
}

/// End of the run of name characters from `i`.
pub open spec fn name_end(s: Seq<char>, i: int) -> int
    decreases s.len() - i,
{
    if 0 <= i < s.len() && is_name_char(s[i]) {
        name_end(s, i + 1)
    } else {
        i
    }
}

/// End of the run of value characters from `i`.
pub open spec fn value_end(s: Seq<char>, i: int) -> int
    decreases s.len() - i,
{
    if 0 <= i < s.len() && is_value_char(s[i]) {
        value_end(s, i + 1)
    } else {
        i
    }
}

/// End of the text run from `i`.
pub open spec fn text_end(s: Seq<char>, i: int) -> int
    decreases s.len() - i,
{
    if 0 <= i < s.len() && !text_stops(s, i) {
        text_end(s, i + 1)
    } else {
        i
    }
}

/// The open tag at `i`, if one starts there.
pub open spec fn open_tag(s: Seq<char>, i: int) -> Option<OpenTag> {
    let ne = name_end(s, i + 1);
    if 0 <= i < s.len() && s[i] == '[' && ne > i + 1 && ne < s.len() {
        if s[ne] == ']' {
            Some(OpenTag { start: i as usize, name_end: ne as usize, attr: None, end: (ne + 1) as usize })
        } else if s[ne] == '=' {
            let ve = value_end(s, ne + 1);
            if ve < s.len() && s[ve] == ']' {
                Some(
                    OpenTag {
                        start: i as usize,
                        name_end: ne as usize,
                        attr: Some(((ne + 1) as usize, ve as usize)),
                        end: (ve + 1) as usize,
                    },
                )
            } else {
                None
            }
        } else {
            None
        }
    } else {
        None
    }
}

/// The end of the name of the close tag at `j`, if one starts there.
pub open spec fn close_tag(s: Seq<char>, j: int) -> Option<int> {
    let ne = name_end(s, j + 2);
    if 0 <= j && j + 1 < s.len() && s[j] == '[' && s[j + 1] == '/' && ne > j + 2 && ne < s.len()
        && s[ne] == ']' {
        Some(ne)
    } else {
        None
    }
}

/// The token at `i` and the index after it; `None` where no rule applies.
pub open spec fn content(s: Seq<char>, i: int) -> Option<(TokenV, int)>
    decreases s.len() - i, 0int,
{
    if i < 0 || i >= s.len() {
        None
    } else {
        match open_tag(s, i) {
            Some(o) => if i < o.end <= s.len() {
                let (kids, j) = contents(s, o.end as int);
                match close_tag(s, j) {
                    Some(ce) => Some(
                        (
                            TokenV::Block {
                                open: o,
                                children: kids,
                                close_name: ((j + 2) as usize, ce as usize),
                                end: (ce + 1) as usize,
                            },
                            ce + 1,
                        ),
                    ),
                    None => Some((TokenV::Unclosed { open: o }, o.end as int)),
                }
            } else {
                None
            },
            None => if s[i] == '\\' && i + 1 < s.len() && s[i + 1] == '[' {
                Some((TokenV::Escaped { start: i as usize }, i + 2))
            } else if text_end(s, i) > i {
                Some((TokenV::Plain { start: i as usize, end: text_end(s, i) as usize }, text_end(s, i)))
            } else {
                None
            },
        }
    }
}

/// The tokens from `i` on, as many as the rules give, and the index after them.
pub open spec fn contents(s: Seq<char>, i: int) -> (Seq<TokenV>, int)
    decreases s.len() - i, 1int,
{
    match content(s, i) {
        Some((t, j)) => if i < j <= s.len() {
            let (rest, k) = contents(s, j);
            (seq![t] + rest, k)
        } else {
            (seq![], i)
        },
        None => (seq![], i),
    }
}

/// The tokens of the whole input, or the index where no rule applies.
pub open spec fn tokenize_spec(s: Seq<char>) -> Result<Seq<TokenV>, int> {
    let (ts, j) = contents(s, 0);
    if j == s.len() {
        Ok(ts)
    } else {
        Err(j)
    }
}

/// Every position in `t` lies in `s`, in order.
pub open spec fn token_wf(s: Seq<char>, t: TokenV) -> bool
    decreases t,
{
    match t {
        TokenV::Block { open, children, close_name, end } => {
            &&& open_wf(s, open)
            &&& open.end <= close_name.0 <= close_name.1 <= end <= s.len()
            &&& forall|k: int| 0 <= k < children.len() ==> token_wf(s, #[trigger] children[k])
        },
        TokenV::Unclosed { open } => open_wf(s, open),
        TokenV::Escaped { start } => start + 2 <= s.len(),
        TokenV::Plain { start, end } => start <= end <= s.len(),
    }
}

pub open spec fn open_wf(s: Seq<char>, o: OpenTag) -> bool {
    &&& o.start + 1 <= o.name_end <= o.end <= s.len()
    &&& o.attr matches Some((a, b)) ==> o.name_end <= a <= b <= o.end
}

pub open spec fn tokens_wf(s: Seq<char>, ts: Seq<TokenV>) -> bool {
    forall|k: int| 0 <= k < ts.len() ==> token_wf(s, #[trigger] ts[k])
}

fn scan_name(s: &Vec<char>, i: usize) -> (r: usize)
    requires
        i <= s@.len(),
    ensures
        r == name_end(s@, i as int),
        i <= r <= s@.len(),
{
    let mut k = i;
    while k < s.len() && (('a' <= s[k] && s[k] <= 'z') || ('A' <= s[k] && s[k] <= 'Z') || ('0'
        <= s[k] && s[k] <= '9'))
        invariant
            i <= k <= s@.len(),
            name_end(s@, k as int) == name_end(s@, i as int),
        decreases s@.len() - k,
    {
        k = k + 1;
    }
    k
}

fn scan_value(s: &Vec<char>, i: usize) -> (r: usize)
    requires
        i <= s@.len(),
    ensures
        r == value_end(s@, i as int),
        i <= r <= s@.len(),
{
    let mut k = i;
    while k < s.len() && s[k] != ']' && s[k] != '\n'
        invariant
            i <= k <= s@.len(),
            value_end(s@, k as int) == value_end(s@, i as int),
        decreases s@.len() - k,
    {
        k = k + 1;
    }
    k
}

fn scan_text(s: &Vec<char>, i: usize) -> (r: usize)
    requires
        i <= s@.len(),
    ensures
        r == text_end(s@, i as int),
        i <= r <= s@.len(),
{
    let mut k = i;
    while k < s.len() && !(s[k] == '[' || (s[k] == '\\' && k + 1 < s.len() && s[k + 1] == '['))
        invariant
            i <= k <= s@.len(),
            text_end(s@, k as int) == text_end(s@, i as int),
        decreases s@.len() - k,
    {
        k = k + 1;
    }
    k
}

/// The open tag at `i`, if one starts there.
pub fn read_open_tag(s: &Vec<char>, i: usize) -> (r: Option<OpenTag>)
    requires
        i < s@.len(),
    ensures
        r == open_tag(s@, i as int),
        r matches Some(o) ==> o.start == i && i < o.end && open_wf(s@, o),
{
    let n = s.len();
    if s[i] != '[' || i + 1 > n {
        return None;
    }
    let ne = scan_name(s, i + 1);
    if !(ne > i + 1 && ne < s.len()) {
        return None;
    }
    if s[ne] == ']' {
        Some(OpenTag { start: i, name_end: ne, attr: None, end: ne + 1 })
    } else if s[ne] == '=' {
        let ve = scan_value(s, ne + 1);
        if ve < s.len() && s[ve] == ']' {
            Some(OpenTag { start: i, name_end: ne, attr: Some((ne + 1, ve)), end: ve + 1 })
        } else {
            None
        }
    } else {
        None
    }
}

/// The end of the name of the close tag at `j`, if one starts there.
pub fn read_close_tag(s: &Vec<char>, j: usize) -> (r: Option<usize>)
    requires
        j <= s@.len(),
    ensures
        r matches Some(ce) ==> close_tag(s@, j as int) == Some(ce as int) && j + 2 < ce < s@.len(),
        r is None ==> close_tag(s@, j as int) is None,
{
    let n = s.len();
    if !(n > 0 && j < n - 1 && s[j] == '[' && s[j + 1] == '/') {
        return None;
    }
    let ne = scan_name(s, j + 2);
    if ne > j + 2 && ne < s.len() && s[ne] == ']' {
        Some(ne)
    } else {
        None
    }
}

/// The parser of the grammar above.
#[derive(Debug, Clone, Copy)]
pub struct BBCodeParser;

impl BBCodeParser {
    /// The tokens of the characters `s`, or the index of the first character
    /// where no rule applies.
    pub fn parse(s: &Vec<char>) -> (r: Result<Vec<Token>, usize>)
        ensures
            match tokenize_spec(s@) {
                Ok(ts) => r matches Ok(v) && tokens_view(v@) == ts && tokens_wf(s@, ts),
                Err(j) => r matches Err(k) && k == j && k < s@.len(),
            },
    {
        let (toks, end) = read_contents(s, 0);
        if end != s.len() {
            proof {
                if end < s@.len() {
                } else {
                    assert(end == s@.len());
                }
            }
            return Err(end);
        }
        Ok(toks)
    }
}

pub proof fn lemma_tokens_view_concat(a: Seq<Token>, b: Seq<Token>)
    ensures
        tokens_view(a + b) == tokens_view(a) + tokens_view(b),
    decreases b.len(),
{
    if b.len() == 0 {
        assert(a + b =~= a);
        assert(tokens_view(a) + tokens_view(b) =~= tokens_view(a));
    } else {
        assert((a + b).drop_last() =~= a + b.drop_last());
        lemma_tokens_view_concat(a, b.drop_last());
        assert(tokens_view(a) + tokens_view(b) =~= (tokens_view(a) + tokens_view(b.drop_last())).push(
            token_view(b.last()),
        ));
    }
}

/// Where the tokens from `p` stop, no further token starts.
pub proof fn lemma_contents_stop(s: Seq<char>, p: int)
    ensures
        contents(s, contents(s, p).1) == (Seq::<TokenV>::empty(), contents(s, p).1),
    decreases s.len() - p,
{
    match content(s, p) {
        Some((t, j)) => if p < j <= s.len() {
            lemma_contents_stop(s, j);
        } else {
            assert(contents(s, p).0 =~= Seq::<TokenV>::empty());
        },
        None => {
            assert(contents(s, p).0 =~= Seq::<TokenV>::empty());
        },
    }
}

/// The token at `i` and the index after it. For an unclosed tag, the tokens
/// read after it while its close tag was sought come along, with the index
/// where they stop, so that they are not read twice.
pub fn read_content(s: &Vec<char>, i: usize) -> (r: Option<(Token, usize, Option<(Vec<Token>, usize)>)>)
    requires
        i <= s@.len(),
    ensures
        r matches Some((t, j, _)) ==> content(s@, i as int) == Some((token_view(t), j as int)) && i < j
            <= s@.len() && token_wf(s@, token_view(t)),
        r matches Some((_, j, Some((rest, k)))) ==> contents(s@, j as int) == (
            tokens_view(rest@),
            k as int,
        ) && j <= k <= s@.len() && tokens_wf(s@, tokens_view(rest@)),
        r is None ==> content(s@, i as int) is None,
    decreases s@.len() - i, 0int,
{
    if i >= s.len() {
        return None;
    }
    match read_open_tag(s, i) {
        Some(o) => {
            let (kids, j) = read_contents(s, o.end);
            match read_close_tag(s, j) {
                Some(ce) => {
                    let t = Token::Block { open: o, children: kids, close_name: (j + 2, ce), end: ce + 1 };
                    Some((t, ce + 1, None))
                },
                None => Some((Token::Unclosed { open: o }, o.end, Some((kids, j)))),
            }
        },
        None => {
            if s[i] == '\\' && i + 1 < s.len() && s[i + 1] == '[' {
                Some((Token::Escaped { start: i }, i + 2, None))
            } else {
                let te = scan_text(s, i);
                if te > i {
                    Some((Token::Plain { start: i, end: te }, te, None))
                } else {
                    None
                }
            }
        },
    }
}

/// The tokens from `i` on, and the index after them.
pub fn read_contents(s: &Vec<char>, i: usize) -> (r: (Vec<Token>, usize))
    requires
        i <= s@.len(),
    ensures
        contents(s@, i as int) == (tokens_view(r.0@), r.1 as int),
        i <= r.1 <= s@.len(),
        tokens_wf(s@, tokens_view(r.0@)),
    decreases s@.len() - i, 1int,
{
    let mut toks: Vec<Token> = Vec::new();
    let mut pos = i;
    let mut stuck = false;
    while !stuck && pos < s.len()
        invariant
            i <= pos <= s@.len(),
            contents(s@, i as int) == (
                tokens_view(toks@) + contents(s@, pos as int).0,
                contents(s@, pos as int).1,
            ),
            tokens_wf(s@, tokens_view(toks@)),
            stuck ==> content(s@, pos as int) is None,
        decreases s@.len() - pos + (if stuck { 0int } else { 1int }),
    {
        match read_content(s, pos) {
            Some((t, j, tail)) => {
                let ghost tv = token_view(t);
                let ghost prev = toks@;
                let ghost before = tokens_view(toks@);
                let ghost rest = contents(s@, j as int).0;
                toks.push(t);
                assert(toks@.drop_last() =~= prev);
                assert(tokens_view(toks@) =~= before.push(tv));
                assert(before.push(tv) + rest =~= before + (seq![tv] + rest));
                match tail {
                    None => {
                        pos = j;
                    },
                    Some((mut more, k)) => {
                        let ghost with_t = toks@;
                        let ghost moved = more@;
                        toks.append(&mut more);
                        proof {
                            lemma_tokens_view_concat(with_t, moved);
                            lemma_contents_stop(s@, j as int);
                            assert(tokens_view(with_t) + tokens_view(moved) + Seq::<TokenV>::empty()
                                =~= tokens_view(with_t) + tokens_view(moved));
                            assert forall|q: int| 0 <= q < tokens_view(toks@).len() implies token_wf(
                                s@,
                                #[trigger] tokens_view(toks@)[q],
                            ) by {
                                if q >= tokens_view(with_t).len() {
                                    assert(tokens_view(toks@)[q] == tokens_view(moved)[q
                                        - tokens_view(with_t).len()]);
                                } else {
                                    assert(tokens_view(toks@)[q] == tokens_view(with_t)[q]);
                                }
                            }
                        }
                        pos = k;
                    },
                }
            },
            None => {
                stuck = true;
            },
        }
    }
    assert(contents(s@, pos as int).0 =~= Seq::<TokenV>::empty());
    assert(tokens_view(toks@) + Seq::<TokenV>::empty() =~= tokens_view(toks@));
    (toks, pos)
}

} // verus!
