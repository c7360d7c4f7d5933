use vstd::prelude::*;

verus! {

/// Number of bytes of the UTF-8 encoding of `c`.
pub open spec fn utf8_width(c: char) -> nat {
    if (c as u32) < 0x80 {
        1
    } else if (c as u32) < 0x800 {
        2
    } else if (c as u32) < 0x10000 {
        3
    } else {
        4
    }
}

/// Number of bytes of the UTF-8 encoding of `s`.
pub open spec fn byte_len(s: Seq<char>) -> nat
    decreases s.len(),
{
    if s.len() == 0 {
        0
    } else {
        utf8_width(s[0]) + byte_len(s.drop_first())
    }
}

/// Byte offset of the character at index `i` of `s`.
pub open spec fn byte_offset(s: Seq<char>, i: int) -> nat {
    byte_len(s.take(i))
}

pub proof fn lemma_byte_len_concat(a: Seq<char>, b: Seq<char>)
    ensures
        byte_len(a + b) == byte_len(a) + byte_len(b),
    decreases a.len(),
{
    if a.len() == 0 {
        assert(a + b =~= b);
    } else {
        assert((a + b).drop_first() =~= a.drop_first() + b);
        lemma_byte_len_concat(a.drop_first(), b);
    }
}

pub proof fn lemma_byte_offset_step(s: Seq<char>, i: int)
    requires
        0 <= i < s.len(),
    ensures
        byte_offset(s, i + 1) == byte_offset(s, i) + utf8_width(s[i]),
{
    assert(s.take(i + 1) =~= s.take(i) + seq![s[i]]);
    lemma_byte_len_concat(s.take(i), seq![s[i]]);
    assert(seq![s[i]].drop_first() =~= Seq::<char>::empty());
    assert(byte_len(seq![s[i]]) == utf8_width(s[i]) + byte_len(Seq::<char>::empty()));
}

pub proof fn lemma_byte_offset_mono(s: Seq<char>, i: int, j: int)
    requires
        0 <= i <= j <= s.len(),
    ensures
        byte_offset(s, i) <= byte_offset(s, j),
    decreases j - i,
{
    if i < j {
        lemma_byte_offset_mono(s, i, j - 1);
        lemma_byte_offset_step(s, j - 1);
    }
}

/// The byte length that `str::len` reports is the sum of the character widths.
pub proof fn lemma_byte_len_encode(s: Seq<char>)
    ensures
        vstd::utf8::encode_utf8(s).len() == byte_len(s),
    decreases s.len(),
{
    if s.len() > 0 {
        vstd::utf8::char_is_scalar(s[0]);
        lemma_byte_len_encode(s.drop_first());
    }
}

pub proof fn lemma_encode_concat(a: Seq<char>, b: Seq<char>)
    ensures
        vstd::utf8::encode_utf8(a + b) == vstd::utf8::encode_utf8(a) + vstd::utf8::encode_utf8(b),
    decreases a.len(),
{
    if a.len() == 0 {
        assert(a + b =~= b);
        assert(vstd::utf8::encode_utf8(a) + vstd::utf8::encode_utf8(b) =~= vstd::utf8::encode_utf8(b));
    } else {
        assert((a + b).drop_first() =~= a.drop_first() + b);
        lemma_encode_concat(a.drop_first(), b);
        assert((a + b)[0] == a[0]);
        let e0 = vstd::utf8::encode_scalar(a[0] as u32);
        assert(e0 + (vstd::utf8::encode_utf8(a.drop_first()) + vstd::utf8::encode_utf8(b)) =~= (e0
            + vstd::utf8::encode_utf8(a.drop_first())) + vstd::utf8::encode_utf8(b));
    }
}

/// The UTF-8 bytes of the characters `s[a..b]` are the bytes of `s` from
/// `byte_offset(s, a)` to `byte_offset(s, b)`.
pub proof fn lemma_slice_bytes(s: Seq<char>, a: int, b: int)
    requires
        0 <= a <= b <= s.len(),
    ensures
        vstd::utf8::encode_utf8(s.subrange(a, b)) == vstd::utf8::encode_utf8(s).subrange(
            byte_offset(s, a) as int,
            byte_offset(s, b) as int,
        ),
{
    let x = s.take(a);
    let y = s.subrange(a, b);
    let z = s.skip(b);
    assert(s =~= x + y + z);
    assert(s.take(b) =~= x + y);
    lemma_encode_concat(x, y);
    lemma_encode_concat(x + y, z);
    lemma_byte_len_encode(x);
    lemma_byte_len_encode(x + y);
    let ex = vstd::utf8::encode_utf8(x);
    let ey = vstd::utf8::encode_utf8(y);
    let ez = vstd::utf8::encode_utf8(z);
    assert((ex + ey + ez).subrange(ex.len() as int, (ex.len() + ey.len()) as int) =~= ey);
}

/// The characters of `s`, in order.
pub fn chars_of(s: &str) -> (v: Vec<char>)
    ensures
        v@ == s@,
{
    let mut v: Vec<char> = Vec::new();
    for c in it: s.chars()
        invariant
            v@ == it.seq().take(it.index() as int),
    {
        v.push(c);
    }
    v
}

/// Relies on String::push: appends one character.
#[verifier::external_body]
pub(crate) fn push_char(s: &mut String, c: char)
    ensures
        final(s)@ == old(s)@.push(c),
{
    s.push(c);
}

fn char_width(c: char) -> (w: usize)
    ensures
        w == utf8_width(c),
{
    if (c as u32) < 0x80 {
        1
    } else if (c as u32) < 0x800 {
        2
    } else if (c as u32) < 0x10000 {
        3
    } else {
        4
    }
}

/// The byte offset of every character boundary of `s`; `total` is the byte
/// length of `s`.
pub fn byte_offsets(s: &Vec<char>, total: usize) -> (o: Vec<usize>)
    requires
        byte_len(s@) == total,
    ensures
        o@.len() == s@.len() + 1,
        forall|i: int| 0 <= i <= s@.len() ==> o@[i] == byte_offset(s@, i),
{
    let mut o: Vec<usize> = Vec::new();
    let mut acc: usize = 0;
    let mut i: usize = 0;
    assert(s@.take(0) =~= Seq::<char>::empty());
    assert(s@.take(s@.len() as int) =~= s@);
    while i < s.len()
        invariant
            i <= s@.len(),
            o@.len() == i,
            acc == byte_offset(s@, i as int),
            byte_len(s@) == total,
            s@.take(s@.len() as int) == s@,
            forall|k: int| 0 <= k < i ==> o@[k] == byte_offset(s@, k),
        decreases s@.len() - i,
    {
        o.push(acc);
        proof {
            lemma_byte_offset_step(s@, i as int);
            lemma_byte_offset_mono(s@, i as int + 1, s@.len() as int);
        }
        acc = acc + char_width(s[i]);
        i = i + 1;
    }
    o.push(acc);
    o
}

/// The characters `s[a..b]` as a string.
pub fn string_of(s: &Vec<char>, a: usize, b: usize) -> (r: String)
    requires
        a <= b <= s@.len(),
    ensures
        r@ == s@.subrange(a as int, b as int),
{
    let mut r = String::new();
    let mut i: usize = a;
    while i < b
        invariant
            a <= i <= b <= s@.len(),
            r@ == s@.subrange(a as int, i as int),
        decreases b - i,
    {
        push_char(&mut r, s[i]);
        assert(s@.subrange(a as int, i + 1) =~= s@.subrange(a as int, i as int).push(s@[i as int]));
        i = i + 1;
    }
    r
}

/// ASCII lowercase of one character; other characters stay.
pub open spec fn lower_char(c: char) -> char {
    if 'A' <= c <= 'Z' {
        (((c as u32) + 32) as u8) as char
    } else {
        c
    }
}

/// ASCII lowercase of a character sequence.
pub open spec fn lower(s: Seq<char>) -> Seq<char> {
    s.map_values(|c: char| lower_char(c))
}

pub fn lower_char_exec(c: char) -> (r: char)
    ensures
        r == lower_char(c),
{
    if 'A' <= c && c <= 'Z' {
        let b: u8 = ((c as u32) + 32) as u8;
        b as char
    } else {
        c
    }
}

/// The ASCII lowercase of `s[a..b]` as a string.
pub fn lower_string_of(s: &Vec<char>, a: usize, b: usize) -> (r: String)
    requires
        a <= b <= s@.len(),
    ensures
        r@ == lower(s@.subrange(a as int, b as int)),
{
    let mut r = String::new();
    let mut i: usize = a;
    while i < b
        invariant
            a <= i <= b <= s@.len(),
            r@ == lower(s@.subrange(a as int, i as int)),
        decreases b - i,
    {
        let c = lower_char_exec(s[i]);
        push_char(&mut r, c);
        assert(lower(s@.subrange(a as int, i + 1)) =~= lower(s@.subrange(a as int, i as int)).push(c));
        i = i + 1;
    }
    r
}

pub proof fn lemma_lower_idempotent(s: Seq<char>)
    ensures
        lower(lower(s)) == lower(s),
{
    assert(lower(lower(s)) =~= lower(s));
}

/// Unicode `White_Space`, the property that `char::is_whitespace` tests.
pub open spec fn is_white_space(c: char) -> bool {
    let u = c as u32;
    (0x9 <= u <= 0xD) || u == 0x20 || u == 0x85 || u == 0xA0 || u == 0x1680 || (0x2000 <= u
        <= 0x200A) || u == 0x2028 || u == 0x2029 || u == 0x202F || u == 0x205F || u == 0x3000
}

pub fn is_white_space_exec(c: char) -> (r: bool)
    ensures
        r == is_white_space(c),
{
    let u = c as u32;
    (0x9 <= u && u <= 0xD) || u == 0x20 || u == 0x85 || u == 0xA0 || u == 0x1680 || (0x2000 <= u
        && u <= 0x200A) || u == 0x2028 || u == 0x2029 || u == 0x202F || u == 0x205F || u == 0x3000
}

/// Index of the first character of `s[a..b]` that is not white space (`b` if none).
pub open spec fn trim_lo(s: Seq<char>, a: int, b: int) -> int
    decreases b - a,
{
    if a < b && is_white_space(s[a]) {
        trim_lo(s, a + 1, b)
    } else {
        a
    }
}

/// End of `s[a..b]` once trailing white space is cut.
pub open spec fn trim_hi(s: Seq<char>, a: int, b: int) -> int
    decreases b - a,
{
    if a < b && is_white_space(s[b - 1]) {
        trim_hi(s, a, b - 1)
    } else {
        b
    }
}

/// `s` without leading and trailing white space, as `str::trim` gives it.
pub open spec fn trimmed(s: Seq<char>) -> Seq<char> {
    let lo = trim_lo(s, 0, s.len() as int);
    s.subrange(lo, trim_hi(s, lo, s.len() as int))
}

/// The characters of `s` without leading and trailing white space.
pub fn trim_chars(s: &Vec<char>) -> (r: Vec<char>)
    ensures
        r@ == trimmed(s@),
{
    let n = s.len();
    let mut lo: usize = 0;
    while lo < n && is_white_space_exec(s[lo])
        invariant
            lo <= n == s@.len(),
            trim_lo(s@, lo as int, n as int) == trim_lo(s@, 0, n as int),
        decreases n - lo,
    {
        lo = lo + 1;
    }
    let mut hi: usize = n;
    while hi > lo && is_white_space_exec(s[hi - 1])
        invariant
            lo <= hi <= n == s@.len(),
            lo == trim_lo(s@, 0, n as int),
            trim_hi(s@, lo as int, hi as int) == trim_hi(s@, lo as int, n as int),
        decreases hi,
    {
        hi = hi - 1;
    }
    let mut r: Vec<char> = Vec::new();
    let mut i: usize = lo;
    while i < hi
        invariant
            lo <= i <= hi <= n == s@.len(),
            r@ == s@.subrange(lo as int, i as int),
        decreases hi - i,
    {
        r.push(s[i]);
        assert(s@.subrange(lo as int, i + 1) =~= s@.subrange(lo as int, i as int).push(s@[i as int]));
        i = i + 1;
    }
    r
}

/// Line and column, both from 1, of the character at index `i` of `s`;
/// the column counts characters from the last `'\n'` before it.
pub open spec fn line_col(s: Seq<char>, i: int) -> (nat, nat)
    decreases i,
{
    if i <= 0 {
        (1, 1)
    } else {
        let (l, c) = line_col(s, i - 1);
        if s[i - 1] == '\n' {
            (l + 1, 1)
        } else {
            (l, c + 1)
        }
    }
}

pub proof fn lemma_line_col_bounds(s: Seq<char>, i: int)
    requires
        0 <= i,
    ensures
        1 <= line_col(s, i).0 <= i + 1,
        1 <= line_col(s, i).1 <= i + 1,
    decreases i,
{
    if i > 0 {
        lemma_line_col_bounds(s, i - 1);
    }
}

/// `line_col(s, i)` computed.
pub fn line_col_of(s: &Vec<char>, i: usize) -> (r: (usize, usize))
    requires
        i < s@.len(),
    ensures
        r.0 == line_col(s@, i as int).0,
        r.1 == line_col(s@, i as int).1,
{
    let n = s.len();
    let mut line: usize = 1;
    let mut col: usize = 1;
    let mut k: usize = 0;
    while k < i
        invariant
            k <= i < s@.len() == n,
            line == line_col(s@, k as int).0,
            col == line_col(s@, k as int).1,
        decreases i - k,
    {
        proof {
            lemma_line_col_bounds(s@, k as int);
        }
        if s[k] == '\n' {
            line = line + 1;
            col = 1;
        } else {
            col = col + 1;
        }
        k = k + 1;
    }
    (line, col)
}

/// Whether `s` holds exactly the characters of `w`.
pub fn is_word(s: &str, w: &str) -> (r: bool)
    ensures
        r == (s@ == w@),
{
    let a = chars_of(s);
    let b = chars_of(w);
    if a.len() != b.len() {
        return false;
    }
    let mut i: usize = 0;
    while i < a.len()
        invariant
            a@ == s@,
            b@ == w@,
            a@.len() == b@.len(),
            i <= a@.len(),
            forall|k: int| 0 <= k < i ==> a@[k] == b@[k],
        decreases a@.len() - i,
    {
        if a[i] != b[i] {
            assert(a@[i as int] != b@[i as int]);
            assert(s@ != w@) by {
                if s@ == w@ {
                    assert(a@[i as int] == b@[i as int]);
                }
            }
            return false;
        }
        i = i + 1;
    }
    assert(a@ =~= b@);
    true
}

} // verus!
