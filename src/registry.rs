use vstd::prelude::*;

use crate::text::{chars_of, lower, string_of, trim_chars, trimmed};

verus! {

/// How the value attribute of a tag is checked.
#[derive(Debug, Clone, Copy, PartialEq, Eq, Structural)]
pub enum ValueCheck {
    /// A colour: a keyword of ASCII letters, or `#` and three or six hex digits.
    Color,
}

/// What a known tag accepts.
#[derive(Debug, Clone, Copy, PartialEq, Eq, Structural)]
pub struct TagSpec {
    /// Whether the tag may carry one value attribute, as in `[color=red]`.
    pub allow_value_attr: bool,
    /// The check that the value attribute must pass, if any.
    pub validate_value_attr: Option<ValueCheck>,
}

/// The table of known tags.
#[derive(Debug, Clone, Copy)]
pub struct TagRegistry;

pub open spec fn simple_spec() -> TagSpec {
    TagSpec { allow_value_attr: false, validate_value_attr: None }
}

pub open spec fn color_spec() -> TagSpec {
    TagSpec { allow_value_attr: true, validate_value_attr: Some(ValueCheck::Color) }
}

/// The entry of the table for a name that is already lowercase.
pub open spec fn tag_spec_of(name: Seq<char>) -> Option<TagSpec> {
    if name == seq!['b'] || name == seq!['i'] {
        Some(simple_spec())
    } else if name == seq!['c', 'o', 'l', 'o', 'r'] {
        Some(color_spec())
    } else {
        None
    }
}

impl TagSpec {
    /// A tag without a value attribute.
    pub fn simple() -> (r: TagSpec)
        ensures
            r == simple_spec(),
    {
        TagSpec { allow_value_attr: false, validate_value_attr: None }
    }
}

impl TagRegistry {
    /// The entry for `tag_name`, looked up in ASCII lowercase.
    pub fn get(tag_name: &str) -> (r: Option<TagSpec>)
        ensures
            r == tag_spec_of(lower(tag_name@)),
    {
        let v = chars_of(tag_name);
        let lc = crate::text::lower_string_of(&v, 0, v.len());
        let l = chars_of(lc.as_str());
        proof {
            assert(v@.subrange(0, v@.len() as int) =~= v@);
        }
        if l.len() == 1 && (l[0] == 'b' || l[0] == 'i') {
            assert(l@ =~= seq![l[0]]);
            Some(TagSpec::simple())
        } else if l.len() == 5 && l[0] == 'c' && l[1] == 'o' && l[2] == 'l' && l[3] == 'o' && l[4]
            == 'r' {
            assert(l@ =~= seq!['c', 'o', 'l', 'o', 'r']);
            Some(TagSpec { allow_value_attr: true, validate_value_attr: Some(ValueCheck::Color) })
        } else {
            proof {
                if l@ == seq!['b'] || l@ == seq!['i'] {
                    assert(l@[0] == 'b' || l@[0] == 'i');
                }
                if l@ == seq!['c', 'o', 'l', 'o', 'r'] {
                    assert(l@[4] == 'r');
                }
            }
            None
        }
    }
}

pub open spec fn is_ascii_alpha(c: char) -> bool {
    ('a' <= c <= 'z') || ('A' <= c <= 'Z')
}

pub open spec fn is_hex_digit(c: char) -> bool {
    ('0' <= c <= '9') || ('a' <= c <= 'f') || ('A' <= c <= 'F')
}

/// A colour value: one or more ASCII letters, or `#` followed by exactly
/// three or exactly six hexadecimal digits.
pub open spec fn is_color_value(s: Seq<char>) -> bool {
    ||| (s.len() > 0 && forall|i: int| 0 <= i < s.len() ==> is_ascii_alpha(#[trigger] s[i]))
    ||| ((s.len() == 4 || s.len() == 7) && s[0] == '#' && forall|i: int|
        1 <= i < s.len() ==> is_hex_digit(#[trigger] s[i]))
}

/// The regular expression of colour values.
pub open spec fn color_pattern() -> Seq<char> {
    "^([A-Za-z]+|#[0-9A-Fa-f]{3}([0-9A-Fa-f]{3})?)$"@
}

/// Relies on regex::Regex::new and regex::Regex::is_match: the colour pattern
/// compiles, and, anchored at both ends of the haystack, matches exactly the
/// texts that `is_color_value` describes.
#[verifier::external_body]
fn regex_matches(pattern: &str, text: &str) -> (r: bool)
    requires
        pattern@ == color_pattern(),
    ensures
        r == is_color_value(text@),
{
    match regex::Regex::new(pattern) {
        Ok(re) => re.is_match(text),
        Err(_) => false,
    }
}

/// Whether `s`, once surrounding white space is trimmed, is a colour value.
pub fn is_valid_color_value(s: &str) -> (r: bool)
    ensures
        r == is_color_value(trimmed(s@)),
{
    let v = chars_of(s);
    let t = trim_chars(&v);
    let ts = string_of(&t, 0, t.len());
    proof {
        assert(t@.subrange(0, t@.len() as int) =~= t@);
    }
    regex_matches("^([A-Za-z]+|#[0-9A-Fa-f]{3}([0-9A-Fa-f]{3})?)$", ts.as_str())
}

/// Whether `v` passes `check`.
pub open spec fn value_ok(check: ValueCheck, v: Seq<char>) -> bool {
    match check {
        ValueCheck::Color => is_color_value(trimmed(v)),
    }
}

/// Runs the check `check` on `v`.
pub fn check_value(check: ValueCheck, v: &str) -> (r: bool)
    ensures
        r == value_ok(check, v@),
{
    match check {
        ValueCheck::Color => is_valid_color_value(v),
    }
}

} // verus!
