//! Splitting one content line, `PROPNAME[;PARAM=VAL]*:VALUE`, into its
//! property name, its parameters and its value.

use vstd::prelude::*;
use vstd::string::*;

verus! {

/// The properties that a recurrence description is made of.
#[derive(Debug, PartialEq, Eq, Clone, Copy)]
pub enum PropertyName {
    RRule,
    ExRule,
    ExDate,
    RDate,
    DtStart,
}

/// The three parts of a content line. `parameters` is what stands between the
/// first `;` after the name and the first `:`; `value` is what follows the
/// first `:`.
#[derive(Debug, PartialEq, Clone)]
pub struct ContentLineCaptures<'a> {
    pub property_name: PropertyName,
    pub parameters: Option<&'a str>,
    pub value: &'a str,
}

/// A content line that cannot be read. It carries the offending line.
#[derive(Debug, PartialEq, Eq, Clone)]
pub enum ParseError {
    /// The line opens with a name that is none of the known properties.
    UnrecognizedPropertyName(String),
}

/// Whether `c` is an upper-case letter of the Latin alphabet.
pub open spec fn is_upper(c: char) -> bool {
    'A' <= c && c <= 'Z'
}

/// The length of the longest prefix of `s` made of upper-case letters only.
pub open spec fn upper_run(s: Seq<char>) -> int
    decreases s.len(),
{
    if s.len() > 0 && is_upper(s[0]) {
        1 + upper_run(s.skip(1))
    } else {
        0
    }
}

/// The length of the longest prefix of `s` that holds no colon: the index of
/// the first colon, or the length of `s` where it has none.
pub open spec fn colon_free_run(s: Seq<char>) -> int
    decreases s.len(),
{
    if s.len() > 0 && s[0] != ':' {
        1 + colon_free_run(s.skip(1))
    } else {
        0
    }
}

/// The name at the head of a line: one or more upper-case letters directly
/// followed by `:` or `;`.
pub open spec fn leading_name(s: Seq<char>) -> Option<Seq<char>> {
    let n = upper_run(s);
    if 1 <= n && n < s.len() && (s[n] == ':' || s[n] == ';') {
        Some(s.subrange(0, n))
    } else {
        None
    }
}

/// The property that a name stands for, if any.
pub open spec fn property_of(name: Seq<char>) -> Option<PropertyName> {
    if name == "RRULE"@ {
        Some(PropertyName::RRule)
    } else if name == "EXRULE"@ {
        Some(PropertyName::ExRule)
    } else if name == "EXDATE"@ {
        Some(PropertyName::ExDate)
    } else if name == "RDATE"@ {
        Some(PropertyName::RDate)
    } else if name == "DTSTART"@ {
        Some(PropertyName::DtStart)
    } else {
        None
    }
}

/// What follows the first colon of `s`; empty where `s` has no colon.
pub open spec fn value_part(s: Seq<char>) -> Seq<char> {
    let c = colon_free_run(s);
    if c < s.len() {
        s.subrange(c + 1, s.len() as int)
    } else {
        Seq::empty()
    }
}

/// The parameters of a line whose name is `n` characters long: what stands
/// between the `;` behind the name and the first colon.
pub open spec fn parameters_part(s: Seq<char>, n: int) -> Option<Seq<char>> {
    let c = colon_free_run(s);
    if n < s.len() && s[n] == ';' && c < s.len() {
        Some(s.subrange(n + 1, c))
    } else {
        None
    }
}

/// A prefix of upper-case letters that ends at the first other character is
/// the upper-case run.
pub proof fn lemma_upper_run(s: Seq<char>, n: int)
    requires
        0 <= n <= s.len(),
        forall|i: int| 0 <= i < n ==> is_upper(#[trigger] s[i]),
        n == s.len() || !is_upper(s[n]),
    ensures
        upper_run(s) == n,
    decreases n,
{
    if n > 0 {
        let t = s.skip(1);
        assert forall|i: int| 0 <= i < n - 1 implies is_upper(#[trigger] t[i]) by {
            assert(t[i] == s[i + 1]);
        }
        lemma_upper_run(t, n - 1);
    }
}

/// A prefix without colon that ends at the first colon is the colon-free run.
pub proof fn lemma_colon_free_run(s: Seq<char>, n: int)
    requires
        0 <= n <= s.len(),
        forall|i: int| 0 <= i < n ==> #[trigger] s[i] != ':',
        n == s.len() || s[n] == ':',
    ensures
        colon_free_run(s) == n,
    decreases n,
{
    if n > 0 {
        let t = s.skip(1);
        assert forall|i: int| 0 <= i < n - 1 implies #[trigger] t[i] != ':' by {
            assert(t[i] == s[i + 1]);
        }
        lemma_colon_free_run(t, n - 1);
    }
}

/// Whether `c` is an upper-case letter of the Latin alphabet.
fn is_upper_char(c: char) -> (b: bool)
    ensures
        b == is_upper(c),
{
    'A' <= c && c <= 'Z'
}

/// Counts the upper-case letters at the head of `val`.
fn scan_upper(val: &str, len: usize) -> (n: usize)
    requires
        len == val@.len(),
    ensures
        n == upper_run(val@),
        n <= len,
{
    let mut i: usize = 0;
    while i < len && is_upper_char(val.get_char(i))
        invariant
            len == val@.len(),
            i <= len,
            forall|j: int| 0 <= j < i ==> is_upper(#[trigger] val@[j]),
        decreases len - i,
    {
        i += 1;
    }
    proof {
        lemma_upper_run(val@, i as int);
    }
    i
}

/// Finds the first colon of `val`, or its length.
fn scan_colon(val: &str, len: usize) -> (n: usize)
    requires
        len == val@.len(),
    ensures
        n == colon_free_run(val@),
        n <= len,
{
    let mut i: usize = 0;
    while i < len && val.get_char(i) != ':'
        invariant
            len == val@.len(),
            i <= len,
            forall|j: int| 0 <= j < i ==> #[trigger] val@[j] != ':',
        decreases len - i,
    {
        i += 1;
    }
    proof {
        lemma_colon_free_run(val@, i as int);
    }
    i
}

/// Whether the first `n` characters of `val` spell `word`.
fn head_is(val: &str, n: usize, word: &str) -> (b: bool)
    requires
        n <= val@.len(),
    ensures
        b == (val@.subrange(0, n as int) == word@),
{
    let wlen = word.unicode_len();
    if wlen != n {
        return false;
    }
    let mut i: usize = 0;
    while i < n
        invariant
            i <= n,
            n <= val@.len(),
            n == word@.len(),
            forall|j: int| 0 <= j < i ==> val@[j] == word@[j],
        decreases n - i,
    {
        if val.get_char(i) != word.get_char(i) {
            proof {
                assert(val@.subrange(0, n as int)[i as int] == val@[i as int]);
            }
            return false;
        }
        i += 1;
    }
    proof {
        assert(val@.subrange(0, n as int) =~= word@);
    }
    true
}

/// The property named at the head of a line.
///
/// `Ok(None)` where the line opens with no name, `Ok(Some(..))` where it
/// opens with a known one, and an error where the name is unknown.
pub fn get_property_name(val: &str) -> (r: Result<Option<PropertyName>, ParseError>)
    ensures
        match leading_name(val@) {
            None => r == Ok::<Option<PropertyName>, ParseError>(None),
            Some(name) => match property_of(name) {
                Some(p) => r == Ok::<Option<PropertyName>, ParseError>(Some(p)),
                None => r matches Err(ParseError::UnrecognizedPropertyName(line)) && line@ == val@,
            },
        },
{
    let len = val.unicode_len();
    let n = scan_upper(val, len);
    if n == 0 || n >= len {
        return Ok(None);
    }
    let c = val.get_char(n);
    if c != ':' && c != ';' {
        return Ok(None);
    }
    if head_is(val, n, "RRULE") {
        Ok(Some(PropertyName::RRule))
    } else if head_is(val, n, "EXRULE") {
        Ok(Some(PropertyName::ExRule))
    } else if head_is(val, n, "EXDATE") {
        Ok(Some(PropertyName::ExDate))
    } else if head_is(val, n, "RDATE") {
        Ok(Some(PropertyName::RDate))
    } else if head_is(val, n, "DTSTART") {
        Ok(Some(PropertyName::DtStart))
    } else {
        Err(ParseError::UnrecognizedPropertyName(val.to_owned()))
    }
}

/// The property of a line: the one that its name stands for, `RRULE` where
/// it opens with no name. `None` where the name is unknown.
pub open spec fn line_property(s: Seq<char>) -> Option<PropertyName> {
    match leading_name(s) {
        None => Some(PropertyName::RRule),
        Some(name) => property_of(name),
    }
}

/// What `get_content_line_parts` returns for a line, over its characters: the
/// property, the parameters and the value. A rule line without a colon is
/// all value, whether it opens with the name `RRULE` or with none. `None`
/// stands for the error on an unknown name.
pub open spec fn content_line_parts(s: Seq<char>) -> Option<(PropertyName, Option<Seq<char>>, Seq<char>)> {
    match line_property(s) {
        None => None,
        Some(p) => if p == PropertyName::RRule && colon_free_run(s) == s.len() {
            Some((PropertyName::RRule, None, s))
        } else if leading_name(s) is None {
            Some((p, None, value_part(s)))
        } else {
            Some((p, parameters_part(s, upper_run(s)), value_part(s)))
        },
    }
}

/// Get the property name, parameters and value of a content line.
///
/// A line without a name is a rule. A rule line without a colon is all
/// value, also where it opens with the name `RRULE`: `RRULE;FREQ=DAILY` has
/// no parameters and the whole line as its value. A line whose name is
/// unknown is an error that carries the line.
pub fn get_content_line_parts(val: &str) -> (r: Result<ContentLineCaptures<'_>, ParseError>)
    ensures
        match content_line_parts(val@) {
            Some((p, params, value)) => r matches Ok(c) && c.property_name == p && c.value@ == value
                && match params {
                    Some(ps) => c.parameters matches Some(q) && q@ == ps,
                    None => c.parameters is None,
                },
            None => r matches Err(ParseError::UnrecognizedPropertyName(line)) && line@ == val@,
        },
{
    let len = val.unicode_len();
    let colon = scan_colon(val, len);
    let named = match get_property_name(val) {
        Ok(n) => n,
        Err(e) => { return Err(e); },
    };
    match named {
        None => {
            if colon == len {
                Ok(ContentLineCaptures { property_name: PropertyName::RRule, parameters: None, value: val })
            } else {
                let value = val.substring_char(colon + 1, len);
                Ok(ContentLineCaptures { property_name: PropertyName::RRule, parameters: None, value })
            }
        },
        Some(property_name) => {
            match property_name {
                PropertyName::RRule => {
                    if colon == len {
                        return Ok(
                            ContentLineCaptures { property_name: PropertyName::RRule, parameters: None, value: val },
                        );
                    }
                },
                _ => {},
            }
            let n = scan_upper(val, len);
            let mut parameters: Option<&str> = None;
            if val.get_char(n) == ';' && colon < len {
                proof {
                    // Every character before the name's end is a letter, so the first colon lies behind it.
                    lemma_colon_behind_name(val@, n as int);
                }
                parameters = Some(val.substring_char(n + 1, colon));
            }
            let value = if colon < len { val.substring_char(colon + 1, len) } else { val.substring_char(len, len) };
            Ok(ContentLineCaptures { property_name, parameters, value })
        },
    }
}

/// Where an upper-case run of `n` letters is followed by `;`, the first colon
/// stands behind that `;`.
pub proof fn lemma_colon_behind_name(s: Seq<char>, n: int)
    requires
        n == upper_run(s),
        0 <= n < s.len(),
        s[n] == ';',
    ensures
        colon_free_run(s) > n,
    decreases n,
{
    if n > 0 {
        assert(is_upper(s[0]));
        assert(s.skip(1)[n - 1] == s[n]);
        lemma_colon_behind_name(s.skip(1), n - 1);
    } else {
        assert(colon_free_run(s) == 1 + colon_free_run(s.skip(1)));
        assert(colon_free_run(s.skip(1)) >= 0) by {
            lemma_colon_free_run_bounds(s.skip(1));
        }
    }
}

/// The colon-free run lies within the line.
pub proof fn lemma_colon_free_run_bounds(s: Seq<char>)
    ensures
        0 <= colon_free_run(s) <= s.len(),
    decreases s.len(),
{
    if s.len() > 0 && s[0] != ':' {
        lemma_colon_free_run_bounds(s.skip(1));
    }
}

} // verus!
