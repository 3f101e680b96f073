//! The on-disk form of the registry: a JSON object whose keys are model
//! names and whose values are objects with `name` and `path` string members.
//!
//! The encoder and the parser are verified against spec-level definitions of
//! the grammar. The parser tolerates unknown extra members in a record
//! (forward-compatible metadata) and whitespace between tokens, and checks
//! such skipped values against the JSON value grammar. A record must carry a
//! `name` and a `path` string member, and the `name` must equal the object
//! key the record sits under, since the registry keys records by name. The
//! encoder escapes the quote, the backslash and every control character (the
//! named short escapes, or `\u00XX`); the parser reads all of JSON's escapes,
//! with one narrowing: a `\uXXXX` escape must be a scalar value — surrogate
//! pairs for code points beyond the basic plane are not decoded (no JSON
//! encoder that writes non-ASCII text raw, as this one does, produces them).

use vstd::prelude::*;
use vstd::string::StringExecFns;
use crate::registry::{map_of, Record, RecordView, Registry};
use crate::RegistryError;

verus! {

// ---------------------------------------------------------------------------
// The encoding, as a mathematical function of the registry's records.
// ---------------------------------------------------------------------------

/// The characters of the `name` member key.
pub open spec fn name_key() -> Seq<char> {
    seq!['n', 'a', 'm', 'e']
}

/// The characters of the `path` member key.
pub open spec fn path_key() -> Seq<char> {
    seq!['p', 'a', 't', 'h']
}

/// The lower-case hexadecimal digit for a value below sixteen.
pub open spec fn hex_digit(d: int) -> char {
    if d == 0 {
        '0'
    } else if d == 1 {
        '1'
    } else if d == 2 {
        '2'
    } else if d == 3 {
        '3'
    } else if d == 4 {
        '4'
    } else if d == 5 {
        '5'
    } else if d == 6 {
        '6'
    } else if d == 7 {
        '7'
    } else if d == 8 {
        '8'
    } else if d == 9 {
        '9'
    } else if d == 10 {
        'a'
    } else if d == 11 {
        'b'
    } else if d == 12 {
        'c'
    } else if d == 13 {
        'd'
    } else if d == 14 {
        'e'
    } else {
        'f'
    }
}

/// How one character is written inside a JSON string: the quote and the
/// backslash are escaped, the control characters get their short escapes or
/// a `\u00XX` escape, and every other character stands for itself.
pub open spec fn esc_char(c: char) -> Seq<char> {
    if c == '"' || c == '\\' {
        seq!['\\', c]
    } else if c == '\n' {
        seq!['\\', 'n']
    } else if c == '\t' {
        seq!['\\', 't']
    } else if c == '\r' {
        seq!['\\', 'r']
    } else if c == '\u{8}' {
        seq!['\\', 'b']
    } else if c == '\u{c}' {
        seq!['\\', 'f']
    } else if (c as u32) < 0x20 {
        seq!['\\', 'u', '0', '0', hex_digit(((c as u32) / 16) as int), hex_digit(
            ((c as u32) % 16) as int,
        )]
    } else {
        seq![c]
    }
}

/// The body of a JSON string, character by character.
pub open spec fn enc_str_body(t: Seq<char>) -> Seq<char>
    decreases t.len(),
{
    if t.len() == 0 {
        Seq::empty()
    } else {
        esc_char(t[0]) + enc_str_body(t.skip(1))
    }
}

/// A JSON string: the escaped body between quotes.
pub open spec fn enc_string(t: Seq<char>) -> Seq<char> {
    seq!['"'] + enc_str_body(t) + seq!['"']
}

/// A record object: `{"name":<name>,"path":<path>}`.
pub open spec fn enc_record(r: RecordView) -> Seq<char> {
    seq!['{'] + enc_string(name_key()) + seq![':'] + enc_string(r.name) + seq![','] + enc_string(
        path_key(),
    ) + seq![':'] + enc_string(r.path) + seq!['}']
}

/// One member of the top-level object: the record keyed by its name.
pub open spec fn enc_entry(r: RecordView) -> Seq<char> {
    enc_string(r.name) + seq![':'] + enc_record(r)
}

/// The members of the top-level object, separated by commas.
pub open spec fn enc_entries(s: Seq<RecordView>) -> Seq<char>
    decreases s.len(),
{
    if s.len() == 0 {
        Seq::empty()
    } else if s.len() == 1 {
        enc_entry(s[0])
    } else {
        enc_entry(s[0]) + seq![','] + enc_entries(s.skip(1))
    }
}

/// The whole registry file: the top-level object.
pub open spec fn spec_to_json(s: Seq<RecordView>) -> Seq<char> {
    seq!['{'] + enc_entries(s) + seq!['}']
}

// ---------------------------------------------------------------------------
// The grammar the parser accepts, as functions from the remaining input to
// the parsed value and the rest of the input.
// ---------------------------------------------------------------------------

/// JSON whitespace.
pub open spec fn is_ws(c: char) -> bool {
    c == ' ' || c == '\n' || c == '\t' || c == '\r'
}

/// Drop leading whitespace.
pub open spec fn skip_ws(s: Seq<char>) -> Seq<char>
    decreases s.len(),
{
    if s.len() > 0 && is_ws(s[0]) {
        skip_ws(s.skip(1))
    } else {
        s
    }
}

/// What a one-letter backslash escape stands for; `None` for an escape the
/// grammar does not know (`\u` escapes are handled on their own).
pub open spec fn unescape(c: char) -> Option<char> {
    if c == '"' {
        Some('"')
    } else if c == '\\' {
        Some('\\')
    } else if c == '/' {
        Some('/')
    } else if c == 'n' {
        Some('\n')
    } else if c == 't' {
        Some('\t')
    } else if c == 'r' {
        Some('\r')
    } else if c == 'b' {
        Some('\u{8}')
    } else if c == 'f' {
        Some('\u{c}')
    } else {
        None
    }
}

/// The value of a hexadecimal digit, either case.
pub open spec fn hex_val(c: char) -> Option<int> {
    if '0' <= c && c <= '9' {
        Some(c as int - '0' as int)
    } else if 'a' <= c && c <= 'f' {
        Some(c as int - 'a' as int + 10)
    } else if 'A' <= c && c <= 'F' {
        Some(c as int - 'A' as int + 10)
    } else {
        None
    }
}

/// The code point of a `\uXXXX` escape whose four digits follow, unless a
/// digit is missing or the code point is a surrogate.
pub open spec fn unescape_hex(s: Seq<char>) -> Option<char> {
    if s.len() >= 4 {
        match (hex_val(s[0]), hex_val(s[1]), hex_val(s[2]), hex_val(s[3])) {
            (Some(a), Some(b), Some(c), Some(d)) => {
                let v = a * 4096 + b * 256 + c * 16 + d;
                if v < 0xD800 || v > 0xDFFF {
                    Some((v as u32) as char)
                } else {
                    None
                }
            },
            _ => None,
        }
    } else {
        None
    }
}

/// The body of a JSON string, read up to the closing quote; `acc` holds what
/// has been read so far.
pub open spec fn parse_str_body(s: Seq<char>, acc: Seq<char>) -> Option<(Seq<char>, Seq<char>)>
    decreases s.len(),
{
    if s.len() == 0 {
        None
    } else if s[0] == '"' {
        Some((acc, s.skip(1)))
    } else if s[0] == '\\' {
        if s.len() >= 2 {
            if s[1] == 'u' {
                match unescape_hex(s.skip(2)) {
                    Some(c) => parse_str_body(s.skip(6), acc.push(c)),
                    None => None,
                }
            } else {
                match unescape(s[1]) {
                    Some(c) => parse_str_body(s.skip(2), acc.push(c)),
                    None => None,
                }
            }
        } else {
            None
        }
    } else {
        parse_str_body(s.skip(1), acc.push(s[0]))
    }
}

/// A JSON string: an opening quote, then its body.
pub open spec fn parse_string(s: Seq<char>) -> Option<(Seq<char>, Seq<char>)> {
    if s.len() > 0 && s[0] == '"' {
        parse_str_body(s.skip(1), Seq::empty())
    } else {
        None
    }
}

/// A decimal digit.
pub open spec fn is_digit(c: char) -> bool {
    '0' <= c && c <= '9'
}

/// Drop a run of decimal digits.
pub open spec fn skip_digits(s: Seq<char>) -> Seq<char>
    decreases s.len(),
{
    if s.len() > 0 && is_digit(s[0]) {
        skip_digits(s.skip(1))
    } else {
        s
    }
}

/// A number's optional fraction part: a dot followed by at least one digit.
pub open spec fn skip_frac(s: Seq<char>) -> Option<Seq<char>> {
    if s.len() > 0 && s[0] == '.' {
        if s.len() >= 2 && is_digit(s[1]) {
            Some(skip_digits(s.skip(2)))
        } else {
            None
        }
    } else {
        Some(s)
    }
}

/// A number's optional exponent part: `e` or `E`, an optional sign, and at
/// least one digit.
pub open spec fn skip_exp(s: Seq<char>) -> Option<Seq<char>> {
    if s.len() > 0 && (s[0] == 'e' || s[0] == 'E') {
        let s1 = if s.len() >= 2 && (s[1] == '+' || s[1] == '-') {
            s.skip(2)
        } else {
            s.skip(1)
        };
        if s1.len() > 0 && is_digit(s1[0]) {
            Some(skip_digits(s1.skip(1)))
        } else {
            None
        }
    } else {
        Some(s)
    }
}

/// A JSON number: optional minus, an integer part without a leading zero,
/// then the optional fraction and exponent.
pub open spec fn skip_number(s: Seq<char>) -> Option<Seq<char>> {
    let s1 = if s.len() > 0 && s[0] == '-' {
        s.skip(1)
    } else {
        s
    };
    let s3 = if s1.len() > 0 && s1[0] == '0' {
        skip_frac(s1.skip(1))
    } else if s1.len() > 0 && is_digit(s1[0]) {
        skip_frac(skip_digits(s1.skip(1)))
    } else {
        None
    };
    match s3 {
        Some(s4) => skip_exp(s4),
        None => None,
    }
}

/// A fixed keyword (`true`, `false`, `null`) at the head of the input.
pub open spec fn skip_keyword(s: Seq<char>, word: Seq<char>) -> Option<Seq<char>> {
    if word.len() <= s.len() && s.take(word.len() as int) == word {
        Some(s.skip(word.len() as int))
    } else {
        None
    }
}

/// Skip one JSON value of any shape: a string, an object, an array, a
/// number or a keyword. Used for the unknown extra members a record may
/// carry: their values must still be JSON, though they are not kept.
///
/// The `len` guards before the recursive calls keep the recursion visibly
/// shrinking; a parsed piece always consumes input.
pub open spec fn skip_json_value(s: Seq<char>) -> Option<Seq<char>>
    decreases s.len(), 0int,
{
    if s.len() == 0 {
        None
    } else if s[0] == '"' {
        match parse_string(s) {
            Some((v, r)) => Some(r),
            None => None,
        }
    } else if s[0] == '{' {
        let s1 = skip_ws(s.skip(1));
        if s1.len() > 0 && s1[0] == '}' {
            Some(s1.skip(1))
        } else {
            skip_object_members(s.skip(1))
        }
    } else if s[0] == '[' {
        let s1 = skip_ws(s.skip(1));
        if s1.len() > 0 && s1[0] == ']' {
            Some(s1.skip(1))
        } else {
            skip_array_items(s.skip(1))
        }
    } else if s[0] == 't' {
        skip_keyword(s, seq!['t', 'r', 'u', 'e'])
    } else if s[0] == 'f' {
        skip_keyword(s, seq!['f', 'a', 'l', 's', 'e'])
    } else if s[0] == 'n' {
        skip_keyword(s, seq!['n', 'u', 'l', 'l'])
    } else if s[0] == '-' || is_digit(s[0]) {
        skip_number(s)
    } else {
        None
    }
}

/// Skip the members of an object being skipped, entered after its `{` or a
/// separating comma: a string key, a colon, a value, and on.
pub open spec fn skip_object_members(s: Seq<char>) -> Option<Seq<char>>
    decreases s.len(), 1int,
{
    match parse_string(skip_ws(s)) {
        None => None,
        Some((key, s2)) => {
            let s3 = skip_ws(s2);
            if s3.len() == 0 || s3[0] != ':' {
                None
            } else {
                let s4 = skip_ws(s3.skip(1));
                if s4.len() <= s.len() {
                    match skip_json_value(s4) {
                        None => None,
                        Some(s5) => {
                            let s6 = skip_ws(s5);
                            if s6.len() == 0 {
                                None
                            } else if s6[0] == '}' {
                                Some(s6.skip(1))
                            } else if s6[0] == ',' {
                                if s6.skip(1).len() < s.len() {
                                    skip_object_members(s6.skip(1))
                                } else {
                                    None
                                }
                            } else {
                                None
                            }
                        },
                    }
                } else {
                    None
                }
            }
        },
    }
}

/// Skip the items of an array being skipped, entered after its `[` or a
/// separating comma.
pub open spec fn skip_array_items(s: Seq<char>) -> Option<Seq<char>>
    decreases s.len(), 1int,
{
    let s1 = skip_ws(s);
    if s1.len() <= s.len() {
        match skip_json_value(s1) {
            None => None,
            Some(s2) => {
                let s3 = skip_ws(s2);
                if s3.len() == 0 {
                    None
                } else if s3[0] == ']' {
                    Some(s3.skip(1))
                } else if s3[0] == ',' {
                    if s3.skip(1).len() < s.len() {
                        skip_array_items(s3.skip(1))
                    } else {
                        None
                    }
                } else {
                    None
                }
            },
        }
    } else {
        None
    }
}

/// The members of a record object, entered just after its `{` or after a
/// separating comma. `name` and `path` hold what earlier members gave, a
/// later member of the same key shadowing an earlier one; the result is the
/// record the object holds and the input after the closing `}`. Both the
/// `name` and the `path` member must be present and be strings; any other
/// member is skipped as long as its value is JSON.
pub open spec fn parse_record_members(
    s: Seq<char>,
    name: Option<Seq<char>>,
    path: Option<Seq<char>>,
) -> Option<(RecordView, Seq<char>)>
    decreases s.len(),
{
    match parse_string(skip_ws(s)) {
        None => None,
        Some((key, s2)) => {
            let s3 = skip_ws(s2);
            if s3.len() == 0 || s3[0] != ':' {
                None
            } else {
                let s4 = skip_ws(s3.skip(1));
                let step: Option<(Option<Seq<char>>, Option<Seq<char>>, Seq<char>)> = if key
                    == name_key() {
                    match parse_string(s4) {
                        Some((v, r)) => Some((Some(v), path, r)),
                        None => None,
                    }
                } else if key == path_key() {
                    match parse_string(s4) {
                        Some((v, r)) => Some((name, Some(v), r)),
                        None => None,
                    }
                } else {
                    if s4.len() <= s.len() {
                        match skip_json_value(s4) {
                            Some(r) => Some((name, path, r)),
                            None => None,
                        }
                    } else {
                        None
                    }
                };
                match step {
                    None => None,
                    Some((n, p, s5)) => {
                        let s6 = skip_ws(s5);
                        if s6.len() == 0 {
                            None
                        } else if s6[0] == '}' {
                            match (n, p) {
                                (Some(nn), Some(pp)) => Some(
                                    (RecordView { name: nn, path: pp }, s6.skip(1)),
                                ),
                                _ => None,
                            }
                        } else if s6[0] == ',' {
                            // The guard keeps the recursion visibly
                            // shrinking; a member always consumes input.
                            if s6.skip(1).len() < s.len() {
                                parse_record_members(s6.skip(1), n, p)
                            } else {
                                None
                            }
                        } else {
                            None
                        }
                    },
                }
            }
        },
    }
}

/// A record object: `{` then its members. An empty object is refused, since
/// a record must carry a name and a path.
pub open spec fn parse_record(s: Seq<char>) -> Option<(RecordView, Seq<char>)> {
    let s1 = skip_ws(s);
    if s1.len() > 0 && s1[0] == '{' {
        parse_record_members(s1.skip(1), None, None)
    } else {
        None
    }
}

/// The members of the top-level object, entered just after its `{` or after
/// a separating comma. Each member inserts its record into `acc`, a later
/// member shadowing an earlier one of the same name. The member's key must
/// equal the record's `name` member — the registry keys every record by its
/// name, so a file in which the two disagree is refused.
pub open spec fn parse_top_members(s: Seq<char>, acc: Map<Seq<char>, RecordView>) -> Option<
    (Map<Seq<char>, RecordView>, Seq<char>),
>
    decreases s.len(),
{
    match parse_string(skip_ws(s)) {
        None => None,
        Some((key, s2)) => {
            let s3 = skip_ws(s2);
            if s3.len() == 0 || s3[0] != ':' {
                None
            } else {
                match parse_record(s3.skip(1)) {
                    None => None,
                    Some((rec, s5)) => if rec.name != key {
                        None
                    } else {
                        let acc2 = acc.insert(rec.name, rec);
                        let s6 = skip_ws(s5);
                        if s6.len() == 0 {
                            None
                        } else if s6[0] == '}' {
                            Some((acc2, s6.skip(1)))
                        } else if s6[0] == ',' {
                            // Same shrinking guard as in a record's members.
                            if s6.skip(1).len() < s.len() {
                                parse_top_members(s6.skip(1), acc2)
                            } else {
                                None
                            }
                        } else {
                            None
                        }
                    },
                }
            }
        },
    }
}

/// A whole registry file: one top-level object and nothing but whitespace
/// after it. The result is the mapping of names to records the file holds.
pub open spec fn spec_parse_registry(s: Seq<char>) -> Option<Map<Seq<char>, RecordView>> {
    let s1 = skip_ws(s);
    if s1.len() > 0 && s1[0] == '{' {
        let s2 = skip_ws(s1.skip(1));
        if s2.len() > 0 && s2[0] == '}' {
            if skip_ws(s2.skip(1)).len() == 0 {
                Some(Map::empty())
            } else {
                None
            }
        } else {
            match parse_top_members(s1.skip(1), Map::empty()) {
                None => None,
                Some((m, rest)) => if skip_ws(rest).len() == 0 {
                    Some(m)
                } else {
                    None
                },
            }
        }
    } else {
        None
    }
}

/// What loading file contents yields: empty contents are an empty registry,
/// anything else must parse.
pub open spec fn spec_load(s: Seq<char>) -> Option<Map<Seq<char>, RecordView>> {
    if s.len() == 0 {
        Some(Map::<Seq<char>, RecordView>::empty())
    } else {
        spec_parse_registry(s)
    }
}

// ---------------------------------------------------------------------------
// The executable parser.
// ---------------------------------------------------------------------------

/// The view of an optional owned string.
pub open spec fn opt_str_view(p: Option<String>) -> Option<Seq<char>> {
    match p {
        Some(q) => Some(q@),
        None => None,
    }
}

fn skip_ws_exec(s: &str, i: usize) -> (j: usize)
    requires
        i <= s@.len(),
    ensures
        i <= j <= s@.len(),
        s@.skip(j as int) == skip_ws(s@.skip(i as int)),
{
    let n = s.unicode_len();
    let mut k: usize = i;
    loop
        invariant
            n == s@.len(),
            i <= k <= n,
            skip_ws(s@.skip(i as int)) == skip_ws(s@.skip(k as int)),
        decreases n - k,
    {
        if k == n {
            return k;
        }
        let c = s.get_char(k);
        if !(c == ' ' || c == '\n' || c == '\t' || c == '\r') {
            return k;
        }
        proof {
            assert(s@.skip(k as int).skip(1) =~= s@.skip(k + 1));
        }
        k += 1;
    }
}

fn unescape_exec(c: char) -> (r: Option<char>)
    ensures
        r == unescape(c),
{
    if c == '"' {
        Some('"')
    } else if c == '\\' {
        Some('\\')
    } else if c == '/' {
        Some('/')
    } else if c == 'n' {
        Some('\n')
    } else if c == 't' {
        Some('\t')
    } else if c == 'r' {
        Some('\r')
    } else if c == 'b' {
        Some('\u{8}')
    } else if c == 'f' {
        Some('\u{c}')
    } else {
        None
    }
}

/// Relies on char::from_u32, which returns the character with the given
/// code point, or `None` when the value is a surrogate or above the last
/// code point.
#[verifier::external_body]
fn char_from_u32(v: u32) -> (r: Option<char>)
    ensures
        r == (if v < 0xD800 || (0xDFFF < v && v <= 0x10FFFF) {
            Some(v as char)
        } else {
            None::<char>
        }),
{
    char::from_u32(v)
}

fn hex_val_exec(c: char) -> (r: Option<u32>)
    ensures
        match r {
            Some(v) => hex_val(c) == Some(v as int) && v < 16,
            None => hex_val(c) is None,
        },
{
    let u = c as u32;
    if '0' as u32 <= u && u <= '9' as u32 {
        Some(u - '0' as u32)
    } else if 'a' as u32 <= u && u <= 'f' as u32 {
        Some(u - 'a' as u32 + 10)
    } else if 'A' as u32 <= u && u <= 'F' as u32 {
        Some(u - 'A' as u32 + 10)
    } else {
        None
    }
}

fn parse_string_exec(s: &str, i: usize) -> (r: Option<(String, usize)>)
    requires
        i <= s@.len(),
    ensures
        match r {
            Some(v) => i < v.1 <= s@.len() && parse_string(s@.skip(i as int)) == Some(
                (v.0@, s@.skip(v.1 as int)),
            ),
            None => parse_string(s@.skip(i as int)) is None,
        },
{
    let n = s.unicode_len();
    if i == n {
        return None;
    }
    if s.get_char(i) != '"' {
        return None;
    }
    let mut acc = String::new();
    let mut k: usize = i + 1;
    proof {
        assert(s@.skip(i as int).skip(1) =~= s@.skip(i + 1));
    }
    loop
        invariant
            n == s@.len(),
            i < k <= n,
            parse_str_body(s@.skip(i + 1), Seq::<char>::empty()) == parse_str_body(
                s@.skip(k as int),
                acc@,
            ),
            parse_string(s@.skip(i as int)) == parse_str_body(s@.skip(i + 1), Seq::<char>::empty()),
        decreases n - k,
    {
        if k == n {
            return None;
        }
        let c = s.get_char(k);
        if c == '"' {
            proof {
                assert(s@.skip(k as int).skip(1) =~= s@.skip(k + 1));
            }
            return Some((acc, k + 1));
        } else if c == '\\' {
            if k + 1 == n {
                return None;
            }
            let e = s.get_char(k + 1);
            if e == 'u' {
                proof {
                    assert(s@.skip(k as int).skip(2) =~= s@.skip(k + 2));
                }
                if n - (k + 2) < 4 {
                    return None;
                }
                let d0 = hex_val_exec(s.get_char(k + 2));
                let d1 = hex_val_exec(s.get_char(k + 3));
                let d2 = hex_val_exec(s.get_char(k + 4));
                let d3 = hex_val_exec(s.get_char(k + 5));
                match (d0, d1, d2, d3) {
                    (Some(a), Some(b), Some(cc), Some(d)) => {
                        let v: u32 = a * 4096 + b * 256 + cc * 16 + d;
                        if 0xD800 <= v && v <= 0xDFFF {
                            return None;
                        }
                        match char_from_u32(v) {
                            Some(c2) => {
                                push_char(&mut acc, c2);
                                proof {
                                    assert(s@.skip(k + 2)[0] == s@[k + 2]);
                                    assert(s@.skip(k + 2)[1] == s@[k + 3]);
                                    assert(s@.skip(k + 2)[2] == s@[k + 4]);
                                    assert(s@.skip(k + 2)[3] == s@[k + 5]);
                                    assert(unescape_hex(s@.skip(k + 2)) == Some(c2));
                                    assert(s@.skip(k as int).skip(6) =~= s@.skip(k + 6));
                                }
                                k += 6;
                            },
                            None => {
                                proof {
                                    assert(false);
                                }
                            },
                        }
                    },
                    _ => {
                        return None;
                    },
                }
            } else {
                match unescape_exec(e) {
                    Some(c2) => {
                        push_char(&mut acc, c2);
                        proof {
                            assert(s@.skip(k as int).skip(2) =~= s@.skip(k + 2));
                        }
                        k += 2;
                    },
                    None => {
                        return None;
                    },
                }
            }
        } else {
            push_char(&mut acc, c);
            proof {
                assert(s@.skip(k as int).skip(1) =~= s@.skip(k + 1));
            }
            k += 1;
        }
    }
}

fn skip_digits_exec(s: &str, i: usize) -> (j: usize)
    requires
        i <= s@.len(),
    ensures
        i <= j <= s@.len(),
        s@.skip(j as int) == skip_digits(s@.skip(i as int)),
{
    let n = s.unicode_len();
    let mut k: usize = i;
    loop
        invariant
            n == s@.len(),
            i <= k <= n,
            skip_digits(s@.skip(i as int)) == skip_digits(s@.skip(k as int)),
        decreases n - k,
    {
        if k == n {
            return k;
        }
        let c = s.get_char(k);
        if !('0' <= c && c <= '9') {
            return k;
        }
        proof {
            assert(s@.skip(k as int).skip(1) =~= s@.skip(k + 1));
        }
        k += 1;
    }
}

fn skip_frac_exec(s: &str, i: usize) -> (r: Option<usize>)
    requires
        i <= s@.len(),
    ensures
        match r {
            Some(j) => j <= s@.len() && skip_frac(s@.skip(i as int)) == Some(s@.skip(j as int)),
            None => skip_frac(s@.skip(i as int)) is None,
        },
{
    let n = s.unicode_len();
    if i < n && s.get_char(i) == '.' {
        if i + 1 < n {
            let c = s.get_char(i + 1);
            if '0' <= c && c <= '9' {
                proof {
                    assert(s@.skip(i as int).skip(2) =~= s@.skip(i + 2));
                }
                return Some(skip_digits_exec(s, i + 2));
            }
        }
        None
    } else {
        Some(i)
    }
}

fn skip_exp_exec(s: &str, i: usize) -> (r: Option<usize>)
    requires
        i <= s@.len(),
    ensures
        match r {
            Some(j) => j <= s@.len() && skip_exp(s@.skip(i as int)) == Some(s@.skip(j as int)),
            None => skip_exp(s@.skip(i as int)) is None,
        },
{
    let n = s.unicode_len();
    if i < n && (s.get_char(i) == 'e' || s.get_char(i) == 'E') {
        let k: usize = if i + 1 < n && (s.get_char(i + 1) == '+' || s.get_char(i + 1) == '-') {
            proof {
                assert(s@.skip(i as int).skip(2) =~= s@.skip(i + 2));
            }
            i + 2
        } else {
            proof {
                assert(s@.skip(i as int).skip(1) =~= s@.skip(i + 1));
            }
            i + 1
        };
        if k < n {
            let c = s.get_char(k);
            if '0' <= c && c <= '9' {
                proof {
                    assert(s@.skip(k as int).skip(1) =~= s@.skip(k + 1));
                }
                return Some(skip_digits_exec(s, k + 1));
            }
        }
        None
    } else {
        Some(i)
    }
}

fn skip_number_exec(s: &str, i: usize) -> (r: Option<usize>)
    requires
        i <= s@.len(),
    ensures
        match r {
            Some(j) => j <= s@.len() && skip_number(s@.skip(i as int)) == Some(s@.skip(j as int)),
            None => skip_number(s@.skip(i as int)) is None,
        },
{
    let n = s.unicode_len();
    let k: usize = if i < n && s.get_char(i) == '-' {
        proof {
            assert(s@.skip(i as int).skip(1) =~= s@.skip(i + 1));
        }
        i + 1
    } else {
        i
    };
    if k == n {
        return None;
    }
    let c = s.get_char(k);
    let after_int: Option<usize> = if c == '0' {
        proof {
            assert(s@.skip(k as int).skip(1) =~= s@.skip(k + 1));
        }
        skip_frac_exec(s, k + 1)
    } else if '0' <= c && c <= '9' {
        proof {
            assert(s@.skip(k as int).skip(1) =~= s@.skip(k + 1));
        }
        let d = skip_digits_exec(s, k + 1);
        skip_frac_exec(s, d)
    } else {
        return None;
    };
    match after_int {
        Some(j) => skip_exp_exec(s, j),
        None => None,
    }
}

fn skip_keyword_exec(s: &str, i: usize, word: &str) -> (r: Option<usize>)
    requires
        i <= s@.len(),
    ensures
        match r {
            Some(j) => j <= s@.len() && skip_keyword(s@.skip(i as int), word@) == Some(
                s@.skip(j as int),
            ),
            None => skip_keyword(s@.skip(i as int), word@) is None,
        },
{
    let n = s.unicode_len();
    let w = word.unicode_len();
    if n - i < w {
        return None;
    }
    let mut k: usize = 0;
    while k < w
        invariant
            n == s@.len(),
            w == word@.len(),
            i + w <= n,
            k <= w,
            s@.skip(i as int).take(k as int) == word@.take(k as int),
        decreases w - k,
    {
        let c = s.get_char(i + k);
        let d = word.get_char(k);
        if c != d {
            proof {
                assert(s@.skip(i as int).take(w as int)[k as int] != word@[k as int]);
                assert(s@.skip(i as int).take(w as int) != word@);
            }
            return None;
        }
        proof {
            assert(s@.skip(i as int).take(k + 1) =~= s@.skip(i as int).take(k as int).push(
                s@[i + k],
            ));
            assert(word@.take(k + 1) =~= word@.take(k as int).push(word@[k as int]));
        }
        k += 1;
    }
    proof {
        assert(word@.take(w as int) =~= word@);
        assert(s@.skip(i as int).skip(w as int) =~= s@.skip(i + w));
    }
    Some(i + w)
}

fn skip_json_value_exec(s: &str, i: usize) -> (r: Option<usize>)
    requires
        i <= s@.len(),
    ensures
        match r {
            Some(j) => j <= s@.len() && skip_json_value(s@.skip(i as int)) == Some(
                s@.skip(j as int),
            ),
            None => skip_json_value(s@.skip(i as int)) is None,
        },
    decreases s@.len() - i, 0int,
{
    let n = s.unicode_len();
    if i == n {
        return None;
    }
    let c = s.get_char(i);
    if c == '"' {
        match parse_string_exec(s, i) {
            Some(v) => Some(v.1),
            None => None,
        }
    } else if c == '{' {
        proof {
            assert(s@.skip(i as int).skip(1) =~= s@.skip(i + 1));
        }
        let j1 = skip_ws_exec(s, i + 1);
        if j1 < n && s.get_char(j1) == '}' {
            proof {
                assert(s@.skip(j1 as int).skip(1) =~= s@.skip(j1 + 1));
            }
            Some(j1 + 1)
        } else {
            skip_object_members_exec(s, i + 1)
        }
    } else if c == '[' {
        proof {
            assert(s@.skip(i as int).skip(1) =~= s@.skip(i + 1));
        }
        let j1 = skip_ws_exec(s, i + 1);
        if j1 < n && s.get_char(j1) == ']' {
            proof {
                assert(s@.skip(j1 as int).skip(1) =~= s@.skip(j1 + 1));
            }
            Some(j1 + 1)
        } else {
            skip_array_items_exec(s, i + 1)
        }
    } else if c == 't' {
        let r = skip_keyword_exec(s, i, "true");
        proof {
            reveal_strlit("true");
            assert("true"@ =~= seq!['t', 'r', 'u', 'e']);
        }
        r
    } else if c == 'f' {
        let r = skip_keyword_exec(s, i, "false");
        proof {
            reveal_strlit("false");
            assert("false"@ =~= seq!['f', 'a', 'l', 's', 'e']);
        }
        r
    } else if c == 'n' {
        let r = skip_keyword_exec(s, i, "null");
        proof {
            reveal_strlit("null");
            assert("null"@ =~= seq!['n', 'u', 'l', 'l']);
        }
        r
    } else if c == '-' || ('0' <= c && c <= '9') {
        skip_number_exec(s, i)
    } else {
        None
    }
}

fn skip_object_members_exec(s: &str, i: usize) -> (r: Option<usize>)
    requires
        i <= s@.len(),
    ensures
        match r {
            Some(j) => j <= s@.len() && skip_object_members(s@.skip(i as int)) == Some(
                s@.skip(j as int),
            ),
            None => skip_object_members(s@.skip(i as int)) is None,
        },
    decreases s@.len() - i, 1int,
{
    let n = s.unicode_len();
    let j1 = skip_ws_exec(s, i);
    let key = match parse_string_exec(s, j1) {
        Some(v) => v,
        None => {
            return None;
        },
    };
    let j3 = skip_ws_exec(s, key.1);
    if j3 == n {
        return None;
    }
    if s.get_char(j3) != ':' {
        return None;
    }
    proof {
        assert(s@.skip(j3 as int).skip(1) =~= s@.skip(j3 + 1));
    }
    let j4 = skip_ws_exec(s, j3 + 1);
    let j5 = match skip_json_value_exec(s, j4) {
        Some(j) => j,
        None => {
            return None;
        },
    };
    let j6 = skip_ws_exec(s, j5);
    if j6 == n {
        return None;
    }
    let c = s.get_char(j6);
    proof {
        assert(s@.skip(j6 as int).skip(1) =~= s@.skip(j6 + 1));
    }
    if c == '}' {
        Some(j6 + 1)
    } else if c == ',' {
        if j6 + 1 > i {
            skip_object_members_exec(s, j6 + 1)
        } else {
            None
        }
    } else {
        None
    }
}

fn skip_array_items_exec(s: &str, i: usize) -> (r: Option<usize>)
    requires
        i <= s@.len(),
    ensures
        match r {
            Some(j) => j <= s@.len() && skip_array_items(s@.skip(i as int)) == Some(
                s@.skip(j as int),
            ),
            None => skip_array_items(s@.skip(i as int)) is None,
        },
    decreases s@.len() - i, 1int,
{
    let n = s.unicode_len();
    let j1 = skip_ws_exec(s, i);
    let j2 = match skip_json_value_exec(s, j1) {
        Some(j) => j,
        None => {
            return None;
        },
    };
    let j3 = skip_ws_exec(s, j2);
    if j3 == n {
        return None;
    }
    let c = s.get_char(j3);
    proof {
        assert(s@.skip(j3 as int).skip(1) =~= s@.skip(j3 + 1));
    }
    if c == ']' {
        Some(j3 + 1)
    } else if c == ',' {
        if j3 + 1 > i {
            skip_array_items_exec(s, j3 + 1)
        } else {
            None
        }
    } else {
        None
    }
}

fn parse_record_members_exec(s: &str, i: usize) -> (r: Option<(Record, usize)>)
    requires
        i <= s@.len(),
    ensures
        match r {
            Some(v) => v.1 <= s@.len() && parse_record_members(s@.skip(i as int), None, None)
                == Some((v.0@, s@.skip(v.1 as int))),
            None => parse_record_members(s@.skip(i as int), None, None) is None,
        },
{
    let n = s.unicode_len();
    let name_lit: String = String::from_str("name");
    let path_lit: String = String::from_str("path");
    proof {
        reveal_strlit("name");
        reveal_strlit("path");
        assert(name_lit@ =~= name_key());
        assert(path_lit@ =~= path_key());
    }
    let mut k: usize = i;
    let mut name: Option<String> = None;
    let mut path: Option<String> = None;
    loop
        invariant
            n == s@.len(),
            i <= k <= n,
            name_lit@ == name_key(),
            path_lit@ == path_key(),
            parse_record_members(s@.skip(i as int), None, None) == parse_record_members(
                s@.skip(k as int),
                opt_str_view(name),
                opt_str_view(path),
            ),
        decreases n - k,
    {
        let j1 = skip_ws_exec(s, k);
        let key = match parse_string_exec(s, j1) {
            Some(v) => v,
            None => {
                return None;
            },
        };
        let j2 = key.1;
        let j3 = skip_ws_exec(s, j2);
        if j3 == n {
            return None;
        }
        if s.get_char(j3) != ':' {
            return None;
        }
        proof {
            assert(s@.skip(j3 as int).skip(1) =~= s@.skip(j3 + 1));
        }
        let j4 = skip_ws_exec(s, j3 + 1);
        let mut nm = name;
        let mut p = path;
        let j5: usize;
        if key.0 == name_lit {
            match parse_string_exec(s, j4) {
                Some(v) => {
                    nm = Some(v.0);
                    j5 = v.1;
                },
                None => {
                    return None;
                },
            }
        } else if key.0 == path_lit {
            match parse_string_exec(s, j4) {
                Some(v) => {
                    p = Some(v.0);
                    j5 = v.1;
                },
                None => {
                    return None;
                },
            }
        } else {
            match skip_json_value_exec(s, j4) {
                Some(j) => {
                    j5 = j;
                },
                None => {
                    return None;
                },
            }
        }
        let j6 = skip_ws_exec(s, j5);
        if j6 == n {
            return None;
        }
        let c = s.get_char(j6);
        proof {
            assert(s@.skip(j6 as int).skip(1) =~= s@.skip(j6 + 1));
        }
        if c == '}' {
            match (nm, p) {
                (Some(nn), Some(pp)) => {
                    return Some((Record { name: nn, path: pp }, j6 + 1));
                },
                _ => {
                    return None;
                },
            }
        } else if c == ',' {
            if j6 + 1 > k {
                name = nm;
                path = p;
                k = j6 + 1;
            } else {
                return None;
            }
        } else {
            return None;
        }
    }
}

fn parse_record_exec(s: &str, i: usize) -> (r: Option<(Record, usize)>)
    requires
        i <= s@.len(),
    ensures
        match r {
            Some(v) => v.1 <= s@.len() && parse_record(s@.skip(i as int)) == Some(
                (v.0@, s@.skip(v.1 as int)),
            ),
            None => parse_record(s@.skip(i as int)) is None,
        },
{
    let n = s.unicode_len();
    let j1 = skip_ws_exec(s, i);
    if j1 == n {
        return None;
    }
    if s.get_char(j1) != '{' {
        return None;
    }
    proof {
        assert(s@.skip(j1 as int).skip(1) =~= s@.skip(j1 + 1));
    }
    parse_record_members_exec(s, j1 + 1)
}

fn parse_top_members_exec(s: &str, i: usize, reg: &mut Registry) -> (r: Option<usize>)
    requires
        i <= s@.len(),
        old(reg).wf(),
    ensures
        final(reg).wf(),
        match r {
            Some(j) => j <= s@.len() && parse_top_members(s@.skip(i as int), old(reg).as_map())
                == Some((final(reg).as_map(), s@.skip(j as int))),
            None => parse_top_members(s@.skip(i as int), old(reg).as_map()) is None,
        },
{
    let n = s.unicode_len();
    let mut k: usize = i;
    loop
        invariant
            n == s@.len(),
            i <= k <= n,
            reg.wf(),
            parse_top_members(s@.skip(i as int), old(reg).as_map()) == parse_top_members(
                s@.skip(k as int),
                reg.as_map(),
            ),
        decreases n - k,
    {
        let j1 = skip_ws_exec(s, k);
        let key = match parse_string_exec(s, j1) {
            Some(v) => v,
            None => {
                return None;
            },
        };
        let j2 = key.1;
        let j3 = skip_ws_exec(s, j2);
        if j3 == n {
            return None;
        }
        if s.get_char(j3) != ':' {
            return None;
        }
        proof {
            assert(s@.skip(j3 as int).skip(1) =~= s@.skip(j3 + 1));
        }
        let parsed = match parse_record_exec(s, j3 + 1) {
            Some(v) => v,
            None => {
                return None;
            },
        };
        let j5 = parsed.1;
        if !(parsed.0.name == key.0) {
            return None;
        }
        reg.upsert(parsed.0);
        let j6 = skip_ws_exec(s, j5);
        if j6 == n {
            return None;
        }
        let c = s.get_char(j6);
        proof {
            assert(s@.skip(j6 as int).skip(1) =~= s@.skip(j6 + 1));
        }
        if c == '}' {
            return Some(j6 + 1);
        } else if c == ',' {
            if j6 + 1 > k {
                k = j6 + 1;
            } else {
                return None;
            }
        } else {
            return None;
        }
    }
}

/// Decode registry file contents.
///
/// Empty contents are an empty registry; anything else must be a top-level
/// object of the grammar above, else the result is exactly `ParseError`.
#[verifier::rlimit(50)]
pub fn load_registry(contents: &str) -> (r: Result<Registry, RegistryError>)
    ensures
        match r {
            Ok(reg) => reg.wf() && spec_load(contents@) == Some(reg.as_map()),
            Err(e) => e == RegistryError::ParseError && spec_load(contents@) is None,
        },
{
    let n = contents.unicode_len();
    if n == 0 {
        return Ok(Registry::new());
    }
    let j1 = skip_ws_exec(contents, 0);
    proof {
        assert(contents@.skip(0) =~= contents@);
    }
    if j1 == n {
        return Err(RegistryError::ParseError);
    }
    if contents.get_char(j1) != '{' {
        return Err(RegistryError::ParseError);
    }
    proof {
        assert(contents@.skip(j1 as int).skip(1) =~= contents@.skip(j1 + 1));
    }
    let j2 = skip_ws_exec(contents, j1 + 1);
    if j2 < n && contents.get_char(j2) == '}' {
        proof {
            assert(contents@.skip(j2 as int).skip(1) =~= contents@.skip(j2 + 1));
        }
        let j3 = skip_ws_exec(contents, j2 + 1);
        if j3 == n {
            return Ok(Registry::new());
        } else {
            return Err(RegistryError::ParseError);
        }
    }
    let mut reg = Registry::new();
    match parse_top_members_exec(contents, j1 + 1, &mut reg) {
        Some(j) => {
            let j4 = skip_ws_exec(contents, j);
            if j4 == n {
                Ok(reg)
            } else {
                Err(RegistryError::ParseError)
            }
        },
        None => Err(RegistryError::ParseError),
    }
}

// ---------------------------------------------------------------------------
// The executable encoder.
// ---------------------------------------------------------------------------

/// Relies on String::push, which appends the given character to the end of
/// the string.
#[verifier::external_body]
fn push_char(out: &mut String, c: char)
    ensures
        final(out)@ == old(out)@.push(c),
{
    out.push(c);
}

/// Appending one more character to a string body encodes it at the end.
proof fn lemma_enc_str_body_snoc(t: Seq<char>, c: char)
    ensures
        enc_str_body(t.push(c)) == enc_str_body(t) + esc_char(c),
    decreases t.len(),
{
    if t.len() == 0 {
        assert(t.push(c).skip(1) =~= Seq::<char>::empty());
        assert(enc_str_body(Seq::<char>::empty()) =~= Seq::<char>::empty());
        assert(enc_str_body(t.push(c)) =~= esc_char(c));
        assert(enc_str_body(t) + esc_char(c) =~= esc_char(c));
    } else {
        lemma_enc_str_body_snoc(t.skip(1), c);
        assert(t.push(c).skip(1) =~= t.skip(1).push(c));
        assert(enc_str_body(t.push(c)) =~= enc_str_body(t) + esc_char(c));
    }
}

/// Appending one more record extends the encoded member list at the end.
proof fn lemma_enc_entries_snoc(s: Seq<RecordView>, r: RecordView)
    ensures
        enc_entries(s.push(r)) == if s.len() == 0 {
            enc_entry(r)
        } else {
            enc_entries(s) + seq![','] + enc_entries(seq![r])
        },
    decreases s.len(),
{
    if s.len() == 0 {
        assert(s.push(r)[0] == r);
        assert(enc_entries(s.push(r)) == enc_entry(r));
    } else {
        lemma_enc_entries_snoc(s.skip(1), r);
        assert(s.push(r).skip(1) =~= s.skip(1).push(r));
        if s.len() == 1 {
            assert(s.skip(1).len() == 0);
            assert(enc_entries(s.push(r)) =~= enc_entries(s) + seq![','] + enc_entries(seq![r]));
        } else {
            assert(enc_entries(s) =~= enc_entry(s[0]) + seq![','] + enc_entries(s.skip(1)));
            assert(enc_entries(s.push(r)) =~= enc_entries(s) + seq![','] + enc_entries(seq![r]));
        }
    }
}

/// The lower-case hexadecimal digit for a value below sixteen.
fn hex_char(d: u32) -> (c: char)
    requires
        d < 16,
    ensures
        c == hex_digit(d as int),
{
    if d == 0 {
        '0'
    } else if d == 1 {
        '1'
    } else if d == 2 {
        '2'
    } else if d == 3 {
        '3'
    } else if d == 4 {
        '4'
    } else if d == 5 {
        '5'
    } else if d == 6 {
        '6'
    } else if d == 7 {
        '7'
    } else if d == 8 {
        '8'
    } else if d == 9 {
        '9'
    } else if d == 10 {
        'a'
    } else if d == 11 {
        'b'
    } else if d == 12 {
        'c'
    } else if d == 13 {
        'd'
    } else if d == 14 {
        'e'
    } else {
        'f'
    }
}

/// Write the body of a JSON string: every character escaped as `esc_char`
/// says.
fn append_str_body(out: &mut String, t: &str)
    ensures
        final(out)@ == old(out)@ + enc_str_body(t@),
{
    let n = t.unicode_len();
    let mut k: usize = 0;
    proof {
        assert(t@.take(0) =~= Seq::<char>::empty());
        assert(out@ + enc_str_body(t@.take(0)) =~= out@);
    }
    while k < n
        invariant
            n == t@.len(),
            k <= n,
            out@ == old(out)@ + enc_str_body(t@.take(k as int)),
        decreases n - k,
    {
        let c = t.get_char(k);
        if c == '"' || c == '\\' {
            push_char(out, '\\');
            push_char(out, c);
        } else if c == '\n' {
            push_char(out, '\\');
            push_char(out, 'n');
        } else if c == '\t' {
            push_char(out, '\\');
            push_char(out, 't');
        } else if c == '\r' {
            push_char(out, '\\');
            push_char(out, 'r');
        } else if c == '\u{8}' {
            push_char(out, '\\');
            push_char(out, 'b');
        } else if c == '\u{c}' {
            push_char(out, '\\');
            push_char(out, 'f');
        } else {
            let u = c as u32;
            if u < 0x20 {
                push_char(out, '\\');
                push_char(out, 'u');
                push_char(out, '0');
                push_char(out, '0');
                push_char(out, hex_char(u / 16));
                push_char(out, hex_char(u % 16));
            } else {
                push_char(out, c);
            }
        }
        proof {
            lemma_enc_str_body_snoc(t@.take(k as int), c);
            assert(t@.take(k + 1) =~= t@.take(k as int).push(c));
            assert(out@ =~= old(out)@ + enc_str_body(t@.take(k + 1)));
        }
        k += 1;
    }
    proof {
        assert(t@.take(n as int) =~= t@);
    }
}

/// Write a JSON string: the escaped body between quotes.
fn append_string(out: &mut String, t: &str)
    ensures
        final(out)@ == old(out)@ + enc_string(t@),
{
    push_char(out, '"');
    append_str_body(out, t);
    push_char(out, '"');
    proof {
        assert(out@ =~= old(out)@ + enc_string(t@));
    }
}

/// Write one record object.
fn append_record(out: &mut String, rec: &Record)
    ensures
        final(out)@ == old(out)@ + enc_record(rec@),
{
    push_char(out, '{');
    append_string(out, "name");
    push_char(out, ':');
    append_string(out, rec.name.as_str());
    push_char(out, ',');
    append_string(out, "path");
    push_char(out, ':');
    append_string(out, rec.path.as_str());
    push_char(out, '}');
    proof {
        reveal_strlit("name");
        reveal_strlit("path");
        assert("name"@ =~= name_key());
        assert("path"@ =~= path_key());
        assert(out@ =~= old(out)@ + enc_record(rec@));
    }
}

/// Encode a registry as its JSON file contents.
///
/// Encoding cannot fail: a well-formed registry always has a serialization,
/// which is why the library never produces `SerializationError`.
pub fn save_registry(reg: &Registry) -> (out: String)
    ensures
        out@ == spec_to_json(reg@),
{
    let mut out = String::new();
    push_char(&mut out, '{');
    let n = reg.len();
    let mut i: usize = 0;
    proof {
        assert(reg@.take(0) =~= Seq::<RecordView>::empty());
        assert(out@ =~= seq!['{'] + enc_entries(reg@.take(0)));
    }
    while i < n
        invariant
            n == reg@.len(),
            i <= n,
            out@ == seq!['{'] + enc_entries(reg@.take(i as int)),
        decreases n - i,
    {
        if i > 0 {
            push_char(&mut out, ',');
        }
        let rec = reg.record_at(i);
        append_string(&mut out, rec.name.as_str());
        push_char(&mut out, ':');
        append_record(&mut out, rec);
        proof {
            lemma_enc_entries_snoc(reg@.take(i as int), reg@[i as int]);
            assert(reg@.take(i + 1) =~= reg@.take(i as int).push(reg@[i as int]));
            assert(enc_entries(seq![reg@[i as int]]) =~= enc_entry(reg@[i as int]));
            assert(out@ =~= seq!['{'] + enc_entries(reg@.take(i + 1)));
        }
        i += 1;
    }
    push_char(&mut out, '}');
    proof {
        assert(reg@.take(n as int) =~= reg@);
        assert(out@ =~= spec_to_json(reg@));
    }
    out
}

// ---------------------------------------------------------------------------
// Round trip: a saved registry loads back as the same mapping.
// ---------------------------------------------------------------------------

/// Insert a sequence of records into a mapping, first to last.
pub open spec fn insert_all(acc: Map<Seq<char>, RecordView>, s: Seq<RecordView>) -> Map<
    Seq<char>,
    RecordView,
>
    decreases s.len(),
{
    if s.len() == 0 {
        acc
    } else {
        insert_all(acc.insert(s[0].name, s[0]), s.skip(1))
    }
}

proof fn lemma_insert_all_snoc(acc: Map<Seq<char>, RecordView>, s: Seq<RecordView>)
    requires
        s.len() >= 1,
    ensures
        insert_all(acc, s) == insert_all(acc, s.drop_last()).insert(s.last().name, s.last()),
    decreases s.len(),
{
    if s.len() == 1 {
        assert(s.skip(1) =~= Seq::<RecordView>::empty());
        assert(s.drop_last() =~= Seq::<RecordView>::empty());
        assert(s[0] == s.last());
        assert(insert_all(acc.insert(s[0].name, s[0]), Seq::<RecordView>::empty()) == acc.insert(
            s[0].name,
            s[0],
        ));
        assert(insert_all(acc, Seq::<RecordView>::empty()) == acc);
    } else {
        lemma_insert_all_snoc(acc.insert(s[0].name, s[0]), s.skip(1));
        assert(s.skip(1).drop_last() =~= s.drop_last().skip(1));
        assert(s.skip(1).last() == s.last());
        assert(s.drop_last()[0] == s[0]);
    }
}

/// Inserting records in order builds exactly the mapping they denote.
proof fn lemma_insert_all_is_map_of(s: Seq<RecordView>)
    ensures
        insert_all(Map::<Seq<char>, RecordView>::empty(), s) == map_of(s),
    decreases s.len(),
{
    if s.len() > 0 {
        lemma_insert_all_is_map_of(s.drop_last());
        lemma_insert_all_snoc(Map::<Seq<char>, RecordView>::empty(), s);
    }
}

/// Reading a hexadecimal digit back gives the value it was written from.
proof fn lemma_hex_digit_val(d: int)
    requires
        0 <= d < 16,
    ensures
        hex_val(hex_digit(d)) == Some(d),
{
}

/// The encoded body of a string parses back to that string.
proof fn lemma_parse_str_body_enc(t: Seq<char>, acc: Seq<char>, rest: Seq<char>)
    ensures
        parse_str_body(enc_str_body(t) + seq!['"'] + rest, acc) == Some(
            (acc + t, rest),
        ),
    decreases t.len(),
{
    let s = enc_str_body(t) + seq!['"'] + rest;
    if t.len() == 0 {
        assert(enc_str_body(t) =~= Seq::<char>::empty());
        assert(s[0] == '"');
        assert(s.skip(1) =~= rest);
        assert(acc + t =~= acc);
    } else {
        let c = t[0];
        lemma_parse_str_body_enc(t.skip(1), acc.push(c), rest);
        assert(acc.push(c) + t.skip(1) =~= acc + t);
        if c == '"' || c == '\\' {
            assert(s[0] == '\\');
            assert(s[1] == c);
            assert(s.len() >= 2);
            assert(unescape(c) == Some(c));
            assert(s.skip(2) =~= enc_str_body(t.skip(1)) + seq!['"'] + rest);
        } else if c == '\n' || c == '\t' || c == '\r' || c == '\u{8}' || c == '\u{c}' {
            assert(s[0] == '\\');
            assert(s[1] == esc_char(c)[1]);
            assert(s[1] != 'u');
            assert(unescape(s[1]) == Some(c));
            assert(s.skip(2) =~= enc_str_body(t.skip(1)) + seq!['"'] + rest);
        } else if (c as u32) < 0x20 {
            let u = c as u32;
            let hi = (u / 16) as int;
            let lo = (u % 16) as int;
            assert(s[0] == '\\');
            assert(s[1] == 'u');
            assert(s.skip(2)[0] == '0');
            assert(s.skip(2)[1] == '0');
            assert(s.skip(2)[2] == hex_digit(hi));
            assert(s.skip(2)[3] == hex_digit(lo));
            assert(hex_val('0') == Some(0int));
            assert(0 <= hi < 16);
            assert(0 <= lo < 16);
            lemma_hex_digit_val(hi);
            lemma_hex_digit_val(lo);
            assert(hi * 16 + lo == u as int);
            assert((0int * 4096 + 0int * 256 + hi * 16 + lo) as u32 == u);
            vstd::utf8::char_u32_cast(c, u);
            assert(unescape_hex(s.skip(2)) == Some(c));
            assert(s.skip(6) =~= enc_str_body(t.skip(1)) + seq!['"'] + rest);
        } else {
            assert(s[0] == c);
            assert(s.skip(1) =~= enc_str_body(t.skip(1)) + seq!['"'] + rest);
        }
    }
}

/// An encoded string parses back to the string it encodes.
proof fn lemma_parse_string_enc(t: Seq<char>, rest: Seq<char>)
    ensures
        parse_string(enc_string(t) + rest) == Some((t, rest)),
        (enc_string(t) + rest)[0] == '"',
        (enc_string(t) + rest).len() >= 2,
{
    let s = enc_string(t) + rest;
    assert(s[0] == '"');
    assert(s.skip(1) =~= enc_str_body(t) + seq!['"'] + rest);
    lemma_parse_str_body_enc(t, Seq::empty(), rest);
    assert(Seq::empty() + t =~= t);
}

/// An encoded record object parses back to its path.
#[verifier::rlimit(50)]
proof fn lemma_parse_record_enc(r: RecordView, rest: Seq<char>)
    ensures
        parse_record(enc_record(r) + rest) == Some((r, rest)),
        (enc_record(r) + rest)[0] == '{',
{
    let s = enc_record(r) + rest;
    assert(s[0] == '{');
    assert(skip_ws(s) == s);
    let m1 = enc_string(name_key()) + (seq![':'] + enc_string(r.name) + seq![','] + enc_string(
        path_key(),
    ) + seq![':'] + enc_string(r.path) + seq!['}'] + rest);
    assert(s.skip(1) =~= m1);
    // first member: "name": <name string>
    let r1 = seq![':'] + enc_string(r.name) + seq![','] + enc_string(path_key()) + seq![':']
        + enc_string(r.path) + seq!['}'] + rest;
    assert(m1 =~= enc_string(name_key()) + r1);
    lemma_parse_string_enc(name_key(), r1);
    assert(skip_ws(m1) == m1);
    assert(skip_ws(r1) == r1);
    assert(r1[0] == ':');
    let v1 = enc_string(r.name) + (seq![','] + enc_string(path_key()) + seq![':'] + enc_string(
        r.path,
    ) + seq!['}'] + rest);
    assert(r1.skip(1) =~= v1);
    assert(skip_ws(v1) == v1);
    let r2 = seq![','] + enc_string(path_key()) + seq![':'] + enc_string(r.path) + seq!['}'] + rest;
    assert(v1 =~= enc_string(r.name) + r2);
    lemma_parse_string_enc(r.name, r2);
    assert(skip_ws(r2) == r2);
    assert(r2[0] == ',');
    // the second member begins after the comma
    let m2 = enc_string(path_key()) + (seq![':'] + enc_string(r.path) + seq!['}'] + rest);
    assert(r2.skip(1) =~= m2);
    assert(r2.skip(1).len() < m1.len());
    let r3 = seq![':'] + enc_string(r.path) + seq!['}'] + rest;
    assert(m2 =~= enc_string(path_key()) + r3);
    lemma_parse_string_enc(path_key(), r3);
    assert(skip_ws(m2) == m2);
    assert(skip_ws(r3) == r3);
    assert(r3[0] == ':');
    assert(path_key()[0] != name_key()[0]);
    let v2 = enc_string(r.path) + (seq!['}'] + rest);
    assert(r3.skip(1) =~= v2);
    assert(skip_ws(v2) == v2);
    let r4 = seq!['}'] + rest;
    assert(v2 =~= enc_string(r.path) + r4);
    lemma_parse_string_enc(r.path, r4);
    assert(skip_ws(r4) == r4);
    assert(r4[0] == '}');
    assert(r4.skip(1) =~= rest);
    assert(RecordView { name: r.name, path: r.path } == r);
    assert(parse_record_members(m2, Some(r.name), None) == Some((r, rest)));
    assert(parse_record_members(m1, None, None) == Some((r, rest)));
}

/// Encoded top-level members parse back, inserting each record in order.
#[verifier::rlimit(100)]
#[verifier::spinoff_prover]
proof fn lemma_parse_top_members_enc(
    entries: Seq<RecordView>,
    acc: Map<Seq<char>, RecordView>,
    rest: Seq<char>,
)
    requires
        entries.len() >= 1,
    ensures
        parse_top_members(enc_entries(entries) + seq!['}'] + rest, acc) == Some(
            (insert_all(acc, entries), rest),
        ),
    decreases entries.len(),
{
    let e0 = entries[0];
    let s = enc_entries(entries) + seq!['}'] + rest;
    if entries.len() == 1 {
        assert(enc_entries(entries) == enc_entry(e0));
        let r1 = seq![':'] + enc_record(e0) + seq!['}'] + rest;
        assert(s =~= enc_string(e0.name) + r1);
        lemma_parse_string_enc(e0.name, r1);
        assert(skip_ws(s) == s);
        assert(skip_ws(r1) == r1);
        assert(r1[0] == ':');
        let rec1 = enc_record(e0) + (seq!['}'] + rest);
        assert(r1.skip(1) =~= rec1);
        lemma_parse_record_enc(e0, seq!['}'] + rest);
        let r4 = seq!['}'] + rest;
        assert(skip_ws(r4) == r4);
        assert(r4[0] == '}');
        assert(r4.skip(1) =~= rest);
        assert(RecordView { name: e0.name, path: e0.path } == e0);
        assert(entries.skip(1) =~= Seq::<RecordView>::empty());
        assert(insert_all(acc, entries) == acc.insert(e0.name, e0));
    } else {
        assert(enc_entries(entries) == enc_entry(e0) + seq![','] + enc_entries(entries.skip(1)));
        let tail = seq![','] + enc_entries(entries.skip(1)) + seq!['}'] + rest;
        let r1 = seq![':'] + enc_record(e0) + tail;
        assert(s =~= enc_string(e0.name) + r1);
        lemma_parse_string_enc(e0.name, r1);
        assert(skip_ws(s) == s);
        assert(skip_ws(r1) == r1);
        assert(r1[0] == ':');
        let rec1 = enc_record(e0) + tail;
        assert(r1.skip(1) =~= rec1);
        lemma_parse_record_enc(e0, tail);
        assert(skip_ws(tail) == tail);
        assert(tail[0] == ',');
        let nxt = enc_entries(entries.skip(1)) + seq!['}'] + rest;
        assert(tail.skip(1) =~= nxt);
        assert(tail.skip(1).len() < s.len());
        lemma_parse_top_members_enc(entries.skip(1), acc.insert(e0.name, e0), rest);
        assert(RecordView { name: e0.name, path: e0.path } == e0);
        assert(insert_all(acc, entries) == insert_all(acc.insert(e0.name, e0), entries.skip(1)));
    }
}

/// Round trip: the encoding of a registry always parses, and it parses back
/// to exactly the mapping of names to records the registry holds. Since the
/// encoding is never empty, the same holds of loading saved file contents.
pub proof fn lemma_save_load_round_trip(reg: &Registry)
    ensures
        spec_to_json(reg@).len() > 0,
        spec_parse_registry(spec_to_json(reg@)) == Some(reg.as_map()),
        spec_load(spec_to_json(reg@)) == Some(reg.as_map()),
{
    let s = spec_to_json(reg@);
    assert(s[0] == '{');
    assert(skip_ws(s) == s);
    if reg@.len() == 0 {
        assert(enc_entries(reg@) =~= Seq::<char>::empty());
        assert(s.skip(1) =~= seq!['}']);
        assert(skip_ws(s.skip(1)) == s.skip(1));
        assert(s.skip(1)[0] == '}');
        assert(s.skip(1).skip(1) =~= Seq::<char>::empty());
        assert(skip_ws(Seq::<char>::empty()).len() == 0);
        assert(map_of(reg@) =~= Map::<Seq<char>, RecordView>::empty());
    } else {
        let body = enc_entries(reg@) + seq!['}'] + Seq::<char>::empty();
        assert(s.skip(1) =~= body);
        let e0 = reg@[0];
        if reg@.len() == 1 {
            assert(enc_entries(reg@) == enc_entry(e0));
        } else {
            assert(enc_entries(reg@) == enc_entry(e0) + seq![','] + enc_entries(reg@.skip(1)));
        }
        assert(body[0] == '"');
        assert(skip_ws(body) == body);
        lemma_parse_top_members_enc(reg@, Map::<Seq<char>, RecordView>::empty(), Seq::empty());
        lemma_insert_all_is_map_of(reg@);
        assert(skip_ws(Seq::<char>::empty()).len() == 0);
    }
}

} // verus!
