//! The JSON codec for the database file: one array of record objects.
//!
//! Writing produces a pretty-printed document, one record per block and one
//! field per line; the argument array of a record stays on its field's line.
//! Reading accepts any whitespace layout, lets the fields of a record come
//! in any order, and recognises the record's shape by its keys: an
//! `arguments` key makes an array record, a `command` key a string record.
//! An object with other keys, a repeated key, a wrongly typed value or
//! malformed JSON fails the whole read.

use vstd::prelude::*;
use crate::wire::RecView;

verus! {

// ------------------------------------------------------------------
// Writing
// ------------------------------------------------------------------
/// One of the sixteen lowercase hexadecimal digits.
pub open spec fn hex_digit(v: u32) -> char {
    if v == 0 {
        '0'
    } else if v == 1 {
        '1'
    } else if v == 2 {
        '2'
    } else if v == 3 {
        '3'
    } else if v == 4 {
        '4'
    } else if v == 5 {
        '5'
    } else if v == 6 {
        '6'
    } else if v == 7 {
        '7'
    } else if v == 8 {
        '8'
    } else if v == 9 {
        '9'
    } else if v == 10 {
        'a'
    } else if v == 11 {
        'b'
    } else if v == 12 {
        'c'
    } else if v == 13 {
        'd'
    } else if v == 14 {
        'e'
    } else {
        'f'
    }
}

/// How one character is written inside a JSON string: itself, a named
/// escape, or `\u00..` for the remaining control characters.
pub open spec fn esc_char(c: char) -> Seq<char> {
    if c == '"' {
        seq!['\\', '"']
    } else if c == '\\' {
        seq!['\\', '\\']
    } else if c == '\u{8}' {
        seq!['\\', 'b']
    } else if c == '\u{c}' {
        seq!['\\', 'f']
    } else if c == '\n' {
        seq!['\\', 'n']
    } else if c == '\r' {
        seq!['\\', 'r']
    } else if c == '\t' {
        seq!['\\', 't']
    } else if (c as u32) < 32 {
        seq!['\\', 'u', '0', '0', hex_digit((c as u32) / 16), hex_digit((c as u32) % 16)]
    } else {
        seq![c]
    }
}

/// A text with every character escaped as JSON asks.
pub open spec fn esc_chars(s: Seq<char>) -> Seq<char>
    decreases s.len(),
{
    if s.len() == 0 {
        Seq::empty()
    } else {
        esc_char(s[0]) + esc_chars(s.skip(1))
    }
}

/// A JSON string: the escaped text between double quotes.
pub open spec fn jstring(s: Seq<char>) -> Seq<char> {
    seq!['"'] + esc_chars(s) + seq!['"']
}

/// The comma-separated strings inside an array.
pub open spec fn array_body(a: Seq<Seq<char>>) -> Seq<char>
    decreases a.len(),
{
    if a.len() == 0 {
        Seq::empty()
    } else if a.len() == 1 {
        jstring(a[0])
    } else {
        jstring(a[0]) + seq![',', ' '] + array_body(a.skip(1))
    }
}

/// A JSON array of strings, written on one line.
pub open spec fn jarray(a: Seq<Seq<char>>) -> Seq<char> {
    seq!['['] + array_body(a) + seq![']']
}

/// One field line of a record: four spaces, the key, a colon, the value.
pub open spec fn field_text(key: Seq<char>, value: Seq<char>) -> Seq<char> {
    seq![' ', ' ', ' ', ' '] + jstring(key) + seq![':', ' '] + value
}

/// The `output` field when there is one; nothing at all when there is none.
pub open spec fn output_text(o: Option<Seq<char>>) -> Seq<char> {
    match o {
        None => Seq::empty(),
        Some(t) => seq![',', '\n'] + field_text("output"@, jstring(t)),
    }
}

/// One record object, pretty-printed over several lines.
pub open spec fn rec_json(m: RecView) -> Seq<char> {
    match m {
        RecView::StringRec { directory, file, command, output } => seq!['{', '\n'] + field_text(
            "directory"@,
            jstring(directory),
        ) + seq![',', '\n'] + field_text("file"@, jstring(file)) + seq![',', '\n'] + field_text(
            "command"@,
            jstring(command),
        ) + output_text(output) + seq!['\n', ' ', ' ', '}'],
        RecView::ArrayRec { directory, file, arguments, output } => seq!['{', '\n'] + field_text(
            "directory"@,
            jstring(directory),
        ) + seq![',', '\n'] + field_text("file"@, jstring(file)) + seq![',', '\n'] + field_text(
            "arguments"@,
            jarray(arguments),
        ) + output_text(output) + seq!['\n', ' ', ' ', '}'],
    }
}

/// The records of the file, each indented two spaces, separated by commas.
pub open spec fn recs_body(rs: Seq<RecView>) -> Seq<char>
    decreases rs.len(),
{
    if rs.len() == 0 {
        Seq::empty()
    } else if rs.len() == 1 {
        seq![' ', ' '] + rec_json(rs[0])
    } else {
        seq![' ', ' '] + rec_json(rs[0]) + seq![',', '\n'] + recs_body(rs.skip(1))
    }
}

/// The whole database document.
pub open spec fn file_json(rs: Seq<RecView>) -> Seq<char> {
    if rs.len() == 0 {
        seq!['[', ']']
    } else {
        seq!['[', '\n'] + recs_body(rs) + seq!['\n', ']']
    }
}

// ------------------------------------------------------------------
// Reading
// ------------------------------------------------------------------
/// JSON insignificant whitespace.
pub open spec fn is_ws(c: char) -> bool {
    c == ' ' || c == '\t' || c == '\n' || c == '\r'
}

/// The text with its leading whitespace dropped.
pub open spec fn skip_ws(s: Seq<char>) -> Seq<char>
    decreases s.len(),
{
    if s.len() > 0 && is_ws(s[0]) {
        skip_ws(s.skip(1))
    } else {
        s
    }
}

/// The value of one hexadecimal digit, either case.
pub open spec fn hex_val(c: char) -> Option<u32> {
    let u = c as u32;
    if 48 <= u && u <= 57 {
        Some((u - 48) as u32)
    } else if 97 <= u && u <= 102 {
        Some((u - 87) as u32)
    } else if 65 <= u && u <= 70 {
        Some((u - 55) as u32)
    } else {
        None
    }
}

/// The value of four hexadecimal digits.
pub open spec fn hex4(a: char, b: char, c: char, d: char) -> Option<u32> {
    match (hex_val(a), hex_val(b), hex_val(c), hex_val(d)) {
        (Some(x), Some(y), Some(z), Some(w)) => Some((x * 4096 + y * 256 + z * 16 + w) as u32),
        _ => None,
    }
}

/// What a named escape after a backslash stands for.
pub open spec fn unescape(c: char) -> Option<char> {
    if c == '"' {
        Some('"')
    } else if c == '\\' {
        Some('\\')
    } else if c == '/' {
        Some('/')
    } else if c == 'b' {
        Some('\u{8}')
    } else if c == 'f' {
        Some('\u{c}')
    } else if c == 'n' {
        Some('\n')
    } else if c == 'r' {
        Some('\r')
    } else if c == 't' {
        Some('\t')
    } else {
        None
    }
}

/// Reads the rest of a JSON string after its opening quote, the characters
/// read so far in `acc`.  Handles the named escapes, `\u` with a lone
/// scalar, and `\u` surrogate pairs; fails on a bare control character, a
/// bad escape or a missing closing quote.
pub open spec fn string_body(acc: Seq<char>, s: Seq<char>) -> Option<(Seq<char>, Seq<char>)>
    decreases s.len(),
{
    if s.len() == 0 {
        None
    } else if s[0] == '"' {
        Some((acc, s.skip(1)))
    } else if s[0] == '\\' {
        if s.len() < 2 {
            None
        } else if s[1] == 'u' {
            if s.len() < 6 {
                None
            } else {
                match hex4(s[2], s[3], s[4], s[5]) {
                    Some(v) => {
                        if v < 0xD800 || v >= 0xE000 {
                            string_body(acc.push(v as char), s.skip(6))
                        } else if v < 0xDC00 {
                            if s.len() < 12 || s[6] != '\\' || s[7] != 'u' {
                                None
                            } else {
                                match hex4(s[8], s[9], s[10], s[11]) {
                                    Some(w) => if 0xDC00 <= w && w < 0xE000 {
                                        string_body(
                                            acc.push(
                                                ((0x10000 + (v - 0xD800) * 0x400 + (w
                                                    - 0xDC00)) as u32) as char,
                                            ),
                                            s.skip(12),
                                        )
                                    } else {
                                        None
                                    },
                                    None => None,
                                }
                            }
                        } else {
                            None
                        }
                    },
                    None => None,
                }
            }
        } else {
            match unescape(s[1]) {
                Some(u) => string_body(acc.push(u), s.skip(2)),
                None => None,
            }
        }
    } else if (s[0] as u32) < 32 {
        None
    } else {
        string_body(acc.push(s[0]), s.skip(1))
    }
}

/// Reads one JSON string, opening quote included.
pub open spec fn parse_string(s: Seq<char>) -> Option<(Seq<char>, Seq<char>)> {
    if s.len() > 0 && s[0] == '"' {
        string_body(Seq::empty(), s.skip(1))
    } else {
        None
    }
}

/// After a successful read the rest is strictly shorter than the input.
pub proof fn lemma_string_body_len(acc: Seq<char>, s: Seq<char>)
    ensures
        string_body(acc, s) matches Some(p) ==> p.1.len() < s.len(),
    decreases s.len(),
{
    if s.len() > 0 && s[0] != '"' {
        if s[0] == '\\' {
            if s.len() >= 6 && s[1] == 'u' {
                match hex4(s[2], s[3], s[4], s[5]) {
                    Some(v) => {
                        if v < 0xD800 || v >= 0xE000 {
                            lemma_string_body_len(acc.push(v as char), s.skip(6));
                        } else if v < 0xDC00 && s.len() >= 12 {
                            match hex4(s[8], s[9], s[10], s[11]) {
                                Some(w) => {
                                    lemma_string_body_len(
                                        acc.push(
                                            ((0x10000 + (v - 0xD800) * 0x400 + (w
                                                - 0xDC00)) as u32) as char,
                                        ),
                                        s.skip(12),
                                    );
                                },
                                None => {},
                            }
                        }
                    },
                    None => {},
                }
            } else if s.len() >= 2 {
                match unescape(s[1]) {
                    Some(u) => {
                        lemma_string_body_len(acc.push(u), s.skip(2));
                    },
                    None => {},
                }
            }
        } else {
            lemma_string_body_len(acc.push(s[0]), s.skip(1));
        }
    }
}

/// The same, for a whole string with its opening quote.
pub proof fn lemma_parse_string_len(s: Seq<char>)
    ensures
        parse_string(s) matches Some(p) ==> p.1.len() < s.len(),
{
    if s.len() > 0 && s[0] == '"' {
        lemma_string_body_len(Seq::empty(), s.skip(1));
    }
}

/// Dropping whitespace never lengthens the text.
pub proof fn lemma_skip_ws_len(s: Seq<char>)
    ensures
        skip_ws(s).len() <= s.len(),
    decreases s.len(),
{
    if s.len() > 0 && is_ws(s[0]) {
        lemma_skip_ws_len(s.skip(1));
    }
}

/// Reads the strings of an array after its opening bracket, those already
/// read in `acc`; ends at the closing bracket.
pub open spec fn array_items(acc: Seq<Seq<char>>, s: Seq<char>) -> Option<
    (Seq<Seq<char>>, Seq<char>),
>
    decreases s.len(),
    via array_items_dec
{
    let t = skip_ws(s);
    match parse_string(t) {
        None => None,
        Some(p) => {
            let u = skip_ws(p.1);
            if u.len() == 0 {
                None
            } else if u[0] == ',' {
                array_items(acc.push(p.0), u.skip(1))
            } else if u[0] == ']' {
                Some((acc.push(p.0), u.skip(1)))
            } else {
                None
            }
        },
    }
}

#[via_fn]
proof fn array_items_dec(acc: Seq<Seq<char>>, s: Seq<char>) {
    lemma_skip_ws_len(s);
    let t = skip_ws(s);
    lemma_parse_string_len(t);
    match parse_string(t) {
        None => {},
        Some(p) => {
            lemma_skip_ws_len(p.1);
        },
    }
}

/// After reading the items of an array the rest is strictly shorter.
pub proof fn lemma_array_items_len(acc: Seq<Seq<char>>, s: Seq<char>)
    ensures
        array_items(acc, s) matches Some(p) ==> p.1.len() < s.len(),
    decreases s.len(),
{
    let t = skip_ws(s);
    lemma_skip_ws_len(s);
    lemma_parse_string_len(t);
    match parse_string(t) {
        None => {},
        Some(p) => {
            let u = skip_ws(p.1);
            lemma_skip_ws_len(p.1);
            if u.len() > 0 && u[0] == ',' {
                lemma_array_items_len(acc.push(p.0), u.skip(1));
            }
        },
    }
}

/// Reads one JSON array of strings, opening bracket included.
pub open spec fn parse_array(s: Seq<char>) -> Option<(Seq<Seq<char>>, Seq<char>)> {
    if s.len() == 0 || s[0] != '[' {
        None
    } else {
        let t = skip_ws(s.skip(1));
        if t.len() > 0 && t[0] == ']' {
            Some((Seq::empty(), t.skip(1)))
        } else {
            array_items(Seq::empty(), s.skip(1))
        }
    }
}

/// One field value: a string or an array of strings.  Nothing else stands
/// in a record.
pub enum FieldVal {
    Text(Seq<char>),
    List(Seq<Seq<char>>),
}

/// Reads one field value.
pub open spec fn parse_value(s: Seq<char>) -> Option<(FieldVal, Seq<char>)> {
    if s.len() == 0 {
        None
    } else if s[0] == '"' {
        match parse_string(s) {
            Some(p) => Some((FieldVal::Text(p.0), p.1)),
            None => None,
        }
    } else if s[0] == '[' {
        match parse_array(s) {
            Some(p) => Some((FieldVal::List(p.0), p.1)),
            None => None,
        }
    } else {
        None
    }
}

/// After reading a value the rest is strictly shorter.
pub proof fn lemma_parse_value_len(s: Seq<char>)
    ensures
        parse_value(s) matches Some(p) ==> p.1.len() < s.len(),
{
    lemma_parse_string_len(s);
    if s.len() > 0 && s[0] == '[' {
        let t = skip_ws(s.skip(1));
        lemma_skip_ws_len(s.skip(1));
        lemma_array_items_len(Seq::empty(), s.skip(1));
    }
}

/// A record while its fields are being read.
#[verifier::ext_equal]
pub struct PartialRec {
    pub directory: Option<Seq<char>>,
    pub file: Option<Seq<char>>,
    pub command: Option<Seq<char>>,
    pub arguments: Option<Seq<Seq<char>>>,
    pub output: Option<Seq<char>>,
}

/// No field seen yet.
pub open spec fn empty_rec() -> PartialRec {
    PartialRec { directory: None, file: None, command: None, arguments: None, output: None }
}

/// Takes one field in: the key must be one of the five known ones, not yet
/// seen, and its value of the right type.
pub open spec fn add_field(p: PartialRec, key: Seq<char>, v: FieldVal) -> Option<PartialRec> {
    if key == "directory"@ {
        match v {
            FieldVal::Text(t) => if p.directory is None {
                Some(PartialRec { directory: Some(t), ..p })
            } else {
                None
            },
            _ => None,
        }
    } else if key == "file"@ {
        match v {
            FieldVal::Text(t) => if p.file is None {
                Some(PartialRec { file: Some(t), ..p })
            } else {
                None
            },
            _ => None,
        }
    } else if key == "command"@ {
        match v {
            FieldVal::Text(t) => if p.command is None {
                Some(PartialRec { command: Some(t), ..p })
            } else {
                None
            },
            _ => None,
        }
    } else if key == "arguments"@ {
        match v {
            FieldVal::List(a) => if p.arguments is None {
                Some(PartialRec { arguments: Some(a), ..p })
            } else {
                None
            },
            _ => None,
        }
    } else if key == "output"@ {
        match v {
            FieldVal::Text(t) => if p.output is None {
                Some(PartialRec { output: Some(t), ..p })
            } else {
                None
            },
            _ => None,
        }
    } else {
        None
    }
}

/// Reads the fields of a record after its opening brace (or after a comma),
/// the fields already taken in `p`; ends at the closing brace.
pub open spec fn members(p: PartialRec, s: Seq<char>) -> Option<(PartialRec, Seq<char>)>
    decreases s.len(),
    via members_dec
{
    let t = skip_ws(s);
    match parse_string(t) {
        None => None,
        Some(kp) => {
            let u = skip_ws(kp.1);
            if u.len() == 0 || u[0] != ':' {
                None
            } else {
                let v = skip_ws(u.skip(1));
                match parse_value(v) {
                    None => None,
                    Some(vp) => match add_field(p, kp.0, vp.0) {
                        None => None,
                        Some(p2) => {
                            let w = skip_ws(vp.1);
                            if w.len() == 0 {
                                None
                            } else if w[0] == ',' {
                                members(p2, w.skip(1))
                            } else if w[0] == '}' {
                                Some((p2, w.skip(1)))
                            } else {
                                None
                            }
                        },
                    },
                }
            }
        },
    }
}

#[via_fn]
proof fn members_dec(p: PartialRec, s: Seq<char>) {
    lemma_skip_ws_len(s);
    let t = skip_ws(s);
    lemma_parse_string_len(t);
    match parse_string(t) {
        None => {},
        Some(kp) => {
            lemma_skip_ws_len(kp.1);
            let u = skip_ws(kp.1);
            if u.len() > 0 {
                let v = skip_ws(u.skip(1));
                lemma_skip_ws_len(u.skip(1));
                lemma_parse_value_len(v);
                match parse_value(v) {
                    None => {},
                    Some(vp) => {
                        lemma_skip_ws_len(vp.1);
                    },
                }
            }
        },
    }
}

/// After reading a record's fields the rest is strictly shorter.
pub proof fn lemma_members_len(p: PartialRec, s: Seq<char>)
    ensures
        members(p, s) matches Some(q) ==> q.1.len() < s.len(),
    decreases s.len(),
{
    lemma_skip_ws_len(s);
    let t = skip_ws(s);
    lemma_parse_string_len(t);
    match parse_string(t) {
        None => {},
        Some(kp) => {
            lemma_skip_ws_len(kp.1);
            let u = skip_ws(kp.1);
            if u.len() > 0 && u[0] == ':' {
                let v = skip_ws(u.skip(1));
                lemma_skip_ws_len(u.skip(1));
                lemma_parse_value_len(v);
                match parse_value(v) {
                    None => {},
                    Some(vp) => {
                        lemma_skip_ws_len(vp.1);
                        let w = skip_ws(vp.1);
                        match add_field(p, kp.0, vp.0) {
                            None => {},
                            Some(p2) => {
                                if w.len() > 0 && w[0] == ',' {
                                    lemma_members_len(p2, w.skip(1));
                                }
                            },
                        }
                    },
                }
            }
        },
    }
}

/// The record a completed field set stands for, shape chosen by its keys:
/// `directory` and `file` are required, and exactly one of `command` and
/// `arguments` must have been present.
pub open spec fn finish_rec(p: PartialRec) -> Option<RecView> {
    match (p.directory, p.file) {
        (Some(d), Some(f)) => match (p.command, p.arguments) {
            (Some(c), None) => Some(
                RecView::StringRec { directory: d, file: f, command: c, output: p.output },
            ),
            (None, Some(a)) => Some(
                RecView::ArrayRec { directory: d, file: f, arguments: a, output: p.output },
            ),
            _ => None,
        },
        _ => None,
    }
}

/// Reads one record object, opening brace included.
pub open spec fn parse_rec(s: Seq<char>) -> Option<(RecView, Seq<char>)> {
    if s.len() == 0 || s[0] != '{' {
        None
    } else {
        match members(empty_rec(), s.skip(1)) {
            None => None,
            Some(q) => match finish_rec(q.0) {
                Some(m) => Some((m, q.1)),
                None => None,
            },
        }
    }
}

/// After reading a record the rest is strictly shorter.
pub proof fn lemma_parse_rec_len(s: Seq<char>)
    ensures
        parse_rec(s) matches Some(p) ==> p.1.len() < s.len(),
{
    if s.len() > 0 && s[0] == '{' {
        lemma_members_len(empty_rec(), s.skip(1));
    }
}

/// Reads the records of the file after the opening bracket, those already
/// read in `acc`; ends at the closing bracket.
pub open spec fn rec_items(acc: Seq<RecView>, s: Seq<char>) -> Option<(Seq<RecView>, Seq<char>)>
    decreases s.len(),
    via rec_items_dec
{
    let t = skip_ws(s);
    match parse_rec(t) {
        None => None,
        Some(p) => {
            let u = skip_ws(p.1);
            if u.len() == 0 {
                None
            } else if u[0] == ',' {
                rec_items(acc.push(p.0), u.skip(1))
            } else if u[0] == ']' {
                Some((acc.push(p.0), u.skip(1)))
            } else {
                None
            }
        },
    }
}

#[via_fn]
proof fn rec_items_dec(acc: Seq<RecView>, s: Seq<char>) {
    lemma_skip_ws_len(s);
    let t = skip_ws(s);
    lemma_parse_rec_len(t);
    match parse_rec(t) {
        None => {},
        Some(p) => {
            lemma_skip_ws_len(p.1);
        },
    }
}

/// Reads the whole document: one array of records with nothing but
/// whitespace around it.
pub open spec fn parse_db(s: Seq<char>) -> Option<Seq<RecView>> {
    let t = skip_ws(s);
    if t.len() == 0 || t[0] != '[' {
        None
    } else {
        let u = skip_ws(t.skip(1));
        if u.len() > 0 && u[0] == ']' {
            if skip_ws(u.skip(1)).len() == 0 {
                Some(Seq::empty())
            } else {
                None
            }
        } else {
            match rec_items(Seq::empty(), t.skip(1)) {
                None => None,
                Some(p) => if skip_ws(p.1).len() == 0 {
                    Some(p.0)
                } else {
                    None
                },
            }
        }
    }
}

} // verus!

use crate::text::{char_from_u32, chars_string, str_chars, str_eq};
use crate::wire::GenericEntry;

verus! {

impl DeepView for GenericEntry {
    type V = RecView;

    open spec fn deep_view(&self) -> RecView {
        self.view()
    }
}

/// True when the character is JSON whitespace.
fn is_ws_x(c: char) -> (r: bool)
    ensures
        r == is_ws(c),
{
    c == ' ' || c == '\t' || c == '\n' || c == '\r'
}

/// The position where the whitespace that starts at `i` ends.
fn ws_end(s: &Vec<char>, i: usize) -> (j: usize)
    requires
        i <= s@.len(),
    ensures
        i <= j <= s@.len(),
        s@.skip(j as int) == skip_ws(s@.skip(i as int)),
{
    let mut j: usize = i;
    loop
        invariant
            i <= j <= s@.len(),
            skip_ws(s@.skip(j as int)) == skip_ws(s@.skip(i as int)),
        ensures
            i <= j <= s@.len(),
            s@.skip(j as int) == skip_ws(s@.skip(i as int)),
        decreases s@.len() - j,
    {
        if j == s.len() {
            proof {
                assert(s@.skip(j as int) =~= Seq::<char>::empty());
            }
            break ;
        }
        let c = s[j];
        proof {
            assert(s@.skip(j as int)[0] == c);
        }
        if is_ws_x(c) {
            proof {
                assert(s@.skip(j as int).skip(1) =~= s@.skip(j + 1));
            }
            j = j + 1;
        } else {
            break ;
        }
    }
    j
}

/// The value of one hexadecimal digit character.
fn hexv(c: char) -> (r: Option<u32>)
    ensures
        r == hex_val(c),
        r matches Some(v) ==> v < 16,
{
    let u = c as u32;
    if 48 <= u && u <= 57 {
        Some(u - 48)
    } else if 97 <= u && u <= 102 {
        Some(u - 87)
    } else if 65 <= u && u <= 70 {
        Some(u - 55)
    } else {
        None
    }
}

/// The value of the four hexadecimal digits at `j`.
fn hex4_x(s: &Vec<char>, j: usize) -> (r: Option<u32>)
    requires
        j + 4 <= s@.len(),
    ensures
        r == hex4(s@[j as int], s@[j + 1], s@[j + 2], s@[j + 3]),
        r matches Some(v) ==> v < 0x10000,
{
    let n = s.len();
    let a = match hexv(s[j]) {
        Some(x) => x,
        None => {
            return None;
        },
    };
    let b = match hexv(s[j + 1]) {
        Some(x) => x,
        None => {
            return None;
        },
    };
    let c = match hexv(s[j + 2]) {
        Some(x) => x,
        None => {
            return None;
        },
    };
    let d = match hexv(s[j + 3]) {
        Some(x) => x,
        None => {
            return None;
        },
    };
    Some(a * 4096 + b * 256 + c * 16 + d)
}

/// What a named escape stands for.
fn unesc_x(c: char) -> (r: Option<char>)
    ensures
        r == unescape(c),
{
    if c == '"' {
        Some('"')
    } else if c == '\\' {
        Some('\\')
    } else if c == '/' {
        Some('/')
    } else if c == 'b' {
        Some('\u{8}')
    } else if c == 'f' {
        Some('\u{c}')
    } else if c == 'n' {
        Some('\n')
    } else if c == 'r' {
        Some('\r')
    } else if c == 't' {
        Some('\t')
    } else {
        None
    }
}

/// Reads the JSON string that starts at `i` and returns it with the
/// position right after its closing quote.
#[verifier::rlimit(100)]
#[verifier::spinoff_prover]
fn parse_string_x(s: &Vec<char>, i: usize) -> (r: Option<(String, usize)>)
    requires
        i <= s@.len(),
    ensures
        match r {
            Some(p) => {
                &&& i < p.1 <= s@.len()
                &&& parse_string(s@.skip(i as int)) == Some((p.0@, s@.skip(p.1 as int)))
            },
            None => parse_string(s@.skip(i as int)) is None,
        },
{
    if i == s.len() {
        return None;
    }
    proof {
        assert(s@.skip(i as int)[0] == s@[i as int]);
    }
    if s[i] != '"' {
        return None;
    }
    proof {
        assert(s@.skip(i as int).skip(1) =~= s@.skip(i + 1));
    }
    let mut acc: Vec<char> = Vec::new();
    let mut k: usize = i + 1;
    loop
        invariant
            i + 1 <= k <= s@.len(),
            string_body(acc@, s@.skip(k as int)) == string_body(Seq::empty(), s@.skip(i + 1)),
            parse_string(s@.skip(i as int)) == string_body(Seq::empty(), s@.skip(i + 1)),
        decreases s@.len() - k,
    {
        let ghost sk = s@.skip(k as int);
        proof {
            if sk.len() >= 1 {
                assert(sk.skip(1) =~= s@.skip(k + 1));
            }
            if sk.len() >= 2 {
                assert(sk.skip(2) =~= s@.skip(k + 2));
            }
            if sk.len() >= 6 {
                assert(sk.skip(6) =~= s@.skip(k + 6));
            }
            if sk.len() >= 12 {
                assert(sk.skip(12) =~= s@.skip(k + 12));
            }
        }
        if k == s.len() {
            proof {
                assert(sk =~= Seq::<char>::empty());
            }
            return None;
        }
        let c = s[k];
        proof {
            assert(sk[0] == c);
        }
        if c == '"' {
            return Some((chars_string(&acc), k + 1));
        } else if c == '\\' {
            if k + 1 == s.len() {
                proof {
                    assert(sk.len() == 1);
                }
                return None;
            }
            let d = s[k + 1];
            proof {
                assert(sk[1] == d);
            }
            if d == 'u' {
                if s.len() - k < 6 {
                    proof {
                        assert(sk.len() < 6);
                    }
                    return None;
                }
                proof {
                    assert(sk[2] == s@[k + 2]);
                    assert(sk[3] == s@[k + 3]);
                    assert(sk[4] == s@[k + 4]);
                    assert(sk[5] == s@[k + 5]);
                }
                match hex4_x(s, k + 2) {
                    None => {
                        return None;
                    },
                    Some(v) => {
                        if v < 0xD800 || v >= 0xE000 {
                            let c2 = char_from_u32(v).unwrap();
                            acc.push(c2);
                            k = k + 6;
                        } else if v < 0xDC00 {
                            if s.len() - k < 12 {
                                proof {
                                    assert(sk.len() < 12);
                                }
                                return None;
                            }
                            proof {
                                assert(sk[6] == s@[k + 6]);
                                assert(sk[7] == s@[k + 7]);
                                assert(sk[8] == s@[k + 8]);
                                assert(sk[9] == s@[k + 9]);
                                assert(sk[10] == s@[k + 10]);
                                assert(sk[11] == s@[k + 11]);
                            }
                            if s[k + 6] != '\\' || s[k + 7] != 'u' {
                                return None;
                            }
                            match hex4_x(s, k + 8) {
                                None => {
                                    return None;
                                },
                                Some(w) => {
                                    if 0xDC00 <= w && w < 0xE000 {
                                        let u = 0x10000 + (v - 0xD800) * 0x400 + (w - 0xDC00);
                                        let c2 = char_from_u32(u).unwrap();
                                        acc.push(c2);
                                        k = k + 12;
                                    } else {
                                        return None;
                                    }
                                },
                            }
                        } else {
                            return None;
                        }
                    },
                }
            } else {
                match unesc_x(d) {
                    Some(u) => {
                        acc.push(u);
                        k = k + 2;
                    },
                    None => {
                        return None;
                    },
                }
            }
        } else if (c as u32) < 32 {
            return None;
        } else {
            acc.push(c);
            k = k + 1;
        }
    }
}

/// Reads the JSON array of strings that starts at `i`.
#[verifier::rlimit(100)]
#[verifier::spinoff_prover]
fn parse_array_x(s: &Vec<char>, i: usize) -> (r: Option<(Vec<String>, usize)>)
    requires
        i <= s@.len(),
    ensures
        match r {
            Some(p) => {
                &&& i < p.1 <= s@.len()
                &&& parse_array(s@.skip(i as int)) == Some((p.0.deep_view(), s@.skip(p.1 as int)))
            },
            None => parse_array(s@.skip(i as int)) is None,
        },
{
    if i == s.len() {
        return None;
    }
    proof {
        assert(s@.skip(i as int)[0] == s@[i as int]);
    }
    if s[i] != '[' {
        return None;
    }
    proof {
        assert(s@.skip(i as int).skip(1) =~= s@.skip(i + 1));
    }
    let t = ws_end(s, i + 1);
    if t < s.len() && s[t] == ']' {
        proof {
            assert(s@.skip(t as int)[0] == s@[t as int]);
            assert(s@.skip(t as int).skip(1) =~= s@.skip(t + 1));
        }
        let empty: Vec<String> = Vec::new();
        proof {
            assert(empty.deep_view() =~= Seq::<Seq<char>>::empty());
        }
        return Some((empty, t + 1));
    }
    proof {
        if s@.skip(t as int).len() > 0 {
            assert(s@.skip(t as int)[0] == s@[t as int]);
        }
    }
    let mut acc: Vec<String> = Vec::new();
    let mut k: usize = i + 1;
    proof {
        assert(acc.deep_view() =~= Seq::<Seq<char>>::empty());
    }
    loop
        invariant
            i + 1 <= k <= s@.len(),
            array_items(acc.deep_view(), s@.skip(k as int)) == array_items(
                Seq::empty(),
                s@.skip(i + 1),
            ),
            parse_array(s@.skip(i as int)) == array_items(Seq::empty(), s@.skip(i + 1)),
        decreases s@.len() - k,
    {
        let t2 = ws_end(s, k);
        proof {
            assert(skip_ws(s@.skip(k as int)) == s@.skip(t2 as int));
        }
        match parse_string_x(s, t2) {
            None => {
                return None;
            },
            Some(p) => {
                let (txt, k3) = p;
                let u = ws_end(s, k3);
                proof {
                    assert(skip_ws(s@.skip(k3 as int)) == s@.skip(u as int));
                }
                if u == s.len() {
                    proof {
                        assert(s@.skip(u as int) =~= Seq::<char>::empty());
                    }
                    return None;
                }
                let c = s[u];
                proof {
                    assert(s@.skip(u as int)[0] == c);
                    assert(s@.skip(u as int).skip(1) =~= s@.skip(u + 1));
                }
                let ghost prev = acc.deep_view();
                acc.push(txt);
                proof {
                    assert(acc.deep_view() =~= prev.push(txt@));
                }
                if c == ',' {
                    k = u + 1;
                } else if c == ']' {
                    return Some((acc, u + 1));
                } else {
                    return None;
                }
            },
        }
    }
}

} // verus!

verus! {

/// A record while its fields are being read, as executable data.
struct PartialX {
    directory: Option<String>,
    file: Option<String>,
    command: Option<String>,
    arguments: Option<Vec<String>>,
    output: Option<String>,
}

/// The field set an executable partial record stands for.
spec fn px_view(p: &PartialX) -> PartialRec {
    PartialRec {
        directory: match p.directory {
            Some(ref t) => Some(t@),
            None => None,
        },
        file: match p.file {
            Some(ref t) => Some(t@),
            None => None,
        },
        command: match p.command {
            Some(ref t) => Some(t@),
            None => None,
        },
        arguments: match p.arguments {
            Some(ref a) => Some(a.deep_view()),
            None => None,
        },
        output: match p.output {
            Some(ref t) => Some(t@),
            None => None,
        },
    }
}


/// Takes one text-valued field into the record being read.
fn add_text(px: PartialX, key: &String, txt: String) -> (r: Option<PartialX>)
    ensures
        match add_field(px_view(&px), key@, FieldVal::Text(txt@)) {
            Some(p2) => r matches Some(q) && px_view(&q) == p2,
            None => r is None,
        },
{
    proof {
        reveal_strlit("directory");
        reveal_strlit("file");
        reveal_strlit("command");
        reveal_strlit("arguments");
        reveal_strlit("output");
        assert("directory"@.len() == 9);
        assert("file"@.len() == 4);
        assert("command"@.len() == 7);
        assert("arguments"@.len() == 9);
        assert("output"@.len() == 6);
        assert("directory"@[0] == 'd');
        assert("arguments"@[0] == 'a');
        assert("directory"@ != "arguments"@);
    }
    if str_eq(key.as_str(), "directory") {
        if px.directory.is_none() {
            let q = PartialX { directory: Some(txt), ..px };
            proof {
                assert(px_view(&q) =~= add_field(px_view(&px), key@, FieldVal::Text(txt@)).unwrap());
            }
            Some(q)
        } else {
            None
        }
    } else if str_eq(key.as_str(), "file") {
        if px.file.is_none() {
            let q = PartialX { file: Some(txt), ..px };
            proof {
                assert(px_view(&q) =~= add_field(px_view(&px), key@, FieldVal::Text(txt@)).unwrap());
            }
            Some(q)
        } else {
            None
        }
    } else if str_eq(key.as_str(), "command") {
        if px.command.is_none() {
            let q = PartialX { command: Some(txt), ..px };
            proof {
                assert(px_view(&q) =~= add_field(px_view(&px), key@, FieldVal::Text(txt@)).unwrap());
            }
            Some(q)
        } else {
            None
        }
    } else if str_eq(key.as_str(), "output") {
        if px.output.is_none() {
            let q = PartialX { output: Some(txt), ..px };
            proof {
                assert(px_view(&q) =~= add_field(px_view(&px), key@, FieldVal::Text(txt@)).unwrap());
            }
            Some(q)
        } else {
            None
        }
    } else {
        None
    }
}

/// Takes the one list-valued field into the record being read.
fn add_list(px: PartialX, key: &String, list: Vec<String>) -> (r: Option<PartialX>)
    ensures
        match add_field(px_view(&px), key@, FieldVal::List(list.deep_view())) {
            Some(p2) => r matches Some(q) && px_view(&q) == p2,
            None => r is None,
        },
{
    proof {
        reveal_strlit("directory");
        reveal_strlit("file");
        reveal_strlit("command");
        reveal_strlit("arguments");
        reveal_strlit("output");
        assert("directory"@.len() == 9);
        assert("file"@.len() == 4);
        assert("command"@.len() == 7);
        assert("arguments"@.len() == 9);
        assert("output"@.len() == 6);
        assert("directory"@[0] == 'd');
        assert("arguments"@[0] == 'a');
        assert("directory"@ != "arguments"@);
    }
    if str_eq(key.as_str(), "arguments") {
        if px.arguments.is_none() {
            let ghost dv = list.deep_view();
            let q = PartialX { arguments: Some(list), ..px };
            proof {
                assert(px_view(&q) =~= add_field(px_view(&px), key@, FieldVal::List(dv)).unwrap());
            }
            Some(q)
        } else {
            None
        }
    } else {
        None
    }
}

/// The record a completed field set stands for, executable side.
fn finish_x(px: PartialX) -> (r: Option<GenericEntry>)
    ensures
        match finish_rec(px_view(&px)) {
            Some(m) => r matches Some(g) && g@ == m,
            None => r is None,
        },
{
    match (px.directory, px.file, px.command, px.arguments, px.output) {
        (Some(d2), Some(f2), Some(c2), None, o2) => {
            let g = GenericEntry::StringEntry { directory: d2, file: f2, command: c2, output: o2 };
            proof {
                assert(g@ =~= finish_rec(px_view(&px)).unwrap());
            }
            Some(g)
        },
        (Some(d2), Some(f2), None, Some(a2), o2) => {
            let g = GenericEntry::ArrayEntry { directory: d2, file: f2, arguments: a2, output: o2 };
            proof {
                assert(g@ =~= finish_rec(px_view(&px)).unwrap());
            }
            Some(g)
        },
        _ => None,
    }
}

/// Reads the record object that starts at `i`.
#[verifier::rlimit(100)]
#[verifier::spinoff_prover]
fn parse_rec_x(s: &Vec<char>, i: usize) -> (r: Option<(GenericEntry, usize)>)
    requires
        i <= s@.len(),
    ensures
        match r {
            Some(p) => {
                &&& i < p.1 <= s@.len()
                &&& parse_rec(s@.skip(i as int)) == Some((p.0@, s@.skip(p.1 as int)))
            },
            None => parse_rec(s@.skip(i as int)) is None,
        },
{
    if i == s.len() {
        return None;
    }
    proof {
        assert(s@.skip(i as int)[0] == s@[i as int]);
    }
    if s[i] != '{' {
        return None;
    }
    proof {
        assert(s@.skip(i as int).skip(1) =~= s@.skip(i + 1));
    }
    let mut px = PartialX {
        directory: None,
        file: None,
        command: None,
        arguments: None,
        output: None,
    };
    proof {
        assert(px_view(&px) =~= empty_rec());
    }
    let mut k: usize = i + 1;
    loop
        invariant
            i < s@.len(),
            s@[i as int] == '{',
            i + 1 <= k <= s@.len(),
            members(px_view(&px), s@.skip(k as int)) == members(empty_rec(), s@.skip(i + 1)),
            parse_rec(s@.skip(i as int)) == (match members(empty_rec(), s@.skip(i + 1)) {
                None => None,
                Some(q) => match finish_rec(q.0) {
                    Some(m) => Some((m, q.1)),
                    None => None,
                },
            }),
        decreases s@.len() - k,
    {
        let t = ws_end(s, k);
        proof {
            assert(skip_ws(s@.skip(k as int)) == s@.skip(t as int));
        }
        let (key, k2) = match parse_string_x(s, t) {
            Some(p) => p,
            None => {
                return None;
            },
        };
        let u = ws_end(s, k2);
        proof {
            assert(skip_ws(s@.skip(k2 as int)) == s@.skip(u as int));
            if s@.skip(u as int).len() > 0 {
                assert(s@.skip(u as int)[0] == s@[u as int]);
            }
        }
        if u == s.len() {
            proof {
                assert(s@.skip(u as int) =~= Seq::<char>::empty());
            }
            return None;
        }
        if s[u] != ':' {
            return None;
        }
        proof {
            assert(s@.skip(u as int).skip(1) =~= s@.skip(u + 1));
        }
        let v = ws_end(s, u + 1);
        proof {
            assert(skip_ws(s@.skip(u + 1)) == s@.skip(v as int));
            if s@.skip(v as int).len() > 0 {
                assert(s@.skip(v as int)[0] == s@[v as int]);
            }
        }
        if v == s.len() {
            proof {
                assert(s@.skip(v as int) =~= Seq::<char>::empty());
            }
            return None;
        }
        let c = s[v];
        let ghost vs = s@.skip(v as int);
        let k3: usize;
        if c == '"' {
            let (txt, k3s) = match parse_string_x(s, v) {
                Some(p) => p,
                None => {
                    return None;
                },
            };
            proof {
                assert(parse_value(vs) == Some(
                    (FieldVal::Text(txt@), s@.skip(k3s as int)),
                ));
            }
            px = match add_text(px, &key, txt) {
                Some(q) => q,
                None => {
                    return None;
                },
            };
            k3 = k3s;
        } else if c == '[' {
            let (list, k3s) = match parse_array_x(s, v) {
                Some(p) => p,
                None => {
                    return None;
                },
            };
            proof {
                assert(parse_value(vs) == Some(
                    (FieldVal::List(list.deep_view()), s@.skip(k3s as int)),
                ));
            }
            px = match add_list(px, &key, list) {
                Some(q) => q,
                None => {
                    return None;
                },
            };
            k3 = k3s;
        } else {
            return None;
        }
        let w = ws_end(s, k3);
        proof {
            assert(skip_ws(s@.skip(k3 as int)) == s@.skip(w as int));
            if s@.skip(w as int).len() > 0 {
                assert(s@.skip(w as int)[0] == s@[w as int]);
            }
        }
        if w == s.len() {
            proof {
                assert(s@.skip(w as int) =~= Seq::<char>::empty());
            }
            return None;
        }
        let d = s[w];
        proof {
            assert(s@.skip(w as int).skip(1) =~= s@.skip(w + 1));
        }
        if d == ',' {
            k = w + 1;
        } else if d == '}' {
            proof {
                assert(members(empty_rec(), s@.skip(i + 1)) == Some(
                    (px_view(&px), s@.skip(w + 1)),
                ));
            }
            let g = match finish_x(px) {
                Some(g) => g,
                None => {
                    return None;
                },
            };
            return Some((g, w + 1));
        } else {
            return None;
        }
    }
}

/// Reads a whole database document; `None` when it is not a JSON array of
/// well-shaped records.
pub fn parse_db_text(text: &str) -> (r: Option<Vec<GenericEntry>>)
    ensures
        match parse_db(text@) {
            Some(ms) => r matches Some(v) && v.deep_view() == ms,
            None => r is None,
        },
{
    let s = str_chars(text);
    proof {
        assert(s@.skip(0) =~= s@);
    }
    let t = ws_end(&s, 0);
    proof {
        assert(skip_ws(text@) == s@.skip(t as int));
        if s@.skip(t as int).len() > 0 {
            assert(s@.skip(t as int)[0] == s@[t as int]);
        }
    }
    if t == s.len() {
        proof {
            assert(s@.skip(t as int) =~= Seq::<char>::empty());
        }
        return None;
    }
    if s[t] != '[' {
        return None;
    }
    proof {
        assert(s@.skip(t as int).skip(1) =~= s@.skip(t + 1));
    }
    let u = ws_end(&s, t + 1);
    proof {
        assert(skip_ws(s@.skip(t + 1)) == s@.skip(u as int));
        if s@.skip(u as int).len() > 0 {
            assert(s@.skip(u as int)[0] == s@[u as int]);
        }
    }
    if u < s.len() && s[u] == ']' {
        proof {
            assert(s@.skip(u as int).skip(1) =~= s@.skip(u + 1));
        }
        let e = ws_end(&s, u + 1);
        if e == s.len() {
            proof {
                assert(s@.skip(e as int) =~= Seq::<char>::empty());
                assert(skip_ws(s@.skip(u + 1)).len() == 0);
            }
            let empty: Vec<GenericEntry> = Vec::new();
            proof {
                assert(empty.deep_view() =~= Seq::<RecView>::empty());
            }
            return Some(empty);
        } else {
            proof {
                assert(s@.skip(e as int).len() > 0);
            }
            return None;
        }
    }
    let mut acc: Vec<GenericEntry> = Vec::new();
    let mut k: usize = t + 1;
    proof {
        assert(acc.deep_view() =~= Seq::<RecView>::empty());
    }
    loop
        invariant
            t < s@.len(),
            t + 1 <= k <= s@.len(),
            rec_items(acc.deep_view(), s@.skip(k as int)) == rec_items(
                Seq::empty(),
                s@.skip(t + 1),
            ),
            parse_db(text@) == (match rec_items(Seq::empty(), s@.skip(t + 1)) {
                None => None,
                Some(p) => if skip_ws(p.1).len() == 0 {
                    Some(p.0)
                } else {
                    None
                },
            }),
        decreases s@.len() - k,
    {
        let t2 = ws_end(&s, k);
        proof {
            assert(skip_ws(s@.skip(k as int)) == s@.skip(t2 as int));
        }
        let (g, k3) = match parse_rec_x(&s, t2) {
            Some(p) => p,
            None => {
                return None;
            },
        };
        let u2 = ws_end(&s, k3);
        proof {
            assert(skip_ws(s@.skip(k3 as int)) == s@.skip(u2 as int));
            if s@.skip(u2 as int).len() > 0 {
                assert(s@.skip(u2 as int)[0] == s@[u2 as int]);
            }
        }
        if u2 == s.len() {
            proof {
                assert(s@.skip(u2 as int) =~= Seq::<char>::empty());
            }
            return None;
        }
        let c = s[u2];
        proof {
            assert(s@.skip(u2 as int).skip(1) =~= s@.skip(u2 + 1));
        }
        let ghost prev = acc.deep_view();
        acc.push(g);
        proof {
            assert(acc.deep_view() =~= prev.push(g@));
        }
        if c == ',' {
            k = u2 + 1;
        } else if c == ']' {
            let e = ws_end(&s, u2 + 1);
            if e == s.len() {
                proof {
                    assert(s@.skip(e as int) =~= Seq::<char>::empty());
                    assert(skip_ws(s@.skip(u2 + 1)).len() == 0);
                }
                return Some(acc);
            } else {
                proof {
                    assert(s@.skip(e as int).len() > 0);
                }
                return None;
            }
        } else {
            return None;
        }
    }
}

} // verus!

verus! {

/// Escaping one more character appends that character's escape.
proof fn lemma_esc_chars_push(w: Seq<char>, c: char)
    ensures
        esc_chars(w.push(c)) == esc_chars(w) + esc_char(c),
    decreases w.len(),
{
    let e = w.push(c);
    if w.len() == 0 {
        assert(e[0] == c);
        assert(e.skip(1) =~= Seq::<char>::empty());
        assert(esc_chars(e.skip(1)) == Seq::<char>::empty());
        assert(esc_char(c) + Seq::<char>::empty() =~= esc_char(c));
        assert(esc_chars(w) == Seq::<char>::empty());
        assert(Seq::<char>::empty() + esc_char(c) =~= esc_char(c));
    } else {
        assert(e[0] == w[0]);
        assert(e.skip(1) =~= w.skip(1).push(c));
        lemma_esc_chars_push(w.skip(1), c);
        assert(esc_char(w[0]) + (esc_chars(w.skip(1)) + esc_char(c)) =~= (esc_char(w[0])
            + esc_chars(w.skip(1))) + esc_char(c));
    }
}

/// One more string appends a separator and its quoted form to an array
/// body (no separator when the body was empty).
proof fn lemma_array_body_push(a: Seq<Seq<char>>, w: Seq<char>)
    ensures
        a.len() == 0 ==> array_body(a.push(w)) == jstring(w),
        a.len() > 0 ==> array_body(a.push(w)) == array_body(a) + seq![',', ' '] + jstring(w),
    decreases a.len(),
{
    let e = a.push(w);
    if a.len() == 0 {
        assert(e[0] == w);
    } else {
        assert(e[0] == a[0]);
        assert(e.skip(1) =~= a.skip(1).push(w));
        lemma_array_body_push(a.skip(1), w);
        if a.len() == 1 {
            assert(array_body(e) == jstring(a[0]) + seq![',', ' '] + jstring(w));
        } else {
            assert(array_body(e) == jstring(a[0]) + seq![',', ' '] + (array_body(a.skip(1))
                + seq![',', ' '] + jstring(w)));
            assert(jstring(a[0]) + seq![',', ' '] + (array_body(a.skip(1)) + seq![',', ' ']
                + jstring(w)) =~= (jstring(a[0]) + seq![',', ' '] + array_body(a.skip(1)))
                + seq![',', ' '] + jstring(w));
        }
    }
}

/// One more record appends a separator line and its block to the file body.
proof fn lemma_recs_body_push(rs: Seq<RecView>, m: RecView)
    ensures
        rs.len() == 0 ==> recs_body(rs.push(m)) == seq![' ', ' '] + rec_json(m),
        rs.len() > 0 ==> recs_body(rs.push(m)) == recs_body(rs) + seq![',', '\n'] + seq![' ', ' ']
            + rec_json(m),
    decreases rs.len(),
{
    let e = rs.push(m);
    if rs.len() == 0 {
        assert(e[0] == m);
    } else {
        assert(e[0] == rs[0]);
        assert(e.skip(1) =~= rs.skip(1).push(m));
        lemma_recs_body_push(rs.skip(1), m);
        if rs.len() == 1 {
            assert(recs_body(e) == seq![' ', ' '] + rec_json(rs[0]) + seq![',', '\n'] + (seq![' ',
                ' '] + rec_json(m)));
            assert(seq![' ', ' '] + rec_json(rs[0]) + seq![',', '\n'] + (seq![' ', ' '] + rec_json(
                m,
            )) =~= (seq![' ', ' '] + rec_json(rs[0])) + seq![',', '\n'] + seq![' ', ' '] + rec_json(
                m,
            ));
        } else {
            assert(recs_body(e) == seq![' ', ' '] + rec_json(rs[0]) + seq![',', '\n'] + (recs_body(
                rs.skip(1),
            ) + seq![',', '\n'] + seq![' ', ' '] + rec_json(m)));
            assert(seq![' ', ' '] + rec_json(rs[0]) + seq![',', '\n'] + (recs_body(rs.skip(1))
                + seq![',', '\n'] + seq![' ', ' '] + rec_json(m)) =~= (seq![' ', ' '] + rec_json(
                rs[0],
            ) + seq![',', '\n'] + recs_body(rs.skip(1))) + seq![',', '\n'] + seq![' ', ' ']
                + rec_json(m));
        }
    }
}

/// One lowercase hexadecimal digit.
fn hexd(v: u32) -> (c: char)
    requires
        v < 16,
    ensures
        c == hex_digit(v),
{
    if v == 0 {
        '0'
    } else if v == 1 {
        '1'
    } else if v == 2 {
        '2'
    } else if v == 3 {
        '3'
    } else if v == 4 {
        '4'
    } else if v == 5 {
        '5'
    } else if v == 6 {
        '6'
    } else if v == 7 {
        '7'
    } else if v == 8 {
        '8'
    } else if v == 9 {
        '9'
    } else if v == 10 {
        'a'
    } else if v == 11 {
        'b'
    } else if v == 12 {
        'c'
    } else if v == 13 {
        'd'
    } else if v == 14 {
        'e'
    } else {
        'f'
    }
}

/// Writes one character of a string, escaped as JSON asks.
fn write_esc(out: &mut Vec<char>, c: char)
    ensures
        final(out)@ == old(out)@ + esc_char(c),
{
    if c == '"' {
        out.push('\\');
        out.push('"');
    } else if c == '\\' {
        out.push('\\');
        out.push('\\');
    } else if c == '\u{8}' {
        out.push('\\');
        out.push('b');
    } else if c == '\u{c}' {
        out.push('\\');
        out.push('f');
    } else if c == '\n' {
        out.push('\\');
        out.push('n');
    } else if c == '\r' {
        out.push('\\');
        out.push('r');
    } else if c == '\t' {
        out.push('\\');
        out.push('t');
    } else if (c as u32) < 32 {
        let u = c as u32;
        out.push('\\');
        out.push('u');
        out.push('0');
        out.push('0');
        out.push(hexd(u / 16));
        out.push(hexd(u % 16));
    } else {
        out.push(c);
    }
    proof {
        assert(out@ =~= old(out)@ + esc_char(c));
    }
}

/// Writes one JSON string, quotes and escapes included.
fn write_string(out: &mut Vec<char>, s: &str)
    ensures
        final(out)@ == old(out)@ + jstring(s@),
{
    let cs = str_chars(s);
    out.push('"');
    let ghost base = out@;
    let mut j: usize = 0;
    while j < cs.len()
        invariant
            j <= cs@.len(),
            cs@ == s@,
            out@ == base + esc_chars(s@.take(j as int)),
        decreases cs@.len() - j,
    {
        let ghost before = out@;
        write_esc(out, cs[j]);
        j = j + 1;
        proof {
            lemma_esc_chars_push(s@.take(j - 1), s@[j - 1]);
            assert(s@.take(j as int) =~= s@.take(j - 1).push(s@[j - 1]));
            assert(base + (esc_chars(s@.take(j - 1)) + esc_char(s@[j - 1])) =~= (base + esc_chars(
                s@.take(j - 1),
            )) + esc_char(s@[j - 1]));
        }
    }
    out.push('"');
    proof {
        assert(s@.take(s@.len() as int) =~= s@);
        assert(out@ =~= old(out)@ + jstring(s@));
    }
}

/// Writes one JSON array of strings on one line.
fn write_array(out: &mut Vec<char>, a: &Vec<String>)
    ensures
        final(out)@ == old(out)@ + jarray(a.deep_view()),
{
    let ghost dv = a.deep_view();
    proof {
        assert(dv.len() == a@.len());
    }
    out.push('[');
    let ghost base = out@;
    let mut j: usize = 0;
    while j < a.len()
        invariant
            j <= a@.len(),
            dv == a.deep_view(),
            dv.len() == a@.len(),
            out@ == base + array_body(dv.take(j as int)),
        decreases a@.len() - j,
    {
        if j > 0 {
            out.push(',');
            out.push(' ');
        }
        write_string(out, a[j].as_str());
        proof {
            assert(dv[j as int] == a@[j as int]@);
            lemma_array_body_push(dv.take(j as int), dv[j as int]);
            assert(dv.take(j + 1) =~= dv.take(j as int).push(dv[j as int]));
            if j > 0 {
                assert(base + (array_body(dv.take(j as int)) + seq![',', ' '] + jstring(
                    dv[j as int],
                )) =~= ((base + array_body(dv.take(j as int))) + seq![',', ' ']) + jstring(
                    dv[j as int],
                ));
            }
        }
        j = j + 1;
    }
    out.push(']');
    proof {
        assert(dv.take(dv.len() as int) =~= dv);
        assert(out@ =~= old(out)@ + jarray(dv));
    }
}

/// Writes one field line: indent, key, colon, string value.
fn write_field_text(out: &mut Vec<char>, key: &str, val: &str)
    ensures
        final(out)@ == old(out)@ + field_text(key@, jstring(val@)),
{
    out.push(' ');
    out.push(' ');
    out.push(' ');
    out.push(' ');
    write_string(out, key);
    out.push(':');
    out.push(' ');
    write_string(out, val);
    proof {
        assert(out@ =~= old(out)@ + field_text(key@, jstring(val@)));
    }
}

/// Writes one field line: indent, key, colon, array value.
fn write_field_list(out: &mut Vec<char>, key: &str, val: &Vec<String>)
    ensures
        final(out)@ == old(out)@ + field_text(key@, jarray(val.deep_view())),
{
    out.push(' ');
    out.push(' ');
    out.push(' ');
    out.push(' ');
    write_string(out, key);
    out.push(':');
    out.push(' ');
    write_array(out, val);
    proof {
        assert(out@ =~= old(out)@ + field_text(key@, jarray(val.deep_view())));
    }
}

/// Writes the optional `output` field with its separator.
#[verifier::rlimit(100)]
#[verifier::spinoff_prover]
fn write_output(out: &mut Vec<char>, output: &Option<String>)
    ensures
        final(out)@ == old(out)@ + output_text(
            match output {
                Some(o) => Some(o@),
                None => None,
            },
        ),
{
    match output {
        Some(o) => {
            out.push(',');
            out.push('\n');
            write_field_text(out, "output", o.as_str());
            proof {
                assert(out@ =~= old(out)@ + output_text(Some(o@)));
            }
        },
        None => {
            proof {
                assert(out@ =~= old(out)@ + output_text(None));
            }
        },
    }
}

/// Writes one record block.
fn write_rec(out: &mut Vec<char>, g: &GenericEntry)
    ensures
        final(out)@ == old(out)@ + rec_json(g@),
{
    match g {
        GenericEntry::StringEntry { directory, file, command, output } => {
            write_rec_string(out, directory, file, command, output);
        },
        GenericEntry::ArrayEntry { directory, file, arguments, output } => {
            write_rec_array(out, directory, file, arguments, output);
        },
    }
}

/// Writes one string-shaped record block.
#[verifier::rlimit(100)]
#[verifier::spinoff_prover]
fn write_rec_string(
    out: &mut Vec<char>,
    directory: &String,
    file: &String,
    command: &String,
    output: &Option<String>,
)
    ensures
        final(out)@ == old(out)@ + rec_json(
            RecView::StringRec {
                directory: directory@,
                file: file@,
                command: command@,
                output: match output {
                    Some(o) => Some(o@),
                    None => None,
                },
            },
        ),
{
    let ghost g_v = RecView::StringRec {
        directory: directory@,
        file: file@,
        command: command@,
        output: match output {
            Some(o) => Some(o@),
            None => None,
        },
    };
    out.push('{');
    out.push('\n');
    let ghost o0 = out@;
    proof {
        assert(o0 =~= old(out)@ + seq!['{', '\n']);
    }
    {
        {
            write_field_text(out, "directory", directory.as_str());
            out.push(',');
            out.push('\n');
            let ghost o1 = out@;
            proof {
                assert(o1 =~= old(out)@ + seq!['{', '\n'] + field_text(
                    "directory"@,
                    jstring(directory@),
                ) + seq![',', '\n']);
            }
            write_field_text(out, "file", file.as_str());
            out.push(',');
            out.push('\n');
            let ghost o2 = out@;
            proof {
                assert(o2 =~= o1 + field_text("file"@, jstring(file@)) + seq![',', '\n']);
            }
            write_field_text(out, "command", command.as_str());
            write_output(out, output);
            out.push('\n');
            out.push(' ');
            out.push(' ');
            out.push('}');
            proof {
                assert(out@ =~= old(out)@ + rec_json(g_v));
            }
        }
    }
}

/// Writes one array-shaped record block.
#[verifier::rlimit(100)]
#[verifier::spinoff_prover]
fn write_rec_array(
    out: &mut Vec<char>,
    directory: &String,
    file: &String,
    arguments: &Vec<String>,
    output: &Option<String>,
)
    ensures
        final(out)@ == old(out)@ + rec_json(
            RecView::ArrayRec {
                directory: directory@,
                file: file@,
                arguments: arguments.deep_view(),
                output: match output {
                    Some(o) => Some(o@),
                    None => None,
                },
            },
        ),
{
    let ghost g_v = RecView::ArrayRec {
        directory: directory@,
        file: file@,
        arguments: arguments.deep_view(),
        output: match output {
            Some(o) => Some(o@),
            None => None,
        },
    };
    out.push('{');
    out.push('\n');
    let ghost o0 = out@;
    proof {
        assert(o0 =~= old(out)@ + seq!['{', '\n']);
    }
    {
        {
            write_field_text(out, "directory", directory.as_str());
            out.push(',');
            out.push('\n');
            let ghost o1 = out@;
            proof {
                assert(o1 =~= old(out)@ + seq!['{', '\n'] + field_text(
                    "directory"@,
                    jstring(directory@),
                ) + seq![',', '\n']);
            }
            write_field_text(out, "file", file.as_str());
            out.push(',');
            out.push('\n');
            let ghost o2 = out@;
            proof {
                assert(o2 =~= o1 + field_text("file"@, jstring(file@)) + seq![',', '\n']);
            }
            write_field_list(out, "arguments", arguments);
            write_output(out, output);
            out.push('\n');
            out.push(' ');
            out.push(' ');
            out.push('}');
            proof {
                assert(out@ =~= old(out)@ + rec_json(g_v));
            }
        }
    }
}

/// Writes the whole database document, pretty-printed.
pub fn render_db(recs: &Vec<GenericEntry>) -> (r: String)
    ensures
        r@ == file_json(recs.deep_view()),
{
    let ghost dv = recs.deep_view();
    proof {
        assert(dv.len() == recs@.len());
    }
    let mut out: Vec<char> = Vec::new();
    if recs.len() == 0 {
        out.push('[');
        out.push(']');
        proof {
            assert(out@ =~= file_json(dv));
        }
        return crate::text::chars_string(&out);
    }
    out.push('[');
    out.push('\n');
    let ghost base = out@;
    let mut i: usize = 0;
    while i < recs.len()
        invariant
            i <= recs@.len(),
            dv == recs.deep_view(),
            dv.len() == recs@.len(),
            out@ == base + recs_body(dv.take(i as int)),
        decreases recs@.len() - i,
    {
        if i > 0 {
            out.push(',');
            out.push('\n');
        }
        out.push(' ');
        out.push(' ');
        write_rec(&mut out, &recs[i]);
        proof {
            assert(dv[i as int] == recs@[i as int]@);
            lemma_recs_body_push(dv.take(i as int), dv[i as int]);
            assert(dv.take(i + 1) =~= dv.take(i as int).push(dv[i as int]));
            if i > 0 {
                assert(base + (recs_body(dv.take(i as int)) + seq![',', '\n'] + seq![' ', ' ']
                    + rec_json(dv[i as int])) =~= (((base + recs_body(dv.take(i as int))) + seq![
                    ',',
                    '\n',
                ]) + seq![' ', ' ']) + rec_json(dv[i as int]));
            } else {
                assert(base + (seq![' ', ' '] + rec_json(dv[i as int])) =~= (base + seq![' ', ' '])
                    + rec_json(dv[i as int]));
            }
        }
        i = i + 1;
    }
    out.push('\n');
    out.push(']');
    proof {
        assert(dv.take(dv.len() as int) =~= dv);
        assert(out@ =~= file_json(dv));
    }
    crate::text::chars_string(&out)
}

} // verus!

verus! {

/// Whitespace before the text falls to the skipper.
proof fn lemma_skip_ws_all(p: Seq<char>, x: Seq<char>)
    requires
        forall|i: int| 0 <= i < p.len() ==> is_ws(p[i]),
    ensures
        skip_ws(p + x) == skip_ws(x),
    decreases p.len(),
{
    if p.len() == 0 {
        assert(p + x =~= x);
    } else {
        assert((p + x)[0] == p[0]);
        assert((p + x).skip(1) =~= p.skip(1) + x);
        lemma_skip_ws_all(p.skip(1), x);
    }
}

/// Text that does not start with whitespace is left alone.
proof fn lemma_skip_ws_none(x: Seq<char>)
    requires
        x.len() > 0,
        !is_ws(x[0]),
    ensures
        skip_ws(x) == x,
{
}

/// Reading back the digit pair of a control escape gives the code.
proof fn lemma_hex_inverse(v: u32)
    requires
        v < 16,
    ensures
        hex_val(hex_digit(v)) == Some(v),
{
}

/// Reading one escaped character takes exactly it into the accumulator.
#[verifier::rlimit(100)]
#[verifier::spinoff_prover]
proof fn lemma_string_body_esc_char(acc: Seq<char>, c: char, tail: Seq<char>)
    ensures
        string_body(acc, esc_char(c) + tail) == string_body(acc.push(c), tail),
{
    broadcast use vstd::utf8::char_u32_cast;

    let s = esc_char(c) + tail;
    if c == '"' || c == '\\' || c == '\u{8}' || c == '\u{c}' || c == '\n' || c == '\r' || c
        == '\t' {
        assert(s[0] == '\\');
        assert(s[1] != 'u');
        assert(s.len() >= 2);
        assert(unescape(s[1]) == Some(c));
        assert(s.skip(2) =~= tail);
    } else if (c as u32) < 32 {
        let u = c as u32;
        assert(s[0] == '\\');
        assert(s[1] == 'u');
        assert(s[2] == '0');
        assert(s[3] == '0');
        assert(s[4] == hex_digit(u / 16));
        assert(s[5] == hex_digit(u % 16));
        assert(s.len() == 6 + tail.len());
        lemma_hex_inverse(u / 16);
        lemma_hex_inverse(u % 16);
        assert(hex_val('0') == Some(0u32));
        assert((u / 16) * 16 + u % 16 == u);
        assert(hex4(s[2], s[3], s[4], s[5]) == Some(u));
        assert(u < 0xD800);
        assert((u as char) == c);
        assert(s.skip(6) =~= tail);
        assert(string_body(acc, s) == string_body(acc.push(c), tail));
    } else {
        assert(s[0] == c);
        assert(s[0] != '"' && s[0] != '\\');
        assert(!((s[0] as u32) < 32));
        assert(s.skip(1) =~= tail);
    }
}

/// Reading back an escaped text takes exactly it into the accumulator and
/// stops at the closing quote.
#[verifier::rlimit(100)]
#[verifier::spinoff_prover]
proof fn lemma_string_body_esc(acc: Seq<char>, w: Seq<char>, rest: Seq<char>)
    ensures
        string_body(acc, esc_chars(w) + seq!['"'] + rest) == Some((acc + w, rest)),
    decreases w.len(),
{
    if w.len() == 0 {
        let s = esc_chars(w) + seq!['"'] + rest;
        assert(s =~= seq!['"'] + rest);
        assert(s[0] == '"');
        assert(s.skip(1) =~= rest);
        assert(acc + w =~= acc);
    } else {
        let c = w[0];
        let w1 = w.skip(1);
        let tail = esc_chars(w1) + seq!['"'] + rest;
        assert(esc_chars(w) + seq!['"'] + rest =~= esc_char(c) + tail);
        lemma_string_body_esc_char(acc, c, tail);
        lemma_string_body_esc(acc.push(c), w1, rest);
        assert(acc.push(c) + w1 =~= acc + w);
    }
}

/// A written JSON string reads back as itself, whatever follows it.
proof fn lemma_parse_string_round(w: Seq<char>, rest: Seq<char>)
    ensures
        parse_string(jstring(w) + rest) == Some((w, rest)),
{
    let s = jstring(w) + rest;
    assert(s[0] == '"');
    assert(s.skip(1) =~= esc_chars(w) + seq!['"'] + rest);
    lemma_string_body_esc(Seq::empty(), w, rest);
    assert(Seq::<char>::empty() + w =~= w);
}

/// A written string never starts with whitespace.
proof fn lemma_jstring_head(w: Seq<char>)
    ensures
        jstring(w).len() > 0,
        jstring(w)[0] == '"',
{
    assert(jstring(w)[0] == '"');
}

/// The items of a written array read back as themselves.
#[verifier::rlimit(100)]
#[verifier::spinoff_prover]
proof fn lemma_array_items_round(acc: Seq<Seq<char>>, a: Seq<Seq<char>>, rest: Seq<char>)
    requires
        a.len() > 0,
    ensures
        array_items(acc, array_body(a) + seq![']'] + rest) == Some((acc + a, rest)),
    decreases a.len(),
{
    let s = array_body(a) + seq![']'] + rest;
    if a.len() == 1 {
        assert(s =~= jstring(a[0]) + (seq![']'] + rest));
        lemma_jstring_head(a[0]);
        assert(s[0] == '"');
        lemma_skip_ws_none(s);
        assert(skip_ws(s) == s);
        lemma_parse_string_round(a[0], seq![']'] + rest);
        let u = seq![']'] + rest;
        assert(parse_string(s) == Some((a[0], u)));
        lemma_skip_ws_none(u);
        assert(skip_ws(u) == u);
        assert(u[0] == ']');
        assert(u.skip(1) =~= rest);
        assert(array_items(acc, s) == Some((acc.push(a[0]), rest)));
        assert(acc.push(a[0]) =~= acc + a);
    } else {
        let a1 = a.skip(1);
        let t1 = seq![',', ' '] + array_body(a1) + seq![']'] + rest;
        assert(s =~= jstring(a[0]) + t1);
        lemma_jstring_head(a[0]);
        assert(s[0] == '"');
        lemma_skip_ws_none(s);
        assert(skip_ws(s) == s);
        lemma_parse_string_round(a[0], t1);
        assert(parse_string(s) == Some((a[0], t1)));
        lemma_skip_ws_none(t1);
        assert(skip_ws(t1) == t1);
        assert(t1[0] == ',');
        let x = array_body(a1) + seq![']'] + rest;
        assert(t1.skip(1) =~= seq![' '] + x);
        assert(array_items(acc, s) == array_items(acc.push(a[0]), seq![' '] + x));
        lemma_array_items_round(acc.push(a[0]), a1, rest);
        assert(forall|i: int| 0 <= i < seq![' '].len() ==> is_ws(seq![' '][i]));
        lemma_skip_ws_all(seq![' '], x);
        assert(skip_ws(seq![' '] + x) == skip_ws(x));
        assert(array_items(acc.push(a[0]), seq![' '] + x) == array_items(acc.push(a[0]), x));
        assert(acc.push(a[0]) + a1 =~= acc + a);
    }
}

/// A written array of strings reads back as itself.
proof fn lemma_parse_array_round(a: Seq<Seq<char>>, rest: Seq<char>)
    ensures
        parse_array(jarray(a) + rest) == Some((a, rest)),
{
    let s = jarray(a) + rest;
    assert(s[0] == '[');
    if a.len() == 0 {
        assert(s.skip(1) =~= seq![']'] + rest);
        lemma_skip_ws_none(seq![']'] + rest);
        assert((seq![']'] + rest)[0] == ']');
        assert((seq![']'] + rest).skip(1) =~= rest);
        assert(a =~= Seq::<Seq<char>>::empty());
    } else {
        let x = array_body(a) + seq![']'] + rest;
        assert(s.skip(1) =~= x);
        lemma_array_items_round(Seq::empty(), a, rest);
        assert(Seq::<Seq<char>>::empty() + a =~= a);
        let t = skip_ws(x);
        assert(array_body(a).len() > 0 ==> x[0] == array_body(a)[0]);
        lemma_jstring_head(a[0]);
        if a.len() == 1 {
            assert(array_body(a)[0] == '"');
        } else {
            assert(array_body(a)[0] == '"');
        }
        assert(x[0] == '"');
        lemma_skip_ws_none(x);
        assert(!(t.len() > 0 && t[0] == ']'));
    }
}

} // verus!

verus! {

/// What the field reader does once a field has been taken in: it looks past
/// the whitespace for a comma (more fields) or the closing brace.
spec fn members_after(p2: PartialRec, after: Seq<char>) -> Option<(PartialRec, Seq<char>)> {
    let w = skip_ws(after);
    if w.len() == 0 {
        None
    } else if w[0] == ',' {
        members(p2, w.skip(1))
    } else if w[0] == '}' {
        Some((p2, w.skip(1)))
    } else {
        None
    }
}

/// Reading one written field line takes exactly that field in and goes on
/// after its value.
#[verifier::rlimit(100)]
#[verifier::spinoff_prover]
proof fn lemma_members_one(p: PartialRec, key: Seq<char>, vt: Seq<char>, v: FieldVal, after: Seq<char>)
    requires
        parse_value(vt + after) == Some((v, after)),
        vt.len() > 0,
        !is_ws(vt[0]),
    ensures
        members(p, seq!['\n'] + field_text(key, vt) + after) == (match add_field(p, key, v) {
            None => None,
            Some(p2) => members_after(p2, after),
        }),
{
    let s = seq!['\n'] + field_text(key, vt) + after;
    let pre = seq!['\n', ' ', ' ', ' ', ' '];
    let x = jstring(key) + (seq![':', ' '] + (vt + after));
    assert(s =~= pre + x);
    assert(forall|i: int| 0 <= i < pre.len() ==> is_ws(pre[i]));
    lemma_skip_ws_all(pre, x);
    lemma_jstring_head(key);
    assert(x[0] == '"');
    lemma_skip_ws_none(x);
    assert(skip_ws(s) == x);
    lemma_parse_string_round(key, seq![':', ' '] + (vt + after));
    let u0 = seq![':', ' '] + (vt + after);
    assert(parse_string(x) == Some((key, u0)));
    lemma_skip_ws_none(u0);
    assert(u0[0] == ':');
    assert(u0.skip(1) =~= seq![' '] + (vt + after));
    assert(forall|i: int| 0 <= i < seq![' '].len() ==> is_ws(seq![' '][i]));
    lemma_skip_ws_all(seq![' '], vt + after);
    assert((vt + after)[0] == vt[0]);
    lemma_skip_ws_none(vt + after);
    assert(skip_ws(u0.skip(1)) == vt + after);
}

/// Reading a whole written record block gives back exactly that record,
/// whatever follows it.
proof fn lemma_parse_rec_round(m: RecView, rest: Seq<char>)
    ensures
        parse_rec(rec_json(m) + rest) == Some((m, rest)),
{
    match m {
        RecView::StringRec { directory, file, command, output } => {
            lemma_parse_rec_round_string(m, rest);
        },
        RecView::ArrayRec { directory, file, arguments, output } => {
            lemma_parse_rec_round_array(m, rest);
        },
    }
}

/// As above, for the string shape.
#[verifier::rlimit(100)]
#[verifier::spinoff_prover]
proof fn lemma_parse_rec_round_string(m: RecView, rest: Seq<char>)
    requires
        m is StringRec,
    ensures
        parse_rec(rec_json(m) + rest) == Some((m, rest)),
{
    proof_keys();
    let s = rec_json(m) + rest;
    assert(s[0] == '{');
    let tail = seq!['\n', ' ', ' ', '}'] + rest;
    match m {
        RecView::StringRec { directory, file, command, output } => {
            let a3 = output_text(output) + tail;
            let a2 = seq![',', '\n'] + field_text("command"@, jstring(command)) + a3;
            let a1 = seq![',', '\n'] + field_text("file"@, jstring(file)) + a2;
            assert(s.skip(1) =~= seq!['\n'] + field_text("directory"@, jstring(directory)) + a1);
            lemma_parse_string_round(directory, a1);
            lemma_jstring_head(directory);
            lemma_members_one(
                empty_rec(),
                "directory"@,
                jstring(directory),
                FieldVal::Text(directory),
                a1,
            );
            let p1 = add_field(empty_rec(), "directory"@, FieldVal::Text(directory)).unwrap();
            lemma_skip_ws_none(a1);
            assert(a1.skip(1) =~= seq!['\n'] + field_text("file"@, jstring(file)) + a2);
            lemma_parse_string_round(file, a2);
            lemma_jstring_head(file);
            lemma_members_one(p1, "file"@, jstring(file), FieldVal::Text(file), a2);
            let p2 = add_field(p1, "file"@, FieldVal::Text(file)).unwrap();
            lemma_skip_ws_none(a2);
            assert(a2.skip(1) =~= seq!['\n'] + field_text("command"@, jstring(command)) + a3);
            lemma_parse_string_round(command, a3);
            lemma_jstring_head(command);
            lemma_members_one(p2, "command"@, jstring(command), FieldVal::Text(command), a3);
            let p3 = add_field(p2, "command"@, FieldVal::Text(command)).unwrap();
            lemma_members_tail(p3, output, rest);
            let p4 = (match output {
                Some(t) => add_field(p3, "output"@, FieldVal::Text(t)).unwrap(),
                None => p3,
            });
            assert(members(empty_rec(), s.skip(1)) == Some((p4, rest)));
            assert(finish_rec(p4) == Some(m)) by {
                assert(finish_rec(p4).unwrap() =~= m);
            }
        },
        _ => {},
    }
}

/// As above, for the array shape.
#[verifier::rlimit(100)]
#[verifier::spinoff_prover]
proof fn lemma_parse_rec_round_array(m: RecView, rest: Seq<char>)
    requires
        m is ArrayRec,
    ensures
        parse_rec(rec_json(m) + rest) == Some((m, rest)),
{
    proof_keys();
    let s = rec_json(m) + rest;
    assert(s[0] == '{');
    let tail = seq!['\n', ' ', ' ', '}'] + rest;
    match m {
        RecView::ArrayRec { directory, file, arguments, output } => {
            let a3 = output_text(output) + tail;
            let a2 = seq![',', '\n'] + field_text("arguments"@, jarray(arguments)) + a3;
            let a1 = seq![',', '\n'] + field_text("file"@, jstring(file)) + a2;
            assert(s.skip(1) =~= seq!['\n'] + field_text("directory"@, jstring(directory)) + a1);
            lemma_parse_string_round(directory, a1);
            lemma_jstring_head(directory);
            lemma_members_one(
                empty_rec(),
                "directory"@,
                jstring(directory),
                FieldVal::Text(directory),
                a1,
            );
            let p1 = add_field(empty_rec(), "directory"@, FieldVal::Text(directory)).unwrap();
            lemma_skip_ws_none(a1);
            assert(a1.skip(1) =~= seq!['\n'] + field_text("file"@, jstring(file)) + a2);
            lemma_parse_string_round(file, a2);
            lemma_jstring_head(file);
            lemma_members_one(p1, "file"@, jstring(file), FieldVal::Text(file), a2);
            let p2 = add_field(p1, "file"@, FieldVal::Text(file)).unwrap();
            lemma_skip_ws_none(a2);
            assert(a2.skip(1) =~= seq!['\n'] + field_text("arguments"@, jarray(arguments)) + a3);
            lemma_parse_array_round(arguments, a3);
            assert(jarray(arguments)[0] == '[');
            lemma_members_one(p2, "arguments"@, jarray(arguments), FieldVal::List(arguments), a3);
            let p3 = add_field(p2, "arguments"@, FieldVal::List(arguments)).unwrap();
            lemma_members_tail(p3, output, rest);
            let p4 = (match output {
                Some(t) => add_field(p3, "output"@, FieldVal::Text(t)).unwrap(),
                None => p3,
            });
            assert(members(empty_rec(), s.skip(1)) == Some((p4, rest)));
            assert(finish_rec(p4) == Some(m)) by {
                assert(finish_rec(p4).unwrap() =~= m);
            }
        },
        _ => {},
    }
}

/// The concrete key texts and that they differ.
proof fn proof_keys()
    ensures
        "directory"@.len() == 9,
        "file"@.len() == 4,
        "command"@.len() == 7,
        "arguments"@.len() == 9,
        "output"@.len() == 6,
        "directory"@ != "arguments"@,
{
    reveal_strlit("directory");
    reveal_strlit("file");
    reveal_strlit("command");
    reveal_strlit("arguments");
    reveal_strlit("output");
    assert("directory"@[0] == 'd');
    assert("arguments"@[0] == 'a');
}

/// After the last required field the reader takes the optional `output`
/// field and stops at the closing brace.
#[verifier::rlimit(100)]
#[verifier::spinoff_prover]
proof fn lemma_members_tail(p: PartialRec, output: Option<Seq<char>>, rest: Seq<char>)
    requires
        p.output is None,
    ensures
        members_after(p, output_text(output) + (seq!['\n', ' ', ' ', '}'] + rest)) == Some(
            ((match output {
                Some(t) => add_field(p, "output"@, FieldVal::Text(t)).unwrap(),
                None => p,
            }), rest),
        ),
{
    proof_keys();
    let tail = seq!['\n', ' ', ' ', '}'] + rest;
    match output {
        None => {
            let after = output_text(output) + tail;
            assert(after =~= seq!['\n', ' ', ' '] + (seq!['}'] + rest));
            assert(forall|i: int|
                0 <= i < seq!['\n', ' ', ' '].len() ==> is_ws(seq!['\n', ' ', ' '][i]));
            lemma_skip_ws_all(seq!['\n', ' ', ' '], seq!['}'] + rest);
            lemma_skip_ws_none(seq!['}'] + rest);
            assert((seq!['}'] + rest)[0] == '}');
            assert((seq!['}'] + rest).skip(1) =~= rest);
        },
        Some(t) => {
            let after = output_text(output) + tail;
            assert(after =~= seq![','] + (seq!['\n'] + field_text("output"@, jstring(t)) + tail));
            lemma_skip_ws_none(after);
            assert(after[0] == ',');
            assert(after.skip(1) =~= seq!['\n'] + field_text("output"@, jstring(t)) + tail);
            lemma_parse_string_round(t, tail);
            lemma_jstring_head(t);
            lemma_members_one(p, "output"@, jstring(t), FieldVal::Text(t), tail);
            let p2 = add_field(p, "output"@, FieldVal::Text(t)).unwrap();
            assert(tail =~= seq!['\n', ' ', ' '] + (seq!['}'] + rest));
            assert(forall|i: int|
                0 <= i < seq!['\n', ' ', ' '].len() ==> is_ws(seq!['\n', ' ', ' '][i]));
            lemma_skip_ws_all(seq!['\n', ' ', ' '], seq!['}'] + rest);
            lemma_skip_ws_none(seq!['}'] + rest);
            assert((seq!['}'] + rest)[0] == '}');
            assert((seq!['}'] + rest).skip(1) =~= rest);
        },
    }
}

} // verus!

verus! {

/// A record block never starts with whitespace.
proof fn lemma_rec_json_head(m: RecView)
    ensures
        rec_json(m).len() > 0,
        rec_json(m)[0] == '{',
{
    match m {
        RecView::StringRec { .. } => {
            assert(rec_json(m)[0] == '{');
        },
        RecView::ArrayRec { .. } => {
            assert(rec_json(m)[0] == '{');
        },
    }
}

/// The written record blocks of a file body read back as themselves.
#[verifier::rlimit(100)]
#[verifier::spinoff_prover]
proof fn lemma_rec_items_round(acc: Seq<RecView>, rs: Seq<RecView>, rest: Seq<char>)
    requires
        rs.len() > 0,
    ensures
        rec_items(acc, recs_body(rs) + (seq!['\n', ']'] + rest)) == Some((acc + rs, rest)),
    decreases rs.len(),
{
    let s = recs_body(rs) + (seq!['\n', ']'] + rest);
    lemma_rec_json_head(rs[0]);
    if rs.len() == 1 {
        let t1 = seq!['\n', ']'] + rest;
        assert(s =~= seq![' ', ' '] + (rec_json(rs[0]) + t1));
        assert(forall|i: int| 0 <= i < seq![' ', ' '].len() ==> is_ws(seq![' ', ' '][i]));
        lemma_skip_ws_all(seq![' ', ' '], rec_json(rs[0]) + t1);
        assert((rec_json(rs[0]) + t1)[0] == '{');
        lemma_skip_ws_none(rec_json(rs[0]) + t1);
        lemma_parse_rec_round(rs[0], t1);
        assert(t1 =~= seq!['\n'] + (seq![']'] + rest));
        assert(forall|i: int| 0 <= i < seq!['\n'].len() ==> is_ws(seq!['\n'][i]));
        lemma_skip_ws_all(seq!['\n'], seq![']'] + rest);
        lemma_skip_ws_none(seq![']'] + rest);
        assert((seq![']'] + rest)[0] == ']');
        assert((seq![']'] + rest).skip(1) =~= rest);
        assert(rec_items(acc, s) == Some((acc.push(rs[0]), rest)));
        assert(acc.push(rs[0]) =~= acc + rs);
    } else {
        let rs1 = rs.skip(1);
        let x = recs_body(rs1) + (seq!['\n', ']'] + rest);
        let t1 = seq![',', '\n'] + x;
        assert(s =~= seq![' ', ' '] + (rec_json(rs[0]) + t1));
        assert(forall|i: int| 0 <= i < seq![' ', ' '].len() ==> is_ws(seq![' ', ' '][i]));
        lemma_skip_ws_all(seq![' ', ' '], rec_json(rs[0]) + t1);
        assert((rec_json(rs[0]) + t1)[0] == '{');
        lemma_skip_ws_none(rec_json(rs[0]) + t1);
        lemma_parse_rec_round(rs[0], t1);
        lemma_skip_ws_none(t1);
        assert(t1[0] == ',');
        assert(t1.skip(1) =~= seq!['\n'] + x);
        lemma_rec_items_round(acc.push(rs[0]), rs1, rest);
        assert(forall|i: int| 0 <= i < seq!['\n'].len() ==> is_ws(seq!['\n'][i]));
        lemma_skip_ws_all(seq!['\n'], x);
        assert(rec_items(acc.push(rs[0]), seq!['\n'] + x) == rec_items(acc.push(rs[0]), x));
        assert(acc.push(rs[0]) + rs1 =~= acc + rs);
    }
}

/// A written database document reads back as exactly the records that were
/// written: nothing of a record is lost or reshaped on the way through the
/// file.
#[verifier::rlimit(100)]
#[verifier::spinoff_prover]
pub proof fn lemma_parse_db_round(rs: Seq<RecView>)
    ensures
        parse_db(file_json(rs)) == Some(rs),
{
    let s = file_json(rs);
    if rs.len() == 0 {
        assert(s =~= seq!['[', ']']);
        lemma_skip_ws_none(s);
        assert(s.skip(1) =~= seq![']']);
        lemma_skip_ws_none(seq![']']);
        assert(seq![']'][0] == ']');
        assert(seq![']'].skip(1) =~= Seq::<char>::empty());
        assert(skip_ws(Seq::<char>::empty()).len() == 0);
        assert(parse_db(s) == Some(Seq::<RecView>::empty()));
        assert(rs =~= Seq::<RecView>::empty());
    } else {
        assert(s[0] == '[');
        lemma_skip_ws_none(s);
        let x = recs_body(rs) + (seq!['\n', ']'] + Seq::<char>::empty());
        assert(s.skip(1) =~= seq!['\n'] + x);
        assert(forall|i: int| 0 <= i < seq!['\n'].len() ==> is_ws(seq!['\n'][i]));
        lemma_skip_ws_all(seq!['\n'], x);
        lemma_rec_json_head(rs[0]);
        assert(recs_body(rs).len() >= 2 + rec_json(rs[0]).len());
        assert(x[0] == ' ');
        assert(x[1] == ' ');
        assert(x[2] == rec_json(rs[0])[0]);
        assert(x.take(2) =~= seq![' ', ' ']);
        assert(x =~= x.take(2) + x.skip(2));
        assert(forall|i: int| 0 <= i < seq![' ', ' '].len() ==> is_ws(seq![' ', ' '][i]));
        lemma_skip_ws_all(seq![' ', ' '], x.skip(2));
        assert(x.skip(2)[0] == '{');
        lemma_skip_ws_none(x.skip(2));
        let u = skip_ws(s.skip(1));
        assert(u == x.skip(2));
        assert(!(u.len() > 0 && u[0] == ']'));
        lemma_rec_items_round(Seq::empty(), rs, Seq::<char>::empty());
        assert(rec_items(Seq::empty(), seq!['\n'] + x) == rec_items(Seq::<RecView>::empty(), x));
        assert(Seq::<RecView>::empty() + rs =~= rs);
        assert(skip_ws(Seq::<char>::empty()).len() == 0);
    }
}

} // verus!

verus! {

/// Reads one record object with nothing but whitespace around it.
pub open spec fn parse_record(s: Seq<char>) -> Option<RecView> {
    let t = skip_ws(s);
    match parse_rec(t) {
        None => None,
        Some(p) => if skip_ws(p.1).len() == 0 {
            Some(p.0)
        } else {
            None
        },
    }
}

/// Reads one record object standing alone in the text.
pub fn parse_record_text(text: &str) -> (r: Option<GenericEntry>)
    ensures
        match parse_record(text@) {
            Some(m) => r matches Some(g) && g@ == m,
            None => r is None,
        },
{
    let s = str_chars(text);
    proof {
        assert(s@.skip(0) =~= s@);
    }
    let t = ws_end(&s, 0);
    proof {
        assert(skip_ws(text@) == s@.skip(t as int));
    }
    match parse_rec_x(&s, t) {
        None => None,
        Some(p) => {
            let (g, j) = p;
            let e = ws_end(&s, j);
            proof {
                assert(skip_ws(s@.skip(j as int)) == s@.skip(e as int));
            }
            if e == s.len() {
                proof {
                    assert(s@.skip(e as int) =~= Seq::<char>::empty());
                }
                Some(g)
            } else {
                proof {
                    assert(s@.skip(e as int).len() > 0);
                }
                None
            }
        },
    }
}

} // verus!
