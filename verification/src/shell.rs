//! The shell-word codec: joins an argument vector into one shell-quoted
//! command string and splits such a string back into the vector.
//!
//! Joining writes every word as-is when all of its characters are plain,
//! backslash-escapes every other character, and writes an empty word as a
//! pair of single quotes.  Splitting understands the usual POSIX quoting
//! forms: backslash escapes, single-quoted spans taken verbatim, and
//! double-quoted spans with backslash escapes inside; it fails on an
//! unbalanced quote or a trailing backslash.

use vstd::prelude::*;
use crate::text::{chars_string, str_chars};

verus! {

/// A word separator in a command string.
pub open spec fn is_space_char(c: char) -> bool {
    c == ' ' || c == '\t' || c == '\n' || c == '\r'
}

/// A character that needs no quoting inside a command string.
pub open spec fn is_plain_char(c: char) -> bool {
    let u = c as u32;
    (97 <= u && u <= 122)  // 'a'..='z'
    || (65 <= u && u <= 90)  // 'A'..='Z'
    || (48 <= u && u <= 57)  // '0'..='9'
    || c == '-' || c == '_' || c == '.' || c == '/' || c == ':' || c == '='
    || c == '@' || c == '+' || c == ',' || c == '%'
}

/// The quoting state of the splitter inside one word.
pub enum ScanMode {
    Normal,
    Single,
    Double,
}

/// Reads the remainder of one word from `s` in the given quoting state.
/// Returns the word's remaining characters and the text after the word, or
/// `None` when a quote is left open or a backslash ends the input.
pub open spec fn scan(s: Seq<char>, mode: ScanMode) -> Option<(Seq<char>, Seq<char>)>
    decreases s.len(),
{
    match mode {
        ScanMode::Normal => {
            if s.len() == 0 || is_space_char(s[0]) {
                Some((Seq::empty(), s))
            } else if s[0] == '\\' {
                if s.len() == 1 {
                    None
                } else {
                    match scan(s.skip(2), ScanMode::Normal) {
                        None => None,
                        Some(p) => Some((seq![s[1]] + p.0, p.1)),
                    }
                }
            } else if s[0] == '\'' {
                scan(s.skip(1), ScanMode::Single)
            } else if s[0] == '"' {
                scan(s.skip(1), ScanMode::Double)
            } else {
                match scan(s.skip(1), ScanMode::Normal) {
                    None => None,
                    Some(p) => Some((seq![s[0]] + p.0, p.1)),
                }
            }
        },
        ScanMode::Single => {
            if s.len() == 0 {
                None
            } else if s[0] == '\'' {
                scan(s.skip(1), ScanMode::Normal)
            } else {
                match scan(s.skip(1), ScanMode::Single) {
                    None => None,
                    Some(p) => Some((seq![s[0]] + p.0, p.1)),
                }
            }
        },
        ScanMode::Double => {
            if s.len() == 0 {
                None
            } else if s[0] == '"' {
                scan(s.skip(1), ScanMode::Normal)
            } else if s[0] == '\\' {
                if s.len() == 1 {
                    None
                } else {
                    match scan(s.skip(2), ScanMode::Double) {
                        None => None,
                        Some(p) => Some((seq![s[1]] + p.0, p.1)),
                    }
                }
            } else {
                match scan(s.skip(1), ScanMode::Double) {
                    None => None,
                    Some(p) => Some((seq![s[0]] + p.0, p.1)),
                }
            }
        },
    }
}

/// After a successful scan the remaining text is never longer than the
/// input, and it is strictly shorter whenever at least one character of the
/// word was still to be read.
proof fn lemma_scan_len(s: Seq<char>, mode: ScanMode)
    ensures
        scan(s, mode) matches Some(p) ==> {
            &&& p.1.len() <= s.len()
            &&& !(mode is Normal) ==> p.1.len() < s.len()
            &&& (mode is Normal && s.len() > 0 && !is_space_char(s[0])) ==> p.1.len() < s.len()
        },
    decreases s.len(),
{
    if s.len() > 0 {
        lemma_scan_len(s.skip(1), ScanMode::Normal);
        lemma_scan_len(s.skip(1), ScanMode::Single);
        lemma_scan_len(s.skip(1), ScanMode::Double);
        if s.len() > 1 {
            lemma_scan_len(s.skip(2), ScanMode::Normal);
            lemma_scan_len(s.skip(2), ScanMode::Double);
        }
    }
}

/// Splits a whole command string into its words; `None` on malformed
/// quoting.  Words are separated by runs of spaces, tabs or line breaks.
pub open spec fn split_words(s: Seq<char>) -> Option<Seq<Seq<char>>>
    decreases s.len(),
    via split_words_dec
{
    if s.len() == 0 {
        Some(Seq::empty())
    } else if is_space_char(s[0]) {
        split_words(s.skip(1))
    } else {
        match scan(s, ScanMode::Normal) {
            None => None,
            Some(p) => match split_words(p.1) {
                None => None,
                Some(ws) => Some(seq![p.0] + ws),
            },
        }
    }
}

#[via_fn]
proof fn split_words_dec(s: Seq<char>) {
    if s.len() > 0 && !is_space_char(s[0]) {
        lemma_scan_len(s, ScanMode::Normal);
    }
}

/// The quoted form of one character.
pub open spec fn quote_char(c: char) -> Seq<char> {
    if is_plain_char(c) {
        seq![c]
    } else {
        seq!['\\', c]
    }
}

/// The quoted forms of a word's characters, concatenated.
pub open spec fn quote_chars(w: Seq<char>) -> Seq<char>
    decreases w.len(),
{
    if w.len() == 0 {
        Seq::empty()
    } else {
        quote_char(w[0]) + quote_chars(w.skip(1))
    }
}

/// The quoted form of one word: a pair of single quotes for the empty word,
/// otherwise its characters with every non-plain one backslash-escaped.
pub open spec fn quote_word(w: Seq<char>) -> Seq<char> {
    if w.len() == 0 {
        seq!['\'', '\'']
    } else {
        quote_chars(w)
    }
}

/// The whole command string: quoted words separated by single spaces.
pub open spec fn join_words(ws: Seq<Seq<char>>) -> Seq<char>
    decreases ws.len(),
{
    if ws.len() == 0 {
        Seq::empty()
    } else if ws.len() == 1 {
        quote_word(ws[0])
    } else {
        quote_word(ws[0]) + seq![' '] + join_words(ws.skip(1))
    }
}

/// A plain character is not a separator and not one of the three quoting
/// characters.
proof fn lemma_plain_not_special(c: char)
    ensures
        is_plain_char(c) ==> !is_space_char(c) && c != '\\' && c != '\'' && c != '"',
{
}

/// The quoted form of a word is never empty and never starts with a
/// separator.
proof fn lemma_quote_word_head(w: Seq<char>)
    ensures
        quote_word(w).len() > 0,
        !is_space_char(quote_word(w)[0]),
{
    if w.len() > 0 {
        lemma_plain_not_special(w[0]);
        if is_plain_char(w[0]) {
            assert(quote_word(w)[0] == w[0]);
        } else {
            assert(quote_word(w)[0] == '\\');
        }
    }
}

/// Scanning the quoted characters of a word, followed by text that is empty
/// or starts with a separator, yields exactly that word and that text.
proof fn lemma_scan_quote_chars(w: Seq<char>, rest: Seq<char>)
    requires
        rest.len() == 0 || is_space_char(rest[0]),
    ensures
        scan(quote_chars(w) + rest, ScanMode::Normal) == Some((w, rest)),
    decreases w.len(),
{
    let s = quote_chars(w) + rest;
    if w.len() == 0 {
        assert(s =~= rest);
        assert(w =~= Seq::<char>::empty());
    } else {
        let c = w[0];
        let w1 = w.skip(1);
        lemma_scan_quote_chars(w1, rest);
        lemma_plain_not_special(c);
        if is_plain_char(c) {
            assert(s[0] == c);
            assert(s.skip(1) =~= quote_chars(w1) + rest);
            assert(scan(s, ScanMode::Normal) == Some((seq![c] + w1, rest)));
        } else {
            assert(s[0] == '\\');
            assert(s[1] == c);
            assert(s.len() >= 2);
            assert(s.skip(2) =~= quote_chars(w1) + rest);
            assert(scan(s, ScanMode::Normal) == Some((seq![c] + w1, rest)));
        }
        assert(seq![c] + w1 =~= w);
    }
}

/// As above, for the full quoted form of a word, the empty word included.
proof fn lemma_scan_quote_word(w: Seq<char>, rest: Seq<char>)
    requires
        rest.len() == 0 || is_space_char(rest[0]),
    ensures
        scan(quote_word(w) + rest, ScanMode::Normal) == Some((w, rest)),
{
    if w.len() == 0 {
        let s = quote_word(w) + rest;
        assert(s.len() == 2 + rest.len());
        assert(s[0] == '\'');
        assert(s.skip(1) =~= seq!['\''] + rest);
        assert(scan(s, ScanMode::Normal) == scan(s.skip(1), ScanMode::Single));
        assert((seq!['\''] + rest)[0] == '\'');
        assert((seq!['\''] + rest).skip(1) =~= rest);
        assert(scan(seq!['\''] + rest, ScanMode::Single) == scan(rest, ScanMode::Normal));
        assert(scan(rest, ScanMode::Normal) == Some((Seq::<char>::empty(), rest)));
        assert(w =~= Seq::<char>::empty());
        assert(scan(s, ScanMode::Normal) == Some((w, rest)));
    } else {
        assert(quote_word(w) == quote_chars(w));
        lemma_scan_quote_chars(w, rest);
    }
}

/// Splitting the joined form of any argument vector gives back exactly that
/// vector: the codec loses nothing, whatever the words hold.
pub proof fn lemma_shell_round_trip(ws: Seq<Seq<char>>)
    ensures
        split_words(join_words(ws)) == Some(ws),
    decreases ws.len(),
{
    if ws.len() == 0 {
        assert(join_words(ws) == Seq::<char>::empty());
        assert(split_words(join_words(ws)) == Some(Seq::<Seq<char>>::empty()));
        assert(ws =~= Seq::<Seq<char>>::empty());
        assert(split_words(join_words(ws)) == Some(ws));
    } else if ws.len() == 1 {
        let s = join_words(ws);
        lemma_quote_word_head(ws[0]);
        assert(quote_word(ws[0]) + Seq::<char>::empty() =~= s);
        lemma_scan_quote_word(ws[0], Seq::<char>::empty());
        assert(scan(s, ScanMode::Normal) == Some((ws[0], Seq::<char>::empty())));
        assert(split_words(Seq::<char>::empty()) == Some(Seq::<Seq<char>>::empty()));
        assert(split_words(s) == Some(seq![ws[0]] + Seq::<Seq<char>>::empty()));
        assert(seq![ws[0]] + Seq::<Seq<char>>::empty() =~= ws);
        assert(split_words(join_words(ws)) == Some(ws));
    } else {
        let s = join_words(ws);
        let rest = seq![' '] + join_words(ws.skip(1));
        assert(quote_word(ws[0]) + rest =~= s);
        assert(is_space_char(rest[0]));
        lemma_quote_word_head(ws[0]);
        assert(s[0] == quote_word(ws[0])[0]);
        lemma_scan_quote_word(ws[0], rest);
        assert(scan(s, ScanMode::Normal) == Some((ws[0], rest)));
        lemma_shell_round_trip(ws.skip(1));
        assert(rest.skip(1) =~= join_words(ws.skip(1)));
        assert(split_words(rest) == Some(ws.skip(1)));
        assert(split_words(s) == Some(seq![ws[0]] + ws.skip(1)));
        assert(seq![ws[0]] + ws.skip(1) =~= ws);
        assert(split_words(join_words(ws)) == Some(ws));
    }
}

/// Appending one word to a vector appends one separator and its quoted form
/// to the joined string (no separator when the vector was empty).
proof fn lemma_join_push(ws: Seq<Seq<char>>, w: Seq<char>)
    ensures
        ws.len() == 0 ==> join_words(ws.push(w)) == quote_word(w),
        ws.len() > 0 ==> join_words(ws.push(w)) == join_words(ws) + seq![' '] + quote_word(w),
    decreases ws.len(),
{
    let e = ws.push(w);
    if ws.len() == 0 {
        assert(e[0] == w);
    } else {
        assert(e.len() >= 2);
        assert(e[0] == ws[0]);
        assert(e.skip(1) =~= ws.skip(1).push(w));
        lemma_join_push(ws.skip(1), w);
        if ws.len() == 1 {
            assert(join_words(e) == quote_word(ws[0]) + seq![' '] + quote_word(w));
        } else {
            assert(join_words(e) == quote_word(ws[0]) + seq![' '] + (join_words(ws.skip(1))
                + seq![' '] + quote_word(w)));
            assert(quote_word(ws[0]) + seq![' '] + (join_words(ws.skip(1)) + seq![' ']
                + quote_word(w)) =~= (quote_word(ws[0]) + seq![' '] + join_words(ws.skip(1)))
                + seq![' '] + quote_word(w));
        }
    }
}

/// Quoting one more character extends the quoted text by that character's
/// quoted form.
proof fn lemma_quote_chars_push(w: Seq<char>, c: char)
    ensures
        quote_chars(w.push(c)) == quote_chars(w) + quote_char(c),
    decreases w.len(),
{
    let e = w.push(c);
    if w.len() == 0 {
        assert(e[0] == c);
        assert(e.skip(1) =~= Seq::<char>::empty());
        assert(quote_chars(e.skip(1)) == Seq::<char>::empty());
        assert(quote_chars(e) == quote_char(c) + quote_chars(e.skip(1)));
        assert(quote_char(c) + Seq::<char>::empty() =~= quote_char(c));
        assert(quote_chars(w) == Seq::<char>::empty());
        assert(Seq::<char>::empty() + quote_char(c) =~= quote_char(c));
    } else {
        assert(e[0] == w[0]);
        assert(e.skip(1) =~= w.skip(1).push(c));
        lemma_quote_chars_push(w.skip(1), c);
        assert(quote_char(w[0]) + (quote_chars(w.skip(1)) + quote_char(c)) =~= (quote_char(w[0])
            + quote_chars(w.skip(1))) + quote_char(c));
    }
}

/// True when the character is a word separator.
fn is_space(c: char) -> (r: bool)
    ensures
        r == is_space_char(c),
{
    c == ' ' || c == '\t' || c == '\n' || c == '\r'
}

/// True when the character needs no quoting.
fn is_plain(c: char) -> (r: bool)
    ensures
        r == is_plain_char(c),
{
    let u = c as u32;
    (97 <= u && u <= 122) || (65 <= u && u <= 90) || (48 <= u && u <= 57) || c == '-' || c == '_'
        || c == '.' || c == '/' || c == ':' || c == '=' || c == '@' || c == '+' || c == ','
        || c == '%'
}

/// Appends the quoted form of one word to the output.
fn push_quoted(out: &mut Vec<char>, w: &str)
    ensures
        final(out)@ == old(out)@ + quote_word(w@),
{
    let cs = str_chars(w);
    if cs.len() == 0 {
        out.push('\'');
        out.push('\'');
        proof {
            assert(out@ =~= old(out)@ + quote_word(w@));
        }
    } else {
        let mut j: usize = 0;
        while j < cs.len()
            invariant
                j <= cs.len(),
                cs@ == w@,
                out@ == old(out)@ + quote_chars(w@.take(j as int)),
            decreases cs.len() - j,
        {
            let c = cs[j];
            if is_plain(c) {
                out.push(c);
            } else {
                out.push('\\');
                out.push(c);
            }
            j = j + 1;
            proof {
                lemma_quote_chars_push(w@.take(j - 1), w@[j - 1]);
                assert(w@.take(j as int) =~= w@.take(j - 1).push(w@[j - 1]));
                assert(old(out)@ + (quote_chars(w@.take(j - 1)) + quote_char(w@[j - 1])) =~= (old(
                    out,
                )@ + quote_chars(w@.take(j - 1))) + quote_char(w@[j - 1]));
                assert(out@ =~= old(out)@ + quote_chars(w@.take(j as int)));
            }
        }
        proof {
            assert(w@.take(w@.len() as int) =~= w@);
        }
    }
}

/// Joins an argument vector into one shell-quoted command string.
pub fn join(words: &Vec<String>) -> (r: String)
    ensures
        r@ == join_words(words.deep_view()),
{
    let ghost dv = words.deep_view();
    proof {
        assert(dv.len() == words@.len());
    }
    let mut out: Vec<char> = Vec::new();
    let mut i: usize = 0;
    while i < words.len()
        invariant
            i <= words@.len(),
            dv == words.deep_view(),
            dv.len() == words@.len(),
            out@ == join_words(dv.take(i as int)),
        decreases words@.len() - i,
    {
        if i > 0 {
            out.push(' ');
        }
        push_quoted(&mut out, words[i].as_str());
        proof {
            assert(dv[i as int] == words@[i as int]@);
            lemma_join_push(dv.take(i as int), dv[i as int]);
            assert(dv.take(i + 1) =~= dv.take(i as int).push(dv[i as int]));
            if i > 0 {
                assert((join_words(dv.take(i as int)) + seq![' ']) + quote_word(dv[i as int])
                    =~= join_words(dv.take(i as int)) + seq![' '] + quote_word(dv[i as int]));
            }
        }
        i = i + 1;
    }
    proof {
        assert(dv.take(dv.len() as int) =~= dv);
    }
    chars_string(&out)
}

/// Reads one word that starts at `start` (not a separator) and returns it
/// with the position right after it, or `None` on malformed quoting.
fn scan_token(s: &Vec<char>, start: usize) -> (r: Option<(String, usize)>)
    requires
        start < s@.len(),
        !is_space_char(s@[start as int]),
    ensures
        r matches Some(p) ==> {
            &&& start < p.1 <= s@.len()
            &&& scan(s@.skip(start as int), ScanMode::Normal) == Some(
                (p.0@, s@.skip(p.1 as int)),
            )
        },
        r is None ==> scan(s@.skip(start as int), ScanMode::Normal) is None,
{
    let mut acc: Vec<char> = Vec::new();
    let mut i: usize = start;
    let mut mode = ScanMode::Normal;
    loop
        invariant
            start < s@.len(),
            !is_space_char(s@[start as int]),
            start <= i <= s@.len(),
            i == start ==> mode is Normal && acc@.len() == 0,
            match scan(s@.skip(i as int), mode) {
                Some(p) => scan(s@.skip(start as int), ScanMode::Normal) == Some(
                    (acc@ + p.0, p.1),
                ),
                None => scan(s@.skip(start as int), ScanMode::Normal) is None,
            },
        decreases s@.len() - i,
    {
        let ghost su = s@.skip(i as int);
        proof {
            if su.len() >= 1 {
                assert(su.skip(1) =~= s@.skip(i + 1));
            }
            if su.len() >= 2 {
                assert(su.skip(2) =~= s@.skip(i + 2));
            }
        }
        match mode {
            ScanMode::Normal => {
                if i == s.len() {
                    proof {
                        assert(su =~= Seq::<char>::empty());
                        assert(acc@ + Seq::<char>::empty() =~= acc@);
                    }
                    return Some((chars_string(&acc), i));
                }
                let c = s[i];
                if is_space(c) {
                    proof {
                        assert(su[0] == c);
                        assert(acc@ + Seq::<char>::empty() =~= acc@);
                    }
                    return Some((chars_string(&acc), i));
                } else if c == '\\' {
                    if i + 1 == s.len() {
                        proof {
                            assert(su.len() == 1);
                        }
                        return None;
                    }
                    let d = s[i + 1];
                    proof {
                        assert(su[0] == c);
                        assert(su[1] == d);
                        assert(su.len() >= 2);
                        let sc = scan(s@.skip(i + 2), ScanMode::Normal);
                        if sc is Some {
                            let p = sc.unwrap();
                            assert((acc@.push(d)) + p.0 =~= acc@ + (seq![d] + p.0));
                        }
                    }
                    acc.push(d);
                    i = i + 2;
                } else if c == '\'' {
                    proof {
                        assert(su[0] == c);
                    }
                    mode = ScanMode::Single;
                    i = i + 1;
                } else if c == '"' {
                    proof {
                        assert(su[0] == c);
                    }
                    mode = ScanMode::Double;
                    i = i + 1;
                } else {
                    proof {
                        assert(su[0] == c);
                        let sc = scan(s@.skip(i + 1), ScanMode::Normal);
                        if sc is Some {
                            let p = sc.unwrap();
                            assert((acc@.push(c)) + p.0 =~= acc@ + (seq![c] + p.0));
                        }
                    }
                    acc.push(c);
                    i = i + 1;
                }
            },
            ScanMode::Single => {
                if i == s.len() {
                    proof {
                        assert(su =~= Seq::<char>::empty());
                    }
                    return None;
                }
                let c = s[i];
                proof {
                    assert(su[0] == c);
                }
                if c == '\'' {
                    mode = ScanMode::Normal;
                    i = i + 1;
                } else {
                    proof {
                        let sc = scan(s@.skip(i + 1), ScanMode::Single);
                        if sc is Some {
                            let p = sc.unwrap();
                            assert((acc@.push(c)) + p.0 =~= acc@ + (seq![c] + p.0));
                        }
                    }
                    acc.push(c);
                    i = i + 1;
                }
            },
            ScanMode::Double => {
                if i == s.len() {
                    proof {
                        assert(su =~= Seq::<char>::empty());
                    }
                    return None;
                }
                let c = s[i];
                proof {
                    assert(su[0] == c);
                }
                if c == '"' {
                    mode = ScanMode::Normal;
                    i = i + 1;
                } else if c == '\\' {
                    if i + 1 == s.len() {
                        proof {
                            assert(su.len() == 1);
                        }
                        return None;
                    }
                    let d = s[i + 1];
                    proof {
                        assert(su[1] == d);
                        assert(su.len() >= 2);
                        let sc = scan(s@.skip(i + 2), ScanMode::Double);
                        if sc is Some {
                            let p = sc.unwrap();
                            assert((acc@.push(d)) + p.0 =~= acc@ + (seq![d] + p.0));
                        }
                    }
                    acc.push(d);
                    i = i + 2;
                } else {
                    proof {
                        let sc = scan(s@.skip(i + 1), ScanMode::Double);
                        if sc is Some {
                            let p = sc.unwrap();
                            assert((acc@.push(c)) + p.0 =~= acc@ + (seq![c] + p.0));
                        }
                    }
                    acc.push(c);
                    i = i + 1;
                }
            },
        }
    }
}

/// Splits a shell-quoted command string into its words; `None` on an
/// unbalanced quote or a trailing backslash.
pub fn split(s: &str) -> (r: Option<Vec<String>>)
    ensures
        match split_words(s@) {
            Some(ws) => r matches Some(v) && v.deep_view() == ws,
            None => r is None,
        },
{
    let cs = str_chars(s);
    let mut out: Vec<String> = Vec::new();
    let mut i: usize = 0;
    proof {
        assert(s@.skip(0) =~= s@);
        assert(out.deep_view() =~= Seq::<Seq<char>>::empty());
        let sw = split_words(s@);
        if sw is Some {
            assert(Seq::<Seq<char>>::empty() + sw.unwrap() =~= sw.unwrap());
        }
    }
    while i < cs.len()
        invariant
            i <= cs@.len(),
            cs@ == s@,
            match split_words(s@.skip(i as int)) {
                Some(ws) => split_words(s@) == Some(out.deep_view() + ws),
                None => split_words(s@) is None,
            },
        decreases cs@.len() - i,
    {
        let c = cs[i];
        if is_space(c) {
            proof {
                assert(s@.skip(i as int)[0] == c);
                assert(s@.skip(i as int).skip(1) =~= s@.skip(i + 1));
            }
            i = i + 1;
        } else {
            proof {
                assert(s@.skip(i as int)[0] == c);
            }
            match scan_token(&cs, i) {
                None => {
                    return None;
                },
                Some(p) => {
                    let (tok, j) = p;
                    proof {
                        let sw = split_words(s@.skip(j as int));
                        if sw is Some {
                            assert(split_words(s@.skip(i as int)) == Some(
                                seq![tok@] + sw.unwrap(),
                            ));
                        }
                    }
                    let ghost prev = out.deep_view();
                    out.push(tok);
                    proof {
                        assert(out.deep_view() =~= prev.push(tok@));
                        let sw = split_words(s@.skip(j as int));
                        if sw is Some {
                            let ws1 = sw.unwrap();
                            assert(prev.push(tok@) + ws1 =~= prev + (seq![tok@] + ws1));
                        }
                    }
                    i = j;
                },
            }
        }
    }
    proof {
        assert(s@.skip(s@.len() as int) =~= Seq::<char>::empty());
        assert(out.deep_view() + Seq::<Seq<char>>::empty() =~= out.deep_view());
    }
    Some(out)
}

} // verus!
