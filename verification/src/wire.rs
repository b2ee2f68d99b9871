//! The wire record: the two interchangeable on-disk shapes of an entry, and
//! the conversions between the domain record and the wire record.
//!
//! Writing fails on a path that has no UTF-8 text form; reading fails on a
//! command string with malformed quoting.  Both directions are total
//! otherwise, and reading back what was written gives the original entry
//! (see [`lemma_entry_round_trip`]).

use vstd::prelude::*;
use vstd::string::StrSliceExecFns;
use vstd::string::StringExecFns;
use vstd::utf8::{valid_utf8, decode_utf8, encode_utf8};
use crate::entry::{Entry, EntryView};
use crate::format::DatabaseFormat;
use crate::shell::{join, join_words, split, split_words};
use crate::text::{clone_bytes, clone_strings, string_from_utf8};

verus! {

/// The mathematical value of a [`GenericEntry`].
#[verifier::ext_equal]
pub enum RecView {
    StringRec {
        directory: Seq<char>,
        file: Seq<char>,
        command: Seq<char>,
        output: Option<Seq<char>>,
    },
    ArrayRec {
        directory: Seq<char>,
        file: Seq<char>,
        arguments: Seq<Seq<char>>,
        output: Option<Seq<char>>,
    },
}

/// One record as it stands in the file: either with one shell-quoted
/// command string or with an explicit argument array.  A missing `output`
/// is omitted from the encoded object altogether.
#[derive(Debug)]
pub enum GenericEntry {
    StringEntry { directory: String, file: String, command: String, output: Option<String> },
    ArrayEntry { directory: String, file: String, arguments: Vec<String>, output: Option<String> },
}

impl View for GenericEntry {
    type V = RecView;

    open spec fn view(&self) -> RecView {
        match self {
            GenericEntry::StringEntry { directory, file, command, output } => RecView::StringRec {
                directory: directory@,
                file: file@,
                command: command@,
                output: match output {
                    Some(o) => Some(o@),
                    None => None,
                },
            },
            GenericEntry::ArrayEntry { directory, file, arguments, output } => RecView::ArrayRec {
                directory: directory@,
                file: file@,
                arguments: arguments.deep_view(),
                output: match output {
                    Some(o) => Some(o@),
                    None => None,
                },
            },
        }
    }
}

/// The error of writing: this path has no UTF-8 text form.
pub struct PathEncodingError {
    pub path: Vec<u8>,
}

/// The error of reading one record: its command string cannot be split.
/// The message names the offending command.
pub struct ConversionError {
    pub message: String,
}

/// The message a malformed command is reported with.
pub open spec fn conv_message(command: Seq<char>) -> Seq<char> {
    "cannot split command: "@ + command
}

/// The text form of a path: its bytes decoded as UTF-8, when they are
/// valid UTF-8.
pub open spec fn path_text(bytes: Seq<u8>) -> Option<Seq<char>> {
    if valid_utf8(bytes) {
        Some(decode_utf8(bytes))
    } else {
        None
    }
}

/// What writing one entry in the chosen shape yields: the wire record, or
/// the first path (directory, then file, then output) that has no text form.
pub open spec fn entry_to_rec(e: EntryView, as_array: bool) -> Result<RecView, Seq<u8>> {
    if !valid_utf8(e.directory) {
        Err(e.directory)
    } else if !valid_utf8(e.file) {
        Err(e.file)
    } else if (match e.output {
        Some(o) => !valid_utf8(o),
        None => false,
    }) {
        Err(e.output.unwrap())
    } else {
        let output = match e.output {
            Some(o) => Some(decode_utf8(o)),
            None => None,
        };
        if as_array {
            Ok(
                RecView::ArrayRec {
                    directory: decode_utf8(e.directory),
                    file: decode_utf8(e.file),
                    arguments: e.command,
                    output,
                },
            )
        } else {
            Ok(
                RecView::StringRec {
                    directory: decode_utf8(e.directory),
                    file: decode_utf8(e.file),
                    command: join_words(e.command),
                    output,
                },
            )
        }
    }
}

/// What reading one wire record yields: the entry, or the command string
/// whose quoting is malformed.  Paths are taken as-is, re-encoded as bytes.
pub open spec fn rec_to_entry(m: RecView) -> Result<EntryView, Seq<char>> {
    match m {
        RecView::ArrayRec { directory, file, arguments, output } => Ok(
            EntryView {
                directory: encode_utf8(directory),
                file: encode_utf8(file),
                command: arguments,
                output: match output {
                    Some(o) => Some(encode_utf8(o)),
                    None => None,
                },
            },
        ),
        RecView::StringRec { directory, file, command, output } => match split_words(command) {
            Some(ws) => Ok(
                EntryView {
                    directory: encode_utf8(directory),
                    file: encode_utf8(file),
                    command: ws,
                    output: match output {
                        Some(o) => Some(encode_utf8(o)),
                        None => None,
                    },
                },
            ),
            None => Err(command),
        },
    }
}

/// An entry whose paths all have a text form converts in either shape, and
/// reading the written record back gives exactly the original entry: the
/// argument array passes through verbatim, and the string shape goes
/// through the shell-word codec, which loses nothing.
pub proof fn lemma_entry_round_trip(e: EntryView, as_array: bool)
    requires
        entry_to_rec(e, as_array) is Ok,
    ensures
        rec_to_entry(entry_to_rec(e, as_array)->Ok_0) == Ok::<EntryView, Seq<char>>(e),
{
    broadcast use vstd::utf8::decode_utf8_encode_utf8;

    let m = entry_to_rec(e, as_array)->Ok_0;
    if !as_array {
        crate::shell::lemma_shell_round_trip(e.command);
    }
    assert(rec_to_entry(m)->Ok_0 =~= e);
}

/// The text form of a path's bytes, when there is one.
fn path_to_text(p: &Vec<u8>) -> (r: Option<String>)
    ensures
        match path_text(p@) {
            Some(t) => r matches Some(s) && s@ == t,
            None => r is None,
        },
{
    string_from_utf8(clone_bytes(p))
}

/// Converts one entry to its wire record in the shape the format selects;
/// fails with the first of `directory`, `file`, `output` that has no UTF-8
/// text form, naming that path.
pub fn from(entry: &Entry, format: &DatabaseFormat) -> (r: Result<GenericEntry, PathEncodingError>)
    ensures
        match entry_to_rec(entry@, format.spec_command_as_array()) {
            Ok(m) => r matches Ok(g) && g@ == m,
            Err(p) => r matches Err(e) && e.path@ == p,
        },
{
    let directory = match path_to_text(&entry.directory) {
        Some(s) => s,
        None => {
            return Err(PathEncodingError { path: clone_bytes(&entry.directory) });
        },
    };
    let file = match path_to_text(&entry.file) {
        Some(s) => s,
        None => {
            return Err(PathEncodingError { path: clone_bytes(&entry.file) });
        },
    };
    let output = match &entry.output {
        Some(p) => match path_to_text(p) {
            Some(s) => Some(s),
            None => {
                return Err(PathEncodingError { path: clone_bytes(p) });
            },
        },
        None => None,
    };
    let r = if format.is_command_as_array() {
        GenericEntry::ArrayEntry {
            directory,
            file,
            arguments: clone_strings(&entry.command),
            output,
        }
    } else {
        GenericEntry::StringEntry { directory, file, command: join(&entry.command), output }
    };
    proof {
        assert(r@ =~= entry_to_rec(entry@, format.spec_command_as_array())->Ok_0);
    }
    Ok(r)
}

/// Converts one wire record back to an entry; fails when a string-form
/// command has malformed quoting, with a message naming that command.
pub fn into(entry: &GenericEntry) -> (r: Result<Entry, ConversionError>)
    ensures
        match rec_to_entry(entry@) {
            Ok(ev) => r matches Ok(e) && e@ == ev,
            Err(cmd) => r matches Err(err) && err.message@ == conv_message(cmd),
        },
{
    match entry {
        GenericEntry::ArrayEntry { directory, file, arguments, output } => {
            let e = Entry {
                directory: directory.as_str().as_bytes_vec(),
                file: file.as_str().as_bytes_vec(),
                command: clone_strings(arguments),
                output: match output {
                    Some(o) => Some(o.as_str().as_bytes_vec()),
                    None => None,
                },
            };
            proof {
                assert(e@ =~= rec_to_entry(entry@)->Ok_0);
            }
            Ok(e)
        },
        GenericEntry::StringEntry { directory, file, command, output } => {
            match split(command.as_str()) {
                Some(words) => {
                    let e = Entry {
                        directory: directory.as_str().as_bytes_vec(),
                        file: file.as_str().as_bytes_vec(),
                        command: words,
                        output: match output {
                            Some(o) => Some(o.as_str().as_bytes_vec()),
                            None => None,
                        },
                    };
                    proof {
                        assert(e@ =~= rec_to_entry(entry@)->Ok_0);
                    }
                    Ok(e)
                },
                None => {
                    let mut message = "cannot split command: ".to_owned();
                    message.append(command.as_str());
                    Err(ConversionError { message })
                },
            }
        },
    }
}

} // verus!
