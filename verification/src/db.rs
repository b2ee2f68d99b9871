//! The database itself: turning a set of entries into one JSON document and
//! a JSON document back into a set of entries.
//!
//! The library stops at text: opening, reading and writing the file on disk
//! belongs to the caller, who hands the document in and takes it out as one
//! string.  A `Database` value is the stateless handle that remembers which
//! path the caller bound it to.

use vstd::prelude::*;
use vstd::string::StringExecFns;
use crate::entry::{distinct_idents, Entries, EntryView, insert_view};
use crate::format::DatabaseFormat;
use crate::json::{file_json, parse_db, render_db};
use crate::text::clone_bytes;
use crate::wire::{
    conv_message,
    entry_to_rec,
    from,
    into,
    GenericEntry,
    PathEncodingError,
    rec_to_entry,
    RecView,
};

verus! {

/// A stateless handle on one database file, kept as the path's raw bytes.
pub struct Database {
    path: Vec<u8>,
}

impl Database {
    /// The path this handle is bound to.
    pub closed spec fn spec_path(&self) -> Seq<u8> {
        self.path@
    }

    /// Binds a handle to a path.
    pub fn new(path: Vec<u8>) -> (r: Database)
        ensures
            r.spec_path() == path@,
    {
        Database { path }
    }

    /// The path this handle is bound to.
    pub fn path(&self) -> (p: &Vec<u8>)
        ensures
            p@ == self.spec_path(),
    {
        &self.path
    }
}

/// Why a load failed: the text is not a well-formed database document, or
/// some records' command strings cannot be split (their messages joined).
pub enum LoadError {
    Json,
    Conversion { message: String },
}

impl LoadError {
    /// A printable account of the failure.
    pub fn message(&self) -> (r: String)
        ensures
            self matches LoadError::Conversion { message } ==> r@ == message@,
            self is Json ==> r@ == "not a well-formed compilation database"@,
    {
        match self {
            LoadError::Json => "not a well-formed compilation database".to_owned(),
            LoadError::Conversion { message } => message.clone(),
        }
    }
}

/// The wire records of the entries, in order; or the first path (in set
/// order) that has no text form.
pub open spec fn save_recs(entries: Seq<EntryView>, as_array: bool) -> Result<
    Seq<RecView>,
    Seq<u8>,
>
    decreases entries.len(),
{
    if entries.len() == 0 {
        Ok(Seq::empty())
    } else {
        match entry_to_rec(entries[0], as_array) {
            Err(p) => Err(p),
            Ok(m) => match save_recs(entries.skip(1), as_array) {
                Err(p) => Err(p),
                Ok(ms) => Ok(seq![m] + ms),
            },
        }
    }
}

/// The document text a save produces, or the offending path.
pub open spec fn save_text(entries: Seq<EntryView>, as_array: bool) -> Result<Seq<char>, Seq<u8>> {
    match save_recs(entries, as_array) {
        Ok(ms) => Ok(file_json(ms)),
        Err(p) => Err(p),
    }
}

/// Every record of the document converts to an entry.
pub open spec fn all_convert(ms: Seq<RecView>) -> bool {
    forall|i: int| 0 <= i < ms.len() ==> rec_to_entry(ms[i]) is Ok
}

/// The set the records build up, in order, duplicates by identity dropped.
pub open spec fn insert_all(acc: Seq<EntryView>, ms: Seq<RecView>) -> Seq<EntryView>
    recommends
        all_convert(ms),
    decreases ms.len(),
{
    if ms.len() == 0 {
        acc
    } else {
        insert_all(insert_view(acc, rec_to_entry(ms[0])->Ok_0), ms.skip(1))
    }
}

/// The messages of the records that fail to convert, in order.
pub open spec fn fail_msgs(ms: Seq<RecView>) -> Seq<Seq<char>>
    decreases ms.len(),
{
    if ms.len() == 0 {
        Seq::empty()
    } else {
        let rest = fail_msgs(ms.skip(1));
        match rec_to_entry(ms[0]) {
            Ok(_) => rest,
            Err(c) => seq![conv_message(c)] + rest,
        }
    }
}

/// The messages joined with a comma and a space.
pub open spec fn join_msgs(msgs: Seq<Seq<char>>) -> Seq<char>
    decreases msgs.len(),
{
    if msgs.len() == 0 {
        Seq::empty()
    } else if msgs.len() == 1 {
        msgs[0]
    } else {
        msgs[0] + seq![',', ' '] + join_msgs(msgs.skip(1))
    }
}

/// A record that fails adds its message at the end of the list.
proof fn lemma_fail_msgs_push(ms: Seq<RecView>, m: RecView)
    ensures
        fail_msgs(ms.push(m)) == fail_msgs(ms) + (match rec_to_entry(m) {
            Ok(e) => Seq::<Seq<char>>::empty(),
            Err(c) => seq![conv_message(c)],
        }),
    decreases ms.len(),
{
    let e = ms.push(m);
    let tail = (match rec_to_entry(m) {
        Ok(e2) => Seq::<Seq<char>>::empty(),
        Err(c) => seq![conv_message(c)],
    });
    if ms.len() == 0 {
        assert(e[0] == m);
        assert(e.skip(1) =~= Seq::<RecView>::empty());
        assert(fail_msgs(e.skip(1)) == Seq::<Seq<char>>::empty());
        match rec_to_entry(m) {
            Ok(_) => {
                assert(fail_msgs(ms) + tail =~= fail_msgs(e));
            },
            Err(c) => {
                assert(seq![conv_message(c)] + Seq::<Seq<char>>::empty() =~= seq![conv_message(c)]);
                assert(fail_msgs(ms) + tail =~= seq![conv_message(c)]);
            },
        }
    } else {
        assert(e[0] == ms[0]);
        assert(e.skip(1) =~= ms.skip(1).push(m));
        lemma_fail_msgs_push(ms.skip(1), m);
        match rec_to_entry(ms[0]) {
            Ok(_) => {},
            Err(c) => {
                assert(seq![conv_message(c)] + (fail_msgs(ms.skip(1)) + tail) =~= (seq![
                    conv_message(c),
                ] + fail_msgs(ms.skip(1))) + tail);
            },
        }
    }
}

/// One more message extends the joined text by a separator and itself.
proof fn lemma_join_msgs_push(msgs: Seq<Seq<char>>, m: Seq<char>)
    ensures
        msgs.len() == 0 ==> join_msgs(msgs.push(m)) == m,
        msgs.len() > 0 ==> join_msgs(msgs.push(m)) == join_msgs(msgs) + seq![',', ' '] + m,
    decreases msgs.len(),
{
    let e = msgs.push(m);
    if msgs.len() == 0 {
        assert(e[0] == m);
    } else {
        assert(e[0] == msgs[0]);
        assert(e.skip(1) =~= msgs.skip(1).push(m));
        lemma_join_msgs_push(msgs.skip(1), m);
        if msgs.len() == 1 {
            assert(join_msgs(e) == msgs[0] + seq![',', ' '] + m);
        } else {
            assert(join_msgs(e) == msgs[0] + seq![',', ' '] + (join_msgs(msgs.skip(1)) + seq![
                ',',
                ' ',
            ] + m));
            assert(msgs[0] + seq![',', ' '] + (join_msgs(msgs.skip(1)) + seq![',', ' '] + m) =~= (
            msgs[0] + seq![',', ' '] + join_msgs(msgs.skip(1))) + seq![',', ' '] + m);
        }
    }
}

/// Converts every entry of the set to a wire record, stopping at the first
/// failure, and renders the document; returns the text to write, or the
/// first path without a text form (no partial document is produced).
pub fn save_entries(entries: &Entries, format: &DatabaseFormat) -> (r: Result<
    String,
    PathEncodingError,
>)
    ensures
        match save_text(entries@, format.spec_command_as_array()) {
            Ok(t) => r matches Ok(s) && s@ == t,
            Err(p) => r matches Err(e) && e.path@ == p,
        },
{
    let ghost ev = entries@;
    let ghost arr = format.spec_command_as_array();
    let mut recs: Vec<GenericEntry> = Vec::new();
    let n = entries.len();
    let mut i: usize = 0;
    proof {
        assert(recs.deep_view() =~= Seq::<RecView>::empty());
        assert(ev.skip(0) =~= ev);
    }
    while i < n
        invariant
            i <= ev.len(),
            n == ev.len(),
            ev == entries@,
            arr == format.spec_command_as_array(),
            recs.deep_view().len() == i,
            save_recs(ev, arr) == (match save_recs(ev.skip(i as int), arr) {
                Ok(ms) => Ok::<Seq<RecView>, Seq<u8>>(recs.deep_view() + ms),
                Err(p) => Err::<Seq<RecView>, Seq<u8>>(p),
            }),
        decreases ev.len() - i,
    {
        let ghost su = ev.skip(i as int);
        proof {
            assert(su[0] == ev[i as int]);
            assert(su.skip(1) =~= ev.skip(i + 1));
        }
        let e = entries.get(i);
        match from(e, format) {
            Err(err) => {
                return Err(err);
            },
            Ok(g) => {
                let ghost prev = recs.deep_view();
                recs.push(g);
                proof {
                    assert(recs.deep_view() =~= prev.push(g@));
                    let tail = save_recs(ev.skip(i + 1), arr);
                    if tail is Ok {
                        assert(prev.push(g@) + tail->Ok_0 =~= prev + (seq![g@] + tail->Ok_0));
                    }
                }
                i = i + 1;
            },
        }
    }
    proof {
        assert(ev.skip(ev.len() as int) =~= Seq::<EntryView>::empty());
        assert(recs.deep_view() + Seq::<RecView>::empty() =~= recs.deep_view());
    }
    Ok(render_db(&recs))
}

/// Reads a document and rebuilds the set of entries.  Malformed JSON or an
/// object of neither known shape fails the whole load; so does any record
/// whose command cannot be split, and then every failing record's message
/// is joined into one error, and no entries are returned.
#[verifier::rlimit(100)]
#[verifier::spinoff_prover]
pub fn load_entries(text: &str) -> (r: Result<Entries, LoadError>)
    ensures
        match parse_db(text@) {
            None => r matches Err(e) && e is Json,
            Some(ms) => {
                if all_convert(ms) {
                    &&& r matches Ok(es)
                    &&& es@ == insert_all(Seq::empty(), ms)
                    &&& es.wf()
                } else {
                    &&& r matches Err(e)
                    &&& e matches LoadError::Conversion { message }
                    &&& message@ == join_msgs(fail_msgs(ms))
                }
            },
        },
{
    let recs = match crate::json::parse_db_text(text) {
        Some(v) => v,
        None => {
            return Err(LoadError::Json);
        },
    };
    let ghost ms = recs.deep_view();
    proof {
        assert(ms.len() == recs@.len());
    }
    let n = recs.len();
    let mut es = Entries::new();
    let mut failed = false;
    let mut i: usize = 0;
    while i < n && !failed
        invariant
            i <= ms.len(),
            n == ms.len(),
            ms == recs.deep_view(),
            ms.len() == recs@.len(),
            !failed ==> {
                &&& es.wf()
                &&& es@ == insert_all(Seq::empty(), ms.take(i as int))
                &&& forall|j: int| 0 <= j < i ==> rec_to_entry(ms[j]) is Ok
            },
            failed ==> exists|j: int| 0 <= j < ms.len() && !(rec_to_entry(ms[j]) is Ok),
        decreases ms.len() - i + (if failed {
            0int
        } else {
            1int
        }),
    {
        proof {
            assert(ms[i as int] == recs@[i as int]@);
        }
        match into(&recs[i]) {
            Ok(e) => {
                proof {
                    assert(rec_to_entry(ms[i as int]) is Ok);
                    lemma_insert_all_take(ms, i as int);
                }
                es.insert(e);
                i = i + 1;
            },
            Err(_) => {
                failed = true;
            },
        }
    }
    if !failed {
        proof {
            assert(ms.take(ms.len() as int) =~= ms);
        }
        return Ok(es);
    }
    // Some record failed: collect every failing record's message.
    let mut msgs: Vec<String> = Vec::new();
    let mut j: usize = 0;
    proof {
        assert(msgs.deep_view() =~= Seq::<Seq<char>>::empty());
        assert(fail_msgs(ms.take(0)) =~= Seq::<Seq<char>>::empty());
    }
    while j < n
        invariant
            j <= ms.len(),
            n == ms.len(),
            ms == recs.deep_view(),
            ms.len() == recs@.len(),
            msgs.deep_view() == fail_msgs(ms.take(j as int)),
        decreases ms.len() - j,
    {
        proof {
            assert(ms[j as int] == recs@[j as int]@);
            assert(ms.take(j + 1) =~= ms.take(j as int).push(ms[j as int]));
            lemma_fail_msgs_push(ms.take(j as int), ms[j as int]);
        }
        match into(&recs[j]) {
            Ok(_) => {
                proof {
                    assert(msgs.deep_view() + Seq::<Seq<char>>::empty() =~= msgs.deep_view());
                }
            },
            Err(err) => {
                let ghost prev = msgs.deep_view();
                msgs.push(err.message);
                proof {
                    assert(msgs.deep_view() =~= prev.push(conv_message(
                        rec_to_entry(ms[j as int])->Err_0,
                    )));
                    assert(prev.push(conv_message(rec_to_entry(ms[j as int])->Err_0)) =~= prev
                        + seq![conv_message(rec_to_entry(ms[j as int])->Err_0)]);
                }
            },
        }
        j = j + 1;
    }
    proof {
        assert(ms.take(ms.len() as int) =~= ms);
    }
    // Join the messages with a comma separator.
    let mut message = String::new();
    let k_end = msgs.len();
    let mut k: usize = 0;
    proof {
        assert(msgs.deep_view().take(0) =~= Seq::<Seq<char>>::empty());
    }
    while k < k_end
        invariant
            k <= msgs@.len(),
            k_end == msgs@.len(),
            msgs.deep_view().len() == msgs@.len(),
            msgs.deep_view() == fail_msgs(ms),
            message@ == join_msgs(msgs.deep_view().take(k as int)),
        decreases msgs@.len() - k,
    {
        if k > 0 {
            message.append(", ");
        }
        message.append(msgs[k].as_str());
        proof {
            let dv = msgs.deep_view();
            assert(dv[k as int] == msgs@[k as int]@);
            lemma_join_msgs_push(dv.take(k as int), dv[k as int]);
            assert(dv.take(k + 1) =~= dv.take(k as int).push(dv[k as int]));
            if k > 0 {
                reveal_strlit(", ");
                assert(", "@ =~= seq![',', ' ']);
            }
        }
        k = k + 1;
    }
    proof {
        assert(msgs.deep_view().take(msgs.deep_view().len() as int) =~= msgs.deep_view());
    }
    Err(LoadError::Conversion { message })
}

/// Taking one more convertible record into the running set inserts its
/// entry.
proof fn lemma_insert_all_take(ms: Seq<RecView>, i: int)
    requires
        0 <= i < ms.len(),
        forall|j: int| 0 <= j <= i ==> rec_to_entry(ms[j]) is Ok,
    ensures
        insert_all(Seq::empty(), ms.take(i + 1)) == insert_view(
            insert_all(Seq::empty(), ms.take(i)),
            rec_to_entry(ms[i])->Ok_0,
        ),
{
    lemma_insert_all_push(Seq::empty(), ms.take(i), ms[i]);
    assert(ms.take(i + 1) =~= ms.take(i).push(ms[i]));
}

/// Appending a record to the list inserts its entry last.
proof fn lemma_insert_all_push(acc: Seq<EntryView>, ms: Seq<RecView>, m: RecView)
    ensures
        insert_all(acc, ms.push(m)) == insert_view(insert_all(acc, ms), rec_to_entry(m)->Ok_0),
    decreases ms.len(),
{
    let e = ms.push(m);
    if ms.len() == 0 {
        assert(e[0] == m);
        assert(e.skip(1) =~= Seq::<RecView>::empty());
        assert(insert_all(acc, e) == insert_all(
            insert_view(acc, rec_to_entry(m)->Ok_0),
            e.skip(1),
        ));
        assert(insert_all(insert_view(acc, rec_to_entry(m)->Ok_0), e.skip(1)) == insert_view(
            acc,
            rec_to_entry(m)->Ok_0,
        ));
        assert(insert_all(acc, ms) == acc);
    } else {
        assert(e[0] == ms[0]);
        assert(e.skip(1) =~= ms.skip(1).push(m));
        let acc2 = insert_view(acc, rec_to_entry(ms[0])->Ok_0);
        assert(insert_all(acc, e) == insert_all(acc2, e.skip(1)));
        lemma_insert_all_push(acc2, ms.skip(1), m);
        assert(insert_all(acc, ms) == insert_all(acc2, ms.skip(1)));
    }
}

} // verus!

verus! {

/// When every entry's paths have a text form, the conversion of the whole
/// set succeeds, record by record in order.
proof fn lemma_save_recs_ok(entries: Seq<EntryView>, as_array: bool)
    requires
        forall|i: int| 0 <= i < entries.len() ==> entry_to_rec(entries[i], as_array) is Ok,
    ensures
        save_recs(entries, as_array) is Ok,
        save_recs(entries, as_array)->Ok_0.len() == entries.len(),
        forall|i: int|
            0 <= i < entries.len() ==> save_recs(entries, as_array)->Ok_0[i] == entry_to_rec(
                entries[i],
                as_array,
            )->Ok_0,
    decreases entries.len(),
{
    if entries.len() > 0 {
        assert(entry_to_rec(entries[0], as_array) is Ok);
        assert(forall|i: int|
            0 <= i < entries.skip(1).len() ==> entries.skip(1)[i] == entries[i + 1]);
        lemma_save_recs_ok(entries.skip(1), as_array);
        let m = entry_to_rec(entries[0], as_array)->Ok_0;
        let ms = save_recs(entries.skip(1), as_array)->Ok_0;
        assert(save_recs(entries, as_array)->Ok_0 == seq![m] + ms);
        assert forall|i: int| 0 <= i < entries.len() implies save_recs(entries, as_array)->Ok_0[i]
            == entry_to_rec(entries[i], as_array)->Ok_0 by {
            if i > 0 {
                assert((seq![m] + ms)[i] == ms[i - 1]);
                assert(entries.skip(1)[i - 1] == entries[i]);
            }
        }
    }
}

/// Inserting records that convert, one by one, to entries no two of which
/// share an identity (nor share one with what is already in the set) simply
/// appends those entries in order.
proof fn lemma_insert_all_entries(acc: Seq<EntryView>, entries: Seq<EntryView>, ms: Seq<RecView>)
    requires
        ms.len() == entries.len(),
        forall|i: int|
            0 <= i < ms.len() ==> rec_to_entry(ms[i]) == Ok::<EntryView, Seq<char>>(entries[i]),
        distinct_idents(acc + entries),
    ensures
        insert_all(acc, ms) == acc + entries,
    decreases ms.len(),
{
    if ms.len() == 0 {
        assert(acc + entries =~= acc);
    } else {
        let e0 = entries[0];
        assert(rec_to_entry(ms[0]) == Ok::<EntryView, Seq<char>>(e0));
        assert(!crate::entry::has_ident(acc, e0.ident())) by {
            assert forall|j: int| 0 <= j < acc.len() implies acc[j].ident() != e0.ident() by {
                assert(acc[j] == (acc + entries)[j]);
                assert(e0 == (acc + entries)[acc.len() as int]);
            }
        }
        assert(insert_view(acc, e0) == acc.push(e0));
        assert(forall|i: int| 0 <= i < ms.skip(1).len() ==> ms.skip(1)[i] == ms[i + 1]);
        assert(forall|i: int|
            0 <= i < entries.skip(1).len() ==> entries.skip(1)[i] == entries[i + 1]);
        assert(acc.push(e0) + entries.skip(1) =~= acc + entries);
        lemma_insert_all_entries(acc.push(e0), entries.skip(1), ms.skip(1));
    }
}

/// Saving a set of entries whose paths all have a UTF-8 text form, in either
/// shape, and loading the produced document back yields exactly the same
/// entries, in the same order: every record parses, every record converts,
/// and nothing collapses or changes on the way through the file.
pub proof fn lemma_save_load_round_trip(entries: Seq<EntryView>, as_array: bool)
    requires
        distinct_idents(entries),
        forall|i: int| 0 <= i < entries.len() ==> entry_to_rec(entries[i], as_array) is Ok,
    ensures
        save_text(entries, as_array) is Ok,
        parse_db(save_text(entries, as_array)->Ok_0) is Some,
        all_convert(parse_db(save_text(entries, as_array)->Ok_0).unwrap()),
        insert_all(Seq::empty(), parse_db(save_text(entries, as_array)->Ok_0).unwrap())
            == entries,
{
    lemma_save_recs_ok(entries, as_array);
    let ms = save_recs(entries, as_array)->Ok_0;
    assert(save_text(entries, as_array)->Ok_0 == file_json(ms));
    crate::json::lemma_parse_db_round(ms);
    assert(parse_db(save_text(entries, as_array)->Ok_0) == Some(ms));
    assert forall|i: int| 0 <= i < ms.len() implies rec_to_entry(ms[i]) == Ok::<
        EntryView,
        Seq<char>,
    >(entries[i]) by {
        crate::wire::lemma_entry_round_trip(entries[i], as_array);
    }
    assert(Seq::<EntryView>::empty() + entries =~= entries);
    lemma_insert_all_entries(Seq::empty(), entries, ms);
}

} // verus!
