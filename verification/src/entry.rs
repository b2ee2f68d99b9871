//! The domain record of the compilation database and the uniqueness-enforcing
//! collection that holds it.
//!
//! Paths are kept as raw bytes, the way the operating system hands them out:
//! a path need not be valid UTF-8, and only the on-disk codec insists on
//! text.  Two entries are the same entry when `directory`, `file` and
//! `command` agree; `output` is deliberately left out of the identity.

use vstd::prelude::*;
use crate::text::{bytes_eq, string_vecs_eq};

verus! {

/// The mathematical value of an [`Entry`].
#[verifier::ext_equal]
pub struct EntryView {
    pub directory: Seq<u8>,
    pub file: Seq<u8>,
    pub command: Seq<Seq<char>>,
    pub output: Option<Seq<u8>>,
}

impl EntryView {
    /// What makes two entries the same entry: everything but `output`.
    pub open spec fn ident(self) -> (Seq<u8>, Seq<u8>, Seq<Seq<char>>) {
        (self.directory, self.file, self.command)
    }
}

/// One record of the compilation database: where a source file was compiled,
/// with which argument vector, and (optionally) into which artifact.
pub struct Entry {
    pub directory: Vec<u8>,
    pub file: Vec<u8>,
    pub command: Vec<String>,
    pub output: Option<Vec<u8>>,
}

impl View for Entry {
    type V = EntryView;

    open spec fn view(&self) -> EntryView {
        EntryView {
            directory: self.directory@,
            file: self.file@,
            command: self.command.deep_view(),
            output: match self.output {
                Some(o) => Some(o@),
                None => None,
            },
        }
    }
}

impl DeepView for Entry {
    type V = EntryView;

    open spec fn deep_view(&self) -> EntryView {
        self.view()
    }
}

impl PartialEq for Entry {
    fn eq(&self, other: &Entry) -> (r: bool) {
        let r = bytes_eq(&self.directory, &other.directory) && bytes_eq(&self.file, &other.file)
            && string_vecs_eq(&self.command, &other.command);
        proof {
            if r {
                assert(self@.ident() == other@.ident());
            } else {
                assert(self@.ident() != other@.ident());
            }
        }
        r
    }
}

impl vstd::std_specs::cmp::PartialEqSpecImpl for Entry {
    open spec fn obeys_eq_spec() -> bool {
        true
    }

    open spec fn eq_spec(&self, other: &Entry) -> bool {
        self@.ident() == other@.ident()
    }
}

impl Eq for Entry {

}

/// The set of entries of one database.  No two members share an identity;
/// when a duplicate identity is inserted the member already present stays
/// (first write wins) and the newcomer is dropped, whatever its `output`.
pub struct Entries {
    items: Vec<Entry>,
}

impl View for Entries {
    type V = Seq<EntryView>;

    closed spec fn view(&self) -> Seq<EntryView> {
        self.items.deep_view()
    }
}

/// No two entries of the sequence share an identity.
pub open spec fn distinct_idents(s: Seq<EntryView>) -> bool {
    forall|i: int, j: int| 0 <= i < j < s.len() ==> s[i].ident() != s[j].ident()
}

/// Some entry of the sequence has the given identity.
pub open spec fn has_ident(s: Seq<EntryView>, id: (Seq<u8>, Seq<u8>, Seq<Seq<char>>)) -> bool {
    exists|i: int| 0 <= i < s.len() && s[i].ident() == id
}

/// What inserting one entry does to the members of the set.
pub open spec fn insert_view(s: Seq<EntryView>, e: EntryView) -> Seq<EntryView> {
    if has_ident(s, e.ident()) {
        s
    } else {
        s.push(e)
    }
}

impl Entries {
    /// The members never share an identity.
    pub open spec fn wf(&self) -> bool {
        distinct_idents(self@)
    }

    /// An empty set.
    pub fn new() -> (r: Entries)
        ensures
            r@ == Seq::<EntryView>::empty(),
            r.wf(),
    {
        let r = Entries { items: Vec::new() };
        proof {
            assert(r@ =~= Seq::<EntryView>::empty());
        }
        r
    }

    /// How many entries the set holds.
    pub fn len(&self) -> (n: usize)
        ensures
            n == self@.len(),
    {
        proof {
            assert(self@.len() == self.items@.len());
        }
        self.items.len()
    }

    /// The entry at the given position, in insertion order.
    pub fn get(&self, i: usize) -> (e: &Entry)
        requires
            i < self@.len(),
        ensures
            e@ == self@[i as int],
    {
        proof {
            assert(self@.len() == self.items@.len());
            assert(self@[i as int] == self.items@[i as int]@);
        }
        &self.items[i]
    }

    /// True when some member has the same identity as the given entry.
    pub fn contains(&self, e: &Entry) -> (r: bool)
        ensures
            r == has_ident(self@, e@.ident()),
    {
        let mut i: usize = 0;
        proof {
            assert(self@.len() == self.items@.len());
        }
        while i < self.items.len()
            invariant
                i <= self.items@.len(),
                self@.len() == self.items@.len(),
                forall|j: int| 0 <= j < i ==> self@[j].ident() != e@.ident(),
            decreases self.items@.len() - i,
        {
            proof {
                assert(self@[i as int] == self.items@[i as int]@);
            }
            if self.items[i].eq(e) {
                return true;
            }
            i = i + 1;
        }
        false
    }

    /// Adds an entry.  An entry whose identity is already present is
    /// dropped: the member that came first stays, `output` included.  Two
    /// entries that differ only in `output` therefore collapse to one.
    pub fn insert(&mut self, e: Entry)
        requires
            old(self).wf(),
        ensures
            final(self).wf(),
            final(self)@ == insert_view(old(self)@, e@),
    {
        if self.contains(&e) {
            return ;
        }
        let ghost prev = self@;
        self.items.push(e);
        proof {
            assert(self@ =~= prev.push(e@));
        }
    }
}

} // verus!
