//! The configuration object that selects the on-disk shape of a record.

use vstd::prelude::*;

verus! {

/// How the database is written out.  The one axis recognised today is
/// whether a record's command is stored as an argument array or as one
/// shell-quoted string; further axes would attach here.
pub struct DatabaseFormat {
    command_as_array: bool,
}

impl DatabaseFormat {
    /// Whether records are written in array form.
    pub closed spec fn spec_command_as_array(&self) -> bool {
        self.command_as_array
    }

    /// The default format: commands are written as argument arrays.
    pub fn new() -> (r: DatabaseFormat)
        ensures
            r.spec_command_as_array(),
    {
        DatabaseFormat { command_as_array: true }
    }

    /// Selects array form (`true`) or string form (`false`) for writing.
    pub fn set_command_as_array(&mut self, value: bool)
        ensures
            final(self).spec_command_as_array() == value,
    {
        self.command_as_array = value;
    }

    /// Reads the selected shape.
    pub fn is_command_as_array(&self) -> (r: bool)
        ensures
            r == self.spec_command_as_array(),
    {
        self.command_as_array
    }
}

} // verus!
