//! How a file is to be opened.

use vstd::prelude::*;

verus! {

/// The flags that say how a file is to be opened.
#[derive(Clone, Copy, Debug, PartialEq, Eq, Structural)]
pub struct OpenOptions {
    pub append: bool,
    pub create: bool,
    pub create_new: bool,
    pub read: bool,
    pub truncate: bool,
    pub write: bool,
}

impl Default for OpenOptions {
    fn default() -> (o: OpenOptions)
        ensures
            o == OpenOptions::none(),
    {
        OpenOptions {
            append: false,
            create: false,
            create_new: false,
            read: false,
            truncate: false,
            write: false,
        }
    }
}

impl OpenOptions {
    /// The options with every flag off.
    pub open spec fn none() -> OpenOptions {
        OpenOptions {
            append: false,
            create: false,
            create_new: false,
            read: false,
            truncate: false,
            write: false,
        }
    }

    /// Options with every flag off.
    pub fn new() -> (o: OpenOptions)
        ensures
            o == OpenOptions::none(),
    {
        OpenOptions {
            append: false,
            create: false,
            create_new: false,
            read: false,
            truncate: false,
            write: false,
        }
    }

    /// Sets the flag for appending.
    pub fn append(self, append: bool) -> (o: OpenOptions)
        ensures
            o == (OpenOptions { append, ..self }),
    {
        let mut o = self;
        o.append = append;
        o
    }

    /// Sets the flag for making the file where there is none.
    pub fn create(self, create: bool) -> (o: OpenOptions)
        ensures
            o == (OpenOptions { create, ..self }),
    {
        let mut o = self;
        o.create = create;
        o
    }

    /// Sets the flag for making the file, which then must not exist yet.
    pub fn create_new(self, create_new: bool) -> (o: OpenOptions)
        ensures
            o == (OpenOptions { create_new, ..self }),
    {
        let mut o = self;
        o.create_new = create_new;
        o
    }

    /// Sets the flag for reading.
    pub fn read(self, read: bool) -> (o: OpenOptions)
        ensures
            o == (OpenOptions { read, ..self }),
    {
        let mut o = self;
        o.read = read;
        o
    }

    /// Sets the flag for emptying the file when it is opened.
    pub fn truncate(self, truncate: bool) -> (o: OpenOptions)
        ensures
            o == (OpenOptions { truncate, ..self }),
    {
        let mut o = self;
        o.truncate = truncate;
        o
    }

    /// Sets the flag for writing.
    pub fn write(self, write: bool) -> (o: OpenOptions)
        ensures
            o == (OpenOptions { write, ..self }),
    {
        let mut o = self;
        o.write = write;
        o
    }
}

} // verus!
