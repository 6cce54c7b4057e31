use vstd::prelude::*;

verus! {

/// The version of a pack data file.
#[derive(PartialEq, Eq, Structural, Clone, Copy, Debug)]
pub enum Version {
    V2,
    V3,
}

/// The hash used for the pack checksum.
#[derive(PartialEq, Eq, Structural, Clone, Copy, Debug)]
pub enum HashKind {
    Sha1,
}

/// The error of writing pack entries.
#[derive(Debug)]
pub enum Error<E> {
    /// Writing to the output failed, described.
    Io(String),
    /// The input handed over an error.
    Input(E),
}

/// A writer of encoded pack entries from `input` to `output`.
#[derive(Debug)]
pub struct Entries<I, W> {
    /// Where the entries to write come from.
    pub input: I,
    output: W,
    hash_kind: HashKind,
    header_info: Option<(u32, Version)>,
    is_done: bool,
}

impl<I, W> Entries<I, W> {
    pub closed spec fn input_of(&self) -> I {
        self.input
    }

    pub closed spec fn output(&self) -> W {
        self.output
    }

    /// The entry count and version still to be written as the header, or
    /// `None` once the header is out.
    pub closed spec fn header(&self) -> Option<(u32, Version)> {
        self.header_info
    }

    pub closed spec fn hash(&self) -> HashKind {
        self.hash_kind
    }

    pub closed spec fn done(&self) -> bool {
        self.is_done
    }

    /// Start writing a pack of `version`, holding `num_entries` objects; only
    /// version 2 can be written.
    pub fn new(input: I, output: W, num_entries: u32, version: Version, hash_kind: HashKind) -> (r: Self)
        requires
            version == Version::V2,
        ensures
            r.input_of() == input,
            r.output() == output,
            r.header() == Some((num_entries, version)),
            r.hash() == hash_kind,
            !r.done(),
    {
        Entries { input, output, hash_kind, header_info: Some((num_entries, version)), is_done: false }
    }

    /// The hash used for the pack checksum.
    pub fn hash_kind(&self) -> (r: HashKind)
        ensures
            r == self.hash(),
    {
        self.hash_kind
    }

    /// Give back the output.
    pub fn into_write(self) -> (r: W)
        ensures
            r == self.output(),
    {
        self.output
    }
}

} // verus!
