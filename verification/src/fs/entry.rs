use vstd::prelude::*;

verus! {

/// A point in time as seconds and nanoseconds relative to the Unix epoch
/// (negative seconds lie before it).
#[derive(Clone, Copy, Debug, PartialEq, Eq, Structural)]
pub struct FileTime {
    pub secs: i64,
    pub nanos: u32,
}

/// One file or directory known to the tree.
#[derive(Clone, Debug, PartialEq, Eq)]
pub struct FsEntry {
    name: String,
    is_dir: bool,
    scanned: bool,
    size: Option<u64>,
    created: Option<FileTime>,
    modified: Option<FileTime>,
}

impl FsEntry {
    pub closed spec fn spec_name(self) -> Seq<char> {
        self.name@
    }

    pub closed spec fn spec_is_dir(self) -> bool {
        self.is_dir
    }

    pub closed spec fn spec_scanned(self) -> bool {
        self.scanned
    }

    pub closed spec fn spec_size(self) -> Option<u64> {
        self.size
    }

    pub closed spec fn spec_created(self) -> Option<FileTime> {
        self.created
    }

    pub closed spec fn spec_modified(self) -> Option<FileTime> {
        self.modified
    }

    /// The entry with only its size replaced.
    pub closed spec fn with_size(self, size: Option<u64>) -> FsEntry {
        FsEntry { size, ..self }
    }

    /// The entry with only its scanned flag replaced.
    pub closed spec fn with_scanned(self, scanned: bool) -> FsEntry {
        FsEntry { scanned, ..self }
    }

    /// Replacing the size changes nothing else.
    pub broadcast proof fn lemma_with_size(self, size: Option<u64>)
        ensures
            #[trigger] self.with_size(size).spec_size() == size,
            self.with_size(size).spec_name() == self.spec_name(),
            self.with_size(size).spec_is_dir() == self.spec_is_dir(),
            self.with_size(size).spec_scanned() == self.spec_scanned(),
            self.with_size(size).spec_created() == self.spec_created(),
            self.with_size(size).spec_modified() == self.spec_modified(),
    {
    }

    /// Replacing the size twice is replacing it once, with the second size.
    pub proof fn lemma_with_size_twice(self, a: Option<u64>, b: Option<u64>)
        ensures
            self.with_size(a).with_size(b) == self.with_size(b),
    {
    }

    /// Replacing the scanned flag changes nothing else.
    pub broadcast proof fn lemma_with_scanned(self, scanned: bool)
        ensures
            #[trigger] self.with_scanned(scanned).spec_scanned() == scanned,
            self.with_scanned(scanned).spec_name() == self.spec_name(),
            self.with_scanned(scanned).spec_is_dir() == self.spec_is_dir(),
            self.with_scanned(scanned).spec_size() == self.spec_size(),
            self.with_scanned(scanned).spec_created() == self.spec_created(),
            self.with_scanned(scanned).spec_modified() == self.spec_modified(),
    {
    }

    /// A directory: not sized until its contents are summed.
    pub fn dir(
        name: String,
        scanned: bool,
        created: Option<FileTime>,
        modified: Option<FileTime>,
    ) -> (r: FsEntry)
        ensures
            r.spec_name() == name@,
            r.spec_is_dir(),
            r.spec_scanned() == scanned,
            r.spec_size() is None,
            r.spec_created() == created,
            r.spec_modified() == modified,
    {
        FsEntry { name, is_dir: true, scanned, size: None, created, modified }
    }

    /// A file: always counts as scanned.
    pub fn file(
        name: String,
        size: Option<u64>,
        created: Option<FileTime>,
        modified: Option<FileTime>,
    ) -> (r: FsEntry)
        ensures
            r.spec_name() == name@,
            !r.spec_is_dir(),
            r.spec_scanned(),
            r.spec_size() == size,
            r.spec_created() == created,
            r.spec_modified() == modified,
    {
        FsEntry { name, is_dir: false, scanned: true, size, created, modified }
    }

    pub fn name(&self) -> (r: &String)
        ensures
            r@ == self.spec_name(),
    {
        &self.name
    }

    pub fn is_dir(&self) -> (r: bool)
        ensures
            r == self.spec_is_dir(),
    {
        self.is_dir
    }

    pub fn scanned(&self) -> (r: bool)
        ensures
            r == self.spec_scanned(),
    {
        self.scanned
    }

    pub fn size(&self) -> (r: Option<u64>)
        ensures
            r == self.spec_size(),
    {
        self.size
    }

    pub fn created(&self) -> (r: Option<FileTime>)
        ensures
            r == self.spec_created(),
    {
        self.created
    }

    pub fn modified(&self) -> (r: Option<FileTime>)
        ensures
            r == self.spec_modified(),
    {
        self.modified
    }

    pub fn set_scanned(&mut self, scanned: bool)
        ensures
            *final(self) == old(self).with_scanned(scanned),
    {
        self.scanned = scanned;
    }

    pub fn set_size(&mut self, size: Option<u64>)
        ensures
            *final(self) == old(self).with_size(size),
    {
        self.size = size;
    }

    /// A copy of the entry, equal to it in every field.
    pub fn duplicate(&self) -> (r: FsEntry)
        ensures
            r == *self,
    {
        FsEntry {
            name: self.name.clone(),
            is_dir: self.is_dir,
            scanned: self.scanned,
            size: self.size,
            created: self.created,
            modified: self.modified,
        }
    }
}

} // verus!
