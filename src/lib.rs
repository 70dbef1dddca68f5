//! Moving files into the freedesktop.org trash and back, with the path and percent-encoding
//! logic that it needs.
use vstd::prelude::*;

pub mod freedesktop;
pub mod uri_path;
pub mod utility;

verus! {

/// The platform part of a trash context; the freedesktop trash needs no settings.
#[derive(Clone, Copy, Debug, Default)]
pub struct PlatformTrashContext {}

impl PlatformTrashContext {
    pub fn new() -> (r: PlatformTrashContext) {
        PlatformTrashContext {  }
    }
}

/// The settings that trash operations run with, handed to each operation.
#[derive(Clone, Copy, Debug, Default)]
pub struct TrashContext {
    pub platform_specific: PlatformTrashContext,
}

impl TrashContext {
    pub fn new() -> (r: TrashContext) {
        TrashContext { platform_specific: PlatformTrashContext::new() }
    }
}

/// What went wrong in a trash operation.
#[derive(Debug)]
pub enum Error {
    /// An error with no more specific kind.
    Unknown { description: String },
    /// An error code of the operating system.
    Os { code: i32, description: String },
    /// A file system operation failed at `path`.
    FileSystem { path: String },
    /// The root directory cannot be trashed.
    TargetedRoot,
    /// A path could not be read.
    CouldNotAccess { target: String },
    /// A path could not be made canonical.
    CanonicalizePath { original: String },
    /// A path was not valid text.
    ConvertOsString { original: String },
    /// Neither mount table could be opened.
    MountTableUnavailable,
    /// The mount table was opened but listed no mount.
    NoMountsFound,
    /// Neither `XDG_DATA_HOME` nor `HOME` is set to a non-empty value.
    EnvironmentMissing,
    /// Something already stands at `path`, where the first of `remaining_items` would be
    /// restored; the items before it were restored, these were not.
    RestoreCollision { path: String, remaining_items: Vec<TrashItem> },
    /// Two of `items` would be restored to `path`; none was restored.
    RestoreTwins { path: String, items: Vec<TrashItem> },
}

/// An item in the trash.
#[derive(Clone, Debug)]
pub struct TrashItem {
    /// The path of the item's descriptor; it alone tells items apart.
    pub id: String,
    /// The name of the item where it was before it was trashed.
    pub name: String,
    /// The directory the item was in before it was trashed.
    pub original_parent: String,
    /// When the item was trashed, in seconds since the Unix epoch.
    pub time_deleted: i64,
}

impl TrashItem {
    pub open spec fn original_path_spec(&self) -> Seq<char> {
        crate::freedesktop::join(self.original_parent@, self.name@)
    }

    /// Where the item was before it was trashed.
    pub fn original_path(&self) -> (r: String)
        ensures
            r@ == self.original_path_spec(),
    {
        crate::freedesktop::join_path(self.original_parent.as_str(), self.name.as_str())
    }
}

impl PartialEq for TrashItem {
    fn eq(&self, other: &TrashItem) -> (r: bool) {
        self.id == other.id
    }
}

impl vstd::std_specs::cmp::PartialEqSpecImpl for TrashItem {
    open spec fn obeys_eq_spec() -> bool {
        true
    }

    open spec fn eq_spec(&self, other: &TrashItem) -> bool {
        self.id@ == other.id@
    }
}

impl Eq for TrashItem {

}

/// The size of a trashed item: bytes for a file, entries for a directory.
#[derive(Clone, Copy, Debug, PartialEq, Eq, Hash, PartialOrd, Ord, Structural)]
pub enum TrashItemSize {
    Bytes(u64),
    Entries(usize),
}

impl TrashItemSize {
    /// The size in bytes, for a file.
    pub fn size(&self) -> (r: Option<u64>)
        ensures
            r == match *self {
                TrashItemSize::Bytes(s) => Some(s),
                TrashItemSize::Entries(_) => None::<u64>,
            },
    {
        match self {
            TrashItemSize::Bytes(s) => Some(*s),
            TrashItemSize::Entries(_) => None,
        }
    }

    /// The number of entries, for a directory.
    pub fn entries(&self) -> (r: Option<usize>)
        ensures
            r == match *self {
                TrashItemSize::Bytes(_) => None::<usize>,
                TrashItemSize::Entries(e) => Some(e),
            },
    {
        match self {
            TrashItemSize::Bytes(_) => None,
            TrashItemSize::Entries(e) => Some(*e),
        }
    }
}

/// What is known of a trashed item besides its descriptor.
#[derive(Clone, Copy, Debug, PartialEq, Eq, Hash, PartialOrd, Ord, Structural)]
pub struct TrashItemMetadata {
    pub size: TrashItemSize,
}

} // verus!
