use vstd::prelude::*;
use vstd::string::StringExecFns;

verus! {

/// The failures of the storage collaborator. Each carries the underlying
/// account as text.
pub enum FileSystemErrors {
    CreateDirectory(String),
    CreateFile(String),
    RenameError(String),
    RemoveError(String),
}

impl FileSystemErrors {
    /// The human-readable account of the failure.
    pub fn message(&self) -> (r: String)
        ensures
            match self {
                FileSystemErrors::CreateDirectory(e) => r@ == "Can't create directory. "@ + e@,
                FileSystemErrors::CreateFile(e) => r@ == "Can't create file. "@ + e@,
                FileSystemErrors::RenameError(e) => r@ == "Can't rename file, "@ + e@,
                FileSystemErrors::RemoveError(e) => r@ == "Can't remove file. "@ + e@,
            },
    {
        match self {
            FileSystemErrors::CreateDirectory(e) => String::from_str("Can't create directory. ")
                .concat(e.as_str()),
            FileSystemErrors::CreateFile(e) => String::from_str("Can't create file. ").concat(
                e.as_str(),
            ),
            FileSystemErrors::RenameError(e) => String::from_str("Can't rename file, ").concat(
                e.as_str(),
            ),
            FileSystemErrors::RemoveError(e) => String::from_str("Can't remove file. ").concat(
                e.as_str(),
            ),
        }
    }
}

/// The access modes a catalog or download file is opened with.
pub enum FilePermissions {
    Read,
    Write,
    WriteTruncate,
    Append,
}

/// The open flags that a set of permissions asks of the storage
/// collaborator.
pub struct OpenFlags {
    pub read: bool,
    pub write: bool,
    pub truncate: bool,
    pub append: bool,
}

pub open spec fn has_permission(ps: Seq<FilePermissions>, p: FilePermissions) -> bool {
    exists|i: int| 0 <= i < ps.len() && ps[i] == p
}

/// Names one file in one directory, and how it is to be opened. The open
/// itself belongs to the storage collaborator; this type fixes the path
/// and the flags it must use.
pub struct FileSystem {
    pub directory: String,
    pub file_name: String,
    pub permissions: Vec<FilePermissions>,
}

impl FileSystem {
    pub fn new(directory: String, file_name: String, permissions: Vec<FilePermissions>) -> (r:
        Self)
        ensures
            r.directory@ == directory@,
            r.file_name@ == file_name@,
            r.permissions@ == permissions@,
    {
        Self { directory, file_name, permissions }
    }

    /// The path of the file: the directory and the name, joined with a
    /// slash.
    pub fn path(&self) -> (r: String)
        ensures
            r@ == self.directory@ + "/"@ + self.file_name@,
    {
        let r = self.directory.clone().concat("/").concat(self.file_name.as_str());
        r
    }

    /// The open flags the permission list asks for: each flag exactly when
    /// its permission is present, with `WriteTruncate` granting write and
    /// truncate together.
    pub fn open_flags(&self) -> (r: OpenFlags)
        ensures
            r.read == has_permission(self.permissions@, FilePermissions::Read),
            r.write == (has_permission(self.permissions@, FilePermissions::Write)
                || has_permission(self.permissions@, FilePermissions::WriteTruncate)),
            r.truncate == has_permission(self.permissions@, FilePermissions::WriteTruncate),
            r.append == has_permission(self.permissions@, FilePermissions::Append),
    {
        let mut flags = OpenFlags { read: false, write: false, truncate: false, append: false };
        let mut i: usize = 0;
        while i < self.permissions.len()
            invariant
                0 <= i <= self.permissions@.len(),
                flags.read == has_permission(self.permissions@.take(i as int), FilePermissions::Read),
                flags.write == (has_permission(self.permissions@.take(i as int), FilePermissions::Write)
                    || has_permission(self.permissions@.take(i as int), FilePermissions::WriteTruncate)),
                flags.truncate == has_permission(self.permissions@.take(i as int), FilePermissions::WriteTruncate),
                flags.append == has_permission(self.permissions@.take(i as int), FilePermissions::Append),
            decreases self.permissions@.len() - i,
        {
            let ghost ps = self.permissions@;
            proof {
                assert(ps.take(i + 1).drop_last() =~= ps.take(i as int));
                assert(ps.take(i + 1).last() == ps[i as int]);
                assert forall|p: FilePermissions|
                    has_permission(ps.take(i + 1), p) == (has_permission(ps.take(i as int), p)
                        || ps[i as int] == p) by {
                    if has_permission(ps.take(i + 1), p) {
                        let j = choose|j: int| 0 <= j < i + 1 && (#[trigger] ps.take(i + 1)[j])
                            == p;
                        if j < i {
                            assert(ps.take(i as int)[j] == p);
                            assert(has_permission(ps.take(i as int), p));
                        }
                    }
                    if has_permission(ps.take(i as int), p) {
                        let j = choose|j: int| 0 <= j < i && (#[trigger] ps.take(i as int)[j])
                            == p;
                        assert(ps.take(i + 1)[j] == p);
                        assert(has_permission(ps.take(i + 1), p));
                    }
                    if ps[i as int] == p {
                        assert(ps.take(i + 1)[i as int] == p);
                        assert(has_permission(ps.take(i + 1), p));
                    }
                }
            }
            match self.permissions[i] {
                FilePermissions::Read => {
                    flags.read = true;
                },
                FilePermissions::Write => {
                    flags.write = true;
                },
                FilePermissions::WriteTruncate => {
                    flags.write = true;
                    flags.truncate = true;
                },
                FilePermissions::Append => {
                    flags.append = true;
                },
            }
            i += 1;
        }
        assert(self.permissions@.take(self.permissions@.len() as int) =~= self.permissions@);
        flags
    }
}

} // verus!
