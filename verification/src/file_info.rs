//! What is known of each file of the root file system.
use vstd::prelude::*;

use crate::path_map::PathMap;

verus! {

/// A map from file paths to what is known of the files.
pub type FileMap = PathMap<FileInfo>;

/// The kind of an entry of the root file system.
#[derive(Debug, Clone, Copy, PartialEq, Eq, Structural)]
pub enum FileType {
    Directory,
    File,
    Symlink,
}

/// What the file system reports of the kind of an entry. At most one of the three
/// holds; none does for sockets, FIFOs and devices.
#[derive(Debug, Clone, Copy)]
pub struct EntryKind {
    pub is_dir: bool,
    pub is_file: bool,
    pub is_symlink: bool,
}

/// What the file system reports of an entry.
#[derive(Debug, Clone, Copy)]
pub struct Metadata {
    pub mode: u32,
    pub len: u64,
    pub uid: u32,
    pub gid: u32,
    /// The modification time in seconds, before the epoch where negative.
    pub mtime: i64,
    pub ino: u64,
    pub nlink: u64,
}

/// What is known of a file.
#[derive(Debug)]
pub struct FileInfo {
    pub file_type: FileType,
    pub mode: u32,
    pub size: u64,
    pub uid: u32,
    pub gid: u32,
    pub mtime: u64,
    pub ino: u64,
    pub nlink: u64,
    pub xattrs: Vec<(String, Vec<u8>)>,
}

/// The view of a [`FileInfo`].
pub struct FileFacts {
    pub file_type: FileType,
    pub mode: u32,
    pub size: u64,
    pub uid: u32,
    pub gid: u32,
    pub mtime: u64,
    pub ino: u64,
    pub nlink: u64,
    pub xattrs: Seq<(Seq<char>, Seq<u8>)>,
}

/// The names and values of extended attributes.
pub open spec fn xattr_views(xattrs: Seq<(String, Vec<u8>)>) -> Seq<(Seq<char>, Seq<u8>)> {
    xattrs.map_values(|x: (String, Vec<u8>)| (x.0@, x.1@))
}

impl View for FileInfo {
    type V = FileFacts;

    open spec fn view(&self) -> FileFacts {
        FileFacts {
            file_type: self.file_type,
            mode: self.mode,
            size: self.size,
            uid: self.uid,
            gid: self.gid,
            mtime: self.mtime,
            ino: self.ino,
            nlink: self.nlink,
            xattrs: xattr_views(self.xattrs@),
        }
    }
}

impl Clone for FileInfo {
    fn clone(&self) -> (r: Self)
        ensures
            r@ == self@,
    {
        let mut xattrs: Vec<(String, Vec<u8>)> = Vec::new();
        let mut i: usize = 0;
        while i < self.xattrs.len()
            invariant
                i <= self.xattrs@.len(),
                xattrs@.len() == i,
                forall|j: int|
                    0 <= j < i ==> (#[trigger] xattrs@[j]).0@ == self.xattrs@[j].0@ && xattrs@[j].1@
                        == self.xattrs@[j].1@,
            decreases self.xattrs@.len() - i,
        {
            let name: String = self.xattrs[i].0.clone();
            let mut value: Vec<u8> = Vec::new();
            let mut k: usize = 0;
            while k < self.xattrs[i as usize].1.len()
                invariant
                    i < self.xattrs@.len(),
                    k <= self.xattrs@[i as int].1@.len(),
                    value@ == self.xattrs@[i as int].1@.take(k as int),
                decreases self.xattrs@[i as int].1@.len() - k,
            {
                value.push(self.xattrs[i].1[k]);
                k += 1;
                assert(self.xattrs@[i as int].1@.take(k as int) =~= self.xattrs@[i as int].1@.take(
                    k - 1,
                ).push(self.xattrs@[i as int].1@[k - 1]));
            }
            assert(value@ =~= self.xattrs@[i as int].1@);
            xattrs.push((name, value));
            i += 1;
        }
        let r = FileInfo {
            file_type: self.file_type,
            mode: self.mode,
            size: self.size,
            uid: self.uid,
            gid: self.gid,
            mtime: self.mtime,
            ino: self.ino,
            nlink: self.nlink,
            xattrs,
        };
        assert(r@.xattrs =~= self@.xattrs);
        r
    }
}

impl FileType {
    /// The kind of an entry, or `None` for the kinds that are not supported
    /// (sockets, FIFOs, block and character devices).
    pub fn from_cap_std(file_type: &EntryKind) -> (r: Option<Self>)
        ensures
            r == if file_type.is_dir {
                Some(FileType::Directory)
            } else if file_type.is_file {
                Some(FileType::File)
            } else if file_type.is_symlink {
                Some(FileType::Symlink)
            } else {
                None
            },
    {
        if file_type.is_dir {
            Some(FileType::Directory)
        } else if file_type.is_file {
            Some(FileType::File)
        } else if file_type.is_symlink {
            Some(FileType::Symlink)
        } else {
            None
        }
    }
}

impl FileInfo {
    /// What is known of a file from its metadata and extended attributes. A
    /// modification time before the epoch is taken modulo 2^64.
    pub fn from_metadata(
        metadata: &Metadata,
        file_type: FileType,
        xattrs: Vec<(String, Vec<u8>)>,
    ) -> (r: Self)
        ensures
            r@ == (FileFacts {
                file_type,
                mode: metadata.mode,
                size: metadata.len,
                uid: metadata.uid,
                gid: metadata.gid,
                mtime: (if metadata.mtime >= 0 {
                    metadata.mtime as int
                } else {
                    metadata.mtime + 0x1_0000_0000_0000_0000
                }) as u64,
                ino: metadata.ino,
                nlink: metadata.nlink,
                xattrs: xattr_views(xattrs@),
            }),
    {
        let t: i64 = metadata.mtime;
        proof {
            assert(t < 0 ==> (#[verifier::truncate] (t as u64)) == t + 0x1_0000_0000_0000_0000)
                by (bit_vector);
        }
        FileInfo {
            file_type,
            mode: metadata.mode,
            size: metadata.len,
            uid: metadata.uid,
            gid: metadata.gid,
            mtime: #[verifier::truncate] (t as u64),
            ino: metadata.ino,
            nlink: metadata.nlink,
            xattrs,
        }
    }

    /// A file of the given kind of which nothing else is known.
    pub fn dummy(file_type: FileType) -> (r: Self)
        ensures
            r@ == (FileFacts {
                file_type,
                mode: 0,
                size: 0,
                uid: 0,
                gid: 0,
                mtime: 0,
                ino: 0,
                nlink: 1,
                xattrs: Seq::empty(),
            }),
    {
        let r = FileInfo {
            file_type,
            mode: 0,
            size: 0,
            uid: 0,
            gid: 0,
            mtime: 0,
            ino: 0,
            nlink: 1,
            xattrs: Vec::new(),
        };
        assert(r@.xattrs =~= Seq::<(Seq<char>, Seq<u8>)>::empty());
        r
    }
}

// ---------------------------------------------------------------------- laws

/// Each kind that is supported comes from an entry of that kind, and an entry of which the
/// file system reports none of them has no kind.
pub proof fn lemma_kind_reported(kind: &EntryKind, r: Option<FileType>)
    requires
        call_ensures(FileType::from_cap_std, (kind,), r),
    ensures
        r is None <==> !kind.is_dir && !kind.is_file && !kind.is_symlink,
        r == Some(FileType::Directory) ==> kind.is_dir,
        r == Some(FileType::File) ==> kind.is_file,
        r == Some(FileType::Symlink) ==> kind.is_symlink,
{
}

/// What is known of a file is what the file system reports of it. Its modification time is
/// the reported one up to a multiple of 2^64, and the reported one itself from the epoch on.
pub proof fn lemma_as_reported(
    metadata: &Metadata,
    file_type: FileType,
    xattrs: Vec<(String, Vec<u8>)>,
    r: FileInfo,
)
    requires
        call_ensures(FileInfo::from_metadata, (metadata, file_type, xattrs), r),
    ensures
        (r.mtime - metadata.mtime) % 0x1_0000_0000_0000_0000 == 0,
        metadata.mtime >= 0 ==> r.mtime == metadata.mtime,
        r.file_type == file_type,
        r.size == metadata.len,
        r.mode == metadata.mode && r.uid == metadata.uid && r.gid == metadata.gid,
        r.ino == metadata.ino && r.nlink == metadata.nlink,
        r@.xattrs.len() == xattrs@.len(),
        forall|i: int|
            0 <= i < xattrs@.len() ==> (#[trigger] r@.xattrs[i]).0 == xattrs@[i].0@
                && r@.xattrs[i].1 == xattrs@[i].1@,
{
    let facts = r@;
    assert(facts.mtime == r.mtime && facts.size == r.size);
    assert(facts.file_type == r.file_type);
    assert(facts.xattrs == xattr_views(xattrs@));
}

} // verus!
