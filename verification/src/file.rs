//! Open files: the table of open files and the operations on paths and
//! open files. An operation that changes the volume is one transaction; a
//! read changes nothing and needs none.

use vstd::prelude::*;
use vstd::string::StringSliceAdditionalSpecFns;
use crate::filesystem::Filesystem;
use crate::fs::{BlockDevice, FileType, FsError, NFILE};
use crate::inode::{
    create, create_spec, dinode_at, find_inode, find_inode_spec, read_dinode, release,
    release_spec, rinode, rinode_spec, unlink, unlink_spec, winode, winode_spec, Inode, InodePtr,
};
use crate::log::same_outside_log;
use crate::superblock::SuperBlock;
use crate::volume::{VolState, Volume};

verus! {

/// What a slot of the table of open files holds: nothing, or a file that is
/// open on an inode.
#[derive(Debug, Copy, Clone, PartialEq, Eq, Structural)]
pub enum FDType {
    Free,
    INODE,
}

impl Default for FDType {
    fn default() -> (t: FDType)
        ensures
            t == FDType::Free,
    {
        FDType::Free
    }
}

/// A slot of the table of open files.
#[derive(Debug)]
pub struct FileInner {
    pub ty: FDType,
    pub readable: bool,
    pub writable: bool,
    /// Where the next read or write starts.
    pub offset: u32,
    /// The path by which the file was opened.
    pub path: Vec<u8>,
    /// The handle on the inode, while the slot is in use.
    pub ip: Option<InodePtr>,
    /// The number of handles on the open file that are held.
    pub refs: u32,
}

impl FileInner {
    /// A slot that is not in use.
    pub fn new() -> (f: FileInner)
        ensures
            f.ty == FDType::Free,
            f.refs == 0,
            f.ip is None,
            f.offset == 0,
            f.path@.len() == 0,
            !f.readable,
            !f.writable,
    {
        FileInner {
            ty: FDType::Free,
            readable: false,
            writable: false,
            offset: 0,
            path: Vec::new(),
            ip: None,
            refs: 0,
        }
    }
}

/// A handle on an open file: the slot of the table.
#[derive(Debug, Clone, Copy, PartialEq, Eq, Structural)]
pub struct OpenFile(pub usize);

impl Default for OpenFile {
    fn default() -> (f: OpenFile)
        ensures
            f.0 == usize::MAX,
    {
        OpenFile(usize::MAX)
    }
}

/// The table of open files.
pub struct FileTable {
    pub files: Vec<FileInner>,
}

impl FileTable {
    /// A slot that is in use is held and has a handle on its inode; one
    /// that is not in use is held by nobody.
    pub open spec fn wf(&self) -> bool {
        forall|i: int|
            0 <= i < self.files@.len() ==> ((#[trigger] self.files@[i]).ty == FDType::INODE
                <==> self.files@[i].refs > 0) && (self.files@[i].ty == FDType::INODE
                ==> self.files@[i].ip is Some)
    }

    /// Every slot is in use.
    pub open spec fn full(&self) -> bool {
        forall|j: int| 0 <= j < self.files@.len() ==> (#[trigger] self.files@[j]).refs > 0
    }

    /// The handle is valid.
    pub open spec fn holds(&self, f: OpenFile) -> bool {
        f.0 < self.files@.len() && self.files@[f.0 as int].refs > 0
    }

    /// A table of `NFILE` slots that are not in use.
    pub fn new() -> (t: FileTable)
        ensures
            t.wf(),
            t.files@.len() == NFILE,
            forall|i: int|
                0 <= i < NFILE ==> (#[trigger] t.files@[i]).ty == FDType::Free && t.files@[i].refs
                    == 0 && t.files@[i].ip is None && t.files@[i].offset == 0
                    && t.files@[i].path@.len() == 0 && !t.files@[i].readable
                    && !t.files@[i].writable,
    {
        let mut files: Vec<FileInner> = Vec::new();
        let mut i: u32 = 0;
        while i < NFILE
            invariant
                i <= NFILE,
                files@.len() == i,
                forall|j: int|
                    0 <= j < i ==> (#[trigger] files@[j]).ty == FDType::Free && files@[j].refs
                        == 0 && files@[j].ip is None && files@[j].offset == 0
                        && files@[j].path@.len() == 0 && !files@[j].readable
                        && !files@[j].writable,
            decreases NFILE - i,
        {
            files.push(FileInner::new());
            i = i + 1;
        }
        FileTable { files }
    }

    /// The first slot that is not in use, if there is one.
    pub fn find_free(&self) -> (r: Option<usize>)
        ensures
            r matches Some(i) ==> i < self.files@.len() && self.files@[i as int].refs == 0 && forall|
                j: int,
            |
                0 <= j < i ==> (#[trigger] self.files@[j]).refs > 0,
            r is None ==> forall|j: int|
                0 <= j < self.files@.len() ==> (#[trigger] self.files@[j]).refs > 0,
    {
        let n = self.files.len();
        let mut i: usize = 0;
        while i < n
            invariant
                i <= n,
                n == self.files@.len(),
                forall|j: int| 0 <= j < i ==> (#[trigger] self.files@[j]).refs > 0,
            decreases n - i,
        {
            if self.files[i].refs == 0 {
                return Some(i);
            }
            i = i + 1;
        }
        None
    }

    /// Whether the handle is valid.
    pub fn is_held(&self, f: OpenFile) -> (r: bool)
        ensures
            r == self.holds(f),
    {
        f.0 < self.files.len() && self.files[f.0].refs > 0
    }
}

/// What `filestat` tells of an open file.
#[derive(Debug, Clone, Copy, PartialEq, Eq, Structural)]
pub struct Stat {
    /// Always 0.
    pub dev: u32,
    /// The number of the inode.
    pub ino: u32,
    pub ty: FileType,
    /// The number of directory entries that name the inode.
    pub nlink: u32,
    pub size: u32,
}

/// How a file is opened: for reading, for writing, for both, to be made if
/// it is not there, or to lose what it holds.
#[derive(Debug, Clone, Copy, PartialEq, Eq, Structural)]
pub enum OpenMode {
    ORdonly,
    OWronly,
    ORdwr,
    OCreate,
    OTrunc,
}

/// How the volume `new` comes out of an operation that began on the volume
/// `old`, worked inside a transaction, and left the state `x` when it
/// ended the transaction. If the operation was part of a transaction that
/// was open already, nothing is committed: the volume is in state `x`. If
/// it was a transaction of its own, it is committed: the device holds
/// what a reader sees, which outside the log is what `x` holds, and the
/// log is empty again.
pub open spec fn after_txn<D: BlockDevice>(old: &Volume<D>, x: VolState, new: &Volume<D>) -> bool {
    &&& new.sb == old.sb
    &&& new.log.0.outstanding == old.log.0.outstanding
    &&& if old.in_txn() {
        new.state() == x && new.durable() == old.durable()
    } else {
        &&& new.durable() == new.image()
        &&& new.room() == old.sb.nlog - 1
        &&& same_outside_log(new.image(), x.image, old.sb.logstart as int, old.sb.nlog as int)
    }
}

/// Whether two paths are the same bytes.
pub fn same_path(a: &Vec<u8>, b: &[u8]) -> (r: bool)
    ensures
        r == (a@ == b@),
{
    if a.len() != b.len() {
        return false;
    }
    let n = a.len();
    let mut i: usize = 0;
    while i < n
        invariant
            i <= n,
            n == a@.len(),
            n == b@.len(),
            forall|j: int| 0 <= j < i ==> a@[j] == b@[j],
        decreases n - i,
    {
        if a[i] != b[i] {
            return false;
        }
        i = i + 1;
    }
    assert(a@ =~= b@);
    true
}

/// A copy of the bytes.
pub fn copy_of(b: &[u8]) -> (v: Vec<u8>)
    ensures
        v@ == b@,
{
    let mut v: Vec<u8> = Vec::new();
    let n = b.len();
    let mut i: usize = 0;
    while i < n
        invariant
            i <= n,
            n == b@.len(),
            v@ == b@.take(i as int),
        decreases n - i,
    {
        v.push(b[i]);
        proof {
            assert(b@.take(i as int).push(b@[i as int]) =~= b@.take(i + 1));
        }
        i = i + 1;
    }
    assert(b@.take(n as int) =~= b@);
    v
}

impl FileTable {
    /// Slot `i` is the first slot in use that was opened by the path.
    pub open spec fn opened_at(&self, path: Seq<u8>, i: int) -> bool {
        &&& 0 <= i < self.files@.len()
        &&& self.files@[i].refs > 0
        &&& self.files@[i].path@ == path
        &&& forall|j: int|
            0 <= j < i ==> !((#[trigger] self.files@[j]).refs > 0 && self.files@[j].path@ == path)
    }

    /// The first slot in use that was opened by the path, if there is one.
    pub fn find_path(&self, path: &[u8]) -> (r: Option<usize>)
        ensures
            r matches Some(i) ==> self.opened_at(path@, i as int),
            r is None ==> forall|j: int|
                0 <= j < self.files@.len() ==> !((#[trigger] self.files@[j]).refs > 0
                    && self.files@[j].path@ == path@),
    {
        let n = self.files.len();
        let mut i: usize = 0;
        while i < n
            invariant
                i <= n,
                n == self.files@.len(),
                forall|j: int|
                    0 <= j < i ==> !((#[trigger] self.files@[j]).refs > 0 && self.files@[j].path@
                        == path@),
            decreases n - i,
        {
            if self.files[i].refs > 0 && same_path(&self.files[i].path, path) {
                return Some(i);
            }
            i = i + 1;
        }
        None
    }
}

/// A slot of the table of open files that is not in use, if there is one.
/// The slot stays free until a file is opened.
pub fn filealloc<D: BlockDevice>(fs: &Filesystem<D>) -> (r: Option<OpenFile>)
    ensures
        r matches Some(f) ==> f.0 < fs.files.files@.len() && fs.files.files@[f.0 as int].refs
            == 0 && forall|j: int| 0 <= j < f.0 ==> (#[trigger] fs.files.files@[j]).refs > 0,
        r is None ==> forall|j: int|
            0 <= j < fs.files.files@.len() ==> (#[trigger] fs.files.files@[j]).refs > 0,
{
    match fs.files.find_free() {
        Some(i) => Some(OpenFile(i)),
        None => None,
    }
}

/// Whether a file opened in the mode can be read.
pub open spec fn mode_reads(m: OpenMode) -> bool {
    m == OpenMode::ORdonly || m == OpenMode::ORdwr
}

/// Whether a file opened in the mode can be written.
pub open spec fn mode_writes(m: OpenMode) -> bool {
    m == OpenMode::OWronly || m == OpenMode::ORdwr
}

/// What finding or making the inode for an open does inside the
/// transaction. In the creating mode the path is created as a file; else
/// it has to name an inode in use, and a directory can only be opened for
/// reading. In the truncating mode the inode loses its contents.
pub open spec fn open_inode_spec(
    st: VolState,
    s: Seq<Inode>,
    sb: SuperBlock,
    path: Seq<u8>,
    omod: OpenMode,
) -> (VolState, Seq<Inode>, Result<InodePtr, FsError>) {
    if omod == OpenMode::OCreate {
        create_spec(st, s, sb, path, FileType::File)
    } else {
        let (s1, r1) = find_inode_spec(st, s, sb, path);
        match r1 {
            Err(e) => (st, s1, Err(e)),
            Ok(ip) => {
                let d = dinode_at(st.image, sb, ip.inum as int);
                if d.ftype == 0 {
                    let (st2, s2, r2) = release_spec(st, s1, sb, ip);
                    (st2, s2, Err(FsError::NotFound))
                } else if omod != OpenMode::ORdonly && d.ftype == 2 {
                    let (st2, s2, r2) = release_spec(st, s1, sb, ip);
                    (st2, s2, Err(FsError::IsADirectory))
                } else if omod == OpenMode::OTrunc {
                    let (st2, r2) = crate::inode::drop_contents_spec(st, sb, ip.inum, d);
                    match r2 {
                        Ok(_) => (st2, s1, Ok(ip)),
                        Err(e) => {
                            let (st3, s3, r3) = release_spec(st2, s1, sb, ip);
                            (st3, s3, Err(e))
                        },
                    }
                } else {
                    (st, s1, Ok(ip))
                }
            },
        }
    }
}

/// Finds or makes the inode for an open; see `open_inode_spec`.
fn open_inode<D: BlockDevice>(fs: &mut Filesystem<D>, path: &str, omod: OpenMode) -> (r: Result<
    InodePtr,
    FsError,
>)
    requires
        old(fs).inv(),
        old(fs).vol.in_txn(),
    ensures
        final(fs).inv(),
        final(fs).vol.stays(&old(fs).vol),
        final(fs).files == old(fs).files,
        (final(fs).vol.state(), final(fs).inodes.slots@, r) == open_inode_spec(
            old(fs).vol.state(),
            old(fs).inodes.slots@,
            old(fs).vol.sb,
            path.spec_bytes(),
            omod,
        ),
        r matches Ok(ip) ==> final(fs).inodes.holds(ip),
{
    let ghost v0 = fs.vol;
    match omod {
        OpenMode::OCreate => {
            return create(fs, path, FileType::File);
        },
        _ => {},
    }
    let ip = match find_inode(fs, path) {
        Err(e) => {
            return Err(e);
        },
        Ok(ip) => ip,
    };
    let ghost v1 = fs.vol;
    let d = read_dinode(&mut fs.vol, ip.inum);
    let ghost v2 = fs.vol;
    proof {
        fs.vol.lemma_stays_trans(&v1, &v0);
    }
    if d.ftype == 0 {
        let _r = release(fs, ip);
        proof {
            fs.vol.lemma_stays_trans(&v2, &v0);
        }
        return Err(FsError::NotFound);
    }
    let read_only = match omod {
        OpenMode::ORdonly => true,
        _ => false,
    };
    if !read_only && d.ftype == 2 {
        let _r = release(fs, ip);
        proof {
            fs.vol.lemma_stays_trans(&v2, &v0);
        }
        return Err(FsError::IsADirectory);
    }
    match omod {
        OpenMode::OTrunc => {
            let r2 = crate::inode::drop_contents(&mut fs.vol, ip.inum, d);
            let ghost v3 = fs.vol;
            proof {
                fs.vol.lemma_stays_trans(&v2, &v0);
            }
            match r2 {
                Ok(()) => Ok(ip),
                Err(e) => {
                    let _r = release(fs, ip);
                    proof {
                        fs.vol.lemma_stays_trans(&v3, &v0);
                    }
                    Err(e)
                },
            }
        },
        _ => Ok(ip),
    }
}

/// What opening a path gives where slot `i` holds a file that was opened
/// by the same path: one more handle on that open file. A directory is
/// shared for reading only, and a file that is open as often as can be
/// counted is not shared.
pub open spec fn share_spec<D: BlockDevice>(fs: &Filesystem<D>, i: int, omod: OpenMode) -> Result<
    OpenFile,
    FsError,
> {
    let f = OpenFile(i as usize);
    if omod != OpenMode::ORdonly && !fs.file_ok(f) {
        Err(FsError::BadHandle)
    } else if omod != OpenMode::ORdonly && dinode_at(
        fs.vol.image(),
        fs.vol.sb,
        fs.file_inode(f).inum as int,
    ).ftype == 2 {
        Err(FsError::IsADirectory)
    } else if fs.files.files@[i].refs == u32::MAX {
        Err(FsError::TableFull)
    } else {
        Ok(f)
    }
}

/// The two tables differ in the number of handles on slot `i` at most.
pub open spec fn only_refs_moved(old: &FileTable, new: &FileTable, i: int) -> bool {
    &&& new.files@.len() == old.files@.len()
    &&& forall|j: int| 0 <= j < old.files@.len() && j != i ==> new.files@[j] == old.files@[j]
    &&& new.files@[i].ty == old.files@[i].ty
    &&& new.files@[i].readable == old.files@[i].readable
    &&& new.files@[i].writable == old.files@[i].writable
    &&& new.files@[i].offset == old.files@[i].offset
    &&& new.files@[i].path == old.files@[i].path
    &&& new.files@[i].ip == old.files@[i].ip
}

/// Opens the path. If a file that was opened by the same path is open,
/// the call gives out one more handle on it, as it is: see `share_spec`.
/// Else it finds or makes the inode in a transaction, see
/// `open_inode_spec`, and takes the first slot of the table that is not
/// in use.
pub fn fileopen<D: BlockDevice>(fs: &mut Filesystem<D>, path: &str, omod: OpenMode) -> (r: Result<
    OpenFile,
    FsError,
>)
    requires
        old(fs).inv(),
    ensures
        final(fs).inv(),
        final(fs).vol.sb == old(fs).vol.sb,
        final(fs).vol.log.0.outstanding == old(fs).vol.log.0.outstanding,
        final(fs).files.files@.len() == old(fs).files.files@.len(),
        r matches Ok(f) ==> final(fs).files.holds(f),
        // one more handle on a file that is open
        (exists|i: int| old(fs).files.opened_at(path.spec_bytes(), i)) ==> ({
            let i = choose|i: int| old(fs).files.opened_at(path.spec_bytes(), i);
            &&& final(fs).vol.stays(&old(fs).vol)
            &&& final(fs).vol.state() == old(fs).vol.state()
            &&& final(fs).inodes == old(fs).inodes
            &&& r == share_spec(old(fs), i, omod)
            &&& r is Err ==> final(fs).files == old(fs).files
            &&& r is Ok ==> final(fs).files.files@[i].refs == old(fs).files.files@[i].refs + 1
                && only_refs_moved(&old(fs).files, &final(fs).files, i)
        }),
        // a new open file
        !(exists|i: int| old(fs).files.opened_at(path.spec_bytes(), i)) ==> ({
            let x = open_inode_spec(
                old(fs).vol.state(),
                old(fs).inodes.slots@,
                old(fs).vol.sb,
                path.spec_bytes(),
                omod,
            );
            let full = old(fs).files.full();
            &&& full ==> r == Err::<OpenFile, FsError>(FsError::TableFull) && final(fs).vol
                == old(fs).vol && final(fs).inodes == old(fs).inodes && final(fs).files == old(
                fs,
            ).files
            &&& !full && !old(fs).vol.log.admits() ==> r == Err::<OpenFile, FsError>(
                FsError::Busy,
            ) && final(fs).vol.state() == old(fs).vol.state() && final(fs).inodes == old(
                fs,
            ).inodes && final(fs).files == old(fs).files
            &&& !full && old(fs).vol.log.admits() ==> ({
                &&& after_txn(&old(fs).vol, x.0, &final(fs).vol)
                &&& final(fs).inodes.slots@ == x.1
                &&& x.2 matches Err(e) ==> r == Err::<OpenFile, FsError>(e) && final(fs).files
                    == old(fs).files
                &&& x.2 matches Ok(ip) ==> r matches Ok(f) && ({
                    let slot = final(fs).files.files@[f.0 as int];
                    &&& old(fs).files.files@[f.0 as int].refs == 0
                    &&& slot.ty == FDType::INODE
                    &&& slot.refs == 1
                    &&& slot.offset == 0
                    &&& slot.ip == Some(ip)
                    &&& slot.path@ == path.spec_bytes()
                    &&& slot.readable == mode_reads(omod)
                    &&& slot.writable == mode_writes(omod)
                    &&& forall|j: int|
                        0 <= j < final(fs).files.files@.len() && j != f.0 ==> final(fs).files.files@[j] == old(fs).files.files@[j]
                })
            })
        }),
{
    let bytes = path.as_bytes();
    match fs.files.find_path(bytes) {
        Some(i) => {
            proof {
                let c = choose|c: int| old(fs).files.opened_at(path.spec_bytes(), c);
                assert(old(fs).files.opened_at(path.spec_bytes(), i as int));
                if c < i {
                    assert(!(old(fs).files.files@[c].refs > 0 && old(fs).files.files@[c].path@
                        == path.spec_bytes()));
                } else if i < c {
                    assert(!(old(fs).files.files@[i as int].refs > 0 && old(
                        fs,
                    ).files.files@[i as int].path@ == path.spec_bytes()));
                }
            }
            proof {
                fs.vol.lemma_stays_refl();
            }
            let wr = match omod {
                OpenMode::ORdonly => false,
                _ => true,
            };
            if wr {
                let ip = match fs.inode_of(&OpenFile(i)) {
                    None => {
                        return Err(FsError::BadHandle);
                    },
                    Some(ip) => ip,
                };
                let d = read_dinode(&mut fs.vol, ip.inum);
                if d.ftype == 2 {
                    return Err(FsError::IsADirectory);
                }
            }
            if fs.files.files[i].refs == u32::MAX {
                return Err(FsError::TableFull);
            }
            fs.files.files[i].refs = fs.files.files[i].refs + 1;
            proof {
                assert forall|j: int| 0 <= j < fs.files.files@.len() implies ((
                #[trigger] fs.files.files@[j]).ty == FDType::INODE <==> fs.files.files@[j].refs
                    > 0) && (fs.files.files@[j].ty == FDType::INODE ==> fs.files.files@[j].ip
                    is Some) by {
                    assert(old(fs).files.files@[j].refs > 0 <==> old(fs).files.files@[j].ty
                        == FDType::INODE);
                }
            }
            return Ok(OpenFile(i));
        },
        None => {},
    }
    proof {
        assert(!(exists|i: int| old(fs).files.opened_at(path.spec_bytes(), i))) by {
            if exists|i: int| old(fs).files.opened_at(path.spec_bytes(), i) {
                let c = choose|c: int| old(fs).files.opened_at(path.spec_bytes(), c);
                assert(!(old(fs).files.files@[c].refs > 0 && old(fs).files.files@[c].path@
                    == path.spec_bytes()));
            }
        }
    }
    let slot = match fs.files.find_free() {
        None => {
            return Err(FsError::TableFull);
        },
        Some(slot) => slot,
    };
    if !fs.vol.log_begin() {
        return Err(FsError::Busy);
    }
    let got = open_inode(fs, path, omod);
    fs.vol.log_end();
    match got {
        Err(e) => Err(e),
        Ok(ip) => {
            let readable = match omod {
                OpenMode::ORdonly => true,
                OpenMode::ORdwr => true,
                _ => false,
            };
            let writable = match omod {
                OpenMode::OWronly => true,
                OpenMode::ORdwr => true,
                _ => false,
            };
            let inner = FileInner {
                ty: FDType::INODE,
                readable,
                writable,
                offset: 0,
                path: copy_of(bytes),
                ip: Some(ip),
                refs: 1,
            };
            fs.files.files[slot] = inner;
            proof {
                assert forall|j: int| 0 <= j < fs.files.files@.len() implies ((
                #[trigger] fs.files.files@[j]).ty == FDType::INODE <==> fs.files.files@[j].refs
                    > 0) && (fs.files.files@[j].ty == FDType::INODE ==> fs.files.files@[j].ip
                    is Some) by {
                    if j != slot {
                        assert(old(fs).files.files@[j].refs > 0 <==> old(fs).files.files@[j].ty
                            == FDType::INODE);
                    }
                }
            }
            Ok(OpenFile(slot))
        },
    }
}

impl<D: BlockDevice> Filesystem<D> {
    /// The handle on an open file is valid, and so is the open file's
    /// handle on its inode.
    pub open spec fn file_ok(&self, f: OpenFile) -> bool {
        &&& self.files.holds(f)
        &&& self.files.files@[f.0 as int].ip matches Some(ip)
        &&& self.inodes.holds(ip)
    }

    /// The handle that the open file has on its inode.
    pub open spec fn file_inode(&self, f: OpenFile) -> InodePtr {
        self.files.files@[f.0 as int].ip->0
    }

    /// The open file's handle on its inode, if both handles are valid.
    pub fn inode_of(&self, f: &OpenFile) -> (r: Option<InodePtr>)
        ensures
            r is Some <==> self.file_ok(*f),
            r matches Some(ip) ==> ip == self.file_inode(*f),
    {
        if !self.files.is_held(*f) {
            return None;
        }
        match self.files.files[f.0].ip {
            None => None,
            Some(ip) => if self.inodes.is_held(ip) {
                Some(ip)
            } else {
                None
            },
        }
    }
}

/// The offset of an open file after `n` bytes were moved at `offset`.
pub open spec fn advanced(offset: u32, n: usize) -> u32 {
    if offset + n <= u32::MAX {
        (offset + n) as u32
    } else {
        u32::MAX
    }
}

/// The offset after `n` bytes were moved at `offset`; see `advanced`.
fn advance(offset: u32, n: usize) -> (r: u32)
    ensures
        r == advanced(offset, n),
{
    if n <= (u32::MAX - offset) as usize {
        offset + n as u32
    } else {
        u32::MAX
    }
}

/// Every slot of the table but that of `f` is as it was, and the slot of
/// `f` differs in its offset at most.
pub open spec fn only_offset_moved(old: &FileTable, new: &FileTable, f: OpenFile) -> bool {
    &&& new.files@.len() == old.files@.len()
    &&& forall|j: int| 0 <= j < old.files@.len() && j != f.0 ==> new.files@[j] == old.files@[j]
    &&& new.files@[f.0 as int].ty == old.files@[f.0 as int].ty
    &&& new.files@[f.0 as int].refs == old.files@[f.0 as int].refs
    &&& new.files@[f.0 as int].ip == old.files@[f.0 as int].ip
    &&& new.files@[f.0 as int].path == old.files@[f.0 as int].path
    &&& new.files@[f.0 as int].readable == old.files@[f.0 as int].readable
    &&& new.files@[f.0 as int].writable == old.files@[f.0 as int].writable
}

/// Reads from the open file at its offset into `dst` and moves the offset
/// by the number of bytes read, which is returned; see `rinode_spec`.
/// Nothing on the volume changes.
pub fn fileread<D: BlockDevice>(fs: &mut Filesystem<D>, file: &OpenFile, dst: &mut [u8]) -> (r:
    Result<usize, FsError>)
    requires
        old(fs).inv(),
    ensures
        final(fs).inv(),
        final(fs).inodes == old(fs).inodes,
        final(fs).vol.stays(&old(fs).vol),
        final(fs).vol.state() == old(fs).vol.state(),
        final(dst)@.len() == old(dst)@.len(),
        !old(fs).file_ok(*file) ==> r == Err::<usize, FsError>(FsError::BadHandle) && *final(fs)
            == *old(fs) && final(dst)@ == old(dst)@,
        old(fs).file_ok(*file) ==> ({
            let x = rinode_spec(
                old(fs).vol.image(),
                old(fs).vol.sb,
                old(fs).file_inode(*file).inum,
                old(dst)@,
                old(fs).files.files@[file.0 as int].offset as int,
                old(dst)@.len() as int,
            );
            &&& final(dst)@ == x.0
            &&& r == x.1
            &&& only_offset_moved(&old(fs).files, &final(fs).files, *file)
            &&& final(fs).files.files@[file.0 as int].offset == (match r {
                Ok(n) => advanced(old(fs).files.files@[file.0 as int].offset, n),
                Err(_) => old(fs).files.files@[file.0 as int].offset,
            })
        }),
{
    let ip = match fs.inode_of(file) {
        None => {
            proof {
                fs.vol.lemma_stays_refl();
            }
            return Err(FsError::BadHandle);
        },
        Some(ip) => ip,
    };
    let offset = fs.files.files[file.0].offset;
    let n = dst.len();
    let r = rinode(fs, &ip, dst, offset as usize, n);
    match r {
        Ok(k) => {
            fs.files.files[file.0].offset = advance(offset, k);
            proof {
                lemma_files_wf_kept(&old(fs).files, &fs.files, *file);
            }
        },
        Err(_) => {},
    }
    r
}

/// A table in which only the offset of one slot moved is in order if it
/// was.
pub proof fn lemma_files_wf_kept(old: &FileTable, new: &FileTable, f: OpenFile)
    requires
        old.wf(),
        only_offset_moved(old, new, f),
        f.0 < old.files@.len(),
    ensures
        new.wf(),
{
    assert forall|i: int| 0 <= i < new.files@.len() implies ((#[trigger] new.files@[i]).ty
        == FDType::INODE <==> new.files@[i].refs > 0) && (new.files@[i].ty == FDType::INODE
        ==> new.files@[i].ip is Some) by {
        assert(old.files@[i].ty == FDType::INODE <==> old.files@[i].refs > 0);
    }
}

/// Writes `src` to the open file at its offset, in a transaction, and
/// moves the offset by the number of bytes written, which is returned;
/// see `winode_spec`. The number is smaller than the length of `src`
/// where the file, the volume or the transaction has no room for more.
pub fn filewrite<D: BlockDevice>(fs: &mut Filesystem<D>, file: &OpenFile, src: &[u8]) -> (r: Result<
    usize,
    FsError,
>)
    requires
        old(fs).inv(),
    ensures
        final(fs).inv(),
        final(fs).inodes == old(fs).inodes,
        !old(fs).file_ok(*file) ==> r == Err::<usize, FsError>(FsError::BadHandle) && *final(fs)
            == *old(fs),
        old(fs).file_ok(*file) && !old(fs).vol.log.admits() ==> r == Err::<usize, FsError>(
            FsError::Busy,
        ) && final(fs).vol.state() == old(fs).vol.state() && final(fs).files == old(fs).files,
        old(fs).file_ok(*file) && old(fs).vol.log.admits() ==> ({
            let x = winode_spec(
                old(fs).vol.state(),
                old(fs).vol.sb,
                old(fs).file_inode(*file).inum,
                src@,
                old(fs).files.files@[file.0 as int].offset as int,
                src@.len() as int,
            );
            &&& after_txn(&old(fs).vol, x.0, &final(fs).vol)
            &&& r == x.1
            &&& only_offset_moved(&old(fs).files, &final(fs).files, *file)
            &&& final(fs).files.files@[file.0 as int].offset == (match r {
                Ok(n) => advanced(old(fs).files.files@[file.0 as int].offset, n),
                Err(_) => old(fs).files.files@[file.0 as int].offset,
            })
        }),
{
    let ip = match fs.inode_of(file) {
        None => {
            return Err(FsError::BadHandle);
        },
        Some(ip) => ip,
    };
    if !fs.vol.log_begin() {
        return Err(FsError::Busy);
    }
    let offset = fs.files.files[file.0].offset;
    let r = winode(fs, &ip, src, offset as usize, src.len());
    fs.vol.log_end();
    match r {
        Ok(k) => {
            fs.files.files[file.0].offset = advance(offset, k);
            proof {
                lemma_files_wf_kept(&old(fs).files, &fs.files, *file);
            }
        },
        Err(_) => {},
    }
    r
}

/// The type, the link count and the size of the open file's inode.
pub fn filestat<D: BlockDevice>(fs: &mut Filesystem<D>, file: &OpenFile) -> (r: Result<Stat, FsError>)
    requires
        old(fs).inv(),
    ensures
        final(fs).inv(),
        final(fs).inodes == old(fs).inodes,
        final(fs).files == old(fs).files,
        final(fs).vol.stays(&old(fs).vol),
        final(fs).vol.state() == old(fs).vol.state(),
        !old(fs).file_ok(*file) ==> r == Err::<Stat, FsError>(FsError::BadHandle),
        old(fs).file_ok(*file) ==> ({
            let ino = old(fs).file_inode(*file).inum;
            let d = dinode_at(old(fs).vol.image(), old(fs).vol.sb, ino as int);
            &&& d.ftype > 2 ==> r == Err::<Stat, FsError>(FsError::Corrupt)
            &&& d.ftype <= 2 ==> (r matches Ok(st) && st.dev == 0 && st.ino == ino
                && st.ty.code() == d.ftype && st.nlink == d.nlink && st.size == d.size)
        }),
{
    let ip = match fs.inode_of(file) {
        None => {
            proof {
                fs.vol.lemma_stays_refl();
            }
            return Err(FsError::BadHandle);
        },
        Some(ip) => ip,
    };
    let d = read_dinode(&mut fs.vol, ip.inum);
    match FileType::from_u16(d.ftype) {
        None => Err(FsError::Corrupt),
        Some(ty) => Ok(Stat { dev: 0, ino: ip.inum, ty, nlink: d.nlink as u32, size: d.size }),
    }
}

/// Where a seek starts from: the start of the file.
pub const SEEK_SET: u32 = 0;

/// Where a seek starts from: the offset of the open file.
pub const SEEK_CUR: u32 = 1;

/// Where a seek starts from: the end of the file.
pub const SEEK_END: u32 = 2;

/// Moves the offset of the open file to `offset` bytes behind the start of
/// the file, the offset as it is, or the end of the file, as `whence`
/// says, and returns the new offset.
pub fn fileseek<D: BlockDevice>(fs: &mut Filesystem<D>, file: &OpenFile, offset: u32, whence: u32) -> (r:
    Result<u32, FsError>)
    requires
        old(fs).inv(),
    ensures
        final(fs).inv(),
        final(fs).inodes == old(fs).inodes,
        final(fs).vol.stays(&old(fs).vol),
        final(fs).vol.state() == old(fs).vol.state(),
        !old(fs).file_ok(*file) ==> r == Err::<u32, FsError>(FsError::BadHandle) && final(fs).files == old(fs).files,
        old(fs).file_ok(*file) ==> ({
            let slot = old(fs).files.files@[file.0 as int];
            let size = dinode_at(
                old(fs).vol.image(),
                old(fs).vol.sb,
                old(fs).file_inode(*file).inum as int,
            ).size;
            let base: int = if whence == SEEK_SET {
                0
            } else if whence == SEEK_CUR {
                slot.offset as int
            } else {
                size as int
            };
            &&& whence > SEEK_END || base + offset > u32::MAX ==> r == Err::<u32, FsError>(
                FsError::BadMode,
            ) && final(fs).files == old(fs).files
            &&& whence <= SEEK_END && base + offset <= u32::MAX ==> r == Ok::<u32, FsError>(
                (base + offset) as u32,
            ) && only_offset_moved(&old(fs).files, &final(fs).files, *file) && final(fs).files.files@[file.0 as int].offset == base + offset
        }),
{
    proof {
        fs.vol.lemma_stays_refl();
    }
    let ip = match fs.inode_of(file) {
        None => {
            return Err(FsError::BadHandle);
        },
        Some(ip) => ip,
    };
    let base: u32 = if whence == SEEK_SET {
        0
    } else if whence == SEEK_CUR {
        fs.files.files[file.0].offset
    } else if whence == SEEK_END {
        read_dinode(&mut fs.vol, ip.inum).size
    } else {
        return Err(FsError::BadMode);
    };
    if offset > u32::MAX - base {
        return Err(FsError::BadMode);
    }
    fs.files.files[file.0].offset = base + offset;
    proof {
        lemma_files_wf_kept(&old(fs).files, &fs.files, *file);
    }
    Ok(base + offset)
}

/// What making a directory does inside the transaction: the path is
/// created as a directory, and the handle that the creation gives out is
/// given back.
pub open spec fn mkdir_spec(st: VolState, s: Seq<Inode>, sb: SuperBlock, path: Seq<u8>) -> (
    VolState,
    Seq<Inode>,
    Result<(), FsError>,
) {
    let (s1, t1, r1) = create_spec(st, s, sb, path, FileType::Dir);
    match r1 {
        Err(e) => (s1, t1, Err(e)),
        Ok(ip) => release_spec(s1, t1, sb, ip),
    }
}

/// Makes the directory that the path names, in a transaction; see
/// `create_spec`.
pub fn mkdir<D: BlockDevice>(fs: &mut Filesystem<D>, path: &str) -> (r: Result<(), FsError>)
    requires
        old(fs).inv(),
    ensures
        final(fs).inv(),
        final(fs).files == old(fs).files,
        !old(fs).vol.log.admits() ==> r == Err::<(), FsError>(FsError::Busy) && final(fs).vol.state() == old(fs).vol.state() && final(fs).inodes == old(fs).inodes,
        old(fs).vol.log.admits() ==> ({
            let x = mkdir_spec(
                old(fs).vol.state(),
                old(fs).inodes.slots@,
                old(fs).vol.sb,
                path.spec_bytes(),
            );
            &&& after_txn(&old(fs).vol, x.0, &final(fs).vol)
            &&& final(fs).inodes.slots@ == x.1
            &&& r == x.2
        }),
{
    if !fs.vol.log_begin() {
        return Err(FsError::Busy);
    }
    let r = match create(fs, path, FileType::Dir) {
        Err(e) => Err(e),
        Ok(ip) => release(fs, ip),
    };
    fs.vol.log_end();
    r
}

/// Removes the name that the path ends in, in a transaction; see
/// `unlink_spec`.
pub fn fileunlink<D: BlockDevice>(fs: &mut Filesystem<D>, path: &str) -> (r: Result<(), FsError>)
    requires
        old(fs).inv(),
    ensures
        final(fs).inv(),
        final(fs).files == old(fs).files,
        !old(fs).vol.log.admits() ==> r == Err::<(), FsError>(FsError::Busy) && final(fs).vol.state() == old(fs).vol.state() && final(fs).inodes == old(fs).inodes,
        old(fs).vol.log.admits() ==> ({
            let x = unlink_spec(
                old(fs).vol.state(),
                old(fs).inodes.slots@,
                old(fs).vol.sb,
                path.spec_bytes(),
            );
            &&& after_txn(&old(fs).vol, x.0, &final(fs).vol)
            &&& final(fs).inodes.slots@ == x.1
            &&& r == x.2
        }),
{
    if !fs.vol.log_begin() {
        return Err(FsError::Busy);
    }
    let r = unlink(fs, path);
    fs.vol.log_end();
    r
}

/// Gives back a handle on an open file. The last handle to go closes the
/// file: its handle on the inode is given back in a transaction, see
/// `release_spec`, and its slot is free again.
pub fn fileclose<D: BlockDevice>(fs: &mut Filesystem<D>, file: OpenFile) -> (r: Result<(), FsError>)
    requires
        old(fs).inv(),
    ensures
        final(fs).inv(),
        final(fs).files.files@.len() == old(fs).files.files@.len(),
        !old(fs).files.holds(file) ==> r == Err::<(), FsError>(FsError::BadHandle) && *final(fs)
            == *old(fs),
        old(fs).files.holds(file) ==> ({
            let slot = old(fs).files.files@[file.0 as int];
            &&& forall|j: int|
                0 <= j < old(fs).files.files@.len() && j != file.0 ==> final(fs).files.files@[j] == old(fs).files.files@[j]
            &&& slot.refs > 1 ==> r == Ok::<(), FsError>(()) && final(fs).vol == old(fs).vol
                && final(fs).inodes == old(fs).inodes && final(fs).files.files@[file.0 as int].refs
                == slot.refs - 1
            &&& slot.refs == 1 && !old(fs).vol.log.admits() ==> r == Err::<(), FsError>(
                FsError::Busy,
            ) && final(fs).vol.state() == old(fs).vol.state() && final(fs).inodes == old(
                fs,
            ).inodes && final(fs).files == old(fs).files
            &&& slot.refs == 1 && old(fs).vol.log.admits() ==> final(fs).files.files@[file.0 as int].refs == 0 && (if old(fs).file_ok(file) {
                let x = release_spec(
                    old(fs).vol.state(),
                    old(fs).inodes.slots@,
                    old(fs).vol.sb,
                    old(fs).file_inode(file),
                );
                &&& after_txn(&old(fs).vol, x.0, &final(fs).vol)
                &&& final(fs).inodes.slots@ == x.1
                &&& r == x.2
            } else {
                &&& after_txn(&old(fs).vol, old(fs).vol.state(), &final(fs).vol)
                &&& final(fs).inodes == old(fs).inodes
                &&& r == Err::<(), FsError>(FsError::BadHandle)
            })
        }),
{
    if !fs.files.is_held(file) {
        return Err(FsError::BadHandle);
    }
    let refs = fs.files.files[file.0].refs;
    if refs > 1 {
        fs.files.files[file.0].refs = refs - 1;
        proof {
            assert forall|j: int| 0 <= j < fs.files.files@.len() implies ((
            #[trigger] fs.files.files@[j]).ty == FDType::INODE <==> fs.files.files@[j].refs > 0)
                && (fs.files.files@[j].ty == FDType::INODE ==> fs.files.files@[j].ip
                is Some) by {
                assert(old(fs).files.files@[j].refs > 0 <==> old(fs).files.files@[j].ty
                    == FDType::INODE);
            }
        }
        return Ok(());
    }
    let held = fs.inode_of(&file);
    if !fs.vol.log_begin() {
        return Err(FsError::Busy);
    }
    let r = match held {
        Some(ip) => release(fs, ip),
        None => Err(FsError::BadHandle),
    };
    fs.vol.log_end();
    fs.files.files[file.0] = FileInner::new();
    proof {
        assert forall|j: int| 0 <= j < fs.files.files@.len() implies ((
        #[trigger] fs.files.files@[j]).ty == FDType::INODE <==> fs.files.files@[j].refs > 0) && (
        fs.files.files@[j].ty == FDType::INODE ==> fs.files.files@[j].ip is Some) by {
            if j != file.0 {
                assert(old(fs).files.files@[j].refs > 0 <==> old(fs).files.files@[j].ty
                    == FDType::INODE);
            }
        }
    }
    r
}

} // verus!
