//! What a shell on the filesystem decides: what a listing of a directory
//! shows, the words of a command line, and the command that they make.
//! Reading the line, printing and moving bytes from and to the host are
//! left to the program around the library.

use vstd::prelude::*;
use vstd::string::StringSliceAdditionalSpecFns;
use crate::dir::{count_entries, entry_at, entry_count, read_entry, resolve_spec};
use crate::file::{copy_of, same_path, Stat};
use crate::filesystem::Filesystem;
use crate::fs::{BlockDevice, FileType, FsError, Image};
use crate::inode::{dinode_at, max_bytes, read_dinode, resolve, DiskInode, DiskInodeView};
use crate::path::{canonical, canonicalize_bytes, join, joined, names_view, SEP};
use crate::superblock::SuperBlock;
use crate::volume::Volume;

verus! {

/// One line of a listing: a name and what the inode that it names is.
#[derive(Debug, PartialEq, Eq)]
pub struct DirItem {
    /// The name, without the zeros that pad it in the entry.
    pub name: Vec<u8>,
    pub stat: Stat,
}

/// A line of a listing as a value of mathematics.
pub struct DirItemView {
    pub name: Seq<u8>,
    pub stat: Stat,
}

impl View for DirItem {
    type V = DirItemView;

    open spec fn view(&self) -> DirItemView {
        DirItemView { name: self.name@, stat: self.stat }
    }
}

/// The lines as mathematics.
pub open spec fn items_view(v: Seq<DirItem>) -> Seq<DirItemView> {
    Seq::new(v.len(), |i: int| v[i]@)
}

/// The bytes without the zeros at their end.
pub open spec fn unpadded(s: Seq<u8>) -> Seq<u8>
    decreases s.len(),
{
    if s.len() > 0 && s.last() == 0 {
        unpadded(s.drop_last())
    } else {
        s
    }
}

/// The name that a name field holds; see `unpadded`.
pub fn trim_name(field: &[u8; 28]) -> (v: Vec<u8>)
    ensures
        v@ == unpadded(field@),
{
    let mut n: usize = 28;
    proof {
        assert(field@.take(28) =~= field@);
    }
    while n > 0 && field[n - 1] == 0
        invariant
            n <= 28,
            unpadded(field@) == unpadded(field@.take(n as int)),
        decreases n,
    {
        proof {
            assert(field@.take(n as int).drop_last() =~= field@.take(n - 1));
        }
        n = n - 1;
    }
    let mut v: Vec<u8> = Vec::new();
    let mut i: usize = 0;
    while i < n
        invariant
            i <= n <= 28,
            v@ == field@.take(i as int),
        decreases n - i,
    {
        v.push(field[i]);
        proof {
            assert(field@.take(i as int).push(field@[i as int]) =~= field@.take(i + 1));
        }
        i = i + 1;
    }
    v
}

/// The type with the code `c`, where `c` is the code of a type.
pub open spec fn type_with(c: u16) -> FileType {
    if c == 0 {
        FileType::Free
    } else if c == 1 {
        FileType::File
    } else {
        FileType::Dir
    }
}

/// What a listing shows of inode `inum`: its number, its type, the number
/// of entries that name it and its size. An error if it is no inode of the
/// volume or has no type.
pub open spec fn stat_of(img: Image, sb: SuperBlock, inum: u32) -> Result<Stat, FsError> {
    let d = dinode_at(img, sb, inum as int);
    if inum >= sb.ninodes || d.ftype > 2 {
        Err(FsError::Corrupt)
    } else {
        Ok(Stat { dev: 0, ino: inum, ty: type_with(d.ftype), nlink: d.nlink as u32, size: d.size })
    }
}

/// The line of a listing for entry `i` of a directory, or `None` if the
/// entry is not in use; an error if the entry, or the inode that it
/// names, cannot be read.
pub open spec fn line_at(img: Image, sb: SuperBlock, d: DiskInodeView, i: int) -> Result<
    Option<DirItemView>,
    FsError,
> {
    match entry_at(img, sb, d, i * 32) {
        Err(e) => Err(e),
        Ok(e) => if e.inum == 0 {
            Ok(None)
        } else {
            match stat_of(img, sb, e.inum) {
                Err(e2) => Err(e2),
                Ok(stat) => Ok(Some(DirItemView { name: unpadded(e.name), stat })),
            }
        },
    }
}

/// The listing of the first `k` entries of a directory: a line for each
/// entry in use, in the order of the entries; or the first error met in
/// reading an entry or the inode that it names.
pub open spec fn listing(img: Image, sb: SuperBlock, d: DiskInodeView, k: int) -> Result<
    Seq<DirItemView>,
    FsError,
>
    decreases k,
{
    if k <= 0 {
        Ok(Seq::empty())
    } else {
        match listing(img, sb, d, k - 1) {
            Err(e) => Err(e),
            Ok(lines) => match line_at(img, sb, d, k - 1) {
                Err(e) => Err(e),
                Ok(None) => Ok(lines),
                Ok(Some(line)) => Ok(lines.push(line)),
            },
        }
    }
}

/// The listing of the directory that the path names. The path has to name
/// a directory.
pub open spec fn list_dir_spec(img: Image, sb: SuperBlock, path: Seq<u8>) -> Result<
    Seq<DirItemView>,
    FsError,
> {
    match resolve_spec(img, sb, path) {
        Err(e) => Err(e),
        Ok(inum) => {
            let d = dinode_at(img, sb, inum as int);
            if d.ftype != 2 {
                Err(FsError::NotADirectory)
            } else {
                listing(img, sb, d, entry_count(d))
            }
        },
    }
}

/// The line of a listing for entry `i` of the directory with inode `d`;
/// see `line_at`.
pub fn list_entry<D: BlockDevice>(vol: &mut Volume<D>, d: &DiskInode, i: u32) -> (r: Result<
    Option<DirItem>,
    FsError,
>)
    requires
        old(vol).inv(),
        i * 32 <= max_bytes(),
    ensures
        final(vol).inv(),
        final(vol).stays(old(vol)),
        final(vol).state() == old(vol).state(),
        r matches Err(e) ==> line_at(old(vol).image(), old(vol).sb, d@, i as int) == Err::<
            Option<DirItemView>,
            FsError,
        >(e),
        r matches Ok(None) ==> line_at(old(vol).image(), old(vol).sb, d@, i as int) == Ok::<
            Option<DirItemView>,
            FsError,
        >(None),
        r matches Ok(Some(item)) ==> line_at(old(vol).image(), old(vol).sb, d@, i as int) == Ok::<
            Option<DirItemView>,
            FsError,
        >(Some(item@)),
{
    proof {
        assert(max_bytes() == 71680);
    }
    let e = match read_entry(vol, d, i * 32) {
        Err(e) => {
            return Err(e);
        },
        Ok(e) => e,
    };
    if e.inum == 0 {
        return Ok(None);
    }
    if e.inum >= vol.sb.ninodes {
        return Err(FsError::Corrupt);
    }
    let ghost v1 = *vol;
    let c = read_dinode(vol, e.inum);
    proof {
        vol.lemma_stays_trans(&v1, old(vol));
    }
    match FileType::from_u16(c.ftype) {
        None => Err(FsError::Corrupt),
        Some(ty) => {
            proof {
                assert(ty == type_with(c.ftype));
            }
            Ok(
                Some(
                    DirItem {
                        name: trim_name(&e.name),
                        stat: Stat { dev: 0, ino: e.inum, ty, nlink: c.nlink as u32, size: c.size },
                    },
                ),
            )
        },
    }
}

/// The listing of the directory with inode `d`; see `listing`.
pub fn list_entries<D: BlockDevice>(vol: &mut Volume<D>, d: &DiskInode) -> (r: Result<
    Vec<DirItem>,
    FsError,
>)
    requires
        old(vol).inv(),
    ensures
        final(vol).inv(),
        final(vol).stays(old(vol)),
        final(vol).state() == old(vol).state(),
        r matches Ok(v) ==> listing(old(vol).image(), old(vol).sb, d@, entry_count(d@)) == Ok::<
            Seq<DirItemView>,
            FsError,
        >(items_view(v@)),
        r matches Err(e) ==> listing(old(vol).image(), old(vol).sb, d@, entry_count(d@)) == Err::<
            Seq<DirItemView>,
            FsError,
        >(e),
{
    let ghost img = vol.image();
    let ghost sb = vol.sb;
    let n = count_entries(d);
    let mut out: Vec<DirItem> = Vec::new();
    let mut k: u32 = 0;
    proof {
        vol.lemma_stays_refl();
        assert(items_view(out@) =~= Seq::<DirItemView>::empty());
    }
    while k < n
        invariant
            k <= n,
            n == entry_count(d@),
            n * 32 <= max_bytes(),
            vol.inv(),
            vol.stays(old(vol)),
            vol.state() == old(vol).state(),
            img == old(vol).image(),
            sb == old(vol).sb,
            listing(img, sb, d@, k as int) == Ok::<Seq<DirItemView>, FsError>(items_view(out@)),
        decreases n - k,
    {
        let ghost va = *vol;
        let ghost before = items_view(out@);
        let line = list_entry(vol, d, k);
        proof {
            vol.lemma_stays_trans(&va, old(vol));
        }
        match line {
            Err(e) => {
                proof {
                    lemma_listing_fails(img, sb, d@, k as int + 1, n as int);
                }
                return Err(e);
            },
            Ok(None) => {},
            Ok(Some(item)) => {
                out.push(item);
                proof {
                    assert(items_view(out@) =~= before.push(item@));
                }
            },
        }
        k = k + 1;
    }
    Ok(out)
}

/// Lists the directory that the path names; see `list_dir_spec`. Nothing
/// changes.
pub fn list_dir<D: BlockDevice>(fs: &mut Filesystem<D>, path: &str) -> (r: Result<
    Vec<DirItem>,
    FsError,
>)
    requires
        old(fs).inv(),
    ensures
        final(fs).inv(),
        final(fs).vol.stays(&old(fs).vol),
        final(fs).vol.state() == old(fs).vol.state(),
        final(fs).inodes == old(fs).inodes,
        final(fs).files == old(fs).files,
        r matches Ok(v) ==> list_dir_spec(
            old(fs).vol.image(),
            old(fs).vol.sb,
            path.spec_bytes(),
        ) == Ok::<Seq<DirItemView>, FsError>(items_view(v@)),
        r matches Err(e) ==> list_dir_spec(old(fs).vol.image(), old(fs).vol.sb, path.spec_bytes())
            == Err::<Seq<DirItemView>, FsError>(e),
{
    let ghost v0 = fs.vol;
    let inum = match resolve(&mut fs.vol, path.as_bytes()) {
        Err(e) => {
            return Err(e);
        },
        Ok(inum) => inum,
    };
    let ghost v1 = fs.vol;
    let d = read_dinode(&mut fs.vol, inum);
    proof {
        fs.vol.lemma_stays_trans(&v1, &v0);
    }
    if d.ftype != 2 {
        return Err(FsError::NotADirectory);
    }
    let ghost v2 = fs.vol;
    let r = list_entries(&mut fs.vol, &d);
    proof {
        fs.vol.lemma_stays_trans(&v2, &v0);
    }
    r
}

/// Where the listing of the first entries fails, the listing of more
/// entries fails in the same way.
pub proof fn lemma_listing_fails(img: Image, sb: SuperBlock, d: DiskInodeView, k: int, n: int)
    requires
        k <= n,
        listing(img, sb, d, k) is Err,
    ensures
        listing(img, sb, d, n) == listing(img, sb, d, k),
    decreases n - k,
{
    if k < n {
        lemma_listing_fails(img, sb, d, k, n - 1);
    }
}

/// Whether the byte is white space: a blank, or one of the control
/// characters from the tabulator to the carriage return.
pub open spec fn is_space(b: u8) -> bool {
    b == 32 || (9 <= b && b <= 13)
}

/// The words of the line from position `i` on, where `cur` holds the bytes
/// of the word that is being read and `acc` the words read so far. A word
/// is a longest run of bytes without white space.
pub open spec fn split(p: Seq<u8>, i: int, cur: Seq<u8>, acc: Seq<Seq<u8>>) -> Seq<Seq<u8>>
    decreases p.len() - i,
{
    if i >= p.len() {
        if cur.len() > 0 {
            acc.push(cur)
        } else {
            acc
        }
    } else if is_space(p[i]) {
        if cur.len() > 0 {
            split(p, i + 1, Seq::empty(), acc.push(cur))
        } else {
            split(p, i + 1, Seq::empty(), acc)
        }
    } else {
        split(p, i + 1, cur.push(p[i]), acc)
    }
}

/// The words of the line.
pub open spec fn words_of(line: Seq<u8>) -> Seq<Seq<u8>> {
    split(line, 0, Seq::empty(), Seq::empty())
}

/// The words of the line; see `words_of`.
pub fn words(line: &[u8]) -> (w: Vec<Vec<u8>>)
    ensures
        names_view(w@) == words_of(line@),
{
    let n = line.len();
    let mut acc: Vec<Vec<u8>> = Vec::new();
    let mut cur: Vec<u8> = Vec::new();
    let mut i: usize = 0;
    proof {
        assert(names_view(acc@) =~= Seq::<Seq<u8>>::empty());
    }
    while i < n
        invariant
            i <= n,
            n == line@.len(),
            words_of(line@) == split(line@, i as int, cur@, names_view(acc@)),
        decreases n - i,
    {
        let b = line[i];
        if b == 32 || (9 <= b && b <= 13) {
            if cur.len() > 0 {
                let ghost before = names_view(acc@);
                let ghost c = cur@;
                acc.push(cur);
                cur = Vec::new();
                proof {
                    assert(names_view(acc@) =~= before.push(c));
                }
            } else {
                proof {
                    assert(cur@ =~= Seq::<u8>::empty());
                }
            }
        } else {
            cur.push(b);
        }
        i = i + 1;
    }
    if cur.len() > 0 {
        let ghost before = names_view(acc@);
        let ghost c = cur@;
        acc.push(cur);
        proof {
            assert(names_view(acc@) =~= before.push(c));
        }
    }
    acc
}

/// What a command line asks for. The paths are absolute.
#[derive(Debug, PartialEq, Eq)]
pub enum Command {
    /// A line without a word.
    Empty,
    /// `exit`: leave the shell.
    Exit,
    /// `ls`: list the directory.
    Ls(Vec<u8>),
    /// `cat`: show what the file holds.
    Cat(Vec<u8>),
    /// `cd`: make the directory the working directory.
    Cd(Vec<u8>),
    /// `write`: copy the file of the host, named first, into the file.
    Write(Vec<u8>, Vec<u8>),
    /// `mkdir`: make the directory.
    Mkdir(Vec<u8>),
    /// `touch`: make the file.
    Touch(Vec<u8>),
    /// `rm`: remove the name.
    Rm(Vec<u8>),
    /// `test`: write to a file and read from it.
    Test,
    /// A first word that is no command.
    Unknown(Vec<u8>),
    /// A command without a word that it needs.
    Incomplete,
}

/// A command as a value of mathematics.
pub enum CommandView {
    Empty,
    Exit,
    Ls(Seq<u8>),
    Cat(Seq<u8>),
    Cd(Seq<u8>),
    Write(Seq<u8>, Seq<u8>),
    Mkdir(Seq<u8>),
    Touch(Seq<u8>),
    Rm(Seq<u8>),
    Test,
    Unknown(Seq<u8>),
    Incomplete,
}

impl View for Command {
    type V = CommandView;

    open spec fn view(&self) -> CommandView {
        match *self {
            Command::Empty => CommandView::Empty,
            Command::Exit => CommandView::Exit,
            Command::Ls(p) => CommandView::Ls(p@),
            Command::Cat(p) => CommandView::Cat(p@),
            Command::Cd(p) => CommandView::Cd(p@),
            Command::Write(f, p) => CommandView::Write(f@, p@),
            Command::Mkdir(p) => CommandView::Mkdir(p@),
            Command::Touch(p) => CommandView::Touch(p@),
            Command::Rm(p) => CommandView::Rm(p@),
            Command::Test => CommandView::Test,
            Command::Unknown(w) => CommandView::Unknown(w@),
            Command::Incomplete => CommandView::Incomplete,
        }
    }
}

/// The word `exit`, as bytes.
pub open spec fn word_exit() -> Seq<u8> {
    seq![101u8, 120u8, 105u8, 116u8]
}

/// The word `ls`, as bytes.
pub open spec fn word_ls() -> Seq<u8> {
    seq![108u8, 115u8]
}

/// The word `cat`, as bytes.
pub open spec fn word_cat() -> Seq<u8> {
    seq![99u8, 97u8, 116u8]
}

/// The word `cd`, as bytes.
pub open spec fn word_cd() -> Seq<u8> {
    seq![99u8, 100u8]
}

/// The word `write`, as bytes.
pub open spec fn word_write() -> Seq<u8> {
    seq![119u8, 114u8, 105u8, 116u8, 101u8]
}

/// The word `mkdir`, as bytes.
pub open spec fn word_mkdir() -> Seq<u8> {
    seq![109u8, 107u8, 100u8, 105u8, 114u8]
}

/// The word `touch`, as bytes.
pub open spec fn word_touch() -> Seq<u8> {
    seq![116u8, 111u8, 117u8, 99u8, 104u8]
}

/// The word `rm`, as bytes.
pub open spec fn word_rm() -> Seq<u8> {
    seq![114u8, 109u8]
}

/// The word `test`, as bytes.
pub open spec fn word_test() -> Seq<u8> {
    seq![116u8, 101u8, 115u8, 116u8]
}

/// The path that a command works on when its word is `arg` and the
/// working directory is `cwd`: `arg` as it stands if it is absolute, and
/// else `arg` behind `cwd`, without `.` and `..`.
pub open spec fn target(cwd: Seq<u8>, arg: Seq<u8>) -> Seq<u8> {
    if arg.len() > 0 && arg[0] == SEP {
        arg
    } else {
        canonical(joined(cwd, arg))
    }
}

/// The command that the words make when the working directory is `cwd`.
/// The first word names the command, the next ones are what it works on;
/// further words are left aside. `ls` without a word lists the working
/// directory, and lists the path as it stands behind the working
/// directory else; `cd` goes to the path without `.` and `..`.
pub open spec fn command_of(cwd: Seq<u8>, w: Seq<Seq<u8>>) -> CommandView {
    if w.len() == 0 {
        CommandView::Empty
    } else if w[0] == word_exit() {
        CommandView::Exit
    } else if w[0] == word_ls() {
        if w.len() > 1 {
            CommandView::Ls(joined(cwd, w[1]))
        } else {
            CommandView::Ls(cwd)
        }
    } else if w[0] == word_test() {
        CommandView::Test
    } else if w[0] == word_cat() || w[0] == word_cd() || w[0] == word_mkdir() || w[0]
        == word_touch() || w[0] == word_rm() {
        if w.len() < 2 {
            CommandView::Incomplete
        } else if w[0] == word_cat() {
            CommandView::Cat(target(cwd, w[1]))
        } else if w[0] == word_cd() {
            CommandView::Cd(canonical(joined(cwd, w[1])))
        } else if w[0] == word_mkdir() {
            CommandView::Mkdir(target(cwd, w[1]))
        } else if w[0] == word_touch() {
            CommandView::Touch(target(cwd, w[1]))
        } else {
            CommandView::Rm(target(cwd, w[1]))
        }
    } else if w[0] == word_write() {
        if w.len() < 3 {
            CommandView::Incomplete
        } else {
            CommandView::Write(w[1], target(cwd, w[2]))
        }
    } else {
        CommandView::Unknown(w[0])
    }
}

/// The path that a command works on; see `target`.
pub fn target_of(cwd: &[u8], arg: &[u8]) -> (v: Vec<u8>)
    ensures
        v@ == target(cwd@, arg@),
{
    let whole = join(cwd, arg);
    if arg.len() > 0 && arg[0] == SEP {
        whole
    } else {
        canonicalize_bytes(whole.as_slice())
    }
}

/// The command that the line makes when the working directory is `cwd`;
/// see `words_of` and `command_of`.
pub fn read_command(cwd: &[u8], line: &[u8]) -> (c: Command)
    ensures
        c@ == command_of(cwd@, words_of(line@)),
{
    let w = words(line);
    let ghost ws = names_view(w@);
    if w.len() == 0 {
        return Command::Empty;
    }
    proof {
        assert(ws[0] == w@[0]@);
        if w@.len() > 1 {
            assert(ws[1] == w@[1]@);
        }
        if w@.len() > 2 {
            assert(ws[2] == w@[2]@);
        }
    }
    let first = &w[0];
    let exit: [u8; 4] = [101, 120, 105, 116];
    let ls: [u8; 2] = [108, 115];
    let cat: [u8; 3] = [99, 97, 116];
    let cd: [u8; 2] = [99, 100];
    let write: [u8; 5] = [119, 114, 105, 116, 101];
    let mkdir: [u8; 5] = [109, 107, 100, 105, 114];
    let touch: [u8; 5] = [116, 111, 117, 99, 104];
    let rm: [u8; 2] = [114, 109];
    let test: [u8; 4] = [116, 101, 115, 116];
    proof {
        assert(exit@ =~= word_exit());
        assert(ls@ =~= word_ls());
        assert(cat@ =~= word_cat());
        assert(cd@ =~= word_cd());
        assert(write@ =~= word_write());
        assert(mkdir@ =~= word_mkdir());
        assert(touch@ =~= word_touch());
        assert(rm@ =~= word_rm());
        assert(test@ =~= word_test());
    }
    if same_path(first, exit.as_slice()) {
        Command::Exit
    } else if same_path(first, ls.as_slice()) {
        if w.len() > 1 {
            Command::Ls(join(cwd, w[1].as_slice()))
        } else {
            Command::Ls(copy_of(cwd))
        }
    } else if same_path(first, test.as_slice()) {
        Command::Test
    } else if same_path(first, cat.as_slice()) {
        if w.len() < 2 {
            Command::Incomplete
        } else {
            Command::Cat(target_of(cwd, w[1].as_slice()))
        }
    } else if same_path(first, cd.as_slice()) {
        if w.len() < 2 {
            Command::Incomplete
        } else {
            let whole = join(cwd, w[1].as_slice());
            Command::Cd(canonicalize_bytes(whole.as_slice()))
        }
    } else if same_path(first, mkdir.as_slice()) {
        if w.len() < 2 {
            Command::Incomplete
        } else {
            Command::Mkdir(target_of(cwd, w[1].as_slice()))
        }
    } else if same_path(first, touch.as_slice()) {
        if w.len() < 2 {
            Command::Incomplete
        } else {
            Command::Touch(target_of(cwd, w[1].as_slice()))
        }
    } else if same_path(first, rm.as_slice()) {
        if w.len() < 2 {
            Command::Incomplete
        } else {
            Command::Rm(target_of(cwd, w[1].as_slice()))
        }
    } else if same_path(first, write.as_slice()) {
        if w.len() < 3 {
            Command::Incomplete
        } else {
            Command::Write(copy_of(w[1].as_slice()), target_of(cwd, w[2].as_slice()))
        }
    } else {
        Command::Unknown(copy_of(first.as_slice()))
    }
}

} // verus!
