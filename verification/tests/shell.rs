use fatpigeorz_fs::codec::{read_u16, read_u32, write_u16, write_u32, Record};
use fatpigeorz_fs::file::{fileclose, fileopen, fileunlink, filewrite, mkdir, OpenMode, Stat};
use fatpigeorz_fs::filesystem::Filesystem;
use fatpigeorz_fs::fs::{FileType, FsError, DINODE_SIZE, DIRENT_SIZE};
use fatpigeorz_fs::inode::{DirEntry, DiskInode};
use fatpigeorz_fs::log::LogHeader;
use fatpigeorz_fs::memdisk::MemDisk;
use fatpigeorz_fs::mkfs::mkfs;
use fatpigeorz_fs::path::{absolute, canonicalize, components, join};
use fatpigeorz_fs::shell::{list_dir, read_command, trim_name, words, Command, DirItem};

#[test]
fn test_canonicalize() {
    let path = "/usr/bin/../bin/./ls";
    assert_eq!(canonicalize(path), "/usr/bin/ls".as_bytes().to_vec());
    println!("{:?}", canonicalize(path));
}

#[test]
fn test_size() {
    println!("DirEntry:  {}", DIRENT_SIZE);
    println!("DiskInode: {}", DINODE_SIZE);
}

#[test]
fn canonicalize_keeps_the_root() {
    assert_eq!(canonicalize("/"), b"/".to_vec());
    assert_eq!(canonicalize(""), b"/".to_vec());
    assert_eq!(canonicalize("/.."), b"/".to_vec());
    assert_eq!(canonicalize("/a/../.."), b"/".to_vec());
    assert_eq!(canonicalize("//a///b/"), b"/a/b".to_vec());
    assert_eq!(canonicalize("/a/./b/../c"), b"/a/c".to_vec());
}

#[test]
fn a_path_is_taken_from_the_working_directory() {
    assert_eq!(absolute("/home", "texts/../photos"), b"/home/photos".to_vec());
    assert_eq!(absolute("/home", "/etc/./x"), b"/etc/x".to_vec());
    assert_eq!(absolute("/", ".."), b"/".to_vec());
    assert_eq!(absolute("/a/b", "."), b"/a/b".to_vec());
    assert_eq!(
        components(b"//usr/bin//ls/"),
        vec![b"usr".to_vec(), b"bin".to_vec(), b"ls".to_vec()]
    );
    assert!(components(b"///").is_empty());
}

#[test]
fn a_file_type_has_a_code_and_a_name() {
    assert_eq!(FileType::default(), FileType::Free);
    assert_eq!(FileType::Dir.to_u16(), 2);
    assert_eq!(FileType::from_u16(1), Some(FileType::File));
    assert_eq!(FileType::from_u16(3), None);
    assert_eq!(FileType::Free.name(), "Free");
    assert_eq!(FileType::File.name(), "File");
    assert_eq!(FileType::Dir.name(), "Dir");
}

#[test]
fn records_are_little_endian() {
    let mut buf = [0u8; 512];
    write_u32(&mut buf, 3, 0x0a0b0c0d);
    assert_eq!(&buf[3..7], &[0x0d, 0x0c, 0x0b, 0x0a]);
    assert_eq!(read_u32(&buf, 3), 0x0a0b0c0d);
    write_u16(&mut buf, 9, 0x0102);
    assert_eq!(&buf[9..11], &[2, 1]);
    assert_eq!(read_u16(&buf, 9), 0x0102);
    let mut d = DiskInode::default();
    d.dev = 1;
    d.ftype = 2;
    d.nlink = 3;
    d.size = 4;
    d.addrs[0] = 5;
    d.addrs[12] = 6;
    let mut buf = [0u8; 512];
    d.store(&mut buf, 64);
    assert_eq!(&buf[64..80], &[1, 0, 0, 0, 2, 0, 3, 0, 4, 0, 0, 0, 5, 0, 0, 0]);
    assert_eq!(&buf[124..128], &[6, 0, 0, 0]);
    assert_eq!(buf[128], 0);
    let back = DiskInode::load(&buf, 64);
    assert_eq!((back.dev, back.ftype, back.nlink, back.size, back.addrs), (1, 2, 3, 4, d.addrs));
    let mut e = DirEntry::default();
    e.inum = 7;
    e.name[0] = b'x';
    e.store(&mut buf, 0);
    assert_eq!(&buf[0..6], &[7, 0, 0, 0, b'x', 0]);
    assert_eq!(DirEntry::load(&buf, 0).name, e.name);
    let mut h = LogHeader::new();
    h.n = 2;
    h.block[0] = 300;
    h.block[63] = 9;
    let mut buf = [0u8; 512];
    h.store(&mut buf, 0);
    assert_eq!(&buf[0..8], &[2, 0, 0, 0, 44, 1, 0, 0]);
    assert_eq!(&buf[256..260], &[9, 0, 0, 0]);
    let back = LogHeader::load(&buf, 0);
    assert_eq!((back.n, back.block), (2, h.block));
    assert_eq!(DiskInode::byte_len(), 64);
    assert_eq!(DirEntry::byte_len(), 32);
    assert_eq!(LogHeader::byte_len(), 260);
}

#[test]
fn a_line_is_cut_into_words() {
    assert_eq!(words(b"  ls \t /a\r\n"), vec![b"ls".to_vec(), b"/a".to_vec()]);
    assert_eq!(words(b"write\x0bfrom\x0cto"), vec![b"write".to_vec(), b"from".to_vec(), b"to".to_vec()]);
    assert_eq!(words(b""), Vec::<Vec<u8>>::new());
    assert_eq!(words(b" \n"), Vec::<Vec<u8>>::new());
    // a byte that is no ASCII white space is part of a word
    assert_eq!(words(b"a\x1fb\x00c"), vec![b"a\x1fb\x00c".to_vec()]);
}

#[test]
fn a_line_makes_a_command() {
    assert_eq!(read_command(b"/", b"\n"), Command::Empty);
    assert_eq!(read_command(b"/", b"exit\n"), Command::Exit);
    assert_eq!(read_command(b"/", b"exit now\n"), Command::Exit);
    assert_eq!(read_command(b"/", b"test\n"), Command::Test);
    assert_eq!(read_command(b"/", b"frob /a\n"), Command::Unknown(b"frob".to_vec()));
    assert_eq!(read_command(b"/", b"lsx\n"), Command::Unknown(b"lsx".to_vec()));
    assert_eq!(read_command(b"/", b"l\n"), Command::Unknown(b"l".to_vec()));
    // a path behind the working directory
    assert_eq!(read_command(b"/x/y", b"cat ../b\n"), Command::Cat(b"/x/b".to_vec()));
    assert_eq!(read_command(b"/x", b"mkdir d\n"), Command::Mkdir(b"/x/d".to_vec()));
    assert_eq!(read_command(b"/x", b"touch a b\n"), Command::Touch(b"/x/a".to_vec()));
    assert_eq!(read_command(b"/", b"rm ./a/./b\n"), Command::Rm(b"/a/b".to_vec()));
    assert_eq!(read_command(b"/", b"cat ..\n"), Command::Cat(b"/".to_vec()));
    // an absolute path stands as it is
    assert_eq!(read_command(b"/x", b"cat /a/../b\n"), Command::Cat(b"/a/../b".to_vec()));
    assert_eq!(read_command(b"/x", b"rm /a/./b\n"), Command::Rm(b"/a/./b".to_vec()));
    // but not for the working directory
    assert_eq!(read_command(b"/x", b"cd /a/../b\n"), Command::Cd(b"/b".to_vec()));
    assert_eq!(read_command(b"/x/y", b"cd ..\n"), Command::Cd(b"/x".to_vec()));
    assert_eq!(read_command(b"/", b"cd ..\n"), Command::Cd(b"/".to_vec()));
    // the file of the host is named as it stands
    assert_eq!(
        read_command(b"/x", b"write ./host.txt f\n"),
        Command::Write(b"./host.txt".to_vec(), b"/x/f".to_vec())
    );
    // what a command needs
    for line in [&b"cat"[..], b"cd", b"mkdir ", b"touch", b"rm\n", b"write", b"write a"] {
        assert_eq!(read_command(b"/", line), Command::Incomplete);
    }
}

#[test]
fn ls_lists_the_working_directory_or_the_path_behind_it() {
    assert_eq!(read_command(b"/x", b"ls\n"), Command::Ls(b"/x".to_vec()));
    assert_eq!(read_command(b"/x", b"ls a/..\n"), Command::Ls(b"/x/a/..".to_vec()));
    assert_eq!(read_command(b"/x", b"ls /b\n"), Command::Ls(b"/b".to_vec()));
    assert_eq!(join(b"/", b"a"), b"//a".to_vec());
}

#[test]
fn a_name_is_shown_without_its_padding() {
    let mut field = [0u8; 28];
    assert_eq!(trim_name(&field), Vec::<u8>::new());
    field[0] = b'a';
    field[2] = b'c';
    assert_eq!(trim_name(&field), vec![b'a', 0, b'c']);
    assert_eq!(trim_name(&[b'x'; 28]), vec![b'x'; 28]);
}

#[test]
fn a_listing_shows_names_and_inodes() {
    let mut dev = MemDisk::new(2048);
    mkfs(&mut dev, 2048 * 512).unwrap();
    let mut fs = Filesystem::mount(dev).unwrap();
    let root = Stat { dev: 0, ino: 1, ty: FileType::Dir, nlink: 1, size: 64 };
    assert_eq!(
        list_dir(&mut fs, "/"),
        Ok(vec![
            DirItem { name: b".".to_vec(), stat: root },
            DirItem { name: b"..".to_vec(), stat: root },
        ])
    );
    mkdir(&mut fs, "/d").unwrap();
    let f = fileopen(&mut fs, "/d/f", OpenMode::OCreate).unwrap();
    fileclose(&mut fs, f).unwrap();
    let g = fileopen(&mut fs, "/d/g", OpenMode::OCreate).unwrap();
    fileclose(&mut fs, g).unwrap();
    let w = fileopen(&mut fs, "/d/g", OpenMode::OWronly).unwrap();
    assert_eq!(filewrite(&mut fs, &w, &[5u8; 700]), Ok(700));
    fileclose(&mut fs, w).unwrap();
    fileunlink(&mut fs, "/d/f").unwrap();
    let root = Stat { dev: 0, ino: 1, ty: FileType::Dir, nlink: 2, size: 96 };
    let d = Stat { dev: 0, ino: 2, ty: FileType::Dir, nlink: 1, size: 128 };
    let g = Stat { dev: 0, ino: 4, ty: FileType::File, nlink: 1, size: 700 };
    assert_eq!(
        list_dir(&mut fs, "/d"),
        Ok(vec![
            DirItem { name: b".".to_vec(), stat: d },
            DirItem { name: b"..".to_vec(), stat: root },
            DirItem { name: b"g".to_vec(), stat: g },
        ])
    );
    assert_eq!(list_dir(&mut fs, "/d/.."), list_dir(&mut fs, "/"));
    assert_eq!(list_dir(&mut fs, "/d/g"), Err(FsError::NotADirectory));
    assert_eq!(list_dir(&mut fs, "/nowhere"), Err(FsError::NotFound));
}
