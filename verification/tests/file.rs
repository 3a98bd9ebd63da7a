use fatpigeorz_fs::file::{
    fileclose, fileopen, fileread, fileseek, filestat, fileunlink, filewrite, filealloc, mkdir,
    FDType, OpenFile, OpenMode, Stat, SEEK_CUR, SEEK_END, SEEK_SET,
};
use fatpigeorz_fs::filesystem::Filesystem;
use fatpigeorz_fs::fs::{FileType, FsError};
use fatpigeorz_fs::memdisk::MemDisk;
use fatpigeorz_fs::mkfs::mkfs;

fn fresh(blocks: u32) -> Filesystem<MemDisk> {
    let mut dev = MemDisk::new(blocks);
    mkfs(&mut dev, blocks * 512).unwrap();
    Filesystem::mount(dev).unwrap()
}

#[test]
fn test_touch() {
    let mut fs = fresh(2048);
    let f = fileopen(&mut fs, "/test", OpenMode::OCreate).unwrap();
    assert_eq!(f, OpenFile(0));
    let st = filestat(&mut fs, &f).unwrap();
    assert_eq!(st.ty, FileType::File);
    assert_eq!((st.dev, st.nlink, st.size), (0, 1, 0));
    assert_eq!(fs.files.files[0].ty, FDType::INODE);
    assert!(!fs.files.files[0].readable);
    assert!(!fs.files.files[0].writable);
    fileclose(&mut fs, f).unwrap();
    assert_eq!(fs.files.files[0].ty, FDType::Free);
    assert_eq!(filealloc(&fs), Some(OpenFile(0)));
}

#[test]
fn test_cat() {
    let mut fs = fresh(2048);
    let f = fileopen(&mut fs, "/test", OpenMode::OCreate).unwrap();
    fileclose(&mut fs, f).unwrap();
    let w = fileopen(&mut fs, "/test", OpenMode::OWronly).unwrap();
    assert_eq!(filewrite(&mut fs, &w, b"hello, pigeon"), Ok(13));
    assert_eq!(fs.files.files[w.0].offset, 13);
    fileclose(&mut fs, w).unwrap();
    let r = fileopen(&mut fs, "/test", OpenMode::ORdonly).unwrap();
    let mut dst = vec![0u8; 1024];
    assert_eq!(fileread(&mut fs, &r, &mut dst), Ok(13));
    assert_eq!(&dst[..13], b"hello, pigeon");
    assert_eq!(fileread(&mut fs, &r, &mut dst), Ok(0));
    fileclose(&mut fs, r).unwrap();
}

#[test]
fn test_ls() {
    let mut fs = fresh(2048);
    let root = fileopen(&mut fs, "/", OpenMode::ORdonly).unwrap();
    let mut names = vec![];
    let mut entry = [0u8; 32];
    while fileread(&mut fs, &root, &mut entry).unwrap() > 0 {
        let inum = u32::from_le_bytes([entry[0], entry[1], entry[2], entry[3]]);
        let len = entry[4..].iter().position(|b| *b == 0).unwrap();
        names.push((String::from_utf8(entry[4..4 + len].to_vec()).unwrap(), inum));
    }
    assert_eq!(names, vec![(".".to_string(), 1), ("..".to_string(), 1)]);
    let st = filestat(&mut fs, &root).unwrap();
    assert_eq!(st, Stat { dev: 0, ino: 1, ty: FileType::Dir, nlink: 1, size: 64 });
    fileclose(&mut fs, root).unwrap();
}

#[test]
fn test_mkdirs() {
    let mut fs = fresh(4096);
    for p in ["/bin", "/etc", "/home", "/home/texts", "/home/reports", "/home/photos", "/dev"] {
        assert_eq!(mkdir(&mut fs, p), Ok(()));
    }
    let f = fileopen(&mut fs, "/home/texts/text1", OpenMode::OCreate).unwrap();
    fileclose(&mut fs, f).unwrap();
    let f = fileopen(&mut fs, "/home/photos/nishino.jpg", OpenMode::OCreate).unwrap();
    fileclose(&mut fs, f).unwrap();
    let w = fileopen(&mut fs, "/home/photos/nishino.jpg", OpenMode::OWronly).unwrap();
    let photo: Vec<u8> = (0..20000u32).map(|i| (i % 251) as u8).collect();
    let mut done = 0;
    while done < photo.len() {
        let end = (done + 1024).min(photo.len());
        let n = filewrite(&mut fs, &w, &photo[done..end]).unwrap();
        assert!(n > 0);
        done += n;
    }
    fileclose(&mut fs, w).unwrap();
    let r = fileopen(&mut fs, "/home/photos/nishino.jpg", OpenMode::ORdonly).unwrap();
    assert_eq!(filestat(&mut fs, &r).unwrap().size, 20000);
    let mut back = vec![];
    let mut buf = vec![0u8; 1024];
    loop {
        let n = fileread(&mut fs, &r, &mut buf).unwrap();
        if n == 0 {
            break;
        }
        back.extend_from_slice(&buf[..n]);
    }
    assert_eq!(back, photo);
    fileclose(&mut fs, r).unwrap();
    assert_eq!(fileunlink(&mut fs, "/home/photos/nishino.jpg"), Ok(()));
    assert_eq!(
        fileopen(&mut fs, "/home/photos/nishino.jpg", OpenMode::ORdonly),
        Err(FsError::NotFound)
    );
    // and all of it is there after a remount
    let dev = fs.unmount();
    let mut fs = Filesystem::mount(dev).unwrap();
    let d = fileopen(&mut fs, "/home/texts", OpenMode::ORdonly).unwrap();
    assert_eq!(filestat(&mut fs, &d).unwrap().ty, FileType::Dir);
    fileclose(&mut fs, d).unwrap();
    let home = fileopen(&mut fs, "/home", OpenMode::ORdonly).unwrap();
    assert_eq!(filestat(&mut fs, &home).unwrap().nlink, 4);
}

#[test]
fn test_test() {
    let mut fs = fresh(4096);
    mkdir(&mut fs, "/test").unwrap();
    let t = fileopen(&mut fs, "/test/jerry", OpenMode::OCreate).unwrap();
    fileclose(&mut fs, t).unwrap();
    let file = fileopen(&mut fs, "/test/jerry", OpenMode::ORdwr).unwrap();
    let mut buf = [0u8; 800];
    for (i, b) in buf.iter_mut().enumerate() {
        *b = (i * 7 % 256) as u8;
    }
    assert_eq!(filewrite(&mut fs, &file, &buf), Ok(800));
    assert_eq!(fileseek(&mut fs, &file, 500, SEEK_SET), Ok(500));
    let mut tail = [0u8; 800];
    let n = fileread(&mut fs, &file, &mut tail).unwrap();
    assert_eq!(n, 300);
    assert_eq!(&tail[..300], &buf[500..]);
    assert_eq!(filewrite(&mut fs, &file, &tail[..n]), Ok(300));
    assert_eq!(filestat(&mut fs, &file).unwrap().size, 1100);
    assert_eq!(fileseek(&mut fs, &file, 0, SEEK_END), Ok(1100));
    assert_eq!(fileseek(&mut fs, &file, 10, SEEK_CUR), Ok(1110));
    assert_eq!(fileseek(&mut fs, &file, 0, 7), Err(FsError::BadMode));
    fileclose(&mut fs, file).unwrap();
}

#[test]
fn opening_twice_by_one_path_gives_one_open_file() {
    let mut fs = fresh(2048);
    let a = fileopen(&mut fs, "/x", OpenMode::OCreate).unwrap();
    let b = fileopen(&mut fs, "/x", OpenMode::ORdwr).unwrap();
    assert_eq!(a, b);
    assert_eq!(fs.files.files[a.0].refs, 2);
    fileclose(&mut fs, a).unwrap();
    assert_eq!(fs.files.files[b.0].refs, 1);
    fileclose(&mut fs, b).unwrap();
    assert_eq!(fileclose(&mut fs, b), Err(FsError::BadHandle));
    let mut buf = [0u8; 4];
    assert_eq!(fileread(&mut fs, &b, &mut buf), Err(FsError::BadHandle));
    assert_eq!(filewrite(&mut fs, &b, &buf), Err(FsError::BadHandle));
    assert_eq!(filestat(&mut fs, &OpenFile::default()), Err(FsError::BadHandle));
}

#[test]
fn a_directory_is_opened_for_reading_only() {
    let mut fs = fresh(2048);
    mkdir(&mut fs, "/d").unwrap();
    assert_eq!(fileopen(&mut fs, "/d", OpenMode::OWronly), Err(FsError::IsADirectory));
    assert_eq!(fileopen(&mut fs, "/d", OpenMode::OTrunc), Err(FsError::IsADirectory));
    assert_eq!(fileopen(&mut fs, "/d", OpenMode::ORdwr), Err(FsError::IsADirectory));
    assert_eq!(fileopen(&mut fs, "/nothing", OpenMode::ORdonly), Err(FsError::NotFound));
    assert_eq!(fileopen(&mut fs, "relative", OpenMode::ORdonly), Err(FsError::NotFound));
    // no slot was taken
    assert_eq!(filealloc(&fs), Some(OpenFile(0)));
    // and so where the directory is open already
    let d = fileopen(&mut fs, "/d", OpenMode::ORdonly).unwrap();
    let root = fileopen(&mut fs, "/", OpenMode::ORdonly).unwrap();
    for omod in [OpenMode::OWronly, OpenMode::ORdwr, OpenMode::OTrunc, OpenMode::OCreate] {
        assert_eq!(fileopen(&mut fs, "/d", omod), Err(FsError::IsADirectory));
        assert_eq!(fileopen(&mut fs, "/", omod), Err(FsError::IsADirectory));
    }
    assert_eq!((fs.files.files[d.0].refs, fs.files.files[root.0].refs), (1, 1));
    assert_eq!(fs.vol.log.0.outstanding, 0);
    assert_eq!(fileopen(&mut fs, "/d", OpenMode::ORdonly), Ok(d));
    assert_eq!(fs.files.files[d.0].refs, 2);
    assert_eq!(filestat(&mut fs, &d).unwrap().size, 64);
    assert_eq!(mkdir(&mut fs, "/"), Err(FsError::NotFound));
    assert_eq!(fileunlink(&mut fs, "/"), Err(FsError::NotFound));
}

#[test]
fn truncating_takes_the_contents_away() {
    let mut fs = fresh(2048);
    let f = fileopen(&mut fs, "/x", OpenMode::OCreate).unwrap();
    fileclose(&mut fs, f).unwrap();
    let w = fileopen(&mut fs, "/x", OpenMode::OWronly).unwrap();
    assert_eq!(filewrite(&mut fs, &w, &[3u8; 2000]), Ok(2000));
    fileclose(&mut fs, w).unwrap();
    let t = fileopen(&mut fs, "/x", OpenMode::OTrunc).unwrap();
    assert_eq!(filestat(&mut fs, &t).unwrap().size, 0);
    fileclose(&mut fs, t).unwrap();
}

#[test]
fn the_table_of_open_files_has_an_end() {
    let mut fs = fresh(4096);
    let mut open = vec![];
    for i in 0..100 {
        let name = format!("/f{}", i);
        open.push(fileopen(&mut fs, &name, OpenMode::OCreate).unwrap());
    }
    assert_eq!(filealloc(&fs), None);
    assert_eq!(fileopen(&mut fs, "/one-more", OpenMode::OCreate), Err(FsError::TableFull));
    for f in open {
        fileclose(&mut fs, f).unwrap();
    }
    assert!(fileopen(&mut fs, "/one-more", OpenMode::OCreate).is_ok());
}

#[test]
fn an_operation_waits_while_the_log_is_taken() {
    let mut fs = fresh(2048);
    // four operations have begun: the log admits no fifth
    for _ in 0..4 {
        assert!(fs.vol.log_begin());
    }
    assert!(!fs.vol.log_begin());
    assert_eq!(mkdir(&mut fs, "/d"), Err(FsError::Busy));
    assert_eq!(fileopen(&mut fs, "/x", OpenMode::OCreate), Err(FsError::Busy));
    fs.vol.log_end();
    assert_eq!(mkdir(&mut fs, "/d"), Ok(()));
}
