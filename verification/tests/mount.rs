use rencfs::attr::{FileAttr, FileType, Timestamp, ROOT_INODE};
use rencfs::cipher::Cipher;
use rencfs::error::FsError;
use rencfs::fs::EncryptedFs;
use rencfs::secret::SecretBytes;
use rencfs::store::{Content, DataDir};

fn secret(text: &str) -> SecretBytes {
    SecretBytes::new(text.as_bytes().to_vec())
}

fn mount(data: DataDir, password: &str, cipher: Cipher) -> Result<EncryptedFs, FsError> {
    EncryptedFs::new(data, &secret(password), cipher)
}

fn fresh(cipher: Cipher) -> EncryptedFs {
    match mount(DataDir::new(), "pw", cipher) {
        Ok(fs) => fs,
        Err(e) => panic!("mount failed: {:?}", e),
    }
}

fn template(kind: FileType) -> FileAttr {
    let now = Timestamp { secs: 1_700_000_000, nanos: 0 };
    FileAttr {
        ino: 0,
        size: 0,
        blocks: 0,
        atime: now,
        mtime: now,
        ctime: now,
        crtime: now,
        kind,
        perm: 0o644,
        nlink: 1,
        uid: 0,
        gid: 0,
        rdev: 0,
        blksize: 0,
        flags: 0,
    }
}

fn names(fs: &EncryptedFs, dir: u64, offset: u64) -> Vec<String> {
    fs.readdir(dir, offset)
        .unwrap()
        .iter()
        .map(|e| String::from_utf8(e.name.clone()).unwrap())
        .collect()
}

#[test]
fn hello_world_round_trip() {
    let mut fs = fresh(Cipher::ChaCha20);
    let (fh, a) = fs
        .create_nod(ROOT_INODE, b"file1", template(FileType::RegularFile), false, true)
        .unwrap();
    let data = "Hello, world!";
    fs.write_all(a.ino, 0, data.as_bytes(), fh).unwrap();
    fs.flush(fh).unwrap();
    fs.release(fh).unwrap();
    let fh2 = fs.open(a.ino, true, false).unwrap();
    let mut buf = vec![0u8; 13];
    assert_eq!(fs.read(a.ino, 0, &mut buf, fh2), Ok(13));
    assert_eq!(String::from_utf8(buf).unwrap(), data);
    fs.release(fh2).unwrap();
}

#[test]
fn hello_world_round_trip_aes() {
    let mut fs = fresh(Cipher::Aes256Gcm);
    let (fh, a) = fs
        .create_nod(ROOT_INODE, b"file1", template(FileType::RegularFile), true, true)
        .unwrap();
    fs.write_all(a.ino, 0, b"Hello, world!", fh).unwrap();
    fs.flush(fh).unwrap();
    let mut buf = vec![0u8; 13];
    assert_eq!(fs.read(a.ino, 0, &mut buf, fh), Ok(13));
    assert_eq!(&buf, b"Hello, world!");
}

#[test]
fn mkdir_then_readdir() {
    let mut fs = fresh(Cipher::ChaCha20);
    let d = fs.mkdir(ROOT_INODE, b"d", 0o755).unwrap();
    assert_eq!(d.kind, FileType::Directory);
    assert_eq!(d.perm, 0o755);
    assert_eq!(d.nlink, 2);
    assert_eq!(names(&fs, ROOT_INODE, 0), vec![".", "..", "d"]);
    assert_eq!(names(&fs, ROOT_INODE, 2), vec!["d"]);
    assert_eq!(names(&fs, ROOT_INODE, 3), Vec::<String>::new());
    assert_eq!(names(&fs, d.ino, 0), vec![".", ".."]);
    let listing = fs.readdir(d.ino, 0).unwrap();
    assert_eq!(listing[0].ino, d.ino);
    assert_eq!(listing[1].ino, ROOT_INODE);
    assert_eq!(fs.read_attr(ROOT_INODE).unwrap().size, 1);
}

#[test]
fn rename_keeps_the_inode() {
    let mut fs = fresh(Cipher::ChaCha20);
    let (_, a) = fs
        .create_nod(ROOT_INODE, b"a", template(FileType::RegularFile), false, false)
        .unwrap();
    assert_eq!(fs.rename(ROOT_INODE, b"a", ROOT_INODE, b"b"), Ok(()));
    assert_eq!(fs.lookup(ROOT_INODE, b"a"), Err(FsError::NotFound));
    assert_eq!(fs.lookup(ROOT_INODE, b"b").unwrap().ino, a.ino);
    assert_eq!(names(&fs, ROOT_INODE, 0), vec![".", "..", "b"]);
}

#[test]
fn write_far_behind_the_end() {
    let mut fs = fresh(Cipher::ChaCha20);
    let (fh, a) = fs
        .create_nod(ROOT_INODE, b"sparse", template(FileType::RegularFile), true, true)
        .unwrap();
    fs.write_all(a.ino, 1_000_000, b"X", fh).unwrap();
    fs.flush(fh).unwrap();
    assert_eq!(fs.read_attr(a.ino).unwrap().size, 1_000_001);
    let mut buf = vec![7u8; 10];
    assert_eq!(fs.read(a.ino, 0, &mut buf, fh), Ok(10));
    assert_eq!(buf, vec![0u8; 10]);
    let mut last = vec![0u8; 4];
    assert_eq!(fs.read(a.ino, 999_999, &mut last, fh), Ok(2));
    assert_eq!(last, vec![0, b'X', 0, 0]);
}

#[test]
fn change_password_then_mount() {
    let mut fs = fresh(Cipher::ChaCha20);
    let (fh, a) = fs
        .create_nod(ROOT_INODE, b"kept", template(FileType::RegularFile), true, true)
        .unwrap();
    fs.write_all(a.ino, 0, b"still here", fh).unwrap();
    fs.release(fh).unwrap();
    let mut data = fs.into_data();
    assert_eq!(
        EncryptedFs::change_password(&mut data, &secret("pw"), &secret("pw2"), Cipher::ChaCha20),
        Ok(())
    );
    match mount(data, "pw", Cipher::ChaCha20) {
        Err(e) => assert_eq!(e, FsError::InvalidPassword),
        Ok(_) => panic!("the old password still mounts"),
    }
}

#[test]
fn new_password_reads_old_files() {
    let mut fs = fresh(Cipher::ChaCha20);
    let (fh, a) = fs
        .create_nod(ROOT_INODE, b"kept", template(FileType::RegularFile), true, true)
        .unwrap();
    fs.write_all(a.ino, 0, b"still here", fh).unwrap();
    fs.release(fh).unwrap();
    let mut data = fs.into_data();
    assert_eq!(
        EncryptedFs::change_password(&mut data, &secret("pw"), &secret("pw2"), Cipher::ChaCha20),
        Ok(())
    );
    let mut fs = match mount(data, "pw2", Cipher::ChaCha20) {
        Ok(fs) => fs,
        Err(e) => panic!("the new password does not mount: {:?}", e),
    };
    let found = fs.lookup(ROOT_INODE, b"kept").unwrap();
    assert_eq!(found.ino, a.ino);
    assert_eq!(found.size, 10);
    let fh = fs.open(a.ino, true, false).unwrap();
    let mut buf = vec![0u8; 10];
    assert_eq!(fs.read(a.ino, 0, &mut buf, fh), Ok(10));
    assert_eq!(&buf, b"still here");
}

#[test]
fn flipped_byte_is_corrupted() {
    let mut fs = fresh(Cipher::ChaCha20);
    let (fh, a) = fs
        .create_nod(ROOT_INODE, b"abc", template(FileType::RegularFile), true, true)
        .unwrap();
    fs.write_all(a.ino, 0, b"abc", fh).unwrap();
    fs.release(fh).unwrap();
    let data = fs.into_data();
    let mut tampered = DataDir::new();
    tampered.set_key(data.key().unwrap().clone());
    for ino in [ROOT_INODE, a.ino] {
        tampered.load_inode(ino, data.inode(ino).unwrap().clone());
    }
    match data.content(a.ino).unwrap() {
        Content::File(f) => {
            let mut bytes = f.encode();
            let last = bytes.len() - 20;
            bytes[last] ^= 1;
            assert!(tampered.load_file(a.ino, &bytes));
        }
        _ => panic!("a file is not stored as a file"),
    }
    match data.content(ROOT_INODE).unwrap() {
        Content::Folder(files) => {
            let copy = files
                .iter()
                .map(|f| rencfs::dir::DirFile { name: f.name.clone(), payload: f.payload.clone() })
                .collect();
            assert!(tampered.load_folder(ROOT_INODE, copy));
        }
        _ => panic!("the root is not stored as a folder"),
    }
    let mut fs = match mount(tampered, "pw", Cipher::ChaCha20) {
        Ok(fs) => fs,
        Err(e) => panic!("mount failed: {:?}", e),
    };
    let fh = fs.open(a.ino, true, false).unwrap();
    let mut buf = vec![9u8; 3];
    assert_eq!(fs.read(a.ino, 0, &mut buf, fh), Err(FsError::Corrupted));
    assert_eq!(buf, vec![9u8; 3]);
}

fn remount_with(fs: EncryptedFs, ino: u64, change: impl Fn(&mut Vec<u8>)) -> EncryptedFs {
    let data = fs.into_data();
    let mut tampered = DataDir::new();
    tampered.set_key(data.key().unwrap().clone());
    for k in 1..=data.highest() {
        if let Some(record) = data.inode(k) {
            tampered.load_inode(k, record.clone());
        }
        match data.content(k) {
            Some(Content::File(f)) => {
                let mut bytes = f.encode();
                if k == ino {
                    change(&mut bytes);
                }
                tampered.load_file(k, &bytes);
            }
            Some(Content::Folder(files)) => {
                let copy = files
                    .iter()
                    .map(|f| rencfs::dir::DirFile { name: f.name.clone(), payload: f.payload.clone() })
                    .collect();
                assert!(tampered.load_folder(k, copy));
            }
            Some(Content::Damaged(bytes)) => {
                tampered.load_file(k, bytes);
            }
            None => {}
        }
    }
    match mount(tampered, "pw", Cipher::ChaCha20) {
        Ok(fs) => fs,
        Err(e) => panic!("mount failed: {:?}", e),
    }
}

#[test]
fn a_flipped_header_is_corrupted_and_the_rest_is_not() {
    for place in [0usize, 11, 12, 16, 17, 20, 21, 48, 49, 60] {
        let mut fs = fresh(Cipher::ChaCha20);
        let (fh, a) = fs
            .create_nod(ROOT_INODE, b"abc", template(FileType::RegularFile), true, true)
            .unwrap();
        fs.write_all(a.ino, 0, b"abc", fh).unwrap();
        fs.release(fh).unwrap();
        let (fh, b) = fs
            .create_nod(ROOT_INODE, b"other", template(FileType::RegularFile), true, true)
            .unwrap();
        fs.write_all(b.ino, 0, b"fine", fh).unwrap();
        fs.release(fh).unwrap();
        let mut fs = remount_with(fs, a.ino, |bytes| bytes[place] ^= 2);
        let mut buf = vec![9u8; 3];
        match fs.open(a.ino, true, true) {
            Err(e) => assert_eq!(e, FsError::Corrupted, "byte {}", place),
            Ok(fh) => {
                assert_eq!(fs.read(a.ino, 0, &mut buf, fh), Err(FsError::Corrupted), "byte {}", place);
                assert_eq!(fs.write_all(a.ino, 0, b"x", fh), Err(FsError::Corrupted));
            }
        }
        assert_eq!(buf, vec![9u8; 3]);
        assert_eq!(fs.lookup(ROOT_INODE, b"abc").unwrap().ino, a.ino);
        let fh = fs.open(b.ino, true, false).unwrap();
        let mut fine = vec![0u8; 4];
        assert_eq!(fs.read(b.ino, 0, &mut fine, fh), Ok(4));
        assert_eq!(&fine, b"fine");
    }
}
