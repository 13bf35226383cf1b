use rencfs::attr::{
    access_to_open, check_access, check_owner, decode_attr, encode_attr, mask_for,
    mode_for_creation, mode_of_flags, Access, Action, FileAttr, FileType, SetFileAttr, Timestamp,
    ACCESS_EXECUTE, ACCESS_READ, ACCESS_WRITE, ROOT_INODE,
};
use rencfs::cipher::{open, open_record, seal, seal_record, Cipher};
use rencfs::content::{open_stream, seal_stream, ContentFile};
use rencfs::error::FsError;
use rencfs::fs::EncryptedFs;
use rencfs::keystore::{lock, lock_with, new_master_key, rekey, unlock};
use rencfs::names::{check_name, decrypt_name, encrypt_name};
use rencfs::secret::SecretBytes;
use rencfs::store::{Content, DataDir};

fn secret(text: &str) -> SecretBytes {
    SecretBytes::new(text.as_bytes().to_vec())
}

fn fresh() -> EncryptedFs {
    match EncryptedFs::new(DataDir::new(), &secret("pw"), Cipher::ChaCha20) {
        Ok(fs) => fs,
        Err(e) => panic!("mount failed: {:?}", e),
    }
}

fn attr(kind: FileType, perm: u16) -> FileAttr {
    let t = Timestamp { secs: 10, nanos: 20 };
    FileAttr {
        ino: 0,
        size: 0,
        blocks: 0,
        atime: t,
        mtime: t,
        ctime: t,
        crtime: t,
        kind,
        perm,
        nlink: 1,
        uid: 1000,
        gid: 100,
        rdev: 0,
        blksize: 0,
        flags: 0,
    }
}

fn file(fs: &mut EncryptedFs, parent: u64, name: &[u8]) -> (u64, u64) {
    let (fh, a) = fs
        .create_nod(parent, name, attr(FileType::RegularFile, 0o644), true, true)
        .unwrap();
    (fh, a.ino)
}

fn nothing() -> SetFileAttr {
    SetFileAttr {
        size: None,
        atime: None,
        mtime: None,
        ctime: None,
        crtime: None,
        perm: None,
        uid: None,
        gid: None,
        flags: None,
    }
}

fn listed(fs: &EncryptedFs, dir: u64) -> Vec<Vec<u8>> {
    fs.readdir(dir, 0).unwrap().into_iter().map(|e| e.name).collect()
}

#[test]
fn seal_and_open_give_the_plaintext_back() {
    for cipher in [Cipher::ChaCha20, Cipher::Aes256Gcm] {
        let key = [7u8; 32];
        let nonce = [9u8; 12];
        let sealed = seal(cipher, &key, &nonce, b"aad", b"plain text").unwrap();
        assert_eq!(sealed.len(), 10 + 16);
        assert_ne!(&sealed[..10], b"plain text");
        assert_eq!(open(cipher, &key, &nonce, b"aad", &sealed), Some(b"plain text".to_vec()));
        assert_eq!(open(cipher, &key, &nonce, b"other", &sealed), None);
        assert_eq!(open(cipher, &[8u8; 32], &nonce, b"aad", &sealed), None);
        let mut flipped = sealed.clone();
        flipped[3] ^= 0x80;
        assert_eq!(open(cipher, &key, &nonce, b"aad", &flipped), None);
    }
}

#[test]
fn the_two_ciphers_differ() {
    let key = [1u8; 32];
    let nonce = [2u8; 12];
    let a = seal(Cipher::ChaCha20, &key, &nonce, b"", b"same").unwrap();
    let b = seal(Cipher::Aes256Gcm, &key, &nonce, b"", b"same").unwrap();
    assert_ne!(a, b);
    assert_eq!(open(Cipher::Aes256Gcm, &key, &nonce, b"", &a), None);
}

#[test]
fn seal_refuses_keys_and_nonces_of_other_lengths() {
    assert_eq!(seal(Cipher::ChaCha20, &[0u8; 31], &[0u8; 12], b"", b"x"), None);
    assert_eq!(seal(Cipher::ChaCha20, &[0u8; 32], &[0u8; 11], b"", b"x"), None);
    assert_eq!(open(Cipher::ChaCha20, &[0u8; 31], &[0u8; 12], b"", &[0u8; 17]), None);
    assert_eq!(open(Cipher::Aes256Gcm, &[0u8; 32], &[0u8; 12], b"", &[0u8; 15]), None);
}

#[test]
fn records_carry_their_nonce() {
    let key = [3u8; 32];
    let one = seal_record(Cipher::ChaCha20, &key, b"", b"record");
    let two = seal_record(Cipher::ChaCha20, &key, b"", b"record");
    assert_eq!(one.len(), 6 + 28);
    assert_ne!(one, two);
    assert_eq!(open_record(Cipher::ChaCha20, &key, b"", &one), Some(b"record".to_vec()));
    assert_eq!(open_record(Cipher::ChaCha20, &key, b"", &one[..27]), None);
    assert_eq!(open_record(Cipher::ChaCha20, &key, b"x", &two), None);
}

#[test]
fn names_go_to_disk_in_the_url_safe_alphabet() {
    let key = [5u8; 32];
    let longest = vec![b'n'; 163];
    for name in [b"file1".to_vec(), b"with space and \xff".to_vec(), longest] {
        let disk = encrypt_name(Cipher::Aes256Gcm, &key, &name);
        assert!(!disk.is_empty() && disk.len() <= 255);
        assert!(disk
            .iter()
            .all(|c| c.is_ascii_alphanumeric() || *c == b'-' || *c == b'_'));
        assert_ne!(disk, name);
        assert_eq!(decrypt_name(Cipher::Aes256Gcm, &key, &disk), Some(name.clone()));
        assert_eq!(decrypt_name(Cipher::Aes256Gcm, &[6u8; 32], &disk), None);
    }
    assert_eq!(encrypt_name(Cipher::ChaCha20, &key, b"abc").len(), 42);
    assert_eq!(decrypt_name(Cipher::ChaCha20, &key, b"not/base64"), None);
}

#[test]
fn names_that_a_directory_takes() {
    assert!(check_name(b"a"));
    assert!(check_name(b"..."));
    assert!(check_name(&vec![b'x'; 163]));
    assert!(!check_name(b""));
    assert!(!check_name(b"."));
    assert!(!check_name(b".."));
    assert!(!check_name(b"a/b"));
    assert!(!check_name(b"a\0b"));
    assert!(!check_name(&vec![b'x'; 164]));
}

#[test]
fn key_file_opens_under_its_password_only() {
    let master = new_master_key();
    assert_eq!(master.expose().len(), 32);
    assert_ne!(master.expose(), new_master_key().expose());
    let file = lock(Cipher::ChaCha20, &secret("right"), &master);
    assert_eq!(file.len(), 100);
    let again = unlock(Cipher::ChaCha20, &secret("right"), &file).unwrap();
    assert_eq!(again.expose(), master.expose());
    assert_eq!(unlock(Cipher::ChaCha20, &secret("wrong"), &file).err(), Some(FsError::InvalidPassword));
    assert_eq!(
        unlock(Cipher::Aes256Gcm, &secret("right"), &file).err(),
        Some(FsError::InvalidPassword)
    );
    assert_eq!(
        unlock(Cipher::ChaCha20, &secret("right"), &file[..99]).err(),
        Some(FsError::InvalidDataDirStructure)
    );
    let mut costly = file.clone();
    costly[16..24].copy_from_slice(&(u32::MAX as u64).to_le_bytes());
    assert_eq!(
        unlock(Cipher::ChaCha20, &secret("right"), &costly).err(),
        Some(FsError::InvalidDataDirStructure)
    );
}

#[test]
fn rekey_keeps_the_master_key() {
    let master = new_master_key();
    let file = lock(Cipher::Aes256Gcm, &secret("old"), &master);
    let next = rekey(Cipher::Aes256Gcm, &secret("old"), &secret("new"), &file).unwrap();
    assert_ne!(next, file);
    assert_eq!(
        unlock(Cipher::Aes256Gcm, &secret("new"), &next).unwrap().expose(),
        master.expose()
    );
    assert_eq!(
        unlock(Cipher::Aes256Gcm, &secret("old"), &next).err(),
        Some(FsError::InvalidPassword)
    );
    assert_eq!(
        rekey(Cipher::Aes256Gcm, &secret("bad"), &secret("new"), &file).err(),
        Some(FsError::InvalidPassword)
    );
}

#[test]
fn secrets_hold_their_bytes() {
    let s = SecretBytes::new(vec![1, 2, 3]);
    assert_eq!(s.expose(), &[1, 2, 3]);
    assert_eq!(s.duplicate().expose(), &[1, 2, 3]);
}

#[test]
fn attributes_are_stored_word_by_word() {
    let mut a = attr(FileType::Symlink, 0o750);
    a.ino = 0x0102_0304_0506_0708;
    a.size = 77;
    let bytes = encode_attr(&a);
    assert_eq!(bytes.len(), 152);
    assert_eq!(&bytes[..8], &[8, 7, 6, 5, 4, 3, 2, 1]);
    assert_eq!(&bytes[8..16], &77u64.to_le_bytes());
    assert_eq!(&bytes[88..96], &2u64.to_le_bytes());
    assert_eq!(&bytes[96..104], &0o750u64.to_le_bytes());
    assert_eq!(decode_attr(&bytes), Some(a));
    assert_eq!(decode_attr(&bytes[..151]), None);
    let mut kind = bytes.clone();
    kind[88] = 3;
    assert_eq!(decode_attr(&kind), None);
    let mut perm = bytes.clone();
    perm[98] = 1;
    assert_eq!(decode_attr(&perm), None);
}

#[test]
fn classical_permission_check() {
    let a = attr(FileType::RegularFile, 0o640);
    assert!(check_access(&a, 1000, 1, ACCESS_READ | ACCESS_WRITE));
    assert!(!check_access(&a, 1000, 1, ACCESS_EXECUTE));
    assert!(check_access(&a, 1, 100, ACCESS_READ));
    assert!(!check_access(&a, 1, 100, ACCESS_WRITE));
    assert!(!check_access(&a, 1, 1, ACCESS_READ));
    assert!(check_access(&a, 0, 0, ACCESS_READ | ACCESS_WRITE));
    assert!(!check_access(&a, 0, 0, ACCESS_EXECUTE));
    assert!(check_access(&attr(FileType::RegularFile, 0o001), 0, 0, ACCESS_EXECUTE));
    assert!(check_access(&attr(FileType::Directory, 0o000), 0, 0, ACCESS_EXECUTE));
    assert!(check_access(&a, 5, 5, 0));
}

#[test]
fn creation_strips_the_set_id_bits() {
    assert_eq!(mode_for_creation(0o6755, false), 0o0755);
    assert_eq!(mode_for_creation(0o6755, true), 0o6755);
    assert_eq!(mode_for_creation(0o1777, false), 0o1777);
    assert_eq!(mode_for_creation(0o170644, true), 0o0644);
    let mut fs = fresh();
    let (_, made) = fs
        .create_nod(ROOT_INODE, b"plain", attr(FileType::RegularFile, 0o4755), false, false)
        .unwrap();
    assert_eq!(made.perm, 0o755);
    fs.set_suid_support(true);
    let (_, kept) = fs
        .create_nod(ROOT_INODE, b"suid", attr(FileType::RegularFile, 0o4755), false, false)
        .unwrap();
    assert_eq!(kept.perm, 0o4755);
}

#[test]
fn create_nod_sets_what_the_engine_decides() {
    let mut fs = fresh();
    let mut template = attr(FileType::RegularFile, 0o600);
    template.ino = 99;
    template.size = 5;
    template.nlink = 7;
    let (fh, a) = fs.create_nod(ROOT_INODE, b"f", template, false, false).unwrap();
    assert_eq!(fh, 0);
    assert_eq!(a.ino, 2);
    assert_eq!(a.size, 0);
    assert_eq!(a.nlink, 1);
    assert_eq!(a.uid, 1000);
    assert_eq!(a.atime, Timestamp { secs: 10, nanos: 20 });
    assert_eq!(fs.read_attr(2), Ok(a));
    let (fh, b) = fs.create_nod(ROOT_INODE, b"g", template, true, false).unwrap();
    assert_eq!((fh, b.ino), (1, 3));
}

#[test]
fn what_is_made_is_found_once() {
    let mut fs = fresh();
    let (_, b) = file(&mut fs, ROOT_INODE, b"b");
    let (_, a) = file(&mut fs, ROOT_INODE, b"a");
    let (_, ab) = file(&mut fs, ROOT_INODE, b"ab");
    let d = fs.mkdir(ROOT_INODE, b"B", 0o700).unwrap();
    assert_eq!(fs.lookup(ROOT_INODE, b"a").unwrap().ino, a);
    assert_eq!(fs.lookup(ROOT_INODE, b"ab").unwrap().ino, ab);
    assert_eq!(fs.lookup(ROOT_INODE, b"b").unwrap().ino, b);
    assert_eq!(fs.lookup(ROOT_INODE, b".").unwrap().ino, ROOT_INODE);
    assert_eq!(fs.lookup(d.ino, b"..").unwrap().ino, ROOT_INODE);
    assert_eq!(
        listed(&fs, ROOT_INODE),
        vec![b".".to_vec(), b"..".to_vec(), b"B".to_vec(), b"a".to_vec(), b"ab".to_vec(), b"b".to_vec()]
    );
    let names = listed(&fs, ROOT_INODE);
    assert_eq!(names.iter().filter(|n| n.as_slice() == b"ab").count(), 1);
    assert_eq!(fs.read_attr(ROOT_INODE).unwrap().size, 4);
}

#[test]
fn every_error_kind_of_the_directory_operations() {
    let mut fs = fresh();
    let (_, f) = file(&mut fs, ROOT_INODE, b"f");
    let d = fs.mkdir(ROOT_INODE, b"d", 0o755).unwrap();
    file(&mut fs, d.ino, b"inner");
    let t = attr(FileType::RegularFile, 0o644);
    assert_eq!(fs.create_nod(ROOT_INODE, b"f", t, false, false), Err(FsError::AlreadyExists));
    assert_eq!(fs.mkdir(ROOT_INODE, b"d", 0o755), Err(FsError::AlreadyExists));
    assert_eq!(fs.create_nod(ROOT_INODE, b"a/b", t, false, false), Err(FsError::InvalidInput));
    assert_eq!(fs.create_nod(ROOT_INODE, b"..", t, false, false), Err(FsError::InvalidInput));
    assert_eq!(
        fs.create_nod(ROOT_INODE, b"s", attr(FileType::Symlink, 0o777), false, false),
        Err(FsError::InvalidInput)
    );
    assert_eq!(fs.create_nod(f, b"x", t, false, false), Err(FsError::NotADirectory));
    assert_eq!(fs.create_nod(77, b"x", t, false, false), Err(FsError::NotFound));
    assert_eq!(fs.lookup(ROOT_INODE, b"none"), Err(FsError::NotFound));
    assert_eq!(fs.lookup(f, b"x"), Err(FsError::NotADirectory));
    assert_eq!(fs.unlink(ROOT_INODE, b"d"), Err(FsError::IsADirectory));
    assert_eq!(fs.unlink(ROOT_INODE, b"none"), Err(FsError::NotFound));
    assert_eq!(fs.rmdir(ROOT_INODE, b"f"), Err(FsError::NotADirectory));
    assert_eq!(fs.rmdir(ROOT_INODE, b"d"), Err(FsError::NotEmpty));
    assert_eq!(fs.readdir(f, 0).err(), Some(FsError::NotADirectory));
    assert_eq!(fs.open(d.ino, true, false), Err(FsError::IsADirectory));
    assert_eq!(fs.open(f, false, false), Err(FsError::InvalidInput));
    assert_eq!(fs.open(77, true, false), Err(FsError::NotFound));
    assert_eq!(fs.read_attr(77), Err(FsError::NotFound));
    assert_eq!(fs.unlink(d.ino, b"inner"), Ok(()));
    assert_eq!(fs.rmdir(ROOT_INODE, b"d"), Ok(()));
    assert_eq!(fs.read_attr(d.ino), Err(FsError::NotFound));
    assert_eq!(listed(&fs, ROOT_INODE), vec![b".".to_vec(), b"..".to_vec(), b"f".to_vec()]);
}

#[test]
fn handles_allow_what_they_were_opened_for() {
    let mut fs = fresh();
    let (fh, ino) = file(&mut fs, ROOT_INODE, b"f");
    fs.write_all(ino, 0, b"data", fh).unwrap();
    fs.release(fh).unwrap();
    let reader = fs.open(ino, true, false).unwrap();
    let writer = fs.open(ino, false, true).unwrap();
    let mut buf = vec![0u8; 4];
    assert_eq!(fs.write_all(ino, 0, b"x", reader), Err(FsError::PermissionDenied));
    assert_eq!(fs.read(ino, 0, &mut buf, writer), Err(FsError::PermissionDenied));
    assert_eq!(fs.read(ino, 0, &mut buf, 999), Err(FsError::InvalidInput));
    assert_eq!(fs.read(ino + 1, 0, &mut buf, reader), Err(FsError::InvalidInput));
    assert_eq!(fs.flush(999), Err(FsError::InvalidInput));
    assert_eq!(fs.release(999), Err(FsError::InvalidInput));
    assert_eq!(fs.read(ino, 0, &mut buf, reader), Ok(4));
    assert_eq!(&buf, b"data");
    assert_eq!(fs.release(fh), Err(FsError::InvalidInput));
}

#[test]
fn size_follows_the_content_at_flush() {
    let mut fs = fresh();
    assert!(fs.set_chunk_size(16));
    assert!(!fs.set_chunk_size(8));
    let (fh, ino) = file(&mut fs, ROOT_INODE, b"f");
    let text: Vec<u8> = (0..100u8).collect();
    fs.write_all(ino, 0, &text, fh).unwrap();
    assert_eq!(fs.read_attr(ino).unwrap().size, 0);
    let mut early = vec![0u8; 10];
    assert_eq!(fs.read(ino, 0, &mut early, fh), Ok(0));
    fs.set_clock(Timestamp { secs: 50, nanos: 5 });
    fs.flush(fh).unwrap();
    let a = fs.read_attr(ino).unwrap();
    assert_eq!(a.size, 100);
    assert_eq!(a.mtime, Timestamp { secs: 50, nanos: 5 });
    assert_eq!(a.atime, Timestamp { secs: 10, nanos: 20 });
    let mut buf = vec![0u8; 200];
    assert_eq!(fs.read(ino, 0, &mut buf, fh), Ok(100));
    assert_eq!(&buf[..100], text.as_slice());
    assert_eq!(&buf[100..], &[0u8; 100][..]);
    let mut middle = vec![0u8; 20];
    assert_eq!(fs.read(ino, 30, &mut middle, fh), Ok(20));
    assert_eq!(middle, (30..50u8).collect::<Vec<u8>>());
    fs.write_all(ino, 15, b"ABCD", fh).unwrap();
    fs.flush(fh).unwrap();
    assert_eq!(fs.read_attr(ino).unwrap().size, 100);
    assert_eq!(fs.read(ino, 10, &mut middle, fh), Ok(20));
    assert_eq!(&middle[..12], &[10, 11, 12, 13, 14, b'A', b'B', b'C', b'D', 19, 20, 21]);
    assert_eq!(fs.read(ino, 100, &mut middle, fh), Ok(0));
    assert_eq!(fs.read(ino, 95, &mut middle, fh), Ok(5));
}

#[test]
fn setattr_cuts_and_grows() {
    let mut fs = fresh();
    assert!(fs.set_chunk_size(16));
    let (fh, ino) = file(&mut fs, ROOT_INODE, b"f");
    let text: Vec<u8> = (1..=40u8).collect();
    fs.write_all(ino, 0, &text, fh).unwrap();
    fs.flush(fh).unwrap();
    fs.set_clock(Timestamp { secs: 9, nanos: 9 });
    let cut = fs.setattr(ino, SetFileAttr { size: Some(20), ..nothing() }).unwrap();
    assert_eq!(cut.size, 20);
    assert_eq!(cut.mtime, Timestamp { secs: 9, nanos: 9 });
    assert_eq!(cut.ctime, Timestamp { secs: 9, nanos: 9 });
    let mut buf = vec![0u8; 64];
    assert_eq!(fs.read(ino, 0, &mut buf, fh), Ok(20));
    assert_eq!(&buf[..20], &text[..20]);
    let grown = fs.setattr(ino, SetFileAttr { size: Some(50), ..nothing() }).unwrap();
    assert_eq!(grown.size, 50);
    assert_eq!(fs.read(ino, 0, &mut buf, fh), Ok(50));
    assert_eq!(&buf[..20], &text[..20]);
    assert_eq!(&buf[20..50], &[0u8; 30][..]);
    let even = fs.setattr(ino, SetFileAttr { size: Some(32), ..nothing() }).unwrap();
    assert_eq!(even.size, 32);
    let none = fs.setattr(ino, SetFileAttr { size: Some(0), ..nothing() }).unwrap();
    assert_eq!(none.size, 0);
    assert_eq!(fs.read(ino, 0, &mut buf, fh), Ok(0));
    let changed = fs
        .setattr(
            ino,
            SetFileAttr { perm: Some(0o170600), uid: Some(1), gid: Some(2), ..nothing() },
        )
        .unwrap();
    assert_eq!((changed.perm, changed.uid, changed.gid, changed.size), (0o600, 1, 2, 0));
    assert_eq!(
        fs.setattr(ROOT_INODE, SetFileAttr { size: Some(1), ..nothing() }),
        Err(FsError::IsADirectory)
    );
    assert_eq!(fs.setattr(77, nothing()), Err(FsError::NotFound));
    assert_eq!(
        fs.setattr(ino, SetFileAttr { size: Some(u64::MAX), ..nothing() }),
        Err(FsError::InvalidInput)
    );
    assert_eq!(fs.write_all(ino, u64::MAX, b"x", fh), Err(FsError::InvalidInput));
}

#[test]
fn delete_on_last_close() {
    let mut fs = fresh();
    let (fh, ino) = file(&mut fs, ROOT_INODE, b"gone");
    fs.write_all(ino, 0, b"kept while open", fh).unwrap();
    fs.flush(fh).unwrap();
    let other = fs.open(ino, true, false).unwrap();
    assert_eq!(fs.unlink(ROOT_INODE, b"gone"), Ok(()));
    assert_eq!(fs.lookup(ROOT_INODE, b"gone"), Err(FsError::NotFound));
    assert_eq!(fs.read_attr(ino).unwrap().nlink, 0);
    let mut buf = vec![0u8; 15];
    assert_eq!(fs.read(ino, 0, &mut buf, fh), Ok(15));
    assert_eq!(&buf, b"kept while open");
    fs.release(fh).unwrap();
    assert!(fs.data().inode(ino).is_some());
    assert_eq!(fs.read(ino, 0, &mut buf, other), Ok(15));
    fs.release(other).unwrap();
    assert!(fs.data().inode(ino).is_none());
    assert!(fs.data().content(ino).is_none());
    assert_eq!(fs.read_attr(ino), Err(FsError::NotFound));
    let (_, next) = file(&mut fs, ROOT_INODE, b"gone");
    assert_ne!(next, ino);
}

#[test]
fn unlink_without_handles_removes_at_once() {
    let mut fs = fresh();
    let (fh, ino) = file(&mut fs, ROOT_INODE, b"f");
    fs.release(fh).unwrap();
    fs.take_changes();
    assert_eq!(fs.unlink(ROOT_INODE, b"f"), Ok(()));
    assert!(fs.data().inode(ino).is_none());
    assert!(fs.data().content(ino).is_none());
    let mut changed = fs.take_changes();
    changed.sort();
    changed.dedup();
    assert_eq!(changed, vec![ROOT_INODE, ino]);
    assert_eq!(fs.take_changes(), Vec::<u64>::new());
}

#[test]
fn rename_replaces_what_it_may() {
    let mut fs = fresh();
    let (ha, a) = file(&mut fs, ROOT_INODE, b"a");
    let (hb, b) = file(&mut fs, ROOT_INODE, b"b");
    fs.release(ha).unwrap();
    fs.release(hb).unwrap();
    let d = fs.mkdir(ROOT_INODE, b"d", 0o755).unwrap();
    let e = fs.mkdir(ROOT_INODE, b"e", 0o755).unwrap();
    let (held, inner) = file(&mut fs, d.ino, b"inner");
    assert_eq!(fs.rename(ROOT_INODE, b"a", ROOT_INODE, b"d"), Err(FsError::IsADirectory));
    assert_eq!(fs.rename(ROOT_INODE, b"d", ROOT_INODE, b"a"), Err(FsError::NotADirectory));
    assert_eq!(fs.rename(ROOT_INODE, b"e", ROOT_INODE, b"d"), Err(FsError::NotEmpty));
    assert_eq!(fs.rename(ROOT_INODE, b"none", ROOT_INODE, b"x"), Err(FsError::NotFound));
    assert_eq!(fs.rename(ROOT_INODE, b"a", ROOT_INODE, b"x/y"), Err(FsError::InvalidInput));
    assert_eq!(fs.rename(ROOT_INODE, b"a", a, b"x"), Err(FsError::NotADirectory));
    assert_eq!(fs.rename(ROOT_INODE, b"a", ROOT_INODE, b"a"), Ok(()));
    assert_eq!(fs.rename(ROOT_INODE, b"a", ROOT_INODE, b"b"), Ok(()));
    assert_eq!(fs.lookup(ROOT_INODE, b"b").unwrap().ino, a);
    assert_eq!(fs.read_attr(b), Err(FsError::NotFound));
    assert_eq!(fs.rename(ROOT_INODE, b"b", d.ino, b"inner"), Ok(()));
    assert_eq!(fs.lookup(d.ino, b"inner").unwrap().ino, a);
    assert_eq!(fs.read_attr(inner).unwrap().nlink, 0);
    fs.release(held).unwrap();
    assert_eq!(fs.read_attr(inner), Err(FsError::NotFound));
    assert_eq!(fs.rename(d.ino, b"inner", e.ino, b"moved"), Ok(()));
    assert_eq!(fs.rename(ROOT_INODE, b"d", ROOT_INODE, b"e"), Err(FsError::NotEmpty));
    assert_eq!(fs.rename(ROOT_INODE, b"e", ROOT_INODE, b"d"), Ok(()));
    assert_eq!(fs.lookup(ROOT_INODE, b"d").unwrap().ino, e.ino);
    assert_eq!(fs.read_attr(d.ino), Err(FsError::NotFound));
    assert_eq!(listed(&fs, ROOT_INODE), vec![b".".to_vec(), b"..".to_vec(), b"d".to_vec()]);
    assert_eq!(listed(&fs, e.ino), vec![b".".to_vec(), b"..".to_vec(), b"moved".to_vec()]);
    assert_eq!(fs.read_attr(ROOT_INODE).unwrap().size, 1);
    assert_eq!(fs.read_attr(e.ino).unwrap().size, 1);
}

#[test]
fn mounting_checks_the_data_directory() {
    let mut only_records = DataDir::new();
    only_records.load_inode(5, vec![1, 2, 3]);
    assert_eq!(
        EncryptedFs::new(only_records, &secret("pw"), Cipher::ChaCha20).err(),
        Some(FsError::InvalidDataDirStructure)
    );
    let mut bad_key = DataDir::new();
    bad_key.set_key(vec![0u8; 10]);
    assert_eq!(
        EncryptedFs::new(bad_key, &secret("pw"), Cipher::ChaCha20).err(),
        Some(FsError::InvalidDataDirStructure)
    );
    let data = fresh().into_data();
    let mut rootless = DataDir::new();
    rootless.set_key(data.key().unwrap().clone());
    assert_eq!(
        EncryptedFs::new(rootless, &secret("pw"), Cipher::ChaCha20).err(),
        Some(FsError::InvalidDataDirStructure)
    );
    let mut unchanged = DataDir::new();
    assert_eq!(
        EncryptedFs::change_password(&mut unchanged, &secret("a"), &secret("b"), Cipher::ChaCha20),
        Err(FsError::InvalidDataDirStructure)
    );
    let mut data = data;
    assert_eq!(
        EncryptedFs::change_password(&mut data, &secret("no"), &secret("b"), Cipher::ChaCha20),
        Err(FsError::InvalidPassword)
    );
    assert!(EncryptedFs::new(data, &secret("pw"), Cipher::ChaCha20).is_ok());
}

#[test]
fn a_flipped_record_is_corrupted_and_the_rest_is_not() {
    let mut fs = fresh();
    let (fh, good) = file(&mut fs, ROOT_INODE, b"good");
    fs.write_all(good, 0, b"fine", fh).unwrap();
    fs.release(fh).unwrap();
    let (fh, bad) = file(&mut fs, ROOT_INODE, b"bad");
    fs.release(fh).unwrap();
    let data = fs.into_data();
    let mut tampered = DataDir::new();
    tampered.set_key(data.key().unwrap().clone());
    for ino in [ROOT_INODE, good, bad] {
        let mut record = data.inode(ino).unwrap().clone();
        if ino == bad {
            record[40] ^= 4;
        }
        tampered.load_inode(ino, record);
        match data.content(ino).unwrap() {
            Content::File(f) => assert!(tampered.load_file(ino, &f.encode())),
            Content::Folder(files) => {
                let copy = files
                    .iter()
                    .map(|f| rencfs::dir::DirFile {
                        name: f.name.clone(),
                        payload: f.payload.clone(),
                    })
                    .collect();
                assert!(tampered.load_folder(ino, copy));
            }
            Content::Damaged(_) => panic!("a stored file is damaged"),
        }
    }
    let mut fs = EncryptedFs::new(tampered, &secret("pw"), Cipher::ChaCha20).ok().unwrap();
    assert_eq!(fs.read_attr(bad), Err(FsError::Corrupted));
    assert_eq!(fs.lookup(ROOT_INODE, b"bad"), Err(FsError::Corrupted));
    assert_eq!(fs.open(bad, true, false), Err(FsError::Corrupted));
    assert_eq!(fs.lookup(ROOT_INODE, b"good").unwrap().ino, good);
    let fh = fs.open(good, true, false).unwrap();
    let mut buf = vec![0u8; 4];
    assert_eq!(fs.read(good, 0, &mut buf, fh), Ok(4));
    assert_eq!(&buf, b"fine");
}

#[test]
fn content_files_stand_on_disk_as_header_and_chunks() {
    let key = [4u8; 32];
    let mut f = ContentFile::new(Cipher::Aes256Gcm, 16, 9, &key);
    assert_eq!(f.write(9, &key, 0, &[1u8; 40]), Ok(()));
    assert_eq!(f.len(), 40);
    let bytes = f.encode();
    assert_eq!(bytes.len(), 49 + 2 * (16 + 28) + (8 + 28));
    assert_eq!(&bytes[12..16], &16u32.to_le_bytes());
    assert_eq!(bytes[16], 1);
    assert_eq!(&bytes[17..21], &1u32.to_le_bytes());
    let back = ContentFile::decode(&bytes).unwrap();
    assert_eq!(back.encode(), bytes);
    assert_eq!(back.read(9, &key, 0, 64, 40), Ok(vec![1u8; 40]));
    assert_eq!(back.read(8, &key, 0, 64, 40), Err(FsError::Corrupted));
    assert_eq!(back.read(9, &key, 0, 64, 41), Err(FsError::Corrupted));
    assert_eq!(back.read(9, &key, 40, 64, 40), Ok(vec![]));
    assert!(ContentFile::decode(&bytes[..20]).is_none());
    assert!(ContentFile::decode(&bytes[..bytes.len() - 8]).is_none());
    assert!(ContentFile::decode(&bytes[..49]).is_some());
    assert!(ContentFile::decode(&bytes[..48]).is_none());
    let mut huge = bytes.clone();
    huge[12..16].copy_from_slice(&u32::MAX.to_le_bytes());
    assert!(ContentFile::decode(&huge).is_none());
    let mut cipher = bytes.clone();
    cipher[16] = 2;
    assert!(ContentFile::decode(&cipher).is_none());
    let mut swapped = bytes.clone();
    let (first, second) = (49..49 + 44, 49 + 44..49 + 88);
    let one: Vec<u8> = swapped[first.clone()].to_vec();
    let two: Vec<u8> = swapped[second.clone()].to_vec();
    swapped[first].copy_from_slice(&two);
    swapped[second].copy_from_slice(&one);
    let moved = ContentFile::decode(&swapped).unwrap();
    assert_eq!(moved.read(9, &key, 0, 16, 40), Err(FsError::Corrupted));
    assert_eq!(moved.read(9, &key, 32, 8, 40), Ok(vec![1u8; 8]));
}

#[test]
fn chunks_are_never_sealed_twice_under_one_nonce() {
    let key = [4u8; 32];
    let mut f = ContentFile::new(Cipher::ChaCha20, 16, 3, &key);
    f.write(3, &key, 0, &[5u8; 16]).unwrap();
    let first = f.chunks[0].clone();
    f.write(3, &key, 0, &[5u8; 16]).unwrap();
    assert_ne!(f.chunks[0][..12], first[..12]);
    assert_ne!(f.chunks[0], first);
    assert_eq!(f.generation, 2);
    f.write(3, &key, 0, &[]).unwrap();
    assert_eq!(f.generation, 3);
    let before = f.chunks[0].clone();
    assert_eq!(f.resize(3, &key, 5), Ok(()));
    assert_eq!(f.generation, 4);
    assert_ne!(f.chunks[0][..12], before[..12]);
    assert_eq!(f.len(), 5);
    assert_eq!(f.read(3, &key, 0, 16, 5), Ok(vec![5u8; 5]));
}

#[test]
fn error_numbers() {
    assert_eq!(FsError::NotFound.errno(), 2);
    assert_eq!(FsError::Corrupted.errno(), 5);
    assert_eq!(FsError::InvalidDataDirStructure.errno(), 5);
    assert_eq!(FsError::Other.errno(), 5);
    assert_eq!(FsError::PermissionDenied.errno(), 13);
    assert_eq!(FsError::InvalidPassword.errno(), 13);
    assert_eq!(FsError::AlreadyExists.errno(), 17);
    assert_eq!(FsError::NotADirectory.errno(), 20);
    assert_eq!(FsError::IsADirectory.errno(), 21);
    assert_eq!(FsError::InvalidInput.errno(), 22);
    assert_eq!(FsError::NotEmpty.errno(), 39);
    assert_eq!(FsError::Io(28).errno(), 28);
}

#[test]
fn keyring_names_and_debug_builds() {
    assert_eq!(rencfs::keyring_user("home"), "encrypted_fs.home");
    assert_eq!(rencfs::keyring_user(""), "encrypted_fs.");
    assert_eq!(rencfs::KEYRING_SERVICE, "rencfs");
    assert!(rencfs::is_debug(true));
    assert!(!rencfs::is_debug(false));
}

#[test]
fn streams_seal_and_open() {
    let key = [8u8; 32];
    let text: Vec<u8> = (0..=255u8).cycle().take(1000).collect();
    for cipher in [Cipher::ChaCha20, Cipher::Aes256Gcm] {
        let sealed = seal_stream(cipher, &key, 4, 64, &text).unwrap();
        assert_eq!(sealed.len(), 49 + 1000 + 16 * 28);
        assert!(!sealed.windows(16).any(|w| w == &text[..16]));
        assert_eq!(open_stream(&key, 4, &sealed), Ok(text.clone()));
        assert_eq!(open_stream(&key, 5, &sealed), Err(FsError::Corrupted));
        assert_eq!(open_stream(&[9u8; 32], 4, &sealed), Err(FsError::Corrupted));
        assert_eq!(open_stream(&key, 4, &sealed[..sealed.len() - 1]), Err(FsError::Corrupted));
        assert_eq!(open_stream(&key, 4, &sealed[..10]), Err(FsError::Corrupted));
        let mut flipped = sealed.clone();
        flipped[500] ^= 1;
        assert_eq!(open_stream(&key, 4, &flipped), Err(FsError::Corrupted));
    }
    let empty = seal_stream(Cipher::ChaCha20, &key, 1, 16, b"").unwrap();
    assert_eq!(empty.len(), 49);
    assert_eq!(open_stream(&key, 1, &empty), Ok(vec![]));
    assert_eq!(seal_stream(Cipher::ChaCha20, &key, 1, 8, b"x"), None);
    assert_eq!(seal_stream(Cipher::ChaCha20, &key[..31], 1, 16, b"x"), None);
}

#[test]
fn write_all_stamps_the_file() {
    let mut fs = fresh();
    let (fh, ino) = file(&mut fs, ROOT_INODE, b"f");
    fs.set_clock(Timestamp { secs: 77, nanos: 1 });
    fs.write_all(ino, 0, b"x", fh).unwrap();
    let a = fs.read_attr(ino).unwrap();
    assert_eq!(a.mtime, Timestamp { secs: 77, nanos: 1 });
    assert_eq!(a.ctime, Timestamp { secs: 77, nanos: 1 });
    assert_eq!(a.atime, Timestamp { secs: 10, nanos: 20 });
    assert_eq!(a.size, 0);
}

#[test]
fn every_entry_leads_to_attributes_of_its_kind() {
    let mut fs = fresh();
    file(&mut fs, ROOT_INODE, b"f");
    let d = fs.mkdir(ROOT_INODE, b"d", 0o755).unwrap();
    file(&mut fs, d.ino, b"g");
    fs.mkdir(d.ino, b"e", 0o700).unwrap();
    fs.rename(ROOT_INODE, b"f", d.ino, b"h").unwrap();
    for dir in [ROOT_INODE, d.ino] {
        for entry in fs.readdir(dir, 0).unwrap() {
            let a = fs.read_attr(entry.ino).unwrap();
            assert_eq!(a.kind, entry.kind);
            assert_eq!(a.ino, entry.ino);
            if entry.name != b"." && entry.name != b".." {
                assert_eq!(fs.lookup(dir, &entry.name), Ok(a));
            }
        }
    }
    assert_eq!(fs.readdir(d.ino, 0).unwrap().len(), 5);
}

#[test]
fn callers_are_permitted_by_the_classical_rule() {
    assert_eq!(mask_for(Access::Search), 1);
    assert_eq!(mask_for(Access::List), 4);
    assert_eq!(mask_for(Access::Change), 3);
    assert_eq!(mask_for(Access::Read), 4);
    assert_eq!(mask_for(Access::Write), 2);
    assert_eq!(mask_for(Access::ReadWrite), 6);
    let a = attr(FileType::RegularFile, 0o640);
    assert!(check_owner(&a, 1000));
    assert!(check_owner(&a, 0));
    assert!(!check_owner(&a, 1001));
    let mut fs = fresh();
    let (_, made) = fs
        .create_nod(ROOT_INODE, b"f", attr(FileType::RegularFile, 0o640), false, false)
        .unwrap();
    assert_eq!(fs.permit(made.ino, 1000, 1, Access::ReadWrite), Ok(()));
    assert_eq!(fs.permit(made.ino, 7, 100, Access::Read), Ok(()));
    assert_eq!(fs.permit(made.ino, 7, 100, Access::Write), Err(FsError::PermissionDenied));
    assert_eq!(fs.permit(made.ino, 7, 7, Access::Read), Err(FsError::PermissionDenied));
    assert_eq!(fs.permit(ROOT_INODE, 7, 7, Access::Search), Ok(()));
    assert_eq!(fs.permit(ROOT_INODE, 7, 7, Access::Change), Err(FsError::PermissionDenied));
    assert_eq!(fs.permit(ROOT_INODE, 0, 0, Access::Change), Ok(()));
    assert_eq!(fs.permit(99, 0, 0, Access::Read), Err(FsError::NotFound));
}

#[test]
fn every_flipped_byte_of_a_content_file_is_met() {
    let key = [4u8; 32];
    for cipher in [Cipher::ChaCha20, Cipher::Aes256Gcm] {
        let mut f = ContentFile::new(cipher, 16, 7, &key);
        f.write(7, &key, 0, b"abc").unwrap();
        let bytes = f.encode();
        assert_eq!(bytes.len(), 49 + 3 + 28);
        assert_eq!(ContentFile::decode(&bytes).unwrap().read(7, &key, 0, 3, 3), Ok(b"abc".to_vec()));
        assert_eq!(open_stream(&key, 7, &bytes), Ok(b"abc".to_vec()));
        for place in 0..bytes.len() {
            for bit in [0x01u8, 0x10, 0x80] {
                let mut flipped = bytes.clone();
                flipped[place] ^= bit;
                match ContentFile::decode(&flipped) {
                    None => {}
                    Some(mut g) => {
                        assert_eq!(g.read(7, &key, 0, 3, 3), Err(FsError::Corrupted));
                        assert_eq!(g.write(7, &key, 0, b"x"), Err(FsError::Corrupted));
                        assert_eq!(g.resize(7, &key, 1), Err(FsError::Corrupted));
                    }
                }
                assert_eq!(open_stream(&key, 7, &flipped), Err(FsError::Corrupted));
            }
        }
    }
}

#[test]
fn the_header_is_bound_to_the_inode_and_its_fields() {
    let key = [4u8; 32];
    let base = vec![3u8; 12];
    let a = ContentFile::with_base(Cipher::ChaCha20, 16, 7, &key, base.clone(), &[5u8; 12]);
    let b = ContentFile::with_base(Cipher::ChaCha20, 16, 7, &key, base.clone(), &[5u8; 12]);
    assert_eq!(a.encode(), b.encode());
    assert_eq!(&a.encode()[..12], &base[..]);
    assert_eq!(&a.seal[..12], &[5u8; 12]);
    assert!(a.check_header(7, &key));
    assert!(!a.check_header(8, &key));
    assert!(!a.check_header(7, &[5u8; 32]));
    let mut aad = 7u64.to_le_bytes().to_vec();
    aad.extend_from_slice(&a.encode()[..21]);
    assert_eq!(open(Cipher::ChaCha20, &key, &a.seal[..12], &aad, &a.seal[12..]), Some(vec![]));
    let mut other = ContentFile::with_base(Cipher::ChaCha20, 16, 7, &key, base, &[5u8; 12]);
    other.chunk_size = 32;
    assert!(!other.check_header(7, &key));
    assert_eq!(other.read(7, &key, 0, 0, 0), Err(FsError::Corrupted));
}

#[test]
fn a_file_whose_generations_are_used_up_takes_no_write() {
    let key = [4u8; 32];
    let mut f = ContentFile::with_base(Cipher::ChaCha20, 16, 2, &key, vec![1u8; 12], &[2u8; 12]);
    f.generation = u32::MAX - 1;
    let mut aad = 2u64.to_le_bytes().to_vec();
    aad.extend_from_slice(&f.encode()[..21]);
    f.seal = seal_record(Cipher::ChaCha20, &key, &aad, b"");
    assert!(f.check_header(2, &key));
    assert_eq!(f.write(2, &key, 0, b"last"), Ok(()));
    assert_eq!(f.generation, u32::MAX);
    let kept = f.encode();
    assert_eq!(f.write(2, &key, 0, b"more"), Err(FsError::Other));
    assert_eq!(f.resize(2, &key, 2), Err(FsError::Other));
    assert_eq!(f.encode(), kept);
    assert_eq!(f.read(2, &key, 0, 4, 4), Ok(b"last".to_vec()));
}

#[test]
fn key_files_are_laid_out_from_salt_and_nonce() {
    let master = SecretBytes::new(vec![9u8; 32]);
    let one = lock_with(Cipher::ChaCha20, &secret("pw"), &master, &[1u8; 16], &[2u8; 12]);
    let two = lock_with(Cipher::ChaCha20, &secret("pw"), &master, &[1u8; 16], &[2u8; 12]);
    assert_eq!(one, two);
    assert_eq!(&one[..16], &[1u8; 16]);
    assert_eq!(&one[16..24], &19456u64.to_le_bytes());
    assert_eq!(&one[24..32], &2u64.to_le_bytes());
    assert_eq!(&one[32..40], &1u64.to_le_bytes());
    assert_eq!(&one[40..52], &[2u8; 12]);
    assert_eq!(unlock(Cipher::ChaCha20, &secret("pw"), &one).unwrap().expose(), &[9u8; 32]);
    let other = lock_with(Cipher::ChaCha20, &secret("pw"), &master, &[3u8; 16], &[2u8; 12]);
    assert_ne!(&one[52..], &other[52..]);
    for place in [0usize, 15, 40, 51, 52, 99] {
        let mut flipped = one.clone();
        flipped[place] ^= 1;
        assert_eq!(
            unlock(Cipher::ChaCha20, &secret("pw"), &flipped).err(),
            Some(FsError::InvalidPassword)
        );
    }
}

#[test]
fn requests_are_authorized_by_the_engine() {
    assert_eq!(mode_of_flags(0), (true, false));
    assert_eq!(mode_of_flags(1), (false, true));
    assert_eq!(mode_of_flags(2), (true, true));
    assert_eq!(mode_of_flags(3), (false, false));
    assert_eq!(mode_of_flags(0o100 | 0o1000 | 1), (false, true));
    assert_eq!(access_to_open(true, true), Access::ReadWrite);
    assert_eq!(access_to_open(false, true), Access::Write);
    assert_eq!(access_to_open(true, false), Access::Read);
    assert_eq!(access_to_open(false, false), Access::Read);
    let mut fs = fresh();
    let d = fs.mkdir_owned(ROOT_INODE, b"home", 0o750, 1000, 100).unwrap();
    assert_eq!((d.uid, d.gid, d.perm, d.kind), (1000, 100, 0o750, FileType::Directory));
    assert_eq!(fs.read_attr(d.ino), Ok(d));
    assert_eq!(fs.mkdir_owned(ROOT_INODE, b"home", 0o750, 1, 1), Err(FsError::AlreadyExists));
    let (_, f) = fs
        .create_nod(d.ino, b"f", attr(FileType::RegularFile, 0o640), false, false)
        .unwrap();
    let owner = (1000, 100);
    let peer = (7, 100);
    let stranger = (7, 7);
    for (who, action, want) in [
        (owner, Action::Lookup { parent: d.ino }, Ok(())),
        (peer, Action::Lookup { parent: d.ino }, Ok(())),
        (stranger, Action::Lookup { parent: d.ino }, Err(FsError::PermissionDenied)),
        (owner, Action::Make { parent: d.ino }, Ok(())),
        (peer, Action::Make { parent: d.ino }, Err(FsError::PermissionDenied)),
        (owner, Action::Remove { parent: d.ino }, Ok(())),
        (peer, Action::Remove { parent: d.ino }, Err(FsError::PermissionDenied)),
        (owner, Action::Rename { parent: d.ino, new_parent: d.ino }, Ok(())),
        (
            owner,
            Action::Rename { parent: d.ino, new_parent: ROOT_INODE },
            Err(FsError::PermissionDenied),
        ),
        ((0, 0), Action::Rename { parent: d.ino, new_parent: ROOT_INODE }, Ok(())),
        (peer, Action::List { ino: d.ino }, Ok(())),
        (stranger, Action::List { ino: d.ino }, Err(FsError::PermissionDenied)),
        (owner, Action::Open { ino: f.ino, read: true, write: true }, Ok(())),
        (peer, Action::Open { ino: f.ino, read: true, write: false }, Ok(())),
        (
            peer,
            Action::Open { ino: f.ino, read: false, write: true },
            Err(FsError::PermissionDenied),
        ),
        (owner, Action::SetAttr { ino: f.ino }, Ok(())),
        ((0, 0), Action::SetAttr { ino: f.ino }, Ok(())),
        (peer, Action::SetAttr { ino: f.ino }, Err(FsError::PermissionDenied)),
        (owner, Action::SetAttr { ino: 99 }, Err(FsError::NotFound)),
        (owner, Action::Make { parent: 99 }, Err(FsError::NotFound)),
    ] {
        assert_eq!(fs.authorize(who.0, who.1, action), want, "{:?} {:?}", who, action);
    }
}

#[test]
fn inode_numbers_go_on_after_a_mount() {
    let mut fs = fresh();
    let (h2, two) = file(&mut fs, ROOT_INODE, b"a");
    let (h3, three) = file(&mut fs, ROOT_INODE, b"b");
    assert_eq!((two, three), (2, 3));
    fs.release(h2).unwrap();
    fs.release(h3).unwrap();
    let data = fs.into_data();
    assert_eq!(data.highest(), 3);
    assert_eq!(DataDir::new().highest(), 0);
    let mut fs = EncryptedFs::new(data, &secret("pw"), Cipher::ChaCha20).ok().unwrap();
    let (_, four) = file(&mut fs, ROOT_INODE, b"c");
    assert_eq!(four, 4);
    assert_eq!(rencfs::log_directive("debug"), "rencfs=debug");
}
