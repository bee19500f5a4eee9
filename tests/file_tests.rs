use haribote::file::{read_fat, search_file, split_name, FileHandler, FileInfo, FAT_BYTES, MAX_FAT};

fn entry(name: &[u8; 8], ext: &[u8; 3], ftype: u8, clustno: u16, size: u32) -> FileInfo {
    FileInfo {
        name: *name,
        ext: *ext,
        ftype,
        reserve: [0; 10],
        time: 0,
        date: 0,
        clustno,
        size,
    }
}

#[test]
fn file_fat12_unpacking() {
    let mut img = vec![0u8; FAT_BYTES];
    img[0] = 0xf0;
    img[1] = 0xff;
    img[2] = 0xff;
    img[3] = 0x03;
    img[4] = 0x40;
    img[5] = 0x00;
    img[6] = 0xab;
    img[7] = 0xcd;
    img[8] = 0xef;
    let mut fat = vec![0u32; MAX_FAT];
    read_fat(&mut fat, &img);
    assert_eq!(&fat[0..6], &[0xff0, 0xfff, 0x003, 0x004, 0xdab, 0xefc]);
    assert_eq!(fat[MAX_FAT - 1], 0);
}

#[test]
fn file_name_fields() {
    let (b, e) = split_name(b"hello.hrb");
    assert_eq!(&b, b"HELLO   ");
    assert_eq!(&e, b"HRB");
    let (b, e) = split_name(b"averylongname.text.x");
    assert_eq!(&b, b"AVERYLON");
    assert_eq!(&e, b"TEX");
    let (b, e) = split_name(b"ipl10");
    assert_eq!(&b, b"IPL10   ");
    assert_eq!(&e, b"   ");
}

#[test]
fn file_search_in_directory() {
    let dir = vec![
        entry(b"HELLO   ", b"HRB", 0x20, 2, 10),
        entry(&[0xe5, b'A', b' ', b' ', b' ', b' ', b' ', b' '], b"TXT", 0x20, 3, 5),
        entry(b"SUB     ", b"   ", 0x10, 4, 0),
        entry(b"A       ", b"TXT", 0x20, 5, 7),
        entry(&[0; 8], b"   ", 0, 0, 0),
        entry(b"LATE    ", b"TXT", 0x20, 6, 1),
    ];
    let f = search_file(&dir, b"a.txt").unwrap();
    assert_eq!((f.clustno, f.size), (5, 7));
    assert_eq!(search_file(&dir, b"Hello.HRB").unwrap().clustno, 2);
    // a directory is not a file
    assert!(search_file(&dir, b"sub").is_none());
    // the directory ends at the empty entry
    assert!(search_file(&dir, b"late.txt").is_none());
    let h = FileHandler::new();
    assert_eq!((h.buf_addr, h.size, h.pos), (0, 0, 0));
}
