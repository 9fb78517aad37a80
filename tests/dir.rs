use ups::device::RamDisk;
use ups::entry::DirEntry;
use ups::error::FsError;
use ups::fs::FileSystem;
use ups::str_to_fat_name;

fn formatted() -> FileSystem<RamDisk> {
    let disk = RamDisk::new(400, 8, 32, 2, 100, 2, 1, 6, 0x12345678, *b"NO NAME    ").unwrap();
    let mut fs = FileSystem::new(disk).unwrap();
    fs.init_fats();
    fs.create_root_dir().unwrap();
    fs
}

fn same(a: &DirEntry, b: &DirEntry) -> bool {
    a.serialize() == b.serialize()
}

#[test]
fn entry_fields() {
    let e = DirEntry::new(*b"HELLO   TXT", 0x0012_3456, 0x20);
    assert_eq!(e.first_cluster_high, 0x0012);
    assert_eq!(e.first_cluster_low, 0x3456);
    assert_eq!(e.first_cluster(), 0x0012_3456);
    assert!(!e.is_directory());
    assert!(DirEntry::new(*b"SUB        ", 3, 0x10).is_directory());
    assert_eq!(e.file_size, 0);
}

#[test]
fn entry_serializes_bit_exact() {
    let mut e = DirEntry::new(*b"HELLO   TXT", 0x0012_3456, 0x20);
    e.creation_time = 0x0102;
    e.file_size = 0x0A0B_0C0D;
    let b = e.serialize();
    assert_eq!(&b[0..11], b"HELLO   TXT");
    assert_eq!(b[11], 0x20);
    assert_eq!(&b[14..16], &[0x02, 0x01]);
    assert_eq!(&b[20..22], &[0x12, 0x00]);
    assert_eq!(&b[26..28], &[0x56, 0x34]);
    assert_eq!(&b[28..32], &[0x0D, 0x0C, 0x0B, 0x0A]);
    let d = DirEntry::deserialize(&b);
    assert!(same(&d, &e));
    assert_eq!(d.creation_time, 0x0102);
    assert_eq!(d.file_size, 0x0A0B_0C0D);
}

#[test]
fn entry_names() {
    let e = DirEntry::new(*b"HELLO   TXT", 3, 0x20);
    assert_eq!(e.get_name().unwrap(), "HELLO.TXT");
    let d = DirEntry::new(*b"HELLODIR   ", 3, 0x10);
    assert_eq!(d.get_name().unwrap(), "HELLODIR");
    let dot = DirEntry::new(*b".          ", 3, 0x10);
    assert_eq!(dot.get_name().unwrap(), ".");
    let bad = DirEntry::new([0xFF, b'A', b' ', b' ', b' ', b' ', b' ', b' ', b' ', b' ', b' '], 3, 0x20);
    assert_eq!(bad.get_name(), Err(FsError::Decode));
    let tab = DirEntry::new(*b"A\t      B\t ", 3, 0x20);
    assert_eq!(tab.get_name().unwrap(), "A.B");
}

#[test]
fn fat_name_encoding() {
    assert_eq!(&str_to_fat_name("HELLO.TXT"), b"HELLO   TXT");
    assert_eq!(&str_to_fat_name("HELLO.TXT")[0..8], b"HELLO   ");
    assert_eq!(&str_to_fat_name("HELLO.TXT")[8..11], b"TXT");
    assert_eq!(&str_to_fat_name("Hellowo.rld"), b"HELLOWO RLD");
    assert_eq!(&str_to_fat_name("Hellodir"), b"HELLODIR   ");
    assert_eq!(&str_to_fat_name("averylongname.text"), b"AVERYLONTEX");
    assert_eq!(&str_to_fat_name("a.b.c"), b"A       B  ");
    assert_eq!(&str_to_fat_name(""), b"           ");
    assert_eq!(&str_to_fat_name(".hidden"), b"        HID");
    let round = DirEntry::new(str_to_fat_name("HELLO.TXT"), 5, 0x20);
    assert_eq!(round.get_name().unwrap(), "HELLO.TXT");
}

#[test]
fn slot_round_trip() {
    let mut fs = formatted();
    let mut e = DirEntry::new(*b"NOTE    MD ", 9, 0x20);
    e.file_size = 77;
    e.write_date = 0x1234;
    let keep = DirEntry::deserialize(&e.serialize());
    assert_eq!(fs.allocate_dir_entry(e, 2), Ok(2));
    let entries = fs.read_dir_entries(2).unwrap();
    assert_eq!(entries.len(), 3);
    assert!(same(&entries[2], &keep));
    assert_eq!(entries[2].first_cluster(), 9);
    assert_eq!(entries[2].file_size, 77);
    assert_eq!(entries[0].get_name().unwrap(), ".");
    assert_eq!(entries[1].get_name().unwrap(), "..");
}

#[test]
fn deleted_slots_are_skipped_and_reused() {
    let mut fs = formatted();
    assert_eq!(fs.allocate_dir_entry(DirEntry::new(*b"GONE       ", 5, 0x20), 2), Ok(2));
    assert_eq!(fs.allocate_dir_entry(DirEntry::new(*b"LAST       ", 6, 0x20), 2), Ok(3));
    let g = fs.geometry();
    let mut img = fs.into_device().image().to_vec();
    img[g.heap_offset + 2 * 32] = 0xE5;
    let mut fs = FileSystem::new(RamDisk::from_image(img)).unwrap();
    let names: Vec<String> = fs.read_dir_entries(2).unwrap().iter().map(|e| e.get_name().unwrap()).collect();
    assert_eq!(names, vec![".", "..", "LAST"]);
    assert_eq!(fs.allocate_dir_entry(DirEntry::new(*b"REUSE      ", 7, 0x20), 2), Ok(2));
    let names: Vec<String> = fs.read_dir_entries(2).unwrap().iter().map(|e| e.get_name().unwrap()).collect();
    assert_eq!(names, vec![".", "..", "REUSE", "LAST"]);
}

#[test]
fn scan_stops_at_end_marker() {
    let mut fs = formatted();
    assert_eq!(fs.allocate_dir_entry(DirEntry::new(*b"FIRST      ", 5, 0x20), 2), Ok(2));
    assert_eq!(fs.allocate_dir_entry(DirEntry::new(*b"AFTER      ", 6, 0x20), 2), Ok(3));
    let g = fs.geometry();
    let mut img = fs.into_device().image().to_vec();
    img[g.heap_offset + 2 * 32] = 0x00;
    let fs = FileSystem::new(RamDisk::from_image(img)).unwrap();
    assert_eq!(fs.read_dir_entries(2).unwrap().len(), 2);
}

#[test]
fn directory_fills_up() {
    let mut fs = formatted();
    for i in 2..128u32 {
        assert_eq!(fs.allocate_dir_entry(DirEntry::new(*b"FILLER     ", 10, 0x20), 2), Ok(i));
    }
    assert_eq!(fs.allocate_dir_entry(DirEntry::new(*b"ONEMORE    ", 10, 0x20), 2), Err(FsError::Full));
    assert_eq!(fs.read_dir_entries(2).unwrap().len(), 128);
    assert_eq!(fs.create_file(2, "late.txt"), Err(FsError::Full));
}

#[test]
fn clusters_off_the_heap_are_not_found() {
    let mut fs = formatted();
    assert!(matches!(fs.read_dir_entries(1), Err(FsError::NotFound)));
    assert!(matches!(fs.read_dir_entries(23), Err(FsError::NotFound)));
    assert!(fs.read_dir_entries(22).is_ok());
    assert_eq!(fs.zero_cluster_data(0), Err(FsError::NotFound));
    assert_eq!(fs.allocate_dir_entry(DirEntry::new(*b"X          ", 3, 0x20), 50), Err(FsError::NotFound));
    assert_eq!(fs.find_dir_in(99, "X"), Err(FsError::NotFound));
}

#[test]
fn zero_cluster_clears_bytes() {
    let mut fs = formatted();
    assert_eq!(fs.zero_cluster_data(2), Ok(()));
    assert_eq!(fs.read_dir_entries(2).unwrap().len(), 0);
}

#[test]
fn find_only_matches_directories() {
    let mut fs = formatted();
    fs.create_file(2, "notes").unwrap();
    fs.create_dir(2, "docs").unwrap();
    assert_eq!(fs.find_dir_in(2, "NOTES"), Err(FsError::NotFound));
    assert_eq!(fs.find_dir_in(2, "DOCS"), Ok(4));
    assert_eq!(fs.find_dir_in(2, "docs"), Err(FsError::NotFound));
    assert_eq!(fs.find_dir_in(2, "."), Ok(2));
    assert_eq!(fs.find_dir_in(4, ".."), Ok(2));
    assert_eq!(fs.find_dir_in(4, "."), Ok(4));
}

#[test]
fn tree_text_of_boot_volume() {
    let mut fs = formatted();
    fs.create_file(2, "Hellowo.rld").unwrap();
    fs.create_dir(2, "Hellodir").unwrap();
    fs.create_file(4, "inner.c").unwrap();
    let text = fs.return_tree(2, 0).unwrap();
    assert_eq!(
        text,
        "* .\n* ..\n* HELLOWO.RLD\n* HELLODIR\n\\ * .\n\\ * ..\n\\ * INNER.C\n"
    );
    assert_eq!(fs.return_tree(4, 2).unwrap(), "\\ \\ * .\n\\ \\ * ..\n\\ \\ * INNER.C\n");
}

#[test]
fn tree_reports_cycles() {
    let mut fs = formatted();
    fs.allocate_dir_entry(DirEntry::new(*b"LOOP       ", 2, 0x10), 2).unwrap();
    assert_eq!(fs.return_tree(2, 0), Err(FsError::Corrupt));
}

#[test]
fn tree_skips_undecodable_names() {
    let mut fs = formatted();
    fs.allocate_dir_entry(DirEntry::new([b'A', 0xFF, b' ', b' ', b' ', b' ', b' ', b' ', b' ', b' ', b' '], 9, 0x10), 2).unwrap();
    fs.create_file(2, "ok").unwrap();
    assert_eq!(fs.return_tree(2, 0).unwrap(), "* .\n* ..\n* OK\n");
}

#[test]
fn create_dir_writes_dot_entries() {
    let mut fs = formatted();
    fs.create_dir(2, "sub").unwrap();
    let inner = fs.read_dir_entries(3).unwrap();
    assert_eq!(inner.len(), 2);
    assert_eq!(inner[0].first_cluster(), 3);
    assert_eq!(inner[1].first_cluster(), 2);
    assert!(inner[0].is_directory() && inner[1].is_directory());
}

#[test]
fn create_reports_exhaustion() {
    let disk = RamDisk::new(40, 1, 32, 2, 1, 2, 1, 6, 7, *b"SMALL      ").unwrap();
    let mut fs = FileSystem::new(disk).unwrap();
    fs.init_fats();
    fs.create_root_dir().unwrap();
    while fs.allocate_cluster().is_ok() {}
    assert_eq!(fs.create_dir(2, "x"), Err(FsError::Exhausted));
    assert_eq!(fs.create_file(2, "x"), Err(FsError::Exhausted));
}

#[test]
fn create_past_heap_leaves_cluster_claimed() {
    // Four heap clusters: 2 (root) to 5; cluster 6 is in the table but off the medium.
    let disk = RamDisk::new(70, 8, 32, 2, 1, 2, 1, 6, 7, *b"TINY       ").unwrap();
    let mut fs = FileSystem::new(disk).unwrap();
    fs.init_fats();
    fs.create_root_dir().unwrap();
    for _ in 0..3 {
        fs.create_file(2, "f").unwrap();
    }
    assert_eq!(fs.create_file(2, "g"), Err(FsError::NotFound));
    assert_eq!(fs.count_occupied_clusters(), 7);
}

#[test]
fn root_outside_heap_is_not_found() {
    let disk = RamDisk::new(400, 8, 32, 2, 100, 500, 1, 6, 1, *b"NO NAME    ").unwrap();
    let mut fs = FileSystem::new(disk).unwrap();
    fs.init_fats();
    let before = fs.device().image().to_vec();
    assert_eq!(fs.create_root_dir(), Err(FsError::NotFound));
    assert_eq!(fs.device().image(), &before[..]);
}
