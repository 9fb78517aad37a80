use ups::device::RamDisk;
use ups::error::FsError;
use ups::fs::FileSystem;

fn mounted() -> FileSystem<RamDisk> {
    let disk = RamDisk::new(400, 8, 32, 2, 100, 2, 1, 6, 0x12345678, *b"NO NAME    ").unwrap();
    FileSystem::new(disk).unwrap()
}

/// A volume whose table copies hold 128 entries each.
fn small() -> FileSystem<RamDisk> {
    let disk = RamDisk::new(40, 1, 32, 2, 1, 2, 1, 6, 7, *b"SMALL      ").unwrap();
    FileSystem::new(disk).unwrap()
}

fn entry(fs: &FileSystem<RamDisk>, copy: usize, i: usize) -> u32 {
    let g = fs.geometry();
    let off = g.fat_offset + copy * g.fat_bytes + 4 * i;
    let b = &fs.device().image()[off..off + 4];
    u32::from_le_bytes([b[0], b[1], b[2], b[3]])
}

fn copies_equal(fs: &FileSystem<RamDisk>) -> bool {
    let g = fs.geometry();
    let img = fs.device().image();
    let first = &img[g.fat_offset..g.fat_offset + g.fat_bytes];
    (1..g.fat_count).all(|k| {
        let o = g.fat_offset + k * g.fat_bytes;
        &img[o..o + g.fat_bytes] == first
    })
}

#[test]
fn boot_sequence_counts() {
    let mut fs = mounted();
    assert_eq!(fs.count_occupied_clusters(), 0);
    fs.init_fats();
    assert_eq!(fs.count_occupied_clusters(), 2);
    fs.create_root_dir().unwrap();
    assert_eq!(fs.count_occupied_clusters(), 3);
    fs.create_file(2, "Hellowo.rld").unwrap();
    fs.create_dir(2, "Hellodir").unwrap();
    assert_eq!(fs.count_occupied_clusters(), 5);
    assert_eq!(fs.find_dir_in(2, "HELLODIR"), Ok(4));
    assert!(copies_equal(&fs));
}

#[test]
fn reset_writes_header_entries() {
    let mut fs = mounted();
    fs.init_fats();
    for k in 0..2 {
        assert_eq!(entry(&fs, k, 0), 0x0FFF_FFF8);
        assert_eq!(entry(&fs, k, 1), 0xFFFF_FFFF);
        assert_eq!(entry(&fs, k, 2), 0);
    }
    let g = fs.geometry();
    assert_eq!(&fs.device().image()[g.fat_offset..g.fat_offset + 8], &[0xF8, 0xFF, 0xFF, 0x0F, 0xFF, 0xFF, 0xFF, 0xFF]);
    assert!(copies_equal(&fs));
}

#[test]
fn root_dir_marks_root_cluster() {
    let mut fs = mounted();
    fs.init_fats();
    fs.create_root_dir().unwrap();
    assert_eq!(entry(&fs, 0, 2), 0x0FFF_FFFF);
    assert_eq!(entry(&fs, 1, 2), 0x0FFF_FFFF);
}

#[test]
fn allocate_claims_first_free_in_every_copy() {
    let mut fs = mounted();
    fs.init_fats();
    assert_eq!(fs.allocate_cluster(), Ok(2));
    assert_eq!(fs.allocate_cluster(), Ok(3));
    for k in 0..2 {
        assert_eq!(entry(&fs, k, 2), 0x0FFF_FFF8);
        assert_eq!(entry(&fs, k, 3), 0x0FFF_FFF8);
    }
    assert!(copies_equal(&fs));
}

#[test]
fn allocate_until_exhausted() {
    let mut fs = small();
    fs.init_fats();
    let mut seen = Vec::new();
    loop {
        match fs.allocate_cluster() {
            Ok(c) => {
                assert!(!seen.contains(&c));
                assert_ne!(entry(&fs, 0, c as usize), 0);
                assert_ne!(entry(&fs, 1, c as usize), 0);
                seen.push(c);
            }
            Err(e) => {
                assert_eq!(e, FsError::Exhausted);
                break;
            }
        }
    }
    assert_eq!(seen, (2..128).collect::<Vec<u32>>());
    assert_eq!(fs.allocate_cluster(), Err(FsError::Exhausted));
    assert_eq!(fs.count_occupied_clusters(), 128);
    assert!(copies_equal(&fs));
}

#[test]
fn free_restores_allocated_cluster() {
    let mut fs = mounted();
    fs.init_fats();
    let before = fs.device().image().to_vec();
    let c = fs.allocate_cluster().unwrap();
    assert_eq!(fs.free_cluster_chain(c), Ok(()));
    assert_eq!(entry(&fs, 0, c as usize), 0);
    assert_eq!(entry(&fs, 1, c as usize), 0);
    assert_eq!(fs.device().image(), &before[..]);
    assert_eq!(fs.allocate_cluster(), Ok(c));
}

fn set_entry(img: &mut [u8], fo: usize, fb: usize, copies: usize, i: usize, v: u32) {
    for k in 0..copies {
        let o = fo + k * fb + 4 * i;
        img[o..o + 4].copy_from_slice(&v.to_le_bytes());
    }
}

#[test]
fn free_walks_whole_chain() {
    let mut fs = mounted();
    fs.init_fats();
    let g = fs.geometry();
    let mut img = fs.into_device().image().to_vec();
    set_entry(&mut img, g.fat_offset, g.fat_bytes, 2, 5, 6);
    set_entry(&mut img, g.fat_offset, g.fat_bytes, 2, 6, 9);
    set_entry(&mut img, g.fat_offset, g.fat_bytes, 2, 9, 0x0FFF_FFFF);
    set_entry(&mut img, g.fat_offset, g.fat_bytes, 2, 7, 0x0FFF_FFF8);
    let mut fs = FileSystem::new(RamDisk::from_image(img)).unwrap();
    assert_eq!(fs.count_occupied_clusters(), 6);
    assert_eq!(fs.free_cluster_chain(5), Ok(()));
    for i in [5usize, 6, 9] {
        assert_eq!(entry(&fs, 0, i), 0);
        assert_eq!(entry(&fs, 1, i), 0);
    }
    assert_eq!(entry(&fs, 0, 7), 0x0FFF_FFF8);
    assert_eq!(fs.count_occupied_clusters(), 3);
    assert!(copies_equal(&fs));
}

#[test]
fn free_of_end_marker_does_nothing() {
    let mut fs = mounted();
    fs.init_fats();
    let before = fs.device().image().to_vec();
    assert_eq!(fs.free_cluster_chain(0x0FFF_FFF8), Ok(()));
    assert_eq!(fs.device().image(), &before[..]);
}

#[test]
fn free_reports_link_past_table() {
    let mut fs = mounted();
    fs.init_fats();
    assert_eq!(fs.free_cluster_chain(200_000), Err(FsError::NotFound));
}

#[test]
fn free_reports_link_to_reserved_entry() {
    // Without a reset every entry is zero: the walk frees entry 5 and then reads a link
    // to the reserved entry 0.
    let mut fs = small();
    assert_eq!(fs.free_cluster_chain(5), Err(FsError::Corrupt));
}

#[test]
fn free_reports_loop_and_keeps_header() {
    let mut fs = mounted();
    fs.init_fats();
    let g = fs.geometry();
    let mut img = fs.into_device().image().to_vec();
    set_entry(&mut img, g.fat_offset, g.fat_bytes, 2, 2, 3);
    set_entry(&mut img, g.fat_offset, g.fat_bytes, 2, 3, 2);
    let mut fs = FileSystem::new(RamDisk::from_image(img)).unwrap();
    assert_eq!(fs.free_cluster_chain(2), Err(FsError::Corrupt));
    for k in 0..2 {
        assert_eq!(entry(&fs, k, 0), 0x0FFF_FFF8);
        assert_eq!(entry(&fs, k, 1), 0xFFFF_FFFF);
        assert_eq!(entry(&fs, k, 2), 0);
        assert_eq!(entry(&fs, k, 3), 0);
    }
    assert!(copies_equal(&fs));
}

#[test]
fn free_refuses_header_entries() {
    let mut fs = mounted();
    fs.init_fats();
    let before = fs.device().image().to_vec();
    assert_eq!(fs.free_cluster_chain(0), Err(FsError::Corrupt));
    assert_eq!(fs.free_cluster_chain(1), Err(FsError::Corrupt));
    assert_eq!(fs.device().image(), &before[..]);
}
