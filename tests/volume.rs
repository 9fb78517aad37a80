use ups::device::{BlockDevice, RamDisk};
use ups::error::FsError;
use ups::fs::FileSystem;
use ups::volume::{BiosParameterBlock, ExtendedBootRecord32};

fn seed_disk() -> RamDisk {
    RamDisk::new(400, 8, 32, 2, 100, 2, 1, 6, 0x12345678, *b"NO NAME    ").unwrap()
}

#[test]
fn format_writes_boot_sector() {
    let disk = seed_disk();
    let img = disk.image();
    assert_eq!(img.len(), 400 * 512);
    assert_eq!(&img[0..3], &[0xEB, 0x58, 0x90]);
    assert_eq!(&img[3..11], b"MSWIN4.1");
    assert_eq!(&img[11..13], &[0x00, 0x02]);
    assert_eq!(img[13], 8);
    assert_eq!(&img[14..16], &[32, 0]);
    assert_eq!(img[16], 2);
    assert_eq!(&img[19..21], &[0x90, 0x01]);
    assert_eq!(img[21], 0xF8);
    assert_eq!(&img[24..26], &[63, 0]);
    assert_eq!(&img[26..28], &[255, 0]);
    assert_eq!(&img[32..36], &[0, 0, 0, 0]);
    assert_eq!(&img[36..40], &[100, 0, 0, 0]);
    assert_eq!(&img[44..48], &[2, 0, 0, 0]);
    assert_eq!(&img[48..50], &[1, 0]);
    assert_eq!(&img[50..52], &[6, 0]);
    assert_eq!(img[64], 0x80);
    assert_eq!(img[66], 0x29);
    assert_eq!(&img[67..71], &[0x78, 0x56, 0x34, 0x12]);
    assert_eq!(&img[71..82], b"NO NAME    ");
    assert_eq!(&img[82..90], b"FAT32   ");
    assert_eq!(img[510], 0x55);
    assert_eq!(img[511], 0xAA);
    assert!(img[90..510].iter().all(|&b| b == 0));
    assert!(img[512..].iter().all(|&b| b == 0));
}

#[test]
fn format_large_disk_uses_32_bit_total() {
    let disk = RamDisk::new(70000, 1, 1, 1, 1, 2, 1, 6, 1, *b"BIG        ").unwrap();
    let img = disk.image();
    assert_eq!(&img[19..21], &[0, 0]);
    assert_eq!(&img[32..36], &70000u32.to_le_bytes());
}

#[test]
fn format_rejects_too_small_disk() {
    let r = RamDisk::new(100, 8, 32, 2, 100, 2, 1, 6, 1, *b"NO NAME    ");
    assert!(matches!(r, Err(FsError::Malformed)));
    let r = RamDisk::new(0, 8, 0, 0, 0, 2, 1, 6, 1, *b"NO NAME    ");
    assert!(matches!(r, Err(FsError::Malformed)));
    assert!(RamDisk::new(232, 8, 32, 2, 100, 2, 1, 6, 1, *b"NO NAME    ").is_ok());
}

#[test]
fn sector_access() {
    let mut disk = seed_disk();
    let mut buf = [0u8; 512];
    assert!(disk.read_sector(0, &mut buf).is_ok());
    assert_eq!(buf[510], 0x55);
    assert!(disk.read_sector(400, &mut buf).is_err());
    let block = [7u8; 512];
    assert!(disk.write_sector(399, &block).is_ok());
    assert!(disk.write_sector(400, &block).is_err());
    assert!(disk.image()[399 * 512..].iter().all(|&b| b == 7));
    assert_eq!(disk.size(), 400 * 512);
    disk.write_region(10, &[1, 2, 3]);
    assert_eq!(disk.read_region(9, 5), vec![b'.', 1, 2, 3, 8]);
}

#[test]
fn parse_records() {
    let disk = seed_disk();
    let img = disk.image();
    let bpb = BiosParameterBlock::from_bytes(&img[0..36]).unwrap();
    assert_eq!(bpb.bytes_per_sector, 512);
    assert_eq!(bpb.sectors_per_cluster, 8);
    assert_eq!(bpb.reserved_sectors, 32);
    assert_eq!(bpb.fat_table_count, 2);
    assert_eq!(bpb.total_sectors_16, 400);
    assert_eq!(bpb.media_descriptor, 0xF8);
    assert_eq!(bpb.fat_size_16, 0);
    assert_eq!(bpb.sectors_per_track, 63);
    assert_eq!(bpb.heads_on_media, 255);
    assert_eq!(&bpb._oem, b"MSWIN4.1");
    let ebr = ExtendedBootRecord32::from_bytes(&img[36..90]).unwrap();
    assert_eq!(ebr.fat_size_32, 100);
    assert_eq!(ebr.root_cluster, 2);
    assert_eq!(ebr.fs_info, 1);
    assert_eq!(ebr.backup_boot, 6);
    assert_eq!(ebr.drive_number, 0x80);
    assert_eq!(ebr.signature, 0x29);
    assert_eq!(ebr.volume_id, 0x12345678);
    assert_eq!(&ebr.volume_label, b"NO NAME    ");
    assert_eq!(&ebr.fs_id, b"FAT32   ");
}

#[test]
fn parse_rejects_short_input() {
    assert!(matches!(BiosParameterBlock::from_bytes(&[0u8; 35]), Err(FsError::Malformed)));
    assert!(matches!(ExtendedBootRecord32::from_bytes(&[0u8; 53]), Err(FsError::Malformed)));
    assert!(BiosParameterBlock::from_bytes(&[0u8; 36]).is_ok());
    assert!(ExtendedBootRecord32::from_bytes(&[0u8; 54]).is_ok());
}

#[test]
fn mount_derives_geometry() {
    let fs = FileSystem::new(seed_disk()).unwrap();
    assert_eq!(fs.fat_start, 32);
    assert_eq!(fs.cluster_heap_start(), 232);
    assert_eq!(fs.root_dir_cluster(), 2);
    let g = fs.geometry();
    assert_eq!(g.fat_offset, 32 * 512);
    assert_eq!(g.fat_bytes, 100 * 512);
    assert_eq!(g.fat_count, 2);
    assert_eq!(g.heap_offset, 232 * 512);
    assert_eq!(g.cluster_bytes, 8 * 512);
    assert_eq!(g.heap_clusters, 21);
    assert_eq!(g.media, 0xF8);
    assert_eq!(fs.bpb.reserved_sectors, 32);
    assert_eq!(fs.ebr.fat_size_32, 100);
}

#[test]
fn mount_rejects_malformed_volumes() {
    let r = FileSystem::new(RamDisk::from_image(vec![0u8; 100]));
    assert!(matches!(r, Err(FsError::Malformed)));
    // An all-zero boot sector describes no table at all.
    let r = FileSystem::new(RamDisk::from_image(vec![0u8; 4096]));
    assert!(matches!(r, Err(FsError::Malformed)));
    // A boot sector for 400 sectors on a medium of one sector.
    let img = seed_disk().image()[0..512].to_vec();
    let r = FileSystem::new(RamDisk::from_image(img));
    assert!(matches!(r, Err(FsError::Malformed)));
}

#[test]
fn mount_prefers_16_bit_fat_size() {
    let mut img = seed_disk().image().to_vec();
    img[22] = 10;
    let fs = FileSystem::new(RamDisk::from_image(img)).unwrap();
    assert_eq!(fs.geometry().fat_bytes, 10 * 512);
    assert_eq!(fs.geometry().heap_offset, (32 + 20) * 512);
}

#[test]
fn unmount_returns_device() {
    let fs = FileSystem::new(seed_disk()).unwrap();
    assert_eq!(fs.device().size(), 400 * 512);
    let disk = fs.into_device();
    assert_eq!(disk.image()[510], 0x55);
}
