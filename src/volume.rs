//! The two fixed-layout records at the start of sector 0.
use vstd::prelude::*;
use crate::codec::{le16, le32, read_u16, read_u32};
use crate::error::FsError;

verus! {

broadcast use vstd::array::group_array_axioms;

/// The BIOS parameter block: bytes 0 to 35 of sector 0.
#[derive(Copy, Clone, Debug)]
pub struct BiosParameterBlock {
    pub _jmp: [u8; 3],
    pub _oem: [u8; 8],
    pub bytes_per_sector: u16,
    pub sectors_per_cluster: u8,
    pub reserved_sectors: u16,
    pub fat_table_count: u8,
    pub root_entries: u16,
    pub total_sectors_16: u16,
    pub media_descriptor: u8,
    pub fat_size_16: u16,
    pub sectors_per_track: u16,
    pub heads_on_media: u16,
    pub hidden_sectors: u32,
    pub total_sectors_32: u32,
}

/// The FAT32 extended boot record: bytes 36 to 89 of sector 0.
#[derive(Copy, Clone, Debug)]
pub struct ExtendedBootRecord32 {
    pub fat_size_32: u32,
    pub ext_flags: u16,
    pub fat_version: u16,
    pub root_cluster: u32,
    pub fs_info: u16,
    pub backup_boot: u16,
    pub _reserved: [u8; 12],
    pub drive_number: u8,
    pub _win_nt_flags: u8,
    pub signature: u8,
    pub volume_id: u32,
    pub volume_label: [u8; 11],
    pub fs_id: [u8; 8],
}

/// `p` holds the fields stored in the parameter-block bytes `b`.
pub open spec fn bpb_decodes(b: Seq<u8>, p: BiosParameterBlock) -> bool {
    &&& b.len() >= 36
    &&& p._jmp@ == b.subrange(0, 3)
    &&& p._oem@ == b.subrange(3, 11)
    &&& p.bytes_per_sector == le16(b[11], b[12])
    &&& p.sectors_per_cluster == b[13]
    &&& p.reserved_sectors == le16(b[14], b[15])
    &&& p.fat_table_count == b[16]
    &&& p.root_entries == le16(b[17], b[18])
    &&& p.total_sectors_16 == le16(b[19], b[20])
    &&& p.media_descriptor == b[21]
    &&& p.fat_size_16 == le16(b[22], b[23])
    &&& p.sectors_per_track == le16(b[24], b[25])
    &&& p.heads_on_media == le16(b[26], b[27])
    &&& p.hidden_sectors == le32(b, 28)
    &&& p.total_sectors_32 == le32(b, 32)
}

/// `e` holds the fields stored in the extended-boot-record bytes `b`.
pub open spec fn ebr_decodes(b: Seq<u8>, e: ExtendedBootRecord32) -> bool {
    &&& b.len() >= 54
    &&& e.fat_size_32 == le32(b, 0)
    &&& e.ext_flags == le16(b[4], b[5])
    &&& e.fat_version == le16(b[6], b[7])
    &&& e.root_cluster == le32(b, 8)
    &&& e.fs_info == le16(b[12], b[13])
    &&& e.backup_boot == le16(b[14], b[15])
    &&& e._reserved@ == b.subrange(16, 28)
    &&& e.drive_number == b[28]
    &&& e._win_nt_flags == b[29]
    &&& e.signature == b[30]
    &&& e.volume_id == le32(b, 31)
    &&& e.volume_label@ == b.subrange(35, 46)
    &&& e.fs_id@ == b.subrange(46, 54)
}

/// Sectors in one FAT copy: the 32-bit field when the 16-bit one is zero.
pub open spec fn fat_sectors(p: BiosParameterBlock, e: ExtendedBootRecord32) -> u32 {
    if p.fat_size_16 == 0 {
        e.fat_size_32
    } else {
        p.fat_size_16 as u32
    }
}

pub fn fat_size_sectors(p: &BiosParameterBlock, e: &ExtendedBootRecord32) -> (r: u32)
    ensures
        r == fat_sectors(*p, *e),
{
    if p.fat_size_16 == 0 {
        e.fat_size_32
    } else {
        p.fat_size_16 as u32
    }
}

impl BiosParameterBlock {
    /// Reads the parameter block from the first 36 bytes of `buf`; fails with `Malformed`
    /// when `buf` is shorter.
    pub fn from_bytes(buf: &[u8]) -> (r: Result<Self, FsError>)
        ensures
            r is Err <==> buf@.len() < 36,
            r is Err ==> r == Err::<Self, FsError>(FsError::Malformed),
            r matches Ok(p) ==> bpb_decodes(buf@, p),
    {
        if buf.len() < 36 {
            return Err(FsError::Malformed);
        }
        let jmp = [buf[0], buf[1], buf[2]];
        let oem = [buf[3], buf[4], buf[5], buf[6], buf[7], buf[8], buf[9], buf[10]];
        assert(jmp@ =~= buf@.subrange(0, 3));
        assert(oem@ =~= buf@.subrange(3, 11));
        Ok(BiosParameterBlock {
            _jmp: jmp,
            _oem: oem,
            bytes_per_sector: read_u16(buf, 11),
            sectors_per_cluster: buf[13],
            reserved_sectors: read_u16(buf, 14),
            fat_table_count: buf[16],
            root_entries: read_u16(buf, 17),
            total_sectors_16: read_u16(buf, 19),
            media_descriptor: buf[21],
            fat_size_16: read_u16(buf, 22),
            sectors_per_track: read_u16(buf, 24),
            heads_on_media: read_u16(buf, 26),
            hidden_sectors: read_u32(buf, 28),
            total_sectors_32: read_u32(buf, 32),
        })
    }
}

impl ExtendedBootRecord32 {
    /// Reads the extended boot record from the first 54 bytes of `buf`; fails with
    /// `Malformed` when `buf` is shorter.
    pub fn from_bytes(buf: &[u8]) -> (r: Result<Self, FsError>)
        ensures
            r is Err <==> buf@.len() < 54,
            r is Err ==> r == Err::<Self, FsError>(FsError::Malformed),
            r matches Ok(e) ==> ebr_decodes(buf@, e),
    {
        if buf.len() < 54 {
            return Err(FsError::Malformed);
        }
        let reserved = [
            buf[16],
            buf[17],
            buf[18],
            buf[19],
            buf[20],
            buf[21],
            buf[22],
            buf[23],
            buf[24],
            buf[25],
            buf[26],
            buf[27],
        ];
        let label = [
            buf[35],
            buf[36],
            buf[37],
            buf[38],
            buf[39],
            buf[40],
            buf[41],
            buf[42],
            buf[43],
            buf[44],
            buf[45],
        ];
        let fs_id = [buf[46], buf[47], buf[48], buf[49], buf[50], buf[51], buf[52], buf[53]];
        assert(reserved@ =~= buf@.subrange(16, 28));
        assert(label@ =~= buf@.subrange(35, 46));
        assert(fs_id@ =~= buf@.subrange(46, 54));
        Ok(ExtendedBootRecord32 {
            fat_size_32: read_u32(buf, 0),
            ext_flags: read_u16(buf, 4),
            fat_version: read_u16(buf, 6),
            root_cluster: read_u32(buf, 8),
            fs_info: read_u16(buf, 12),
            backup_boot: read_u16(buf, 14),
            _reserved: reserved,
            drive_number: buf[28],
            _win_nt_flags: buf[29],
            signature: buf[30],
            volume_id: read_u32(buf, 31),
            volume_label: label,
            fs_id,
        })
    }
}

} // verus!
