//! The 32-byte directory entry record.
use vstd::prelude::*;
use crate::codec::{le16, le32, u16_bytes, u32_bytes, lo_byte, hi_byte, u32_to_bytes, read_u16, read_u32};
use crate::error::FsError;
use crate::text::{utf8_text, trim_end_chars, decode_text, trim_end};
use vstd::string::StringExecFns;

verus! {

broadcast use vstd::array::group_array_axioms;

/// Attribute bit of an entry that names a directory.
pub const ATTR_DIRECTORY: u8 = 0x10;

/// Attribute bit of an entry that names an ordinary file.
pub const ATTR_ARCHIVE: u8 = 0x20;

/// One record of a directory, with the fields in on-disk order.
pub struct DirEntry {
    pub name: [u8; 11],
    pub attr: u8,
    pub reserved: u8,
    pub creation_time_tenths: u8,
    pub creation_time: u16,
    pub creation_date: u16,
    pub last_access_date: u16,
    pub first_cluster_high: u16,
    pub write_time: u16,
    pub write_date: u16,
    pub first_cluster_low: u16,
    pub file_size: u32,
}

/// The cluster that the two halves `high` and `low` designate.
pub open spec fn join_cluster(high: u16, low: u16) -> u32 {
    (high as int * 65536 + low as int) as u32
}

/// The 32 bytes that store `e`.
pub open spec fn entry_bytes(e: DirEntry) -> Seq<u8> {
    e.name@ + seq![e.attr, e.reserved, e.creation_time_tenths] + u16_bytes(e.creation_time)
        + u16_bytes(e.creation_date) + u16_bytes(e.last_access_date) + u16_bytes(
        e.first_cluster_high,
    ) + u16_bytes(e.write_time) + u16_bytes(e.write_date) + u16_bytes(e.first_cluster_low)
        + u32_bytes(e.file_size)
}

/// `e` holds the fields that the 32-byte record `b` stores.
pub open spec fn entry_decodes(b: Seq<u8>, e: DirEntry) -> bool {
    &&& b.len() == 32
    &&& e.name@ == b.subrange(0, 11)
    &&& e.attr == b[11]
    &&& e.reserved == b[12]
    &&& e.creation_time_tenths == b[13]
    &&& e.creation_time == le16(b[14], b[15])
    &&& e.creation_date == le16(b[16], b[17])
    &&& e.last_access_date == le16(b[18], b[19])
    &&& e.first_cluster_high == le16(b[20], b[21])
    &&& e.write_time == le16(b[22], b[23])
    &&& e.write_date == le16(b[24], b[25])
    &&& e.first_cluster_low == le16(b[26], b[27])
    &&& e.file_size == le32(b, 28)
}

/// A fresh entry: the given name, attribute and first cluster, every other field zero.
pub open spec fn fresh_entry(e: DirEntry, name: Seq<u8>, cluster: u32, attr: u8) -> bool {
    &&& e.name@ == name
    &&& e.attr == attr
    &&& e.reserved == 0
    &&& e.creation_time_tenths == 0
    &&& e.creation_time == 0
    &&& e.creation_date == 0
    &&& e.last_access_date == 0
    &&& join_cluster(e.first_cluster_high, e.first_cluster_low) == cluster
    &&& e.write_time == 0
    &&& e.write_date == 0
    &&& e.file_size == 0
}

/// Reading back the bytes that store an entry gives that entry.
pub proof fn lemma_entry_round_trip(e: DirEntry, d: DirEntry)
    requires
        entry_decodes(entry_bytes(e), d),
    ensures
        d == e,
{
    let b = entry_bytes(e);
    assert(b.len() == 32);
    assert(b.subrange(0, 11) =~= e.name@);
    assert(d.name@ == e.name@);
    assert(d.name =~= e.name);
    crate::codec::lemma_u16_round_trip(e.creation_time);
    crate::codec::lemma_u16_round_trip(e.creation_date);
    crate::codec::lemma_u16_round_trip(e.last_access_date);
    crate::codec::lemma_u16_round_trip(e.first_cluster_high);
    crate::codec::lemma_u16_round_trip(e.write_time);
    crate::codec::lemma_u16_round_trip(e.write_date);
    crate::codec::lemma_u16_round_trip(e.first_cluster_low);
    assert(b.subrange(28, 32) =~= u32_bytes(e.file_size));
    crate::codec::lemma_le32_of_bytes(b, 28, e.file_size);
    assert(b[14] == u16_bytes(e.creation_time)[0]);
    assert(b[15] == u16_bytes(e.creation_time)[1]);
    assert(b[16] == u16_bytes(e.creation_date)[0]);
    assert(b[17] == u16_bytes(e.creation_date)[1]);
    assert(b[18] == u16_bytes(e.last_access_date)[0]);
    assert(b[19] == u16_bytes(e.last_access_date)[1]);
    assert(b[20] == u16_bytes(e.first_cluster_high)[0]);
    assert(b[21] == u16_bytes(e.first_cluster_high)[1]);
    assert(b[22] == u16_bytes(e.write_time)[0]);
    assert(b[23] == u16_bytes(e.write_time)[1]);
    assert(b[24] == u16_bytes(e.write_date)[0]);
    assert(b[25] == u16_bytes(e.write_date)[1]);
    assert(b[26] == u16_bytes(e.first_cluster_low)[0]);
    assert(b[27] == u16_bytes(e.first_cluster_low)[1]);
}

/// The readable form of an 11-byte stored name: the 8-byte base and the 3-byte extension
/// decoded as UTF-8 and stripped of trailing white space, joined by a dot when the
/// extension is not empty. `None` when either part is not valid UTF-8.
pub open spec fn name_of(n: Seq<u8>) -> Option<Seq<char>> {
    match (utf8_text(n.subrange(0, 8)), utf8_text(n.subrange(8, 11))) {
        (Some(b), Some(x)) => {
            let bt = trim_end_chars(b);
            let xt = trim_end_chars(x);
            Some(
                if xt.len() == 0 {
                    bt
                } else {
                    bt + seq!['.'] + xt
                },
            )
        },
        _ => None,
    }
}

impl DirEntry {
    /// The first cluster of the entry's content.
    pub open spec fn cluster(&self) -> u32 {
        join_cluster(self.first_cluster_high, self.first_cluster_low)
    }

    pub open spec fn is_dir(&self) -> bool {
        self.attr & ATTR_DIRECTORY != 0
    }

    pub fn new(name: [u8; 11], cluster: u32, attr: u8) -> (r: Self)
        ensures
            fresh_entry(r, name@, cluster, attr),
            r.name == name,
            r.first_cluster_high == (cluster / 65536) as u16,
            r.first_cluster_low == (cluster % 65536) as u16,
    {
        DirEntry {
            name,
            attr,
            reserved: 0,
            creation_time_tenths: 0,
            creation_time: 0,
            creation_date: 0,
            last_access_date: 0,
            first_cluster_high: (cluster / 65536) as u16,
            write_time: 0,
            write_date: 0,
            first_cluster_low: (cluster % 65536) as u16,
            file_size: 0,
        }
    }

    pub fn first_cluster(&self) -> (r: u32)
        ensures
            r == self.cluster(),
    {
        self.first_cluster_high as u32 * 65536 + self.first_cluster_low as u32
    }

    pub fn is_directory(&self) -> (r: bool)
        ensures
            r == self.is_dir(),
    {
        self.attr & ATTR_DIRECTORY != 0
    }

    /// The entry's name in readable form; fails with `Decode` when the stored bytes are
    /// not valid UTF-8.
    pub fn get_name(&self) -> (r: Result<String, FsError>)
        ensures
            r is Ok <==> name_of(self.name@) is Some,
            r matches Ok(s) ==> name_of(self.name@) == Some(s@),
            r is Err ==> r == Err::<String, FsError>(FsError::Decode),
    {
        let (base, ext) = self.name.as_slice().split_at(8);
        let b = match decode_text(base) {
            Some(t) => t,
            None => return Err(FsError::Decode),
        };
        let x = match decode_text(ext) {
            Some(t) => t,
            None => return Err(FsError::Decode),
        };
        let bt = trim_end(b);
        let xt = trim_end(x);
        let mut out = String::from_str(bt);
        if xt.unicode_len() != 0 {
            proof {
                reveal_strlit(".");
            }
            out.append(".");
            out.append(xt);
        }
        Ok(out)
    }

    pub fn serialize(&self) -> (r: [u8; 32])
        ensures
            r@ == entry_bytes(*self),
    {
        let n = &self.name;
        let s = u32_to_bytes(self.file_size);
        let r = [
            n[0],
            n[1],
            n[2],
            n[3],
            n[4],
            n[5],
            n[6],
            n[7],
            n[8],
            n[9],
            n[10],
            self.attr,
            self.reserved,
            self.creation_time_tenths,
            lo_byte(self.creation_time),
            hi_byte(self.creation_time),
            lo_byte(self.creation_date),
            hi_byte(self.creation_date),
            lo_byte(self.last_access_date),
            hi_byte(self.last_access_date),
            lo_byte(self.first_cluster_high),
            hi_byte(self.first_cluster_high),
            lo_byte(self.write_time),
            hi_byte(self.write_time),
            lo_byte(self.write_date),
            hi_byte(self.write_date),
            lo_byte(self.first_cluster_low),
            hi_byte(self.first_cluster_low),
            s[0],
            s[1],
            s[2],
            s[3],
        ];
        assert(r@ =~= entry_bytes(*self));
        r
    }

    pub fn deserialize(data: &[u8; 32]) -> (r: Self)
        ensures
            entry_decodes(data@, r),
    {
        let b = data.as_slice();
        let name = [b[0], b[1], b[2], b[3], b[4], b[5], b[6], b[7], b[8], b[9], b[10]];
        assert(name@ =~= data@.subrange(0, 11));
        DirEntry {
            name,
            attr: b[11],
            reserved: b[12],
            creation_time_tenths: b[13],
            creation_time: read_u16(b, 14),
            creation_date: read_u16(b, 16),
            last_access_date: read_u16(b, 18),
            first_cluster_high: read_u16(b, 20),
            write_time: read_u16(b, 22),
            write_date: read_u16(b, 24),
            first_cluster_low: read_u16(b, 26),
            file_size: read_u32(b, 28),
        }
    }
}

} // verus!
