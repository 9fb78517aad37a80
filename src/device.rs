//! The sector-addressable medium that a volume lives on.
use vstd::prelude::*;
use crate::codec::{splice, u16_bytes, u32_bytes, u32_to_bytes, lo_byte, hi_byte};
use crate::error::FsError;

verus! {

/// Bytes in one sector.
pub const SECTOR_SIZE: usize = 512;

/// A medium read and written in 512-byte sectors, with byte-range access for spans
/// that cross sector boundaries.
pub trait BlockDevice {
    /// Every byte of the medium, in order.
    spec fn contents(&self) -> Seq<u8>;

    fn read_sector(&mut self, lba: u64, buf: &mut [u8; 512]) -> (r: Result<(), ()>)
        ensures
            final(self).contents() == old(self).contents(),
            r is Ok <==> (lba + 1) * 512 <= old(self).contents().len(),
            r is Ok ==> final(buf)@ == old(self).contents().subrange(
                lba * 512,
                lba * 512 + 512,
            ),
            r is Err ==> *final(buf) == *old(buf),
    ;

    fn write_sector(&mut self, lba: u64, buf: &[u8; 512]) -> (r: Result<(), ()>)
        ensures
            r is Ok <==> (lba + 1) * 512 <= old(self).contents().len(),
            r is Ok ==> final(self).contents() == splice(old(self).contents(), lba * 512, buf@),
            r is Err ==> final(self).contents() == old(self).contents(),
    ;

    fn size(&self) -> (r: usize)
        ensures
            r == self.contents().len(),
    ;

    fn read_region(&self, start: usize, len: usize) -> (r: Vec<u8>)
        requires
            start + len <= self.contents().len(),
        ensures
            r@ == self.contents().subrange(start as int, start + len),
    ;

    fn write_region(&mut self, start: usize, data: &[u8])
        requires
            start + data@.len() <= old(self).contents().len(),
        ensures
            final(self).contents() == splice(old(self).contents(), start as int, data@),
    ;
}

/// A medium held in memory.
pub struct RamDisk {
    data: Vec<u8>,
}

/// `n` zero bytes.
pub open spec fn zeros(n: nat) -> Seq<u8> {
    Seq::new(n, |i: int| 0u8)
}

/// The ASCII bytes of `s`, which holds only ASCII characters.
pub open spec fn ascii_bytes(s: Seq<char>) -> Seq<u8> {
    s.map_values(|c: char| c as u8)
}

/// The first 90 bytes of sector 0 of a freshly formatted volume: jump code, OEM name,
/// the parameter block and the extended boot record.
pub open spec fn boot_head(
    size_in_sectors: usize,
    sectors_per_cluster: u8,
    reserved_sectors: u16,
    fat_count: u8,
    fat_size: u32,
    root_cluster: u32,
    fs_info_sector: u16,
    backup_boot_sector: u16,
    volume_id: u32,
    volume_label: Seq<u8>,
) -> Seq<u8> {
    let total16: u16 = if size_in_sectors < 65536 { size_in_sectors as u16 } else { 0 };
    let total32: u32 = if size_in_sectors >= 65536 { size_in_sectors as u32 } else { 0 };
    seq![0xEBu8, 0x58, 0x90] + ascii_bytes("MSWIN4.1"@) + u16_bytes(512) + seq![sectors_per_cluster]
        + u16_bytes(reserved_sectors) + seq![fat_count] + u16_bytes(0) + u16_bytes(total16) + seq![
        0xF8u8,
    ] + u16_bytes(0) + u16_bytes(63) + u16_bytes(255) + u32_bytes(0) + u32_bytes(total32)
        + u32_bytes(fat_size) + u16_bytes(0) + u16_bytes(0) + u32_bytes(root_cluster) + u16_bytes(
        fs_info_sector,
    ) + u16_bytes(backup_boot_sector) + zeros(12) + seq![0x80u8, 0x00, 0x29] + u32_bytes(
        volume_id,
    ) + volume_label + ascii_bytes("FAT32   "@)
}

fn push_u16(v: &mut Vec<u8>, x: u16)
    ensures
        final(v)@ == old(v)@ + u16_bytes(x),
{
    v.push(lo_byte(x));
    v.push(hi_byte(x));
    assert(final(v)@ =~= old(v)@ + u16_bytes(x));
}

fn push_u32(v: &mut Vec<u8>, x: u32)
    ensures
        final(v)@ == old(v)@ + u32_bytes(x),
{
    let b = u32_to_bytes(x);
    v.push(b[0]);
    v.push(b[1]);
    v.push(b[2]);
    v.push(b[3]);
    assert(final(v)@ =~= old(v)@ + u32_bytes(x));
}

fn push_all(v: &mut Vec<u8>, s: &[u8])
    ensures
        final(v)@ == old(v)@ + s@,
{
    let mut i: usize = 0;
    while i < s.len()
        invariant
            i <= s@.len(),
            v@ == old(v)@ + s@.subrange(0, i as int),
        decreases s@.len() - i,
    {
        v.push(s[i]);
        i = i + 1;
        assert(v@ =~= old(v)@ + s@.subrange(0, i as int));
    }
    assert(s@.subrange(0, i as int) =~= s@);
}

fn push_ascii(v: &mut Vec<u8>, s: &str)
    requires
        s.is_ascii(),
    ensures
        final(v)@ == old(v)@ + ascii_bytes(s@),
{
    let n = s.unicode_len();
    let mut i: usize = 0;
    while i < n
        invariant
            n == s@.len(),
            s.is_ascii(),
            i <= n,
            v@ == old(v)@ + ascii_bytes(s@.subrange(0, i as int)),
        decreases n - i,
    {
        let c = s.get_char(i);
        v.push(c as u8);
        i = i + 1;
        assert(v@ =~= old(v)@ + ascii_bytes(s@.subrange(0, i as int)));
    }
    assert(s@.subrange(0, i as int) =~= s@);
}

impl RamDisk {
    /// A disk holding `image` byte for byte.
    pub fn from_image(image: Vec<u8>) -> (r: Self)
        ensures
            r.contents() == image@,
    {
        RamDisk { data: image }
    }

    /// The disk's bytes.
    pub fn image(&self) -> (r: &[u8])
        ensures
            r@ == self.contents(),
    {
        self.data.as_slice()
    }

    /// A zeroed disk of `size_in_sectors` sectors whose sector 0 holds a FAT32 boot sector
    /// with the given geometry. Fails with `Malformed` when the disk has no sector or is
    /// smaller than its reserved sectors and FAT copies together.
    #[allow(clippy::too_many_arguments)]
    pub fn new(
        size_in_sectors: usize,
        sectors_per_cluster: u8,
        reserved_sectors: u16,
        fat_count: u8,
        fat_size: u32,
        root_cluster: u32,
        fs_info_sector: u16,
        backup_boot_sector: u16,
        volume_id: u32,
        volume_label: [u8; 11],
    ) -> (r: Result<Self, FsError>)
        requires
            size_in_sectors * 512 <= usize::MAX,
        ensures
            r is Err <==> (size_in_sectors == 0 || reserved_sectors + fat_count * fat_size
                > size_in_sectors),
            r is Err ==> r == Err::<Self, FsError>(FsError::Malformed),
            r matches Ok(d) ==> {
                let c = d.contents();
                &&& c.len() == size_in_sectors * 512
                &&& c.subrange(0, 90) == boot_head(
                    size_in_sectors,
                    sectors_per_cluster,
                    reserved_sectors,
                    fat_count,
                    fat_size,
                    root_cluster,
                    fs_info_sector,
                    backup_boot_sector,
                    volume_id,
                    volume_label@,
                )
                &&& c[510] == 0x55
                &&& c[511] == 0xAA
                &&& forall|j: int| 90 <= j < 510 || 512 <= j < c.len() ==> c[j] == 0
            },
    {
        assert(fat_count as u64 * fat_size as u64 <= 255 * 0xFFFF_FFFFu64) by (nonlinear_arith)
            requires
                fat_count <= 255,
                fat_size <= 0xFFFF_FFFFu32,
        ;
        let needed: u64 = reserved_sectors as u64 + fat_count as u64 * fat_size as u64;
        if size_in_sectors == 0 || needed > size_in_sectors as u64 {
            return Err(FsError::Malformed);
        }
        let mut head: Vec<u8> = Vec::new();
        head.push(0xEB);
        head.push(0x58);
        head.push(0x90);
        proof {
            reveal_strlit("MSWIN4.1");
            reveal_strlit("FAT32   ");
        }
        push_ascii(&mut head, "MSWIN4.1");
        push_u16(&mut head, 512);
        head.push(sectors_per_cluster);
        push_u16(&mut head, reserved_sectors);
        head.push(fat_count);
        push_u16(&mut head, 0);
        let total16: u16 = if size_in_sectors < 65536 {
            size_in_sectors as u16
        } else {
            0
        };
        let total32: u32 = if size_in_sectors >= 65536 {
            #[verifier::truncate]
            (size_in_sectors as u32)
        } else {
            0
        };
        push_u16(&mut head, total16);
        head.push(0xF8);
        push_u16(&mut head, 0);
        push_u16(&mut head, 63);
        push_u16(&mut head, 255);
        push_u32(&mut head, 0);
        push_u32(&mut head, total32);
        push_u32(&mut head, fat_size);
        push_u16(&mut head, 0);
        push_u16(&mut head, 0);
        push_u32(&mut head, root_cluster);
        push_u16(&mut head, fs_info_sector);
        push_u16(&mut head, backup_boot_sector);
        let ghost h0 = head@;
        let mut k: usize = 0;
        while k < 12
            invariant
                k <= 12,
                head@ == h0 + zeros(k as nat),
            decreases 12 - k,
        {
            head.push(0);
            k = k + 1;
            assert(head@ =~= h0 + zeros(k as nat));
        }
        head.push(0x80);
        head.push(0x00);
        head.push(0x29);
        push_u32(&mut head, volume_id);
        push_all(&mut head, volume_label.as_slice());
        push_ascii(&mut head, "FAT32   ");
        assert(head@ =~= boot_head(
            size_in_sectors,
            sectors_per_cluster,
            reserved_sectors,
            fat_count,
            fat_size,
            root_cluster,
            fs_info_sector,
            backup_boot_sector,
            volume_id,
            volume_label@,
        ));
        let n = size_in_sectors * 512;
        let mut data: Vec<u8> = vec![0u8; n];
        let mut i: usize = 0;
        while i < 90
            invariant
                i <= 90,
                head@.len() == 90,
                data@.len() == n,
                n >= 512,
                forall|j: int| 0 <= j < i ==> data@[j] == head@[j],
                forall|j: int| i <= j < n ==> data@[j] == 0,
            decreases 90 - i,
        {
            data.set(i, head[i]);
            i = i + 1;
        }
        data.set(510, 0x55);
        data.set(511, 0xAA);
        assert(data@.subrange(0, 90) =~= head@);
        Ok(RamDisk { data })
    }
}

impl BlockDevice for RamDisk {
    closed spec fn contents(&self) -> Seq<u8> {
        self.data@
    }

    fn read_sector(&mut self, lba: u64, buf: &mut [u8; 512]) -> (r: Result<(), ()>) {
        let len = self.data.len();
        if lba >= (len / 512) as u64 {
            return Err(());
        }
        let start = lba as usize * 512;
        let mut i: usize = 0;
        while i < 512
            invariant
                i <= 512,
                start == lba * 512,
                start + 512 <= self.data@.len(),
                self.data@ == old(self).data@,
                forall|j: int| 0 <= j < i ==> buf@[j] == self.data@[start + j],
            decreases 512 - i,
        {
            buf[i] = self.data[start + i];
            i = i + 1;
        }
        assert(buf@ =~= self.data@.subrange(lba * 512, lba * 512 + 512));
        Ok(())
    }

    fn write_sector(&mut self, lba: u64, buf: &[u8; 512]) -> (r: Result<(), ()>) {
        let len = self.data.len();
        if lba >= (len / 512) as u64 {
            return Err(());
        }
        let start = lba as usize * 512;
        self.write_region(start, buf.as_slice());
        Ok(())
    }

    fn size(&self) -> (r: usize) {
        self.data.len()
    }

    fn read_region(&self, start: usize, len: usize) -> (r: Vec<u8>) {
        let mut out: Vec<u8> = Vec::with_capacity(len);
        let dlen = self.data.len();
        let mut i: usize = 0;
        while i < len
            invariant
                i <= len,
                dlen == self.data@.len(),
                start + len <= self.data@.len(),
                out@ == self.data@.subrange(start as int, start + i),
            decreases len - i,
        {
            out.push(self.data[start + i]);
            i = i + 1;
            assert(out@ =~= self.data@.subrange(start as int, start + i));
        }
        out
    }

    fn write_region(&mut self, start: usize, data: &[u8]) {
        let dlen = self.data.len();
        let mut i: usize = 0;
        while i < data.len()
            invariant
                i <= data@.len(),
                dlen == self.data@.len(),
                start + data@.len() <= old(self).data@.len(),
                self.data@.len() == old(self).data@.len(),
                forall|j: int|
                    0 <= j < self.data@.len() ==> self.data@[j] == if start <= j < start + i {
                        data@[j - start]
                    } else {
                        old(self).data@[j]
                    },
            decreases data@.len() - i,
        {
            self.data.set(start + i, data[i]);
            i = i + 1;
        }
        assert(self.data@ =~= splice(old(self).data@, start as int, data@));
    }
}

} // verus!
