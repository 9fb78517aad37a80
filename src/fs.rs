//! A volume mounted over a block device: the allocation tables and the cluster heap.
use vstd::prelude::*;
use crate::codec::{le16, le32, read_u32, u32_to_bytes};
use crate::device::{BlockDevice, zeros};
use crate::error::FsError;
use crate::layout::{
    Geometry, MAX_TABLE_ENTRIES, boot_fat_sectors, END_OF_CHAIN, ROOT_END_OF_CHAIN, RESERVED_SENTINEL, layout_of, fat_entry,
    fat_table, mirrored, same_outside_tables, fat_write, fat_write_upto, reset_upto, reset_table,
    free_walk, first_free, free_from, count_nonzero, lemma_fat_write, lemma_slot_bounds,
    lemma_reset, lemma_free_walk, lemma_heap_write,
};
use crate::directory::{
    SLOT_END, SLOT_DELETED, slot_bytes, listing, listing_from, free_slot_from, zero_cluster,
    place_record, place_dots, dot_name, dotdot_name, make_node, make_root, find_in, record_name,
    record_is_dir, record_cluster, lemma_cluster_bounds, tree_text, entries_text, tree_fuel, indent, entry_line, is_dot_name, prepend,
    lemma_fresh_record,
};
use crate::entry::{DirEntry, entry_bytes, entry_decodes, name_of, ATTR_DIRECTORY, ATTR_ARCHIVE};
use crate::name::{fat_name, str_to_fat_name};
use vstd::string::{StringExecFns, StringSliceAdditionalSpecFns};
use crate::volume::{
    BiosParameterBlock, ExtendedBootRecord32, bpb_decodes, ebr_decodes, fat_size_sectors,
};

verus! {

/// A mounted volume. It owns its device for as long as it is mounted; `into_device`
/// hands the device back. Every operation asks for `wf`, which mounting establishes
/// and every operation keeps.
pub struct FileSystem<D: BlockDevice> {
    /// The mounted medium.
    pub device: D,
    pub bpb: BiosParameterBlock,
    pub ebr: ExtendedBootRecord32,
    /// First sector of the first table copy.
    pub fat_start: u32,
    /// First sector of the cluster heap.
    pub cluster_heap_start: u64,
    /// The root directory's cluster, as the boot sector gives it.
    pub root_dir_cluster: u32,
    /// The layout derived at mount time; the operations go by it.
    pub geo: Geometry,
}

/// `le32(b, off)` read from a copy of `b[start..]`.
proof fn lemma_le32_shift(b: Seq<u8>, start: int, len: int, off: int)
    requires
        0 <= start,
        start + len <= b.len(),
        0 <= off,
        off + 4 <= len,
    ensures
        le32(b.subrange(start, start + len), off) == le32(b, start + off),
{
    let s = b.subrange(start, start + len);
    assert(s[off] == b[start + off]);
    assert(s[off + 1] == b[start + off + 1]);
    assert(s[off + 2] == b[start + off + 2]);
    assert(s[off + 3] == b[start + off + 3]);
}

/// The 32 bytes of `v` from `off` on.
fn record_at(v: &[u8], off: usize) -> (r: [u8; 32])
    requires
        off + 32 <= v@.len(),
    ensures
        r@ == v@.subrange(off as int, off + 32),
{
    let r = [
        v[off],
        v[off + 1],
        v[off + 2],
        v[off + 3],
        v[off + 4],
        v[off + 5],
        v[off + 6],
        v[off + 7],
        v[off + 8],
        v[off + 9],
        v[off + 10],
        v[off + 11],
        v[off + 12],
        v[off + 13],
        v[off + 14],
        v[off + 15],
        v[off + 16],
        v[off + 17],
        v[off + 18],
        v[off + 19],
        v[off + 20],
        v[off + 21],
        v[off + 22],
        v[off + 23],
        v[off + 24],
        v[off + 25],
        v[off + 26],
        v[off + 27],
        v[off + 28],
        v[off + 29],
        v[off + 30],
        v[off + 31],
    ];
    assert(r@ =~= v@.subrange(off as int, off + 32));
    r
}

/// What an entry read from a record says of it is what the record says.
proof fn lemma_decoded_record(r: Seq<u8>, e: DirEntry)
    requires
        entry_decodes(r, e),
    ensures
        name_of(e.name@) == record_name(r),
        e.is_dir() == record_is_dir(r),
        e.cluster() == record_cluster(r),
{
}

impl<D: BlockDevice> FileSystem<D> {
    /// Every byte of the mounted medium.
    pub open spec fn bytes(&self) -> Seq<u8> {
        self.device.contents()
    }

    /// The layout read at mount time.
    pub open spec fn geo(&self) -> Geometry {
        self.geo
    }

    /// The root directory's cluster, as the boot sector gives it.
    pub open spec fn root(&self) -> u32 {
        self.root_dir_cluster
    }

    /// First sector of the first table copy.
    pub open spec fn fat_start_sector(&self) -> u32 {
        self.fat_start
    }

    /// First sector of the cluster heap.
    pub open spec fn heap_start_sector(&self) -> u64 {
        self.cluster_heap_start
    }

    pub open spec fn boot_records(&self) -> (BiosParameterBlock, ExtendedBootRecord32) {
        (self.bpb, self.ebr)
    }

    /// The layout fits the medium.
    pub open spec fn wf(&self) -> bool {
        &&& self.geo.valid(self.device.contents().len() as int)
        &&& self.device.contents().len() <= usize::MAX
    }

    /// Mounts the volume on `device`: reads sector 0, parses the parameter block and the
    /// extended boot record, and derives the layout. Fails with `Malformed` when the
    /// medium has no sector 0, or when sector 0 describes no table copy, a copy too small
    /// for the two header entries, a copy with more entries than cluster numbers allow, or
    /// tables that run past the end of the medium.
    pub fn new(device: D) -> (r: Result<Self, FsError>)
        ensures
            r is Ok <==> layout_of(device.contents()) is Some,
            r is Err ==> r == Err::<Self, FsError>(FsError::Malformed),
            r matches Ok(fs) ==> {
                &&& fs.wf()
                &&& fs.bytes() == device.contents()
                &&& layout_of(device.contents()) == Some(fs.geo())
                &&& fs.root() == le32(device.contents(), 44)
                &&& fs.fat_start_sector() == le16(device.contents()[14], device.contents()[15])
                &&& fs.heap_start_sector() == le16(device.contents()[14], device.contents()[15])
                    + device.contents()[16] * boot_fat_sectors(device.contents())
                &&& bpb_decodes(device.contents().subrange(0, 36), fs.bpb)
                &&& ebr_decodes(device.contents().subrange(36, 90), fs.ebr)
                &&& fs.fat_start == fs.bpb.reserved_sectors
                &&& fs.root_dir_cluster == fs.ebr.root_cluster
            },
    {
        let mut device = device;
        let ghost c = device.contents();
        let len = device.size();
        let mut sector = [0u8; 512];
        if device.read_sector(0, &mut sector).is_err() {
            return Err(FsError::Malformed);
        }
        let s = sector.as_slice();
        let bpb = match BiosParameterBlock::from_bytes(&s[0..36]) {
            Ok(p) => p,
            Err(e) => return Err(e),
        };
        let ebr = match ExtendedBootRecord32::from_bytes(&s[36..90]) {
            Ok(e) => e,
            Err(e) => return Err(e),
        };
        assert(s@.subrange(0, 36) =~= c.subrange(0, 36));
        assert(s@.subrange(36, 90) =~= c.subrange(36, 90));
        proof {
            lemma_le32_shift(c, 36, 54, 0);
            lemma_le32_shift(c, 36, 54, 8);
            lemma_le32_shift(c, 0, 36, 0);
        }
        let bps = bpb.bytes_per_sector as u64;
        let sectors = fat_size_sectors(&bpb, &ebr) as u64;
        let reserved = bpb.reserved_sectors as u64;
        let count = bpb.fat_table_count as u64;
        let spc = bpb.sectors_per_cluster as u64;
        assert(reserved * bps <= 0xFFFF * 0xFFFF) by (nonlinear_arith)
            requires
                reserved <= 0xFFFF,
                bps <= 0xFFFF,
        ;
        assert(sectors * bps <= 0xFFFF_FFFF * 0xFFFF) by (nonlinear_arith)
            requires
                sectors <= 0xFFFF_FFFF,
                bps <= 0xFFFF,
        ;
        assert(spc * bps <= 0xFF * 0xFFFF) by (nonlinear_arith)
            requires
                spc <= 0xFF,
                bps <= 0xFFFF,
        ;
        let fo: u64 = reserved * bps;
        let fb: u64 = sectors * bps;
        assert(count * fb <= 0xFF * (0xFFFF_FFFF * 0xFFFF)) by (nonlinear_arith)
            requires
                count <= 0xFF,
                fb <= 0xFFFF_FFFF * 0xFFFF,
        ;
        let heap: u64 = fo + count * fb;
        let cb: u64 = spc * bps;
        if heap > len as u64 || count < 1 || fb < 8 || fb / 4 > MAX_TABLE_ENTRIES as u64 {
            return Err(FsError::Malformed);
        }
        let hc: u64 = if cb == 0 {
            0
        } else {
            (len as u64 - heap) / cb
        };
        proof {
            if cb > 0 {
                let x = len - heap;
                assert((x / cb as int) * cb <= x) by (nonlinear_arith)
                    requires
                        cb > 0,
                        x >= 0,
                ;
                assert(hc == x / cb as int);
            }
            assert(heap + hc * cb <= len);
        }
        let geo = Geometry {
            fat_offset: fo as usize,
            fat_bytes: fb as usize,
            fat_count: count as usize,
            heap_offset: heap as usize,
            cluster_bytes: cb as usize,
            heap_clusters: hc as usize,
            media: bpb.media_descriptor,
        };
        let fat_start = bpb.reserved_sectors as u32;
        assert(count * sectors <= 0xFF * 0xFFFF_FFFF) by (nonlinear_arith)
            requires
                count <= 0xFF,
                sectors <= 0xFFFF_FFFF,
        ;
        let fs = FileSystem {
            device,
            bpb,
            ebr,
            fat_start,
            cluster_heap_start: reserved + count * sectors,
            root_dir_cluster: ebr.root_cluster,
            geo,
        };
        Ok(fs)
    }

    /// First sector of the cluster heap.
    pub fn cluster_heap_start(&self) -> (r: u64)
        ensures
            r == self.heap_start_sector(),
    {
        self.cluster_heap_start
    }

    /// The root directory's cluster.
    pub fn root_dir_cluster(&self) -> (r: u32)
        ensures
            r == self.root(),
    {
        self.root_dir_cluster
    }

    /// The layout read at mount time.
    pub fn geometry(&self) -> (r: Geometry)
        ensures
            r == self.geo(),
    {
        self.geo
    }

    /// The mounted device.
    pub fn device(&self) -> (r: &D)
        ensures
            r.contents() == self.bytes(),
    {
        &self.device
    }

    /// Unmounts the volume and hands back its device.
    pub fn into_device(self) -> (r: D)
        ensures
            r.contents() == self.bytes(),
    {
        self.device
    }

    /// Byte offset of entry `i` of table copy `k`.
    fn entry_offset(&self, k: usize, i: usize) -> (r: usize)
        requires
            self.wf(),
            k < self.geo().fat_count,
            i < self.geo().entries(),
        ensures
            r == self.geo().entry_offset(k as int, i as int),
            r + 4 <= self.geo().heap_offset,
    {
        proof {
            lemma_slot_bounds(self.geo, self.bytes().len() as int, k as int, i as int);
            assert(k * self.geo.fat_bytes <= self.geo.fat_count * self.geo.fat_bytes) by (nonlinear_arith)
                requires
                    k < self.geo.fat_count,
            ;
        }
        self.geo.fat_offset + k * self.geo.fat_bytes + 4 * i
    }

    /// Entry `i` of table copy `k`.
    fn read_fat_entry(&self, k: usize, i: usize) -> (r: u32)
        requires
            self.wf(),
            k < self.geo().fat_count,
            i < self.geo().entries(),
        ensures
            r == fat_entry(self.geo(), self.bytes(), k as int, i as int),
    {
        let off = self.entry_offset(k, i);
        let v = self.device.read_region(off, 4);
        proof {
            lemma_le32_shift(self.bytes(), off as int, 4, 0);
        }
        read_u32(v.as_slice(), 0)
    }

    /// Sets entry `cluster_idx` to `value` in every table copy.
    fn write_fat_entry(&mut self, cluster_idx: u32, value: u32)
        requires
            old(self).wf(),
            cluster_idx < old(self).geo().entries(),
        ensures
            final(self).wf(),
            final(self).geo() == old(self).geo(),
            final(self).root() == old(self).root(),
            final(self).boot_records() == old(self).boot_records(),
            final(self).bytes() == fat_write(
                old(self).geo(),
                old(self).bytes(),
                cluster_idx as int,
                value,
            ),
            forall|k: int|
                0 <= k < old(self).geo().fat_count ==> #[trigger] fat_table(
                    old(self).geo(),
                    final(self).bytes(),
                    k,
                ) == fat_table(old(self).geo(), old(self).bytes(), k).update(cluster_idx as int, value),
            same_outside_tables(old(self).geo(), final(self).bytes(), old(self).bytes()),
            mirrored(old(self).geo(), old(self).bytes()) ==> mirrored(
                final(self).geo(),
                final(self).bytes(),
            ),
    {
        proof {
            lemma_fat_write(self.geo, self.bytes(), cluster_idx as int, value);
        }
        let bytes = u32_to_bytes(value);
        let ghost b0 = self.bytes();
        let n = self.geo.fat_count;
        let mut k: usize = 0;
        while k < n
            invariant
                n == self.geo.fat_count,
                k <= n,
                self.geo == old(self).geo,
                self.root_dir_cluster == old(self).root_dir_cluster,
                self.bpb == old(self).bpb,
                self.ebr == old(self).ebr,
                cluster_idx < self.geo.entries(),
                bytes@ == crate::codec::u32_bytes(value),
                self.wf(),
                self.bytes() == fat_write_upto(self.geo, b0, cluster_idx as int, value, k as nat),
            decreases n - k,
        {
            let off = self.entry_offset(k, cluster_idx as usize);
            self.device.write_region(off, bytes.as_slice());
            k = k + 1;
        }
    }

    /// Zeroes every table copy, then writes the two header entries into each: entry 0
    /// holds `0x0FFFFFF0` with the media descriptor in its low byte, entry 1 all ones.
    pub fn init_fats(&mut self)
        requires
            old(self).wf(),
        ensures
            final(self).wf(),
            final(self).geo() == old(self).geo(),
            final(self).root() == old(self).root(),
            final(self).boot_records() == old(self).boot_records(),
            final(self).bytes() == reset_upto(
                old(self).geo(),
                old(self).bytes(),
                old(self).geo().fat_count as nat,
            ),
            forall|k: int|
                0 <= k < old(self).geo().fat_count ==> #[trigger] fat_table(
                    old(self).geo(),
                    final(self).bytes(),
                    k,
                ) == reset_table(old(self).geo()),
            mirrored(final(self).geo(), final(self).bytes()),
            same_outside_tables(old(self).geo(), final(self).bytes(), old(self).bytes()),
    {
        let ghost b0 = self.bytes();
        let fb = self.geo.fat_bytes;
        let zero: Vec<u8> = vec![0u8; fb];
        assert(zero@ =~= Seq::new(fb as nat, |j: int| 0u8));
        let e0 = u32_to_bytes(0x0FFF_FFF0u32 | self.geo.media as u32);
        let e1 = u32_to_bytes(RESERVED_SENTINEL);
        let n = self.geo.fat_count;
        let mut k: usize = 0;
        while k < n
            invariant
                n == self.geo.fat_count,
                fb == self.geo.fat_bytes,
                k <= n,
                self.geo == old(self).geo,
                self.root_dir_cluster == old(self).root_dir_cluster,
                self.bpb == old(self).bpb,
                self.ebr == old(self).ebr,
                zero@ == Seq::new(fb as nat, |j: int| 0u8),
                e0@ == crate::codec::u32_bytes(0x0FFF_FFF0u32 | self.geo.media as u32),
                e1@ == crate::codec::u32_bytes(RESERVED_SENTINEL),
                self.wf(),
                self.bytes() == reset_upto(self.geo, b0, k as nat),
            decreases n - k,
        {
            let off = self.entry_offset(k, 0);
            proof {
                lemma_slot_bounds(self.geo, self.bytes().len() as int, k as int, 0);
            }
            self.device.write_region(off, zero.as_slice());
            self.device.write_region(off, e0.as_slice());
            self.device.write_region(off + 4, e1.as_slice());
            k = k + 1;
        }
        proof {
            lemma_reset(self.geo, b0);
        }
    }

    /// Number of non-zero entries in the first table copy, the two header entries
    /// included.
    pub fn count_occupied_clusters(&self) -> (r: usize)
        requires
            self.wf(),
        ensures
            r == count_nonzero(fat_table(self.geo(), self.bytes(), 0)),
    {
        let ghost t = fat_table(self.geo, self.bytes(), 0);
        let fo = self.geo.fat_offset;
        let fb = self.geo.fat_bytes;
        proof {
            lemma_slot_bounds(self.geo, self.bytes().len() as int, 0, 0);
        }
        let table = self.device.read_region(fo, fb);
        let n = fb / 4;
        let mut count: usize = 0;
        let mut i: usize = 0;
        while i < n
            invariant
                n == self.geo.entries(),
                n == t.len(),
                fo == self.geo.fat_offset,
                fb == self.geo.fat_bytes,
                fo + fb <= self.bytes().len(),
                table@ == self.bytes().subrange(fo as int, fo + fb),
                t == fat_table(self.geo, self.bytes(), 0),
                i <= n,
                count <= i,
                count == count_nonzero(t.subrange(0, i as int)),
            decreases n - i,
        {
            proof {
                lemma_le32_shift(self.bytes(), fo as int, fb as int, 4 * i);
                assert(t.subrange(0, i + 1).drop_last() =~= t.subrange(0, i as int));
            }
            let v = read_u32(table.as_slice(), 4 * i);
            if v != 0 {
                count = count + 1;
            }
            i = i + 1;
        }
        assert(t.subrange(0, n as int) =~= t);
        count
    }

    /// Claims the first free cluster: scans the first table copy from entry 2 on for a
    /// zero entry, marks it end-of-chain in every copy and returns its index. Fails with
    /// `Exhausted`, changing nothing, when no entry is free.
    pub fn allocate_cluster(&mut self) -> (r: Result<u32, FsError>)
        requires
            old(self).wf(),
        ensures
            final(self).wf(),
            final(self).geo() == old(self).geo(),
            final(self).root() == old(self).root(),
            final(self).boot_records() == old(self).boot_records(),
            match r {
                Ok(c) => {
                    &&& first_free(fat_table(old(self).geo(), old(self).bytes(), 0)) == Some(c as int)
                    &&& final(self).bytes() == fat_write(
                        old(self).geo(),
                        old(self).bytes(),
                        c as int,
                        END_OF_CHAIN,
                    )
                },
                Err(e) => {
                    &&& e == FsError::Exhausted
                    &&& first_free(fat_table(old(self).geo(), old(self).bytes(), 0)) is None
                    &&& final(self).bytes() == old(self).bytes()
                },
            },
            mirrored(old(self).geo(), old(self).bytes()) ==> mirrored(
                final(self).geo(),
                final(self).bytes(),
            ),
    {
        let ghost t = fat_table(self.geo, self.bytes(), 0);
        let fo = self.geo.fat_offset;
        let fb = self.geo.fat_bytes;
        proof {
            lemma_slot_bounds(self.geo, self.bytes().len() as int, 0, 0);
        }
        let table = self.device.read_region(fo, fb);
        let n = fb / 4;
        let mut i: usize = 2;
        while i < n
            invariant
                n == self.geo.entries(),
                n == t.len(),
                n <= MAX_TABLE_ENTRIES,
                fo == self.geo.fat_offset,
                fb == self.geo.fat_bytes,
                fo + fb <= self.bytes().len(),
                table@ == self.bytes().subrange(fo as int, fo + fb),
                t == fat_table(self.geo, self.bytes(), 0),
                2 <= i,
                i <= n,
                free_from(t, 2) == free_from(t, i as int),
                *self == *old(self),
                self.wf(),
            decreases n - i,
        {
            proof {
                lemma_le32_shift(self.bytes(), fo as int, fb as int, 4 * i);
            }
            let v = read_u32(table.as_slice(), 4 * i);
            if v == 0 {
                proof {
                    lemma_fat_write(self.geo, self.bytes(), i as int, END_OF_CHAIN);
                }
                self.write_fat_entry(i as u32, END_OF_CHAIN);
                return Ok(i as u32);
            }
            i = i + 1;
        }
        Err(FsError::Exhausted)
    }

    /// Frees the chain that starts at `start_cluster`: reads each link from the first
    /// copy before zeroing the entry in every copy, and stops after zeroing the entry
    /// whose link is in the end-of-chain range. A link to a reserved entry (0 or 1), which
    /// is what a chain that loops back reads once its entries are zeroed, and a chain
    /// longer than the table are reported as `Corrupt`, a link past the table as
    /// `NotFound`; the entries zeroed before either stay zeroed, the header entries are
    /// never touched.
    pub fn free_cluster_chain(&mut self, start_cluster: u32) -> (r: Result<(), FsError>)
        requires
            old(self).wf(),
        ensures
            final(self).wf(),
            final(self).geo() == old(self).geo(),
            final(self).root() == old(self).root(),
            final(self).boot_records() == old(self).boot_records(),
            (final(self).bytes(), r) == free_walk(
                old(self).geo(),
                old(self).bytes(),
                start_cluster,
                old(self).geo().entries() as nat,
            ),
            mirrored(old(self).geo(), old(self).bytes()) ==> mirrored(
                final(self).geo(),
                final(self).bytes(),
            ),
            same_outside_tables(old(self).geo(), final(self).bytes(), old(self).bytes()),
            forall|k: int, i: int|
                0 <= k < old(self).geo().fat_count && 0 <= i < 2 ==> #[trigger] fat_entry(
                    old(self).geo(),
                    final(self).bytes(),
                    k,
                    i,
                ) == fat_entry(old(self).geo(), old(self).bytes(), k, i),
    {
        let ghost g = self.geo;
        let ghost b0 = self.bytes();
        let n = self.geo.fat_bytes / 4;
        proof {
            lemma_free_walk(g, b0, start_cluster, n as nat);
        }
        let mut cur = start_cluster;
        let mut fuel: usize = n;
        loop
            invariant
                n == g.entries(),
                self.geo == g,
                g == old(self).geo,
                b0 == old(self).bytes(),
                same_outside_tables(g, free_walk(g, b0, start_cluster, n as nat).0, b0),
                mirrored(g, b0) ==> mirrored(g, free_walk(g, b0, start_cluster, n as nat).0),
                forall|k: int, i: int|
                    0 <= k < g.fat_count && 0 <= i < 2 ==> #[trigger] fat_entry(
                        g,
                        free_walk(g, b0, start_cluster, n as nat).0,
                        k,
                        i,
                    ) == fat_entry(g, b0, k, i),
                self.root_dir_cluster == old(self).root_dir_cluster,
                self.bpb == old(self).bpb,
                self.ebr == old(self).ebr,
                self.wf(),
                fuel <= n,
                free_walk(g, b0, start_cluster, n as nat) == free_walk(
                    g,
                    self.bytes(),
                    cur,
                    fuel as nat,
                ),
            decreases fuel,
        {
            if cur >= END_OF_CHAIN {
                return Ok(());
            }
            if cur < 2 {
                return Err(FsError::Corrupt);
            }
            if cur as usize >= n {
                return Err(FsError::NotFound);
            }
            if fuel == 0 {
                return Err(FsError::Corrupt);
            }
            let next = self.read_fat_entry(0, cur as usize);
            self.write_fat_entry(cur, 0);
            cur = next;
            fuel = fuel - 1;
        }
    }

    fn holds_cluster(&self, c: usize) -> (r: bool)
        ensures
            r == self.geo().holds_cluster(c as int),
    {
        c >= 2 && c - 2 < self.geo.heap_clusters
    }

    /// Byte offset of cluster `c`.
    fn cluster_offset(&self, c: usize) -> (r: usize)
        requires
            self.wf(),
            self.geo().holds_cluster(c as int),
        ensures
            r == self.geo().cluster_offset(c as int),
            r + self.geo().cluster_bytes <= self.bytes().len(),
    {
        proof {
            lemma_cluster_bounds(self.geo, self.bytes().len() as int, c as int);
        }
        self.geo.heap_offset + (c - 2) * self.geo.cluster_bytes
    }

    /// Zeroes the bytes of cluster `cluster_idx`; fails with `NotFound`, changing
    /// nothing, when the cluster is not on the medium.
    pub fn zero_cluster_data(&mut self, cluster_idx: usize) -> (r: Result<(), FsError>)
        requires
            old(self).wf(),
        ensures
            final(self).wf(),
            final(self).geo() == old(self).geo(),
            final(self).root() == old(self).root(),
            final(self).boot_records() == old(self).boot_records(),
            r is Err <==> !old(self).geo().holds_cluster(cluster_idx as int),
            r is Err ==> r == Err::<(), FsError>(FsError::NotFound) && final(self).bytes() == old(
                self,
            ).bytes(),
            r is Ok ==> final(self).bytes() == zero_cluster(
                old(self).geo(),
                old(self).bytes(),
                cluster_idx as int,
            ),
            mirrored(old(self).geo(), old(self).bytes()) ==> mirrored(
                final(self).geo(),
                final(self).bytes(),
            ),
    {
        if !self.holds_cluster(cluster_idx) {
            return Err(FsError::NotFound);
        }
        let off = self.cluster_offset(cluster_idx);
        let cb = self.geo.cluster_bytes;
        let zero: Vec<u8> = vec![0u8; cb];
        assert(zero@ =~= zeros(cb as nat));
        proof {
            lemma_cluster_bounds(self.geo, self.bytes().len() as int, cluster_idx as int);
            lemma_heap_write(self.geo, self.bytes(), off as int, zero@);
        }
        self.device.write_region(off, zero.as_slice());
        Ok(())
    }

    /// The entries of directory cluster `cluster_idx` in slot order: the scan stops at the
    /// first slot that begins with `0x00` and passes over slots that begin with `0xE5`.
    /// Fails with `NotFound` when the cluster is not on the medium.
    pub fn read_dir_entries(&self, cluster_idx: usize) -> (r: Result<Vec<DirEntry>, FsError>)
        requires
            self.wf(),
        ensures
            r is Err <==> !self.geo().holds_cluster(cluster_idx as int),
            r is Err ==> r == Err::<Vec<DirEntry>, FsError>(FsError::NotFound),
            r matches Ok(v) ==> {
                let recs = listing(self.geo(), self.bytes(), cluster_idx as int);
                &&& v@.len() == recs.len()
                &&& forall|i: int| 0 <= i < recs.len() ==> entry_decodes(recs[i], #[trigger] v@[i])
            },
    {
        if !self.holds_cluster(cluster_idx) {
            return Err(FsError::NotFound);
        }
        let ghost g = self.geo;
        let ghost b = self.bytes();
        let ghost c = cluster_idx as int;
        let off = self.cluster_offset(cluster_idx);
        let cb = self.geo.cluster_bytes;
        proof {
            lemma_cluster_bounds(g, b.len() as int, c);
        }
        let region = self.device.read_region(off, cb);
        let n = cb / 32;
        let mut entries: Vec<DirEntry> = Vec::new();
        let ghost mut acc: Seq<Seq<u8>> = Seq::empty();
        let mut s: usize = 0;
        while s < n
            invariant
                n == g.slots(),
                32 * n <= cb,
                cb == g.cluster_bytes,
                off == g.cluster_offset(c),
                off + cb <= b.len(),
                region@ == b.subrange(off as int, off + cb),
                s <= n,
                entries@.len() == acc.len(),
                forall|i: int| 0 <= i < acc.len() ==> entry_decodes(acc[i], #[trigger] entries@[i]),
                acc + listing_from(g, b, c, s as int) == listing(g, b, c),
            decreases n - s,
        {
            let rec = record_at(region.as_slice(), 32 * s);
            assert(rec@ =~= slot_bytes(g, b, c, s as int));
            if rec[0] == SLOT_END {
                assert(acc + listing_from(g, b, c, n as int) =~= acc);
                s = n;
            } else {
                if rec[0] != SLOT_DELETED {
                    let e = DirEntry::deserialize(&rec);
                    entries.push(e);
                    proof {
                        assert(acc.push(rec@) + listing_from(g, b, c, s + 1) =~= acc + listing_from(g, b, c, s as int));
                        acc = acc.push(rec@);
                    }
                }
                s = s + 1;
            }
        }
        assert(acc + listing_from(g, b, c, s as int) =~= acc);
        Ok(entries)
    }

    /// Writes `new_entry` into the first free slot of directory cluster `cluster_idx`, a
    /// slot whose first byte is `0x00` or `0xE5`, and returns the slot's index. Fails with
    /// `Full` when no slot is free and with `NotFound` when the cluster is not on the
    /// medium; then nothing changes.
    pub fn allocate_dir_entry(&mut self, new_entry: DirEntry, cluster_idx: usize) -> (r: Result<
        u32,
        FsError,
    >)
        requires
            old(self).wf(),
        ensures
            final(self).wf(),
            final(self).geo() == old(self).geo(),
            final(self).root() == old(self).root(),
            final(self).boot_records() == old(self).boot_records(),
            (final(self).bytes(), r) == place_record(
                old(self).geo(),
                old(self).bytes(),
                cluster_idx as int,
                entry_bytes(new_entry),
            ),
            mirrored(old(self).geo(), old(self).bytes()) ==> mirrored(
                final(self).geo(),
                final(self).bytes(),
            ),
    {
        if !self.holds_cluster(cluster_idx) {
            return Err(FsError::NotFound);
        }
        let ghost g = self.geo;
        let ghost b = self.bytes();
        let ghost c = cluster_idx as int;
        let off = self.cluster_offset(cluster_idx);
        let cb = self.geo.cluster_bytes;
        proof {
            lemma_cluster_bounds(g, b.len() as int, c);
        }
        let region = self.device.read_region(off, cb);
        let n = cb / 32;
        let mut s: usize = 0;
        while s < n
            invariant
                n == g.slots(),
                n <= 0xFF * 0xFFFF,
                32 * n <= cb,
                cb == g.cluster_bytes,
                off == g.cluster_offset(c),
                off + cb <= b.len(),
                region@ == b.subrange(off as int, off + cb),
                s <= n,
                free_slot_from(g, b, c, 0) == free_slot_from(g, b, c, s as int),
                *self == *old(self),
                self.wf(),
                g == self.geo,
                b == self.bytes(),
                c == cluster_idx as int,
                g.holds_cluster(c),
            decreases n - s,
        {
            let first = region[32 * s];
            assert(first == slot_bytes(g, b, c, s as int)[0]);
            if first == SLOT_END || first == SLOT_DELETED {
                assert(free_slot_from(g, b, c, s as int) == Some(s as int));
                assert(g.slot_offset(c, s as int) == off + 32 * s);
                let rec = new_entry.serialize();
                proof {
                    lemma_heap_write(g, b, off + 32 * s, rec@);
                }
                self.device.write_region(off + 32 * s, rec.as_slice());
                return Ok(s as u32);
            }
            s = s + 1;
        }
        Err(FsError::Full)
    }

    /// The first cluster of the first directory entry in cluster `cluster` whose name, in
    /// readable form, is `name`. Fails with `NotFound` when there is none or the cluster
    /// is not on the medium.
    pub fn find_dir_in(&self, cluster: u32, name: &str) -> (r: Result<u32, FsError>)
        requires
            self.wf(),
        ensures
            !self.geo().holds_cluster(cluster as int) ==> r == Err::<u32, FsError>(
                FsError::NotFound,
            ),
            self.geo().holds_cluster(cluster as int) ==> match find_in(
                listing(self.geo(), self.bytes(), cluster as int),
                0,
                name@,
            ) {
                Some(c) => r == Ok::<u32, FsError>(c),
                None => r == Err::<u32, FsError>(FsError::NotFound),
            },
    {
        let entries = match self.read_dir_entries(cluster as usize) {
            Ok(v) => v,
            Err(e) => return Err(e),
        };
        let ghost recs = listing(self.geo, self.bytes(), cluster as int);
        let target = String::from_str(name);
        let mut i: usize = 0;
        while i < entries.len()
            invariant
                entries@.len() == recs.len(),
                forall|j: int| 0 <= j < recs.len() ==> entry_decodes(recs[j], #[trigger] entries@[j]),
                i <= entries@.len(),
                find_in(recs, 0, name@) == find_in(recs, i as int, name@),
                target@ == name@,
                self.geo().holds_cluster(cluster as int),
                recs == listing(self.geo(), self.bytes(), cluster as int),
            decreases entries@.len() - i,
        {
            let e = &entries[i];
            proof {
                lemma_decoded_record(recs[i as int], entries@[i as int]);
            }
            if e.is_directory() {
                match e.get_name() {
                    Ok(n) => {
                        if n == target {
                            return Ok(e.first_cluster());
                        }
                    },
                    Err(_) => {},
                }
            }
            i = i + 1;
        }
        Err(FsError::NotFound)
    }

    /// Writes the `.` and `..` entries into the zeroed cluster `cluster` of a new
    /// directory whose parent is `parent`.
    fn write_dots(&mut self, cluster: u32, parent: u32) -> (r: Result<u32, FsError>)
        requires
            old(self).wf(),
        ensures
            final(self).wf(),
            final(self).geo() == old(self).geo(),
            final(self).root() == old(self).root(),
            final(self).boot_records() == old(self).boot_records(),
            (final(self).bytes(), r) == place_dots(
                old(self).geo(),
                old(self).bytes(),
                cluster as int,
                parent,
            ),
            mirrored(old(self).geo(), old(self).bytes()) ==> mirrored(
                final(self).geo(),
                final(self).bytes(),
            ),
    {
        let dot_n = [0x2Eu8, 0x20, 0x20, 0x20, 0x20, 0x20, 0x20, 0x20, 0x20, 0x20, 0x20];
        let dotdot_n = [0x2Eu8, 0x2E, 0x20, 0x20, 0x20, 0x20, 0x20, 0x20, 0x20, 0x20, 0x20];
        assert(dot_n@ =~= dot_name());
        assert(dotdot_n@ =~= dotdot_name());
        let dot = DirEntry::new(dot_n, cluster, ATTR_DIRECTORY);
        let dot2 = DirEntry::new(dotdot_n, parent, ATTR_DIRECTORY);
        proof {
            lemma_fresh_record(dot, dot_name(), cluster, ATTR_DIRECTORY);
            lemma_fresh_record(dot2, dotdot_name(), parent, ATTR_DIRECTORY);
        }
        match self.allocate_dir_entry(dot, cluster as usize) {
            Ok(_) => {},
            Err(e) => return Err(e),
        }
        self.allocate_dir_entry(dot2, cluster as usize)
    }

    /// Claims a cluster, zeroes it, and writes an entry for it named `filename` into
    /// directory `parent_dir_cluster`; a directory also gets its `.` and `..` entries.
    fn create_node(&mut self, parent_dir_cluster: u32, filename: &str, is_dir: bool) -> (r: Result<
        (),
        FsError,
    >)
        requires
            old(self).wf(),
        ensures
            final(self).wf(),
            final(self).geo() == old(self).geo(),
            final(self).root() == old(self).root(),
            final(self).boot_records() == old(self).boot_records(),
            (final(self).bytes(), r) == make_node(
                old(self).geo(),
                old(self).bytes(),
                parent_dir_cluster,
                fat_name(filename.spec_bytes()),
                is_dir,
            ),
            mirrored(old(self).geo(), old(self).bytes()) ==> mirrored(
                final(self).geo(),
                final(self).bytes(),
            ),
    {
        let cluster = match self.allocate_cluster() {
            Ok(c) => c,
            Err(e) => return Err(e),
        };
        let attr = if is_dir {
            ATTR_DIRECTORY
        } else {
            ATTR_ARCHIVE
        };
        let name = str_to_fat_name(filename);
        let entry = DirEntry::new(name, cluster, attr);
        proof {
            lemma_fresh_record(entry, name@, cluster, attr);
        }
        match self.zero_cluster_data(cluster as usize) {
            Ok(()) => {},
            Err(e) => return Err(e),
        }
        if is_dir {
            match self.write_dots(cluster, parent_dir_cluster) {
                Ok(_) => {},
                Err(e) => return Err(e),
            }
        }
        match self.allocate_dir_entry(entry, parent_dir_cluster as usize) {
            Ok(_) => Ok(()),
            Err(e) => Err(e),
        }
    }

    /// Creates a directory named `filename` in directory `parent_dir_cluster`: claims a
    /// cluster, zeroes it, writes its `.` and `..` entries, then writes its entry into
    /// the parent. The first failing step's error is returned; what the steps before it
    /// wrote stays (a claimed cluster is not given back).
    pub fn create_dir(&mut self, parent_dir_cluster: u32, filename: &str) -> (r: Result<
        (),
        FsError,
    >)
        requires
            old(self).wf(),
        ensures
            final(self).wf(),
            final(self).geo() == old(self).geo(),
            final(self).root() == old(self).root(),
            final(self).boot_records() == old(self).boot_records(),
            (final(self).bytes(), r) == make_node(
                old(self).geo(),
                old(self).bytes(),
                parent_dir_cluster,
                fat_name(filename.spec_bytes()),
                true,
            ),
            mirrored(old(self).geo(), old(self).bytes()) ==> mirrored(
                final(self).geo(),
                final(self).bytes(),
            ),
    {
        self.create_node(parent_dir_cluster, filename, true)
    }

    /// Creates an empty file named `filename` in directory `parent_dir_cluster`: claims a
    /// cluster, zeroes it, then writes a file entry of size 0 into the parent. Errors as
    /// for `create_dir`.
    pub fn create_file(&mut self, parent_dir_cluster: u32, filename: &str) -> (r: Result<
        (),
        FsError,
    >)
        requires
            old(self).wf(),
        ensures
            final(self).wf(),
            final(self).geo() == old(self).geo(),
            final(self).root() == old(self).root(),
            final(self).boot_records() == old(self).boot_records(),
            (final(self).bytes(), r) == make_node(
                old(self).geo(),
                old(self).bytes(),
                parent_dir_cluster,
                fat_name(filename.spec_bytes()),
                false,
            ),
            mirrored(old(self).geo(), old(self).bytes()) ==> mirrored(
                final(self).geo(),
                final(self).bytes(),
            ),
    {
        self.create_node(parent_dir_cluster, filename, false)
    }

    /// Sets up the root directory in the cluster that the boot sector names: zeroes it,
    /// writes `.` and `..` entries that both point at it, and marks it end-of-chain
    /// (`0x0FFFFFFF`) in every table copy. Fails with `NotFound`, changing nothing, when
    /// that cluster is off the medium or past the table.
    pub fn create_root_dir(&mut self) -> (r: Result<(), FsError>)
        requires
            old(self).wf(),
        ensures
            final(self).wf(),
            final(self).geo() == old(self).geo(),
            final(self).root() == old(self).root(),
            final(self).boot_records() == old(self).boot_records(),
            (final(self).bytes(), r) == make_root(old(self).geo(), old(self).bytes(), old(self).root()),
            mirrored(old(self).geo(), old(self).bytes()) ==> mirrored(
                final(self).geo(),
                final(self).bytes(),
            ),
    {
        let root = self.root_dir_cluster;
        if !self.holds_cluster(root as usize) || root as usize >= self.geo.fat_bytes / 4 {
            return Err(FsError::NotFound);
        }
        match self.zero_cluster_data(root as usize) {
            Ok(()) => {},
            Err(e) => return Err(e),
        }
        match self.write_dots(root, root) {
            Ok(_) => {},
            Err(e) => return Err(e),
        }
        proof {
            lemma_fat_write(self.geo, self.bytes(), root as int, ROOT_END_OF_CHAIN);
        }
        self.write_fat_entry(root, ROOT_END_OF_CHAIN);
        Ok(())
    }

    /// The rendering of directory `cluster_idx` (see `tree_text`), at most `fuel` levels
    /// deep below it.
    fn tree_rec(&self, cluster_idx: u32, depth: usize, fuel: usize) -> (r: Result<String, FsError>)
        requires
            self.wf(),
            depth + fuel <= usize::MAX,
        ensures
            r matches Ok(s) ==> tree_text(
                self.geo(),
                self.bytes(),
                cluster_idx as int,
                depth as nat,
                fuel as nat,
            ) == Ok::<Seq<char>, FsError>(s@),
            r matches Err(e) ==> tree_text(
                self.geo(),
                self.bytes(),
                cluster_idx as int,
                depth as nat,
                fuel as nat,
            ) == Err::<Seq<char>, FsError>(e),
        decreases fuel,
    {
        let ghost g = self.geo;
        let ghost b = self.bytes();
        let entries = match self.read_dir_entries(cluster_idx as usize) {
            Ok(v) => v,
            Err(e) => return Err(e),
        };
        let ghost recs = listing(g, b, cluster_idx as int);
        let ghost whole = entries_text(g, b, recs, 0, depth as nat, fuel as nat);
        proof {
            reveal_strlit("\\ ");
            reveal_strlit("* ");
            reveal_strlit("\n");
        }
        let mut pad = String::new();
        let mut k: usize = 0;
        while k < depth
            invariant
                k <= depth,
                pad@ == indent(k as nat),
                "\\ "@ == seq!['\\', ' '],
            decreases depth - k,
        {
            pad.append("\\ ");
            k = k + 1;
        }
        let mut out = String::new();
        let mut i: usize = 0;
        while i < entries.len()
            invariant
                entries@.len() == recs.len(),
                forall|j: int| 0 <= j < recs.len() ==> entry_decodes(recs[j], #[trigger] entries@[j]),
                i <= entries@.len(),
                whole == prepend(out@, entries_text(g, b, recs, i as int, depth as nat, fuel as nat)),
                pad@ == indent(depth as nat),
                "* "@ == seq!['*', ' '],
                "\n"@ == seq!['\n'],
                self.wf(),
                g == self.geo,
                b == self.bytes(),
                depth + fuel <= usize::MAX,
                g.holds_cluster(cluster_idx as int),
                recs == listing(g, b, cluster_idx as int),
                whole == tree_text(g, b, cluster_idx as int, depth as nat, fuel as nat),
            decreases entries@.len() - i,
        {
            let e = &entries[i];
            proof {
                lemma_decoded_record(recs[i as int], entries@[i as int]);
            }
            match e.get_name() {
                Err(_) => {
                    assert(entries_text(g, b, recs, i as int, depth as nat, fuel as nat)
                        == entries_text(g, b, recs, i + 1, depth as nat, fuel as nat));
                },
                Ok(nm) => {
                    let dot = is_dot_text(nm.as_str());
                    let mut sub = String::new();
                    let ghost here = entries_text(g, b, recs, i as int, depth as nat, fuel as nat);
                    let ghost rest = entries_text(g, b, recs, i + 1, depth as nat, fuel as nat);
                    if e.is_directory() && !dot {
                        if fuel == 0 {
                            assert(here == Err::<Seq<char>, FsError>(FsError::Corrupt));
                            return Err(FsError::Corrupt);
                        }
                        sub = match self.tree_rec(e.first_cluster(), depth + 1, fuel - 1) {
                            Ok(t) => t,
                            Err(x) => {
                                assert(here == Err::<Seq<char>, FsError>(x));
                                return Err(x);
                            },
                        };
                    }
                    assert(here == prepend(entry_line(depth as nat, nm@) + sub@, rest));
                    let ghost before = out@;
                    out.append(pad.as_str());
                    out.append("* ");
                    out.append(nm.as_str());
                    out.append("\n");
                    out.append(sub.as_str());
                    assert(out@ =~= before + (entry_line(depth as nat, nm@) + sub@));
                    proof {
                        match rest {
                            Ok(x) => {
                                assert(out@ + x =~= before + ((entry_line(depth as nat, nm@) + sub@) + x));
                            },
                            Err(_) => {},
                        }
                    }
                },
            }
            i = i + 1;
        }
        assert(out@ + Seq::<char>::empty() =~= out@);
        Ok(out)
    }

    /// The directory tree under `cluster_idx` as indented text: one line `* name` per
    /// entry, preceded by `depth` markers `\\ `, with each subdirectory other than `.` and
    /// `..` rendered right after its line one level deeper. Entries whose names do not
    /// decode are left out. A tree deeper than the heap has clusters is `Corrupt`; a
    /// cluster off the medium is `NotFound`.
    pub fn return_tree(&self, cluster_idx: u32, depth: usize) -> (r: Result<String, FsError>)
        requires
            self.wf(),
        ensures
            r matches Ok(s) ==> tree_text(
                self.geo(),
                self.bytes(),
                cluster_idx as int,
                depth as nat,
                tree_fuel(self.geo(), depth),
            ) == Ok::<Seq<char>, FsError>(s@),
            r matches Err(e) ==> tree_text(
                self.geo(),
                self.bytes(),
                cluster_idx as int,
                depth as nat,
                tree_fuel(self.geo(), depth),
            ) == Err::<Seq<char>, FsError>(e),
    {
        let hc = self.geo.heap_clusters;
        let fuel = if depth <= usize::MAX - hc {
            hc
        } else {
            usize::MAX - depth
        };
        self.tree_rec(cluster_idx, depth, fuel)
    }
}

/// `s` is `.` or `..`.
fn is_dot_text(s: &str) -> (r: bool)
    ensures
        r == is_dot_name(s@),
{
    let n = s.unicode_len();
    if n == 1 {
        let r = s.get_char(0) == '.';
        assert(r ==> s@ =~= seq!['.']);
        r
    } else if n == 2 {
        let r = s.get_char(0) == '.' && s.get_char(1) == '.';
        assert(r ==> s@ =~= seq!['.', '.']);
        r
    } else {
        false
    }
}

} // verus!
