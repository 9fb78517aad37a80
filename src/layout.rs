//! Where the allocation tables and the cluster heap lie on the medium, and what their
//! bytes mean.
use vstd::prelude::*;
use crate::codec::{le16, le32, splice, u32_bytes};
use crate::error::FsError;

verus! {

/// First value of the end-of-chain range; allocation writes exactly this value.
pub const END_OF_CHAIN: u32 = 0x0FFF_FFF8;

/// End-of-chain value written for the root directory's cluster.
pub const ROOT_END_OF_CHAIN: u32 = 0x0FFF_FFFF;

/// Value of table entry 1, the all-ones sentinel.
pub const RESERVED_SENTINEL: u32 = 0xFFFF_FFFF;

/// Largest number of entries a table may have, so that every index stays below the
/// end-of-chain range.
pub const MAX_TABLE_ENTRIES: usize = 0x0FFF_FFF7;

/// The byte layout of a mounted volume, derived once from its boot sector.
#[derive(Copy, Clone, Debug)]
pub struct Geometry {
    /// Byte offset of the first table copy.
    pub fat_offset: usize,
    /// Bytes in one table copy.
    pub fat_bytes: usize,
    /// Number of mirrored table copies.
    pub fat_count: usize,
    /// Byte offset of the cluster heap, right after the last table copy.
    pub heap_offset: usize,
    /// Bytes in one cluster.
    pub cluster_bytes: usize,
    /// Number of whole clusters that the medium holds after `heap_offset`.
    pub heap_clusters: usize,
    /// Media descriptor byte, stored in table entry 0.
    pub media: u8,
}

impl Geometry {
    /// Entries in one table copy.
    pub open spec fn entries(self) -> int {
        self.fat_bytes as int / 4
    }

    pub open spec fn copy_offset(self, k: int) -> int {
        self.fat_offset + k * self.fat_bytes
    }

    /// Byte offset of entry `i` of table copy `k`.
    pub open spec fn entry_offset(self, k: int, i: int) -> int {
        self.copy_offset(k) + 4 * i
    }

    /// Directory slots in one cluster.
    pub open spec fn slots(self) -> int {
        self.cluster_bytes as int / 32
    }

    /// Byte offset of cluster `c` (clusters are numbered from 2).
    pub open spec fn cluster_offset(self, c: int) -> int {
        self.heap_offset + (c - 2) * self.cluster_bytes
    }

    /// Byte offset of slot `s` of cluster `c`.
    pub open spec fn slot_offset(self, c: int, s: int) -> int {
        self.cluster_offset(c) + 32 * s
    }

    /// Cluster `c` lies wholly on the medium.
    pub open spec fn holds_cluster(self, c: int) -> bool {
        2 <= c && c - 2 < self.heap_clusters
    }

    /// The layout fits a medium of `len` bytes: at least one table copy of at least the two
    /// reserved entries, every copy and every heap cluster on the medium, and a cluster no
    /// larger than a boot sector can describe.
    pub open spec fn valid(self, len: int) -> bool {
        &&& self.heap_offset == self.fat_offset + self.fat_count * self.fat_bytes
        &&& self.heap_offset <= len
        &&& self.fat_count >= 1
        &&& self.fat_bytes >= 8
        &&& self.entries() <= MAX_TABLE_ENTRIES
        &&& self.cluster_bytes <= 0xFF * 0xFFFF
        &&& self.heap_offset + self.heap_clusters * self.cluster_bytes <= len
    }
}

/// Sectors in one table copy as sector 0 of `c` gives them: the 32-bit field when the
/// 16-bit one is zero.
pub open spec fn boot_fat_sectors(c: Seq<u8>) -> int {
    let fat16 = le16(c[22], c[23]);
    if fat16 == 0 {
        le32(c, 36) as int
    } else {
        fat16 as int
    }
}

/// The layout that sector 0 of the medium `c` describes, when it is one the medium can
/// hold (see `Geometry::valid`); sector sizes and counts are read as in the boot sector.
pub open spec fn layout_of(c: Seq<u8>) -> Option<Geometry> {
    if c.len() < 512 {
        None
    } else {
        let bps = le16(c[11], c[12]) as int;
        let spc = c[13] as int;
        let reserved = le16(c[14], c[15]) as int;
        let count = c[16] as int;
        let sectors = boot_fat_sectors(c);
        let fo = reserved * bps;
        let fb = sectors * bps;
        let heap = fo + count * fb;
        let cb = spc * bps;
        if heap > c.len() || count < 1 || fb < 8 || fb / 4 > MAX_TABLE_ENTRIES {
            None
        } else {
            let hc = if cb == 0 {
                0
            } else {
                (c.len() - heap) / cb
            };
            Some(
                Geometry {
                    fat_offset: fo as usize,
                    fat_bytes: fb as usize,
                    fat_count: count as usize,
                    heap_offset: heap as usize,
                    cluster_bytes: cb as usize,
                    heap_clusters: hc as usize,
                    media: c[21],
                },
            )
        }
    }
}

/// Entry `i` of table copy `k`.
pub open spec fn fat_entry(g: Geometry, b: Seq<u8>, k: int, i: int) -> u32 {
    le32(b, g.entry_offset(k, i))
}

/// Table copy `k` as a sequence of entries.
pub open spec fn fat_table(g: Geometry, b: Seq<u8>, k: int) -> Seq<u32> {
    Seq::new(g.entries() as nat, |i: int| fat_entry(g, b, k, i))
}

/// Every table copy holds the same entries as the first.
pub open spec fn mirrored(g: Geometry, b: Seq<u8>) -> bool {
    forall|k: int| 0 <= k < g.fat_count ==> #[trigger] fat_table(g, b, k) == fat_table(g, b, 0)
}

/// The medium outside the tables is the same in `a` and `b`.
pub open spec fn same_outside_tables(g: Geometry, a: Seq<u8>, b: Seq<u8>) -> bool {
    &&& a.len() == b.len()
    &&& forall|j: int|
        0 <= j < a.len() && (j < g.fat_offset || j >= g.heap_offset) ==> #[trigger] a[j] == b[j]
}

/// Writing `d` at `off`, in the cluster heap, leaves every table as it was.
pub proof fn lemma_heap_write(g: Geometry, b: Seq<u8>, off: int, d: Seq<u8>)
    requires
        g.valid(b.len() as int),
        g.heap_offset <= off,
        off + d.len() <= b.len(),
    ensures
        splice(b, off, d).len() == b.len(),
        forall|k: int|
            0 <= k < g.fat_count ==> #[trigger] fat_table(g, splice(b, off, d), k) == fat_table(
                g,
                b,
                k,
            ),
        mirrored(g, b) ==> mirrored(g, splice(b, off, d)),
{
    let n = splice(b, off, d);
    assert forall|k: int| 0 <= k < g.fat_count implies #[trigger] fat_table(g, n, k) == fat_table(
        g,
        b,
        k,
    ) by {
        assert forall|i: int| 0 <= i < g.entries() implies fat_entry(g, n, k, i) == fat_entry(
            g,
            b,
            k,
            i,
        ) by {
            let p = g.entry_offset(k, i);
            lemma_slot_bounds(g, b.len() as int, k, i);
            assert(n[p] == b[p]);
            assert(n[p + 1] == b[p + 1]);
            assert(n[p + 2] == b[p + 2]);
            assert(n[p + 3] == b[p + 3]);
        }
        assert(fat_table(g, n, k) =~= fat_table(g, b, k));
    }
}

/// `b` with `v` stored at `off`.
pub open spec fn put32(b: Seq<u8>, off: int, v: u32) -> Seq<u8> {
    splice(b, off, u32_bytes(v))
}

/// `b` with entry `i` set to `v` in the first `n` table copies.
pub open spec fn fat_write_upto(g: Geometry, b: Seq<u8>, i: int, v: u32, n: nat) -> Seq<u8>
    decreases n,
{
    if n == 0 {
        b
    } else {
        put32(fat_write_upto(g, b, i, v, (n - 1) as nat), g.entry_offset(n - 1, i), v)
    }
}

/// `b` with entry `i` set to `v` in every table copy.
pub open spec fn fat_write(g: Geometry, b: Seq<u8>, i: int, v: u32) -> Seq<u8> {
    fat_write_upto(g, b, i, v, g.fat_count as nat)
}

/// The table a reset leaves: the two header entries, then free entries.
pub open spec fn reset_table(g: Geometry) -> Seq<u32> {
    Seq::new(
        g.entries() as nat,
        |i: int|
            if i == 0 {
                (0x0FFF_FFF0u32 | g.media as u32)
            } else if i == 1 {
                RESERVED_SENTINEL
            } else {
                0u32
            },
    )
}

/// `b` with the first `n` table copies zeroed and given their two header entries.
pub open spec fn reset_upto(g: Geometry, b: Seq<u8>, n: nat) -> Seq<u8>
    decreases n,
{
    if n == 0 {
        b
    } else {
        let o = g.copy_offset(n - 1);
        let z = splice(reset_upto(g, b, (n - 1) as nat), o, Seq::new(g.fat_bytes as nat, |j: int| 0u8));
        put32(put32(z, o, 0x0FFF_FFF0u32 | g.media as u32), o + 4, RESERVED_SENTINEL)
    }
}

/// The index of the first zero entry of `t` at or after `i`.
pub open spec fn free_from(t: Seq<u32>, i: int) -> Option<int>
    decreases t.len() - i,
{
    if i >= t.len() || i < 0 {
        None
    } else if t[i] == 0 {
        Some(i)
    } else {
        free_from(t, i + 1)
    }
}

/// The cluster that allocation claims: the first zero entry from index 2 on.
pub open spec fn first_free(t: Seq<u32>) -> Option<int> {
    free_from(t, 2)
}

/// Number of non-zero entries of `t`.
pub open spec fn count_nonzero(t: Seq<u32>) -> nat
    decreases t.len(),
{
    if t.len() == 0 {
        0
    } else {
        count_nonzero(t.drop_last()) + if t.last() != 0 {
            1nat
        } else {
            0nat
        }
    }
}

/// Freeing the chain that starts at `cur`: read the next link from the first copy, zero
/// the current entry in every copy, and go on until a link in the end-of-chain range. A
/// link to a reserved entry (0 or 1) stops with `Corrupt`, so a chain that loops back to
/// an entry it already zeroed ends there and the header entries are never touched. At
/// most `fuel` entries are freed; a longer walk stops with `Corrupt`, a link past the
/// table with `NotFound`. Gives the medium after the walk and its outcome.
pub open spec fn free_walk(g: Geometry, b: Seq<u8>, cur: u32, fuel: nat) -> (Seq<u8>, Result<(), FsError>)
    decreases fuel,
{
    if cur >= END_OF_CHAIN {
        (b, Ok(()))
    } else if cur < 2 {
        (b, Err(FsError::Corrupt))
    } else if cur as int >= g.entries() {
        (b, Err(FsError::NotFound))
    } else if fuel == 0 {
        (b, Err(FsError::Corrupt))
    } else {
        free_walk(g, fat_write(g, b, cur as int, 0), fat_entry(g, b, 0, cur as int), (fuel - 1) as nat)
    }
}

pub proof fn lemma_free_walk(g: Geometry, b: Seq<u8>, cur: u32, fuel: nat)
    requires
        g.valid(b.len() as int),
    ensures
        same_outside_tables(g, free_walk(g, b, cur, fuel).0, b),
        mirrored(g, b) ==> mirrored(g, free_walk(g, b, cur, fuel).0),
        forall|k: int, i: int|
            0 <= k < g.fat_count && 0 <= i < 2 ==> #[trigger] fat_entry(
                g,
                free_walk(g, b, cur, fuel).0,
                k,
                i,
            ) == fat_entry(g, b, k, i),
    decreases fuel,
{
    if cur < END_OF_CHAIN && cur >= 2 && (cur as int) < g.entries() && fuel > 0 {
        let w = fat_write(g, b, cur as int, 0);
        lemma_fat_write(g, b, cur as int, 0);
        lemma_free_walk(g, w, fat_entry(g, b, 0, cur as int), (fuel - 1) as nat);
        assert forall|k: int, i: int| 0 <= k < g.fat_count && 0 <= i < 2 implies fat_entry(
            g,
            w,
            k,
            i,
        ) == fat_entry(g, b, k, i) by {
            assert(fat_table(g, w, k) == fat_table(g, b, k).update(cur as int, 0));
            assert(fat_table(g, w, k)[i] == fat_entry(g, w, k, i));
            assert(fat_table(g, b, k)[i] == fat_entry(g, b, k, i));
        }
    }
}

pub proof fn lemma_free_from(t: Seq<u32>, i: int)
    requires
        0 <= i,
    ensures
        free_from(t, i) matches Some(c) ==> i <= c < t.len() && t[c] == 0 && forall|j: int|
            i <= j < c ==> t[j] != 0,
        free_from(t, i) is None ==> forall|j: int| i <= j < t.len() ==> t[j] != 0,
    decreases t.len() - i,
{
    if i < t.len() && t[i] != 0 {
        lemma_free_from(t, i + 1);
    }
}

pub proof fn lemma_slot_bounds(g: Geometry, len: int, k: int, i: int)
    requires
        g.valid(len),
        0 <= k < g.fat_count,
        0 <= i < g.entries(),
    ensures
        g.fat_offset <= g.copy_offset(k),
        g.copy_offset(k) <= g.entry_offset(k, i),
        g.entry_offset(k, i) + 4 <= g.copy_offset(k) + g.fat_bytes,
        g.copy_offset(k) + g.fat_bytes <= g.heap_offset,
{
    let fb = g.fat_bytes as int;
    assert(4 * (fb / 4) <= fb) by (nonlinear_arith)
        requires
            fb >= 0,
    ;
    assert(k * fb + fb <= g.fat_count * fb) by (nonlinear_arith)
        requires
            k + 1 <= g.fat_count,
            fb >= 0,
    ;
    assert(0 <= k * fb) by (nonlinear_arith)
        requires
            k >= 0,
            fb >= 0,
    ;
}

pub proof fn lemma_slots_disjoint(g: Geometry, len: int, k1: int, i1: int, k2: int, i2: int)
    requires
        g.valid(len),
        0 <= k1 < g.fat_count,
        0 <= i1 < g.entries(),
        0 <= k2 < g.fat_count,
        0 <= i2 < g.entries(),
        k1 != k2 || i1 != i2,
    ensures
        g.entry_offset(k1, i1) + 4 <= g.entry_offset(k2, i2) || g.entry_offset(k2, i2) + 4
            <= g.entry_offset(k1, i1),
{
    lemma_slot_bounds(g, len, k1, i1);
    lemma_slot_bounds(g, len, k2, i2);
    let fb = g.fat_bytes as int;
    if k1 < k2 {
        assert(k1 * fb + fb <= k2 * fb) by (nonlinear_arith)
            requires
                k1 + 1 <= k2,
                fb >= 0,
        ;
    } else if k2 < k1 {
        assert(k2 * fb + fb <= k1 * fb) by (nonlinear_arith)
            requires
                k2 + 1 <= k1,
                fb >= 0,
        ;
    }
}

pub proof fn lemma_put32(b: Seq<u8>, o: int, v: u32)
    requires
        0 <= o,
        o + 4 <= b.len(),
    ensures
        put32(b, o, v).len() == b.len(),
        forall|j: int| 0 <= j < b.len() && (j < o || j >= o + 4) ==> #[trigger] put32(b, o, v)[j] == b[j],
        le32(put32(b, o, v), o) == v,
        forall|p: int|
            0 <= p && p + 4 <= b.len() && (p + 4 <= o || o + 4 <= p) ==> #[trigger] le32(
                put32(b, o, v),
                p,
            ) == le32(b, p),
{
    let n = put32(b, o, v);
    crate::codec::lemma_u32_round_trip(v);
    assert(n.subrange(o, o + 4) =~= u32_bytes(v));
    crate::codec::lemma_le32_of_bytes(n, o, v);
    assert forall|p: int|
        0 <= p && p + 4 <= b.len() && (p + 4 <= o || o + 4 <= p) implies #[trigger] le32(
            put32(b, o, v),
            p,
        ) == le32(b, p) by {
        assert(n[p] == b[p]);
        assert(n[p + 1] == b[p + 1]);
        assert(n[p + 2] == b[p + 2]);
        assert(n[p + 3] == b[p + 3]);
    }
}

pub proof fn lemma_fat_write_upto(g: Geometry, b: Seq<u8>, i: int, v: u32, n: nat)
    requires
        g.valid(b.len() as int),
        0 <= i < g.entries(),
        n <= g.fat_count,
    ensures
        same_outside_tables(g, fat_write_upto(g, b, i, v, n), b),
        forall|k: int, i2: int|
            0 <= k < g.fat_count && 0 <= i2 < g.entries() ==> #[trigger] fat_entry(
                g,
                fat_write_upto(g, b, i, v, n),
                k,
                i2,
            ) == if k < n && i2 == i {
                v
            } else {
                fat_entry(g, b, k, i2)
            },
    decreases n,
{
    if n > 0 {
        let prev = fat_write_upto(g, b, i, v, (n - 1) as nat);
        lemma_fat_write_upto(g, b, i, v, (n - 1) as nat);
        let o = g.entry_offset(n - 1, i);
        lemma_slot_bounds(g, b.len() as int, n - 1, i);
        lemma_put32(prev, o, v);
        let cur = fat_write_upto(g, b, i, v, n);
        assert forall|k: int, i2: int|
            0 <= k < g.fat_count && 0 <= i2 < g.entries() implies #[trigger] fat_entry(
                g,
                cur,
                k,
                i2,
            ) == if k < n && i2 == i {
                v
            } else {
                fat_entry(g, b, k, i2)
            } by {
            lemma_slot_bounds(g, b.len() as int, k, i2);
            assert(cur == put32(prev, o, v));
            let p = g.entry_offset(k, i2);
            assert(fat_entry(g, prev, k, i2) == if k < n - 1 && i2 == i {
                v
            } else {
                fat_entry(g, b, k, i2)
            });
            if k != n - 1 || i2 != i {
                lemma_slots_disjoint(g, b.len() as int, k, i2, n - 1, i);
                assert(le32(put32(prev, o, v), p) == le32(prev, p));
            }
        }
    }
}

/// Byte `j` lies in entry `i` of one of the first `n` table copies.
pub open spec fn in_entry_slot(g: Geometry, i: int, j: int, n: nat) -> bool {
    exists|k: int| 0 <= k < n && #[trigger] g.entry_offset(k, i) <= j < g.entry_offset(k, i) + 4
}

/// At the byte level, writing entry `i` into the first `n` copies stores the bytes of `v`
/// in those slots and nothing else.
pub proof fn lemma_fat_write_bytes(g: Geometry, b: Seq<u8>, i: int, v: u32, n: nat)
    requires
        g.valid(b.len() as int),
        0 <= i < g.entries(),
        n <= g.fat_count,
    ensures
        fat_write_upto(g, b, i, v, n).len() == b.len(),
        forall|j: int|
            0 <= j < b.len() && !in_entry_slot(g, i, j, n) ==> #[trigger] fat_write_upto(
                g,
                b,
                i,
                v,
                n,
            )[j] == b[j],
        forall|k: int, t: int|
            0 <= k < n && 0 <= t < 4 ==> #[trigger] fat_write_upto(g, b, i, v, n)[g.entry_offset(k, i)
                + t] == u32_bytes(v)[t],
    decreases n,
{
    if n > 0 {
        lemma_fat_write_bytes(g, b, i, v, (n - 1) as nat);
        let prev = fat_write_upto(g, b, i, v, (n - 1) as nat);
        let o = g.entry_offset(n - 1, i);
        lemma_slot_bounds(g, b.len() as int, n - 1, i);
        lemma_put32(prev, o, v);
        let cur = fat_write_upto(g, b, i, v, n);
        assert(cur == put32(prev, o, v));
        assert forall|j: int| 0 <= j < b.len() && !in_entry_slot(g, i, j, n) implies #[trigger] cur[j]
            == b[j] by {
            if o <= j < o + 4 {
                assert(in_entry_slot(g, i, j, n));
            }
            if in_entry_slot(g, i, j, (n - 1) as nat) {
                let k = choose|k: int|
                    0 <= k < n - 1 && #[trigger] g.entry_offset(k, i) <= j < g.entry_offset(k, i) + 4;
                assert(in_entry_slot(g, i, j, n));
            }
        }
        assert forall|k: int, t: int| 0 <= k < n && 0 <= t < 4 implies #[trigger] cur[g.entry_offset(k, i)
            + t] == u32_bytes(v)[t] by {
            lemma_slot_bounds(g, b.len() as int, k, i);
            if k < n - 1 {
                lemma_slots_disjoint(g, b.len() as int, k, i, n - 1, i);
                assert(cur[g.entry_offset(k, i) + t] == prev[g.entry_offset(k, i) + t]);
            } else {
                assert(cur.subrange(o, o + 4) =~= u32_bytes(v));
                assert(cur[o + t] == cur.subrange(o, o + 4)[t]);
            }
        }
    }
}

/// An entry that reads 0 is stored as four zero bytes.
pub proof fn lemma_le32_zero(b: Seq<u8>, off: int)
    requires
        0 <= off,
        off + 4 <= b.len(),
        le32(b, off) == 0,
    ensures
        b[off] == 0,
        b[off + 1] == 0,
        b[off + 2] == 0,
        b[off + 3] == 0,
{
}

/// Writing an entry sets it in every copy, keeps every other entry, and leaves the
/// medium outside the tables alone; so mirrored tables stay mirrored.
pub proof fn lemma_fat_write(g: Geometry, b: Seq<u8>, i: int, v: u32)
    requires
        g.valid(b.len() as int),
        0 <= i < g.entries(),
    ensures
        same_outside_tables(g, fat_write(g, b, i, v), b),
        forall|k: int|
            0 <= k < g.fat_count ==> #[trigger] fat_table(g, fat_write(g, b, i, v), k) == fat_table(
                g,
                b,
                k,
            ).update(i, v),
        mirrored(g, b) ==> mirrored(g, fat_write(g, b, i, v)),
{
    lemma_fat_write_upto(g, b, i, v, g.fat_count as nat);
    let w = fat_write(g, b, i, v);
    assert forall|k: int| 0 <= k < g.fat_count implies #[trigger] fat_table(g, w, k) == fat_table(
        g,
        b,
        k,
    ).update(i, v) by {
        assert(fat_table(g, w, k) =~= fat_table(g, b, k).update(i, v));
    }
    if mirrored(g, b) {
        assert forall|k: int| 0 <= k < g.fat_count implies #[trigger] fat_table(g, w, k)
            == fat_table(g, w, 0) by {
            assert(fat_table(g, b, k) == fat_table(g, b, 0));
        }
    }
}

pub proof fn lemma_copies_ordered(g: Geometry, len: int, k1: int, k2: int)
    requires
        g.valid(len),
        0 <= k1 < k2,
    ensures
        g.copy_offset(k1) + g.fat_bytes <= g.copy_offset(k2),
{
    let fb = g.fat_bytes as int;
    assert(k1 * fb + fb <= k2 * fb) by (nonlinear_arith)
        requires
            k1 + 1 <= k2,
            fb >= 0,
    ;
}

pub proof fn lemma_reset_upto(g: Geometry, b: Seq<u8>, n: nat)
    requires
        g.valid(b.len() as int),
        n <= g.fat_count,
    ensures
        same_outside_tables(g, reset_upto(g, b, n), b),
        forall|k: int, i: int|
            0 <= k < g.fat_count && 0 <= i < g.entries() ==> #[trigger] fat_entry(
                g,
                reset_upto(g, b, n),
                k,
                i,
            ) == if k < n {
                reset_table(g)[i]
            } else {
                fat_entry(g, b, k, i)
            },
    decreases n,
{
    if n > 0 {
        let len = b.len() as int;
        let prev = reset_upto(g, b, (n - 1) as nat);
        lemma_reset_upto(g, b, (n - 1) as nat);
        let o = g.copy_offset(n - 1);
        let fb = g.fat_bytes as int;
        lemma_slot_bounds(g, len, n - 1, 0);
        let zs = Seq::new(g.fat_bytes as nat, |j: int| 0u8);
        let z = splice(prev, o, zs);
        let e0 = 0x0FFF_FFF0u32 | g.media as u32;
        let z1 = put32(z, o, e0);
        let cur = put32(z1, o + 4, RESERVED_SENTINEL);
        assert(cur == reset_upto(g, b, n));
        assert(z.len() == len);
        lemma_put32(z, o, e0);
        lemma_put32(z1, o + 4, RESERVED_SENTINEL);
        assert forall|j: int|
            0 <= j < cur.len() && (j < g.fat_offset || j >= g.heap_offset) implies #[trigger] cur[j]
            == b[j] by {
            assert(z[j] == prev[j]);
        }
        assert forall|k: int, i: int|
            0 <= k < g.fat_count && 0 <= i < g.entries() implies #[trigger] fat_entry(g, cur, k, i)
            == if k < n {
                reset_table(g)[i]
            } else {
                fat_entry(g, b, k, i)
            } by {
            lemma_slot_bounds(g, len, k, i);
            let p = g.entry_offset(k, i);
            assert(fat_entry(g, prev, k, i) == if k < n - 1 {
                reset_table(g)[i]
            } else {
                fat_entry(g, b, k, i)
            });
            if k == n - 1 {
                if i >= 2 {
                    assert(le32(cur, p) == le32(z1, p));
                    assert(le32(z1, p) == le32(z, p));
                    assert(z[p] == 0);
                    assert(z[p + 1] == 0);
                    assert(z[p + 2] == 0);
                    assert(z[p + 3] == 0);
                } else if i == 0 {
                    assert(le32(cur, p) == le32(z1, p));
                }
            } else {
                if k < n - 1 {
                    lemma_copies_ordered(g, len, k, n - 1);
                } else {
                    lemma_copies_ordered(g, len, n - 1, k);
                }
                assert(le32(cur, p) == le32(z1, p));
                assert(le32(z1, p) == le32(z, p));
                assert(z[p] == prev[p]);
                assert(z[p + 1] == prev[p + 1]);
                assert(z[p + 2] == prev[p + 2]);
                assert(z[p + 3] == prev[p + 3]);
            }
        }
    }
}

/// A reset gives every copy the reset table and leaves the medium outside the tables
/// alone.
pub proof fn lemma_reset(g: Geometry, b: Seq<u8>)
    requires
        g.valid(b.len() as int),
    ensures
        same_outside_tables(g, reset_upto(g, b, g.fat_count as nat), b),
        forall|k: int|
            0 <= k < g.fat_count ==> #[trigger] fat_table(g, reset_upto(g, b, g.fat_count as nat), k)
                == reset_table(g),
        mirrored(g, reset_upto(g, b, g.fat_count as nat)),
{
    let r = reset_upto(g, b, g.fat_count as nat);
    lemma_reset_upto(g, b, g.fat_count as nat);
    assert forall|k: int| 0 <= k < g.fat_count implies #[trigger] fat_table(g, r, k)
        == reset_table(g) by {
        assert(fat_table(g, r, k) =~= reset_table(g));
    }
}

} // verus!
