//! What the bytes of a directory's cluster mean, and what the directory operations do
//! to the medium.
use vstd::prelude::*;
use crate::codec::{le16, splice, u16_bytes, u32_bytes};
use crate::device::zeros;
use crate::entry::{DirEntry, entry_bytes, fresh_entry, join_cluster, name_of};
use crate::error::FsError;
use crate::layout::{Geometry, END_OF_CHAIN, ROOT_END_OF_CHAIN, fat_table, fat_write, first_free};

verus! {

/// First byte of the slot that ends a directory's used region.
pub const SLOT_END: u8 = 0x00;

/// First byte of a deleted slot.
pub const SLOT_DELETED: u8 = 0xE5;

/// The 32 bytes of slot `s` of cluster `c`.
pub open spec fn slot_bytes(g: Geometry, b: Seq<u8>, c: int, s: int) -> Seq<u8> {
    b.subrange(g.slot_offset(c, s), g.slot_offset(c, s) + 32)
}

/// A slot that a new entry may take.
pub open spec fn slot_free(r: Seq<u8>) -> bool {
    r[0] == SLOT_END || r[0] == SLOT_DELETED
}

/// The records that a scan of cluster `c` from slot `s` yields: it stops at the first slot
/// that begins with `0x00` and passes over slots that begin with `0xE5`.
pub open spec fn listing_from(g: Geometry, b: Seq<u8>, c: int, s: int) -> Seq<Seq<u8>>
    decreases g.slots() - s,
{
    if s < 0 || s >= g.slots() {
        Seq::empty()
    } else {
        let r = slot_bytes(g, b, c, s);
        if r[0] == SLOT_END {
            Seq::empty()
        } else if r[0] == SLOT_DELETED {
            listing_from(g, b, c, s + 1)
        } else {
            seq![r] + listing_from(g, b, c, s + 1)
        }
    }
}

/// The records of directory cluster `c`, in slot order.
pub open spec fn listing(g: Geometry, b: Seq<u8>, c: int) -> Seq<Seq<u8>> {
    listing_from(g, b, c, 0)
}

/// The first free slot of cluster `c` at or after `s`.
pub open spec fn free_slot_from(g: Geometry, b: Seq<u8>, c: int, s: int) -> Option<int>
    decreases g.slots() - s,
{
    if s < 0 || s >= g.slots() {
        None
    } else if slot_free(slot_bytes(g, b, c, s)) {
        Some(s)
    } else {
        free_slot_from(g, b, c, s + 1)
    }
}

/// `b` with cluster `c` zeroed.
pub open spec fn zero_cluster(g: Geometry, b: Seq<u8>, c: int) -> Seq<u8> {
    splice(b, g.cluster_offset(c), zeros(g.cluster_bytes as nat))
}

/// Writing the record `rec` into the first free slot of cluster `c`: the medium after, and
/// the slot taken, `NotFound` for a cluster off the medium, or `Full`.
pub open spec fn place_record(g: Geometry, b: Seq<u8>, c: int, rec: Seq<u8>) -> (
    Seq<u8>,
    Result<u32, FsError>,
) {
    if !g.holds_cluster(c) {
        (b, Err(FsError::NotFound))
    } else {
        match free_slot_from(g, b, c, 0) {
            None => (b, Err(FsError::Full)),
            Some(s) => (splice(b, g.slot_offset(c, s), rec), Ok(s as u32)),
        }
    }
}

/// The record of a fresh entry (see `fresh_entry`).
pub open spec fn fresh_record(name: Seq<u8>, cluster: u32, attr: u8) -> Seq<u8> {
    name + seq![attr, 0u8, 0u8] + u16_bytes(0) + u16_bytes(0) + u16_bytes(0) + u16_bytes(
        (cluster / 65536) as u16,
    ) + u16_bytes(0) + u16_bytes(0) + u16_bytes((cluster % 65536) as u16) + u32_bytes(0)
}

/// Stored name of the `.` entry.
pub open spec fn dot_name() -> Seq<u8> {
    seq![0x2Eu8, 0x20, 0x20, 0x20, 0x20, 0x20, 0x20, 0x20, 0x20, 0x20, 0x20]
}

/// Stored name of the `..` entry.
pub open spec fn dotdot_name() -> Seq<u8> {
    seq![0x2Eu8, 0x2E, 0x20, 0x20, 0x20, 0x20, 0x20, 0x20, 0x20, 0x20, 0x20]
}

/// The readable name of a record.
pub open spec fn record_name(r: Seq<u8>) -> Option<Seq<char>> {
    name_of(r.subrange(0, 11))
}

/// The record names a directory.
pub open spec fn record_is_dir(r: Seq<u8>) -> bool {
    r[11] & 0x10 != 0
}

/// The first cluster that a record designates.
pub open spec fn record_cluster(r: Seq<u8>) -> u32 {
    join_cluster(le16(r[20], r[21]), le16(r[26], r[27]))
}

/// The cluster of the first directory record from index `i` on whose name is `name`.
pub open spec fn find_in(recs: Seq<Seq<u8>>, i: int, name: Seq<char>) -> Option<u32>
    decreases recs.len() - i,
{
    if i < 0 || i >= recs.len() {
        None
    } else if record_is_dir(recs[i]) && record_name(recs[i]) == Some(name) {
        Some(record_cluster(recs[i]))
    } else {
        find_in(recs, i + 1, name)
    }
}

/// `Ok(())` for `Ok`, the same error otherwise.
pub open spec fn unit_of(r: Result<u32, FsError>) -> Result<(), FsError> {
    match r {
        Ok(_) => Ok(()),
        Err(e) => Err(e),
    }
}

/// The `.` and `..` records placed into the zeroed cluster `c` of a new directory whose
/// parent is `parent`.
pub open spec fn place_dots(g: Geometry, b: Seq<u8>, c: int, parent: u32) -> (
    Seq<u8>,
    Result<u32, FsError>,
) {
    let (b1, r1) = place_record(g, b, c, fresh_record(dot_name(), c as u32, 0x10));
    if r1 is Err {
        (b1, r1)
    } else {
        place_record(g, b1, c, fresh_record(dotdot_name(), parent, 0x10))
    }
}

/// Creating an entry named `name` (stored form) in directory `parent`: claim a cluster,
/// zero it, for a directory write its `.` and `..` records, then write the entry into
/// `parent`. The first failing step ends it; what the steps before it wrote stays.
pub open spec fn make_node(g: Geometry, b: Seq<u8>, parent: u32, name: Seq<u8>, is_dir: bool) -> (
    Seq<u8>,
    Result<(), FsError>,
) {
    match first_free(fat_table(g, b, 0)) {
        None => (b, Err(FsError::Exhausted)),
        Some(c) => {
            let b1 = fat_write(g, b, c, END_OF_CHAIN);
            if !g.holds_cluster(c) {
                (b1, Err(FsError::NotFound))
            } else {
                let b2 = zero_cluster(g, b1, c);
                if is_dir {
                    let (b3, r3) = place_dots(g, b2, c, parent);
                    if r3 is Err {
                        (b3, unit_of(r3))
                    } else {
                        let (b4, r4) = place_record(
                            g,
                            b3,
                            parent as int,
                            fresh_record(name, c as u32, 0x10),
                        );
                        (b4, unit_of(r4))
                    }
                } else {
                    let (b4, r4) = place_record(
                        g,
                        b2,
                        parent as int,
                        fresh_record(name, c as u32, 0x20),
                    );
                    (b4, unit_of(r4))
                }
            }
        }
    }
}

/// Setting up the root directory in cluster `root`: zero it, write `.` and `..` records
/// that both designate `root`, then mark `root` end-of-chain in every table copy. Fails
/// with `NotFound`, changing nothing, when `root` is off the medium or past the table.
pub open spec fn make_root(g: Geometry, b: Seq<u8>, root: u32) -> (Seq<u8>, Result<(), FsError>) {
    if !g.holds_cluster(root as int) || root as int >= g.entries() {
        (b, Err(FsError::NotFound))
    } else {
        let b1 = zero_cluster(g, b, root as int);
        let (b2, r2) = place_dots(g, b1, root as int, root);
        if r2 is Err {
            (b2, unit_of(r2))
        } else {
            (fat_write(g, b2, root as int, ROOT_END_OF_CHAIN), Ok(()))
        }
    }
}

/// `depth` indentation markers `\\ `.
pub open spec fn indent(depth: nat) -> Seq<char>
    decreases depth,
{
    if depth == 0 {
        Seq::empty()
    } else {
        indent((depth - 1) as nat) + seq!['\\', ' ']
    }
}

/// The line that renders an entry named `nm` at `depth`.
pub open spec fn entry_line(depth: nat, nm: Seq<char>) -> Seq<char> {
    indent(depth) + seq!['*', ' '] + nm + seq!['\n']
}

/// `.` or `..`.
pub open spec fn is_dot_name(nm: Seq<char>) -> bool {
    nm == seq!['.'] || nm == seq!['.', '.']
}

/// `t` put in front of the text of `r`.
pub open spec fn prepend(t: Seq<char>, r: Result<Seq<char>, FsError>) -> Result<Seq<char>, FsError> {
    match r {
        Ok(x) => Ok(t + x),
        Err(e) => Err(e),
    }
}

/// The rendering of directory cluster `c` at `depth`: each entry whose name decodes gives
/// its line, and a directory other than `.` and `..` is followed by its own rendering one
/// level deeper. Entries whose names do not decode are passed over. At most `fuel` levels
/// are entered below `c`; a deeper tree gives `Corrupt`, a cluster off the medium
/// `NotFound`.
pub open spec fn tree_text(g: Geometry, b: Seq<u8>, c: int, depth: nat, fuel: nat) -> Result<
    Seq<char>,
    FsError,
>
    decreases fuel, 1nat, 0int,
{
    if !g.holds_cluster(c) {
        Err(FsError::NotFound)
    } else {
        entries_text(g, b, listing(g, b, c), 0, depth, fuel)
    }
}

/// The rendering of records `i..` of a directory (see `tree_text`).
pub open spec fn entries_text(
    g: Geometry,
    b: Seq<u8>,
    recs: Seq<Seq<u8>>,
    i: int,
    depth: nat,
    fuel: nat,
) -> Result<Seq<char>, FsError>
    decreases fuel, 0nat, recs.len() - i,
{
    if i < 0 || i >= recs.len() {
        Ok(Seq::empty())
    } else {
        let r = recs[i];
        match record_name(r) {
            None => entries_text(g, b, recs, i + 1, depth, fuel),
            Some(nm) => {
                let sub = if record_is_dir(r) && !is_dot_name(nm) {
                    if fuel == 0 {
                        Err(FsError::Corrupt)
                    } else {
                        tree_text(g, b, record_cluster(r) as int, depth + 1, (fuel - 1) as nat)
                    }
                } else {
                    Ok(Seq::empty())
                };
                match sub {
                    Err(e) => Err(e),
                    Ok(st) => prepend(
                        entry_line(depth, nm) + st,
                        entries_text(g, b, recs, i + 1, depth, fuel),
                    ),
                }
            },
        }
    }
}

/// How many levels a rendering that starts at `depth` may enter: one per heap cluster,
/// and no more than keep the depth count in range.
pub open spec fn tree_fuel(g: Geometry, depth: usize) -> nat {
    if depth as int + g.heap_clusters as int <= usize::MAX as int {
        g.heap_clusters as nat
    } else {
        (usize::MAX - depth) as nat
    }
}

/// The rendering never enters `.` or `..`: the text of such an entry is its line alone,
/// whatever cluster it designates.
pub proof fn lemma_tree_skips_dots(
    g: Geometry,
    b: Seq<u8>,
    recs: Seq<Seq<u8>>,
    i: int,
    depth: nat,
    fuel: nat,
)
    requires
        0 <= i < recs.len(),
        record_name(recs[i]) matches Some(nm) && is_dot_name(nm),
    ensures
        entries_text(g, b, recs, i, depth, fuel) == prepend(
            entry_line(depth, record_name(recs[i])->Some_0),
            entries_text(g, b, recs, i + 1, depth, fuel),
        ),
{
    let nm = record_name(recs[i])->Some_0;
    assert(entry_line(depth, nm) + Seq::<char>::empty() =~= entry_line(depth, nm));
}

pub proof fn lemma_fresh_record(e: DirEntry, name: Seq<u8>, cluster: u32, attr: u8)
    requires
        fresh_entry(e, name, cluster, attr),
        e.first_cluster_high == (cluster / 65536) as u16,
        e.first_cluster_low == (cluster % 65536) as u16,
    ensures
        entry_bytes(e) == fresh_record(name, cluster, attr),
{
    assert(entry_bytes(e) =~= fresh_record(name, cluster, attr));
}

pub proof fn lemma_cluster_bounds(g: Geometry, len: int, c: int)
    requires
        g.valid(len),
        g.holds_cluster(c),
    ensures
        g.heap_offset <= g.cluster_offset(c),
        g.cluster_offset(c) + g.cluster_bytes <= len,
        32 * g.slots() <= g.cluster_bytes,
{
    let cb = g.cluster_bytes as int;
    assert((c - 2) * cb + cb <= g.heap_clusters * cb) by (nonlinear_arith)
        requires
            0 <= c - 2 < g.heap_clusters,
            cb >= 0,
    ;
    assert(0 <= (c - 2) * cb) by (nonlinear_arith)
        requires
            0 <= c - 2,
            cb >= 0,
    ;
}

pub proof fn lemma_free_slot_from(g: Geometry, b: Seq<u8>, c: int, s: int)
    requires
        0 <= s,
    ensures
        free_slot_from(g, b, c, s) matches Some(t) ==> s <= t < g.slots() && slot_free(
            slot_bytes(g, b, c, t),
        ) && forall|u: int| s <= u < t ==> !slot_free(#[trigger] slot_bytes(g, b, c, u)),
        free_slot_from(g, b, c, s) is None ==> forall|u: int|
            s <= u < g.slots() ==> !slot_free(#[trigger] slot_bytes(g, b, c, u)),
    decreases g.slots() - s,
{
    if s < g.slots() && !slot_free(slot_bytes(g, b, c, s)) {
        lemma_free_slot_from(g, b, c, s + 1);
    }
}

proof fn lemma_listing_reaches(g: Geometry, b: Seq<u8>, c: int, s: int, t: int)
    requires
        0 <= t <= s < g.slots(),
        forall|u: int| t <= u < s ==> !slot_free(#[trigger] slot_bytes(g, b, c, u)),
        slot_bytes(g, b, c, s)[0] != SLOT_END,
        slot_bytes(g, b, c, s)[0] != SLOT_DELETED,
    ensures
        s - t < listing_from(g, b, c, t).len(),
        listing_from(g, b, c, t)[s - t] == slot_bytes(g, b, c, s),
    decreases s - t,
{
    if t < s {
        lemma_listing_reaches(g, b, c, s, t + 1);
        assert(!slot_free(slot_bytes(g, b, c, t)));
    }
}

/// Directory round trip: an entry written into the first free slot of a directory is
/// read back by a scan of that directory, at the index of the slot, field for field; the
/// entry's first name byte must not itself mark a free slot.
pub proof fn lemma_directory_round_trip(g: Geometry, b: Seq<u8>, c: int, e: DirEntry, d: DirEntry)
    requires
        g.valid(b.len() as int),
        e.name[0] != SLOT_END,
        e.name[0] != SLOT_DELETED,
        place_record(g, b, c, entry_bytes(e)).1 is Ok,
    ensures
        ({
            let (b2, r) = place_record(g, b, c, entry_bytes(e));
            let s = r->Ok_0 as int;
            &&& s < listing(g, b2, c).len()
            &&& listing(g, b2, c)[s] == entry_bytes(e)
            &&& entry_decodes_at(listing(g, b2, c), s, d) ==> d == e
        }),
{
    let rec = entry_bytes(e);
    let (b2, r) = place_record(g, b, c, rec);
    let s = free_slot_from(g, b, c, 0)->Some_0;
    lemma_free_slot_from(g, b, c, 0);
    lemma_cluster_bounds(g, b.len() as int, c);
    let o = g.slot_offset(c, s);
    assert(rec.len() == 32);
    assert(b2 == splice(b, o, rec));
    assert(slot_bytes(g, b2, c, s) =~= rec);
    assert(rec[0] == e.name[0]);
    assert forall|u: int| 0 <= u < s implies !slot_free(#[trigger] slot_bytes(g, b2, c, u)) by {
        assert(slot_bytes(g, b2, c, u) =~= slot_bytes(g, b, c, u));
    }
    lemma_listing_reaches(g, b2, c, s, 0);
    if entry_decodes_at(listing(g, b2, c), s, d) {
        crate::entry::lemma_entry_round_trip(e, d);
    }
}

/// `d` is what record `s` of `recs` decodes to.
pub open spec fn entry_decodes_at(recs: Seq<Seq<u8>>, s: int, d: DirEntry) -> bool {
    0 <= s < recs.len() && crate::entry::entry_decodes(recs[s], d)
}

} // verus!
