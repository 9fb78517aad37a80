//! Properties that relate several table operations.
use vstd::prelude::*;
use crate::error::FsError;
use crate::codec::u32_bytes;
use crate::layout::{
    Geometry, END_OF_CHAIN, free_from, fat_entry, fat_table, fat_write, first_free, free_walk, mirrored,
    in_entry_slot, lemma_fat_write, lemma_fat_write_bytes, lemma_free_from, lemma_le32_zero,
    lemma_slot_bounds,
};

verus! {

/// `n` allocations in a row on the medium `b`: the clusters they claim, in order, and the
/// medium after them. Once the table is exhausted further allocations claim nothing.
pub open spec fn alloc_run(g: Geometry, b: Seq<u8>, n: nat) -> (Seq<int>, Seq<u8>)
    decreases n,
{
    if n == 0 {
        (Seq::empty(), b)
    } else {
        let (cs, b1) = alloc_run(g, b, (n - 1) as nat);
        match first_free(fat_table(g, b1, 0)) {
            None => (cs, b1),
            Some(c) => (cs.push(c), fat_write(g, b1, c, END_OF_CHAIN)),
        }
    }
}

/// Allocation exclusivity: allocations with no free in between claim pairwise distinct
/// clusters, each a table index from 2 on, and each is marked non-zero in every table
/// copy afterwards.
pub proof fn lemma_allocation_exclusive(g: Geometry, b: Seq<u8>, n: nat)
    requires
        g.valid(b.len() as int),
    ensures
        ({
            let (cs, b2) = alloc_run(g, b, n);
            &&& b2.len() == b.len()
            &&& forall|i: int, j: int| 0 <= i < j < cs.len() ==> cs[i] != cs[j]
            &&& forall|i: int| 0 <= i < cs.len() ==> 2 <= #[trigger] cs[i] < g.entries()
            &&& forall|i: int, k: int|
                0 <= i < cs.len() && 0 <= k < g.fat_count ==> #[trigger] fat_entry(g, b2, k, cs[i])
                    != 0
        }),
    decreases n,
{
    if n > 0 {
        lemma_allocation_exclusive(g, b, (n - 1) as nat);
        let (cs, b1) = alloc_run(g, b, (n - 1) as nat);
        let t = fat_table(g, b1, 0);
        lemma_free_from(t, 2);
        match first_free(t) {
            None => {},
            Some(c) => {
                let b2 = fat_write(g, b1, c, END_OF_CHAIN);
                lemma_fat_write(g, b1, c, END_OF_CHAIN);
                let cs2 = cs.push(c);
                assert forall|i: int| 0 <= i < cs.len() implies #[trigger] cs[i] != c by {
                    assert(fat_entry(g, b1, 0, cs[i]) != 0);
                    assert(t[cs[i]] == fat_entry(g, b1, 0, cs[i]));
                }
                assert forall|i: int, k: int|
                    0 <= i < cs2.len() && 0 <= k < g.fat_count implies #[trigger] fat_entry(
                    g,
                    b2,
                    k,
                    cs2[i],
                ) != 0 by {
                    assert(fat_table(g, b2, k) == fat_table(g, b1, k).update(c, END_OF_CHAIN));
                    assert(fat_table(g, b2, k)[cs2[i]] == fat_entry(g, b2, k, cs2[i]));
                    if i < cs.len() {
                        assert(fat_table(g, b1, k)[cs[i]] == fat_entry(g, b1, k, cs[i]));
                    }
                }
                assert forall|i: int, j: int| 0 <= i < j < cs2.len() implies cs2[i] != cs2[j] by {
                    if j == cs.len() {
                        assert(cs[i] != c);
                    }
                }
            },
        }
    }
}

/// Free round trip: freeing the one-cluster chain that an allocation just claimed
/// succeeds, gives that cluster's entry back the value 0 in every copy and leaves every
/// other entry as it was before the allocation; on mirrored tables the whole medium is
/// then byte for byte as before the allocation.
pub proof fn lemma_free_round_trip(g: Geometry, b: Seq<u8>)
    requires
        g.valid(b.len() as int),
        first_free(fat_table(g, b, 0)) is Some,
    ensures
        ({
            let c = first_free(fat_table(g, b, 0))->Some_0;
            let b1 = fat_write(g, b, c, END_OF_CHAIN);
            let (b2, r) = free_walk(g, b1, c as u32, g.entries() as nat);
            &&& r == Ok::<(), FsError>(())
            &&& b2.len() == b.len()
            &&& forall|k: int| 0 <= k < g.fat_count ==> #[trigger] fat_entry(g, b2, k, c) == 0
            &&& forall|k: int|
                0 <= k < g.fat_count ==> #[trigger] fat_table(g, b2, k) == fat_table(g, b, k).update(
                    c,
                    0,
                )
            &&& mirrored(g, b) ==> forall|k: int|
                0 <= k < g.fat_count ==> #[trigger] fat_table(g, b2, k) == fat_table(g, b, k)
            &&& mirrored(g, b) ==> b2 == b
        }),
{
    let t = fat_table(g, b, 0);
    lemma_free_from(t, 2);
    let c = first_free(t)->Some_0;
    let b1 = fat_write(g, b, c, END_OF_CHAIN);
    lemma_fat_write(g, b, c, END_OF_CHAIN);
    assert(fat_table(g, b1, 0)[c] == fat_entry(g, b1, 0, c));
    assert(fat_entry(g, b1, 0, c) == END_OF_CHAIN);
    let b2 = fat_write(g, b1, c, 0);
    lemma_fat_write(g, b1, c, 0);
    assert(free_walk(g, b1, c as u32, g.entries() as nat) == free_walk(
        g,
        b2,
        END_OF_CHAIN,
        (g.entries() - 1) as nat,
    ));
    assert forall|k: int| 0 <= k < g.fat_count implies #[trigger] fat_table(g, b2, k) == fat_table(
        g,
        b,
        k,
    ).update(c, 0) by {
        assert(fat_table(g, b2, k) =~= fat_table(g, b, k).update(c, 0));
    }
    assert forall|k: int| 0 <= k < g.fat_count implies #[trigger] fat_entry(g, b2, k, c) == 0 by {
        assert(fat_table(g, b2, k)[c] == fat_entry(g, b2, k, c));
    }
    if mirrored(g, b) {
        assert forall|k: int| 0 <= k < g.fat_count implies #[trigger] fat_table(g, b2, k)
            == fat_table(g, b, k) by {
            assert(fat_table(g, b, k) == t);
            assert(fat_table(g, b2, k) =~= fat_table(g, b, k));
        }
        let n = g.fat_count as nat;
        lemma_fat_write_bytes(g, b, c, END_OF_CHAIN, n);
        lemma_fat_write_bytes(g, b1, c, 0, n);
        assert forall|j: int| 0 <= j < b.len() implies #[trigger] b2[j] == b[j] by {
            if in_entry_slot(g, c, j, n) {
                let k = choose|k: int|
                    0 <= k < n && #[trigger] g.entry_offset(k, c) <= j < g.entry_offset(k, c) + 4;
                let o = g.entry_offset(k, c);
                lemma_slot_bounds(g, b.len() as int, k, c);
                assert(fat_table(g, b, k) == t);
                assert(fat_table(g, b, k)[c] == fat_entry(g, b, k, c));
                lemma_le32_zero(b, o);
                assert(b2[o + (j - o)] == u32_bytes(0)[j - o]);
            }
        }
        assert(b2 =~= b);
    }
}

/// Number of zero entries of `t` from index `i` on.
pub open spec fn free_count(t: Seq<u32>, i: int) -> nat
    decreases t.len() - i,
{
    if i < 0 || i >= t.len() {
        0
    } else {
        free_count(t, i + 1) + if t[i] == 0 {
            1nat
        } else {
            0nat
        }
    }
}

proof fn lemma_free_count_none(t: Seq<u32>, i: int)
    requires
        0 <= i,
    ensures
        free_from(t, i) is None <==> free_count(t, i) == 0,
    decreases t.len() - i,
{
    if i < t.len() {
        lemma_free_count_none(t, i + 1);
    }
}

proof fn lemma_free_count_claim(t: Seq<u32>, i: int, c: int, v: u32)
    requires
        0 <= i <= c < t.len(),
        t[c] == 0,
        v != 0,
    ensures
        free_count(t.update(c, v), i) + 1 == free_count(t, i),
    decreases c - i,
{
    if i < c {
        lemma_free_count_claim(t, i + 1, c, v);
    } else {
        lemma_free_count_same(t, c + 1, c, v);
    }
}

proof fn lemma_free_count_same(t: Seq<u32>, i: int, c: int, v: u32)
    requires
        0 <= c < i,
        c < t.len(),
    ensures
        free_count(t.update(c, v), i) == free_count(t, i),
    decreases t.len() - i,
{
    if i < t.len() {
        lemma_free_count_same(t, i + 1, c, v);
    }
}

/// Exhaustion: allocations with no free in between claim one cluster each for as long as
/// the first table copy has free entries from index 2 on, and once as many allocations as
/// there were free entries have run, none is left to claim.
pub proof fn lemma_allocation_exhausts(g: Geometry, b: Seq<u8>, n: nat)
    requires
        g.valid(b.len() as int),
    ensures
        ({
            let f = free_count(fat_table(g, b, 0), 2);
            let (cs, b2) = alloc_run(g, b, n);
            &&& cs.len() == if n < f {
                n
            } else {
                f
            }
            &&& free_count(fat_table(g, b2, 0), 2) + cs.len() == f
            &&& n >= f ==> first_free(fat_table(g, b2, 0)) is None
        }),
    decreases n,
{
    let f = free_count(fat_table(g, b, 0), 2);
    if n > 0 {
        lemma_allocation_exhausts(g, b, (n - 1) as nat);
        lemma_allocation_exclusive(g, b, (n - 1) as nat);
        let (cs, b1) = alloc_run(g, b, (n - 1) as nat);
        let t = fat_table(g, b1, 0);
        lemma_free_from(t, 2);
        lemma_free_count_none(t, 2);
        match first_free(t) {
            None => {},
            Some(c) => {
                lemma_fat_write(g, b1, c, END_OF_CHAIN);
                let b2 = fat_write(g, b1, c, END_OF_CHAIN);
                assert(fat_table(g, b2, 0) == t.update(c, END_OF_CHAIN));
                lemma_free_count_claim(t, 2, c, END_OF_CHAIN);
                lemma_free_count_none(fat_table(g, b2, 0), 2);
            },
        }
    } else {
        lemma_free_count_none(fat_table(g, b, 0), 2);
    }
}

} // verus!
