//! The 8.3 form that directory entries store names in.
use vstd::prelude::*;
use vstd::string::StringSliceAdditionalSpecFns;
use vstd::utf8::{
    encode_utf8, is_ascii_chars, is_ascii_chars_encode_utf8, encode_utf8_valid_utf8,
    encode_utf8_decode_utf8,
};
use crate::text::{utf8_text, is_white, trim_end_chars};
use crate::entry::name_of;

verus! {

broadcast use vstd::array::group_array_axioms;

/// `x` with an ASCII lower-case letter turned upper-case.
pub open spec fn ascii_upper(x: u8) -> u8 {
    if 0x61 <= x <= 0x7A {
        (x - 32) as u8
    } else {
        x
    }
}

pub fn to_ascii_upper(x: u8) -> (r: u8)
    ensures
        r == ascii_upper(x),
{
    if 0x61 <= x && x <= 0x7A {
        x - 32
    } else {
        x
    }
}

/// Index of the first `.` in `b` at or after `i`, or `b.len()` when there is none.
pub open spec fn dot_from(b: Seq<u8>, i: int) -> int
    decreases b.len() - i,
{
    if i < 0 || i >= b.len() {
        b.len() as int
    } else if b[i] == 0x2E {
        i
    } else {
        dot_from(b, i + 1)
    }
}

/// The 11-byte stored form of the name whose UTF-8 bytes are `b`: the part before the
/// first `.` cut to 8 bytes, the part between the first and any second `.` cut to 3
/// bytes, both upper-cased and padded with spaces.
pub open spec fn fat_name(b: Seq<u8>) -> Seq<u8> {
    let d0 = dot_from(b, 0);
    let base = b.subrange(0, d0);
    let ext = if d0 < b.len() {
        b.subrange(d0 + 1, dot_from(b, d0 + 1))
    } else {
        Seq::empty()
    };
    Seq::new(
        11,
        |i: int|
            if i < 8 {
                if i < base.len() {
                    ascii_upper(base[i])
                } else {
                    0x20u8
                }
            } else if i - 8 < ext.len() {
                ascii_upper(ext[i - 8])
            } else {
                0x20u8
            },
    )
}

proof fn lemma_dot_from(b: Seq<u8>, i: int)
    requires
        0 <= i <= b.len(),
    ensures
        i <= dot_from(b, i) <= b.len(),
        forall|j: int| i <= j < dot_from(b, i) ==> b[j] != 0x2E,
        dot_from(b, i) < b.len() ==> b[dot_from(b, i)] == 0x2E,
    decreases b.len() - i,
{
    if i < b.len() && b[i] != 0x2E {
        lemma_dot_from(b, i + 1);
    }
}

fn find_dot(b: &[u8], start: usize) -> (r: usize)
    requires
        start <= b@.len(),
    ensures
        r == dot_from(b@, start as int),
{
    let mut i = start;
    while i < b.len() && b[i] != 0x2E
        invariant
            start <= i <= b@.len(),
            dot_from(b@, start as int) == dot_from(b@, i as int),
        decreases b@.len() - i,
    {
        i = i + 1;
    }
    i
}

/// Encodes `filename` in the 11-byte 8.3 form.
pub fn str_to_fat_name(filename: &str) -> (r: [u8; 11])
    ensures
        r@ == fat_name(filename.spec_bytes()),
{
    let b = filename.as_bytes();
    let ghost s = b@;
    proof {
        lemma_dot_from(s, 0);
    }
    let d0 = find_dot(b, 0);
    let ghost d1 = if d0 < s.len() {
        dot_from(s, d0 + 1)
    } else {
        s.len() as int
    };
    let mut out = [0x20u8, 0x20, 0x20, 0x20, 0x20, 0x20, 0x20, 0x20, 0x20, 0x20, 0x20];
    let mut i: usize = 0;
    while i < 8 && i < d0
        invariant
            i <= 8,
            i <= d0,
            d0 == dot_from(s, 0),
            d0 <= s.len(),
            b@ == s,
            forall|k: int| 0 <= k < 11 ==> out@[k] == if k < i {
                ascii_upper(s[k])
            } else {
                0x20u8
            },
        decreases 8 - i,
    {
        out[i] = to_ascii_upper(b[i]);
        i = i + 1;
    }
    if d0 < b.len() {
        proof {
            lemma_dot_from(s, d0 + 1);
        }
        let d = find_dot(b, d0 + 1);
        let mut j: usize = 0;
        while j < 3 && d0 + 1 + j < d
            invariant
                j <= 3,
                i <= 8,
                i <= d0,
                d0 < s.len(),
                d == dot_from(s, d0 + 1),
                d0 + 1 + j <= d,
                d <= s.len(),
                b@ == s,
                forall|k: int| 0 <= k < 11 ==> out@[k] == if k < i {
                    ascii_upper(s[k])
                } else if 8 <= k < 8 + j {
                    ascii_upper(s[d0 + 1 + k - 8])
                } else {
                    0x20u8
                },
            decreases 3 - j,
        {
            out[8 + j] = to_ascii_upper(b[d0 + 1 + j]);
            j = j + 1;
        }
    }
    assert(out@ =~= fat_name(s));
    out
}

/// The characters that the ASCII bytes `b` stand for.
pub open spec fn ascii_chars(b: Seq<u8>) -> Seq<char> {
    b.map_values(|x: u8| x as char)
}

/// Bytes below 0x80.
pub open spec fn all_ascii(b: Seq<u8>) -> bool {
    forall|i: int| 0 <= i < b.len() ==> b[i] < 0x80
}

proof fn lemma_ascii_text(b: Seq<u8>)
    requires
        all_ascii(b),
    ensures
        utf8_text(b) == Some(ascii_chars(b)),
        encode_utf8(ascii_chars(b)) == b,
{
    let c = ascii_chars(b);
    assert(is_ascii_chars(c)) by {
        assert forall|i: int| 0 <= i < c.len() implies '\0' <= #[trigger] c[i] <= '\u{7f}' by {
            assert(b[i] < 0x80);
        }
    }
    is_ascii_chars_encode_utf8(c);
    assert(encode_utf8(c) =~= b);
    encode_utf8_valid_utf8(c);
    encode_utf8_decode_utf8(c);
}

/// Length of `w` without its trailing white-space bytes.
pub open spec fn trim_len(w: Seq<u8>) -> int
    decreases w.len(),
{
    if w.len() > 0 && is_white(w.last() as char) {
        trim_len(w.drop_last())
    } else {
        w.len() as int
    }
}

proof fn lemma_trim_len(w: Seq<u8>)
    ensures
        0 <= trim_len(w) <= w.len(),
        trim_end_chars(ascii_chars(w)) == ascii_chars(w.subrange(0, trim_len(w))),
        forall|i: int| trim_len(w) <= i < w.len() ==> is_white(#[trigger] w[i] as char),
        trim_len(w) > 0 ==> !is_white(w[trim_len(w) - 1] as char),
    decreases w.len(),
{
    let c = ascii_chars(w);
    if w.len() > 0 && is_white(w.last() as char) {
        lemma_trim_len(w.drop_last());
        assert(c.drop_last() =~= ascii_chars(w.drop_last()));
        assert(c.last() == w.last() as char);
        assert(w.drop_last().subrange(0, trim_len(w)) =~= w.subrange(0, trim_len(w)));
        assert forall|i: int| trim_len(w) <= i < w.len() implies is_white(#[trigger] w[i] as char) by {
            if i < w.len() - 1 {
                assert(w.drop_last()[i] == w[i]);
            }
        }
        if trim_len(w) > 0 {
            assert(w.drop_last()[trim_len(w) - 1] == w[trim_len(w) - 1]);
        }
    } else {
        assert(w.subrange(0, w.len() as int) =~= w);
        if w.len() > 0 {
            assert(c.last() == w.last() as char);
        }
    }
}

/// Bytes of a name whose stored form reads back as a name with that same stored form:
/// ASCII, with no white space but the space.
pub open spec fn plain_name_bytes(s: Seq<u8>) -> bool {
    forall|i: int| 0 <= i < s.len() ==> s[i] < 0x80 && !(0x09 <= #[trigger] s[i] <= 0x0D)
}

/// A byte that the stored form may hold.
spec fn stored_byte(x: u8) -> bool {
    &&& x < 0x80
    &&& x != 0x2E
    &&& !(0x09 <= x <= 0x0D)
    &&& !(0x61 <= x <= 0x7A)
}

proof fn lemma_fat_name_bytes(s: Seq<u8>)
    requires
        plain_name_bytes(s),
    ensures
        fat_name(s).len() == 11,
        forall|i: int| 0 <= i < 11 ==> stored_byte(#[trigger] fat_name(s)[i]),
{
    let n = fat_name(s);
    lemma_dot_from(s, 0);
    let d0 = dot_from(s, 0);
    if d0 < s.len() {
        lemma_dot_from(s, d0 + 1);
    }
    assert forall|i: int| 0 <= i < 11 implies stored_byte(#[trigger] n[i]) by {
        if i < 8 && i < d0 {
            assert(s[i] != 0x2E);
        } else if i >= 8 && d0 < s.len() && i - 8 < dot_from(s, d0 + 1) - (d0 + 1) {
            assert(s[d0 + 1 + i - 8] != 0x2E);
        }
    }
}

/// Name round trip: the readable form of a stored name is encoded back to that stored
/// name, for every name of plain ASCII bytes (`plain_name_bytes`).
pub proof fn lemma_name_reencode(s: Seq<u8>)
    requires
        plain_name_bytes(s),
    ensures
        name_of(fat_name(s)) is Some,
        fat_name(encode_utf8(name_of(fat_name(s))->Some_0)) == fat_name(s),
{
    let n = fat_name(s);
    lemma_fat_name_bytes(s);
    let w0 = n.subrange(0, 8);
    let w1 = n.subrange(8, 11);
    lemma_ascii_text(w0);
    lemma_ascii_text(w1);
    lemma_trim_len(w0);
    lemma_trim_len(w1);
    let m0 = trim_len(w0);
    let m1 = trim_len(w1);
    let bb = w0.subrange(0, m0);
    let xb = w1.subrange(0, m1);
    let e = if m1 == 0 {
        bb
    } else {
        bb + seq![0x2Eu8] + xb
    };
    let t = name_of(n)->Some_0;
    assert(all_ascii(e));
    lemma_ascii_text(e);
    assert(ascii_chars(e) =~= t);
    assert(encode_utf8(t) == e);
    lemma_dot_from(e, 0);
    let d0 = dot_from(e, 0);
    assert forall|j: int| 0 <= j < m0 implies e[j] != 0x2E by {
        assert(e[j] == n[j]);
    }
    if m1 > 0 {
        assert(e[m0] == 0x2E);
        assert(d0 == m0);
        lemma_dot_from(e, m0 + 1);
        assert forall|j: int| m0 + 1 <= j < e.len() implies e[j] != 0x2E by {
            assert(e[j] == n[8 + j - m0 - 1]);
        }
        assert(dot_from(e, m0 + 1) == e.len());
        assert(e.subrange(m0 + 1, e.len() as int) =~= xb);
    } else {
        assert(d0 == m0);
    }
    assert(e.subrange(0, d0) =~= bb);
    let r = fat_name(e);
    assert forall|i: int| 0 <= i < 11 implies #[trigger] r[i] == n[i] by {
        assert(stored_byte(n[i]));
        if i < 8 {
            if i >= m0 {
                assert(is_white(w0[i] as char));
            }
        } else if i - 8 >= m1 {
            assert(is_white(w1[i - 8] as char));
        }
    }
    assert(r =~= n);
}

} // verus!
