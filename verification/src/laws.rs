//! Format-wide laws: statements that hold of every input, proved once
//! against the wire model that the executable reader is proved to follow.

use vstd::prelude::*;
use vstd::arithmetic::div_mod::{lemma_fundamental_div_mod, lemma_mod_bound};
use crate::wire::{
    Endian, NbtError, SpecTag, pow256, spec_read_str, unsigned_at, unsigned_bytes, unsigned_rep, lookup, upsert,
    spec_payload, spec_read_u8, spec_read_i16, spec_read_i32, lemma_pow256_values, TAG_END,
    TAG_BYTE, TAG_SHORT, TAG_INT, TAG_LONG, TAG_FLOAT, TAG_DOUBLE, TAG_BYTE_ARRAY, TAG_STRING,
    TAG_LIST, TAG_COMPOUND, TAG_INT_ARRAY, TAG_LONG_ARRAY, kind_of, entries_unique, tag_wf,
    spec_list_elems, spec_compound_entries, spec_root, advances,
    lemma_tags_wf_from_iff, lemma_entries_wf_from_iff,
};

verus! {

pub proof fn lemma_unsigned_bytes_len(u: int, width: int, e: Endian)
    ensures
        width >= 0 ==> unsigned_bytes(u, width, e).len() == width,
    decreases width,
{
    if width > 0 {
        lemma_unsigned_bytes_len(u / 256, width - 1, e);
    }
}

/// The unsigned value read at a position depends only on the bytes there.
pub proof fn lemma_unsigned_at_frame(
    d1: Seq<u8>,
    pos1: int,
    d2: Seq<u8>,
    pos2: int,
    width: int,
    e: Endian,
)
    requires
        forall|j: int| pos1 <= j < pos1 + width ==> #[trigger] d1[j] == d2[j - pos1 + pos2],
    ensures
        unsigned_at(d1, pos1, width, e) == unsigned_at(d2, pos2, width, e),
    decreases width,
{
    if width > 0 {
        match e {
            Endian::Big => lemma_unsigned_at_frame(d1, pos1, d2, pos2, width - 1, e),
            Endian::Little => lemma_unsigned_at_frame(d1, pos1 + 1, d2, pos2 + 1, width - 1, e),
        }
    }
}

/// Reading back the bytes that encode an unsigned value returns exactly
/// that value, in either byte order.
pub proof fn lemma_unsigned_round_trip(u: int, width: int, e: Endian)
    requires
        0 <= u < pow256(width),
    ensures
        unsigned_at(unsigned_bytes(u, width, e), 0, width, e) == u,
    decreases width,
{
    if width <= 0 {
        assert(pow256(width) == 1);
    } else {
        lemma_fundamental_div_mod(u, 256);
        lemma_mod_bound(u, 256);
        assert(u >= 256 * (u / 256));
        assert(u / 256 < pow256(width - 1)) by {
            if u / 256 >= pow256(width - 1) {
                assert(256 * (u / 256) >= 256 * pow256(width - 1));
            }
        }
        lemma_unsigned_round_trip(u / 256, width - 1, e);
        lemma_unsigned_bytes_len(u / 256, width - 1, e);
        let d = unsigned_bytes(u, width, e);
        match e {
            Endian::Big => {
                let prefix = unsigned_bytes(u / 256, width - 1, e);
                assert(forall|j: int| 0 <= j < width - 1 ==> #[trigger] d[j] == prefix[j]);
                lemma_unsigned_at_frame(d, 0, prefix, 0, width - 1, e);
                assert(d[width - 1] == u % 256);
            },
            Endian::Little => {
                let rest = unsigned_bytes(u / 256, width - 1, e);
                assert(forall|j: int| 1 <= j < width ==> #[trigger] d[j] == rest[j - 1]);
                lemma_unsigned_at_frame(d, 1, rest, 0, width - 1, e);
                assert(d[0] == u % 256);
            },
        }
    }
}

/// Round-trip identity for Byte: decoding the one byte that encodes a
/// Byte value returns exactly that value.
pub proof fn lemma_byte_round_trip(b: u8, e: Endian)
    ensures
        spec_payload(seq![b], 0, e, TAG_BYTE) == Ok::<(SpecTag, int), NbtError>(
            (SpecTag::Byte(b), 1),
        ),
{
}

/// Round-trip identity for Short: decoding the two bytes that encode a
/// 16-bit value, in either byte order, returns exactly that value.
pub proof fn lemma_short_round_trip(v: i16, e: Endian)
    ensures
        spec_payload(unsigned_bytes(unsigned_rep(v as int, 2), 2, e), 0, e, TAG_SHORT)
            == Ok::<(SpecTag, int), NbtError>((SpecTag::Short(v), 2)),
{
    lemma_pow256_values();
    let u = unsigned_rep(v as int, 2);
    lemma_unsigned_bytes_len(u, 2, e);
    lemma_unsigned_round_trip(u, 2, e);
}

/// Round-trip identity for Int.
pub proof fn lemma_int_round_trip(v: i32, e: Endian)
    ensures
        spec_payload(unsigned_bytes(unsigned_rep(v as int, 4), 4, e), 0, e, TAG_INT)
            == Ok::<(SpecTag, int), NbtError>((SpecTag::Int(v), 4)),
{
    lemma_pow256_values();
    let u = unsigned_rep(v as int, 4);
    lemma_unsigned_bytes_len(u, 4, e);
    lemma_unsigned_round_trip(u, 4, e);
}

/// Round-trip identity for Long.
pub proof fn lemma_long_round_trip(v: i64, e: Endian)
    ensures
        spec_payload(unsigned_bytes(unsigned_rep(v as int, 8), 8, e), 0, e, TAG_LONG)
            == Ok::<(SpecTag, int), NbtError>((SpecTag::Long(v), 8)),
{
    lemma_pow256_values();
    let u = unsigned_rep(v as int, 8);
    lemma_unsigned_bytes_len(u, 8, e);
    lemma_unsigned_round_trip(u, 8, e);
}

/// Round-trip identity for Float: the four bytes that encode a binary32
/// bit pattern decode to exactly that pattern.
pub proof fn lemma_float_round_trip(bits: u32, e: Endian)
    ensures
        spec_payload(unsigned_bytes(bits as int, 4, e), 0, e, TAG_FLOAT)
            == Ok::<(SpecTag, int), NbtError>((SpecTag::Float(bits), 4)),
{
    lemma_pow256_values();
    lemma_unsigned_bytes_len(bits as int, 4, e);
    lemma_unsigned_round_trip(bits as int, 4, e);
}

/// Round-trip identity for Double: the eight bytes that encode a binary64
/// bit pattern decode to exactly that pattern.
pub proof fn lemma_double_round_trip(bits: u64, e: Endian)
    ensures
        spec_payload(unsigned_bytes(bits as int, 8, e), 0, e, TAG_DOUBLE)
            == Ok::<(SpecTag, int), NbtError>((SpecTag::Double(bits), 8)),
{
    lemma_pow256_values();
    lemma_unsigned_bytes_len(bits as int, 8, e);
    lemma_unsigned_round_trip(bits as int, 8, e);
}

/// Duplicate keys resolve to the later value: after inserting `v` under
/// `k`, looking `k` up yields `v`, and every other key is untouched.
pub proof fn lemma_last_write_wins(s: Seq<(Seq<char>, SpecTag)>, k: Seq<char>, v: SpecTag)
    ensures
        lookup(upsert(s, k, v), k) == Some(v),
        forall|k2: Seq<char>| k2 != k ==> #[trigger] lookup(upsert(s, k, v), k2) == lookup(s, k2),
    decreases s.len(),
{
    if s.len() == 0 {
        assert(upsert(s, k, v) == seq![(k, v)]);
        assert forall|k2: Seq<char>| k2 != k implies #[trigger] lookup(upsert(s, k, v), k2)
            == lookup(s, k2) by {
            reveal_with_fuel(lookup, 3);
            assert(seq![(k, v)][0] == (k, v));
            assert(seq![(k, v)].drop_first() =~= Seq::<(Seq<char>, SpecTag)>::empty());
        }
    } else if s[0].0 == k {
        let u2 = seq![(k, v)] + s.drop_first();
        assert(upsert(s, k, v) == u2);
        assert(u2[0] == (k, v));
        assert(u2.drop_first() =~= s.drop_first());
        assert forall|k2: Seq<char>| k2 != k implies #[trigger] lookup(upsert(s, k, v), k2)
            == lookup(s, k2) by {
            assert(lookup(u2, k2) == lookup(s.drop_first(), k2));
            assert(lookup(s, k2) == lookup(s.drop_first(), k2));
        }
    } else {
        lemma_last_write_wins(s.drop_first(), k, v);
        let u2 = seq![s[0]] + upsert(s.drop_first(), k, v);
        assert(upsert(s, k, v) == u2);
        assert(u2[0] == s[0]);
        assert(u2.len() > 0);
        assert(u2.drop_first() =~= upsert(s.drop_first(), k, v));
        assert forall|k2: Seq<char>| k2 != k implies #[trigger] lookup(upsert(s, k, v), k2)
            == lookup(s, k2) by {
            if s[0].0 != k2 {
                assert(lookup(u2, k2) == lookup(upsert(s.drop_first(), k, v), k2));
                assert(lookup(s, k2) == lookup(s.drop_first(), k2));
            }
        }
    }
}

/// Empty-length handling: a String, ByteArray, IntArray, LongArray or
/// List whose length prefix is zero or negative decodes to an empty
/// container, consuming nothing beyond its header.
pub proof fn lemma_empty_string(d: Seq<u8>, pos: int, e: Endian, n: i16, p: int)
    requires
        spec_read_i16(d, pos, e) == Ok::<(i16, int), NbtError>((n, p)),
        n <= 0,
    ensures
        spec_payload(d, pos, e, TAG_STRING) == Ok::<(SpecTag, int), NbtError>(
            (SpecTag::String(Seq::empty()), p),
        ),
{
}

/// Empty-length handling for ByteArray: see `lemma_empty_string`.
pub proof fn lemma_empty_byte_array(d: Seq<u8>, pos: int, e: Endian, n: i32, p: int)
    requires
        spec_read_i32(d, pos, e) == Ok::<(i32, int), NbtError>((n, p)),
        n <= 0,
    ensures
        spec_payload(d, pos, e, TAG_BYTE_ARRAY) == Ok::<(SpecTag, int), NbtError>(
            (SpecTag::ByteArray(Seq::empty()), p),
        ),
{
}

/// Empty-length handling for IntArray: see `lemma_empty_string`.
pub proof fn lemma_empty_int_array(d: Seq<u8>, pos: int, e: Endian, n: i32, p: int)
    requires
        spec_read_i32(d, pos, e) == Ok::<(i32, int), NbtError>((n, p)),
        n <= 0,
    ensures
        spec_payload(d, pos, e, TAG_INT_ARRAY) == Ok::<(SpecTag, int), NbtError>(
            (SpecTag::IntArray(Seq::empty()), p),
        ),
{
}

/// Empty-length handling for LongArray: see `lemma_empty_string`.
pub proof fn lemma_empty_long_array(d: Seq<u8>, pos: int, e: Endian, n: i32, p: int)
    requires
        spec_read_i32(d, pos, e) == Ok::<(i32, int), NbtError>((n, p)),
        n <= 0,
    ensures
        spec_payload(d, pos, e, TAG_LONG_ARRAY) == Ok::<(SpecTag, int), NbtError>(
            (SpecTag::LongArray(Seq::empty()), p),
        ),
{
}

/// Empty-length handling for List: a count of zero or less gives an empty
/// list whatever the declared element type byte holds, valid or not.
pub proof fn lemma_empty_list(d: Seq<u8>, pos: int, e: Endian, id: u8, p1: int, n: i32, p2: int)
    requires
        spec_read_u8(d, pos) == Ok::<(u8, int), NbtError>((id, p1)),
        spec_read_i32(d, p1, e) == Ok::<(i32, int), NbtError>((n, p2)),
        n <= 0,
    ensures
        spec_payload(d, pos, e, TAG_LIST) == Ok::<(SpecTag, int), NbtError>(
            (SpecTag::List(Seq::empty()), p2),
        ),
{
}

/// The byte-count versus element-count distinction: an IntArray's prefix
/// counts bytes and is divided by four, so a prefix of 8 yields exactly
/// two elements; a LongArray divides by eight, so the same prefix yields
/// one.
pub proof fn lemma_int_array_element_count(d: Seq<u8>, pos: int, e: Endian, n: i32, p1: int)
    requires
        spec_read_i32(d, pos, e) == Ok::<(i32, int), NbtError>((n, p1)),
        n > 0,
        p1 + 4 * (n / 4) <= d.len(),
    ensures
        spec_payload(d, pos, e, TAG_INT_ARRAY) matches Ok((t, p)) && t matches SpecTag::IntArray(s)
            && s.len() == n / 4 && p == p1 + 4 * (n / 4),
{
}

/// See `lemma_int_array_element_count`: the LongArray half.
pub proof fn lemma_long_array_element_count(d: Seq<u8>, pos: int, e: Endian, n: i32, p1: int)
    requires
        spec_read_i32(d, pos, e) == Ok::<(i32, int), NbtError>((n, p1)),
        n > 0,
        p1 + 8 * (n / 8) <= d.len(),
    ensures
        spec_payload(d, pos, e, TAG_LONG_ARRAY) matches Ok((t, p)) && t matches SpecTag::LongArray(
            s,
        ) && s.len() == n / 8 && p == p1 + 8 * (n / 8),
{
}

/// Truncation: a source that ends inside a fixed-width value, or inside a
/// declared-length String or array payload, yields the truncated-input
/// error; the reader never reads past the end and never returns a
/// silently short result.
pub proof fn lemma_truncated_fixed(d: Seq<u8>, pos: int, e: Endian)
    requires
        0 <= pos,
    ensures
        pos + 2 > d.len() ==> spec_payload(d, pos, e, TAG_SHORT) == Err::<(SpecTag, int), NbtError>(
            NbtError::Truncated,
        ),
        pos + 4 > d.len() ==> spec_payload(d, pos, e, TAG_INT) == Err::<(SpecTag, int), NbtError>(
            NbtError::Truncated,
        ),
        pos + 8 > d.len() ==> spec_payload(d, pos, e, TAG_LONG) == Err::<(SpecTag, int), NbtError>(
            NbtError::Truncated,
        ),
{
}

/// Truncation inside a String payload: see `lemma_truncated_fixed`.
pub proof fn lemma_truncated_string(d: Seq<u8>, pos: int, e: Endian, n: i16, p: int)
    requires
        spec_read_i16(d, pos, e) == Ok::<(i16, int), NbtError>((n, p)),
        n > 0,
        p + n > d.len(),
    ensures
        spec_payload(d, pos, e, TAG_STRING) == Err::<(SpecTag, int), NbtError>(NbtError::Truncated),
{
}

/// Truncation inside a ByteArray payload: see `lemma_truncated_fixed`.
pub proof fn lemma_truncated_byte_array(d: Seq<u8>, pos: int, e: Endian, n: i32, p: int)
    requires
        spec_read_i32(d, pos, e) == Ok::<(i32, int), NbtError>((n, p)),
        n > 0,
        p + n > d.len(),
    ensures
        spec_payload(d, pos, e, TAG_BYTE_ARRAY) == Err::<(SpecTag, int), NbtError>(
            NbtError::Truncated,
        ),
{
}

/// Truncation inside an IntArray payload: see `lemma_truncated_fixed`.
pub proof fn lemma_truncated_int_array(d: Seq<u8>, pos: int, e: Endian, n: i32, p: int)
    requires
        spec_read_i32(d, pos, e) == Ok::<(i32, int), NbtError>((n, p)),
        n > 0,
        p + 4 * (n / 4) > d.len(),
    ensures
        spec_payload(d, pos, e, TAG_INT_ARRAY) == Err::<(SpecTag, int), NbtError>(
            NbtError::Truncated,
        ),
{
}

/// Truncation inside a LongArray payload: see `lemma_truncated_fixed`.
pub proof fn lemma_truncated_long_array(d: Seq<u8>, pos: int, e: Endian, n: i32, p: int)
    requires
        spec_read_i32(d, pos, e) == Ok::<(i32, int), NbtError>((n, p)),
        n > 0,
        p + 8 * (n / 8) > d.len(),
    ensures
        spec_payload(d, pos, e, TAG_LONG_ARRAY) == Err::<(SpecTag, int), NbtError>(
            NbtError::Truncated,
        ),
{
}

/// A list that declares a positive count must declare one of the twelve
/// value kinds for its elements; the End sentinel or an unknown type byte
/// there fails the decode.
pub proof fn lemma_list_bad_element_type(
    d: Seq<u8>,
    pos: int,
    e: Endian,
    id: u8,
    p1: int,
    n: i32,
    p2: int,
)
    requires
        spec_read_u8(d, pos) == Ok::<(u8, int), NbtError>((id, p1)),
        spec_read_i32(d, p1, e) == Ok::<(i32, int), NbtError>((n, p2)),
        n > 0,
        id == TAG_END || id > TAG_LONG_ARRAY,
    ensures
        spec_payload(d, pos, e, TAG_LIST) == Err::<(SpecTag, int), NbtError>(NbtError::InvalidTag),
{
}

/// An entry of an upserted sequence is the inserted pair or one of the
/// old entries, and insertion keeps distinct names distinct.
pub proof fn lemma_upsert_shape(s: Seq<(Seq<char>, SpecTag)>, k: Seq<char>, v: SpecTag)
    ensures
        forall|i: int|
            0 <= i < upsert(s, k, v).len() ==> (#[trigger] upsert(s, k, v)[i] == (k, v)
                || exists|j: int| 0 <= j < s.len() && upsert(s, k, v)[i] == s[j]),
        entries_unique(s) ==> entries_unique(upsert(s, k, v)),
    decreases s.len(),
{
    let u = upsert(s, k, v);
    if s.len() == 0 {
        assert(u == seq![(k, v)]);
        assert(u[0] == (k, v));
    } else if s[0].0 == k {
        assert(u == seq![(k, v)] + s.drop_first());
        assert forall|i: int| 0 <= i < u.len() implies (#[trigger] u[i] == (k, v) || exists|j: int|
            0 <= j < s.len() && u[i] == s[j]) by {
            if i > 0 {
                assert(u[i] == s[i]);
            }
        }
        if entries_unique(s) {
            assert forall|i: int, j: int| 0 <= i < j < u.len() implies u[i].0 != u[j].0 by {
                assert(u[j] == s[j]);
                if i > 0 {
                    assert(u[i] == s[i]);
                } else {
                    assert(u[0].0 == s[0].0);
                }
            }
        }
    } else {
        lemma_upsert_shape(s.drop_first(), k, v);
        let ur = upsert(s.drop_first(), k, v);
        assert(u == seq![s[0]] + ur);
        assert forall|i: int| 0 <= i < u.len() implies (#[trigger] u[i] == (k, v) || exists|j: int|
            0 <= j < s.len() && u[i] == s[j]) by {
            if i == 0 {
                assert(u[0] == s[0]);
            } else {
                assert(u[i] == ur[i - 1]);
                if ur[i - 1] != (k, v) {
                    let j0 = choose|j0: int|
                        0 <= j0 < s.drop_first().len() && ur[i - 1] == s.drop_first()[j0];
                    assert(u[i] == s[j0 + 1]);
                }
            }
        }
        if entries_unique(s) {
            assert forall|i2: int, j2: int|
                0 <= i2 < s.drop_first().len() && 0 <= j2 < s.drop_first().len() && i2 < j2
                implies s.drop_first()[i2].0 != s.drop_first()[j2].0 by {
                assert(s.drop_first()[i2] == s[i2 + 1]);
                assert(s.drop_first()[j2] == s[j2 + 1]);
            }
            assert(entries_unique(s.drop_first()));
            assert forall|i: int, j: int| 0 <= i < j < u.len() implies u[i].0 != u[j].0 by {
                if i == 0 {
                    assert(u[0] == s[0]);
                    assert(u[j] == ur[j - 1]);
                    if ur[j - 1] == (k, v) {
                        assert(u[j].0 == k);
                    } else {
                        let j0 = choose|j0: int|
                            0 <= j0 < s.drop_first().len() && ur[j - 1] == s.drop_first()[j0];
                        assert(s.drop_first()[j0] == s[j0 + 1]);
                        assert(u[j].0 == s[j0 + 1].0);
                    }
                } else {
                    assert(u[i] == ur[i - 1]);
                    assert(u[j] == ur[j - 1]);
                }
            }
        }
    }
}

/// Every list the decoder builds holds only well-formed elements of the
/// declared kind.
pub proof fn lemma_list_elems_wf(
    d: Seq<u8>,
    pos: int,
    e: Endian,
    id: u8,
    n: int,
    acc: Seq<SpecTag>,
)
    requires
        forall|i: int| 0 <= i < acc.len() ==> #[trigger] tag_wf(acc[i]),
        forall|i: int| 0 <= i < acc.len() ==> (#[trigger] kind_of(acc[i])) == id,
    ensures
        spec_list_elems(d, pos, e, id, n, acc) matches Ok((s, p)) ==> (forall|i: int|
            0 <= i < s.len() ==> #[trigger] tag_wf(s[i])) && (forall|i: int|
            0 <= i < s.len() ==> (#[trigger] kind_of(s[i])) == id),
    decreases d.len() - pos, 2int, n,
{
    if n <= 0 {
    } else {
        match spec_payload(d, pos, e, id) {
            Err(_) => {},
            Ok((t, p2)) => {
                lemma_payload_wf(d, pos, e, id);
                if advances(pos, p2, d.len() as int) {
                    assert forall|i: int| 0 <= i < acc.push(t).len() implies #[trigger] tag_wf(
                        acc.push(t)[i],
                    ) by {
                        if i < acc.len() {
                            assert(acc.push(t)[i] == acc[i]);
                        } else {
                            assert(acc.push(t)[i] == t);
                        }
                    }
                    assert forall|i: int| 0 <= i < acc.push(t).len() implies (#[trigger] kind_of(
                        acc.push(t)[i],
                    )) == id by {
                        if i < acc.len() {
                            assert(acc.push(t)[i] == acc[i]);
                        } else {
                            assert(acc.push(t)[i] == t);
                        }
                    }
                    lemma_list_elems_wf(d, p2, e, id, n - 1, acc.push(t));
                }
            },
        }
    }
}

/// Every compound the decoder builds has unique names and well-formed
/// values.
pub proof fn lemma_compound_entries_wf(
    d: Seq<u8>,
    pos: int,
    e: Endian,
    acc: Seq<(Seq<char>, SpecTag)>,
)
    requires
        entries_unique(acc),
        forall|i: int| 0 <= i < acc.len() ==> #[trigger] tag_wf(acc[i].1),
    ensures
        spec_compound_entries(d, pos, e, acc) matches Ok((en, p)) ==> entries_unique(en)
            && forall|i: int| 0 <= i < en.len() ==> #[trigger] tag_wf(en[i].1),
    decreases d.len() - pos, 0int, 0int,
{
    match spec_read_u8(d, pos) {
        Err(_) => {},
        Ok((id, p1)) => {
            if id == TAG_END || id > TAG_LONG_ARRAY {
            } else {
                match spec_read_str(d, p1, e) {
                    Err(_) => {},
                    Ok((name, p2)) => {
                        if p2 <= pos || p2 > d.len() {
                        } else {
                            match spec_payload(d, p2, e, id) {
                                Err(_) => {},
                                Ok((t, p3)) => {
                                    lemma_payload_wf(d, p2, e, id);
                                    if advances(pos, p3, d.len() as int) {
                                        lemma_upsert_shape(acc, name, t);
                                        let up = upsert(acc, name, t);
                                        assert forall|i: int| 0 <= i < up.len() implies #[trigger]
                                            tag_wf(up[i].1) by {
                                            if up[i] != (name, t) {
                                                let j = choose|j: int|
                                                    0 <= j < acc.len() && up[i] == acc[j];
                                                assert(tag_wf(acc[j].1));
                                            }
                                        }
                                        lemma_compound_entries_wf(d, p3, e, up);
                                    }
                                },
                            }
                        }
                    },
                }
            }
        },
    }
}

/// Every tree the decoder returns is well formed: names within one
/// compound are unique, every list is homogeneous, and the value's kind
/// is the kind its type byte announced.
pub proof fn lemma_payload_wf(d: Seq<u8>, pos: int, e: Endian, id: u8)
    ensures
        spec_payload(d, pos, e, id) matches Ok((t, p)) ==> tag_wf(t) && kind_of(t) == id,
    decreases d.len() - pos, 1int, 0int,
{
    if id == TAG_LIST {
        match spec_read_u8(d, pos) {
            Err(_) => {},
            Ok((id2, p1)) => {
                match spec_read_i32(d, p1, e) {
                    Err(_) => {},
                    Ok((n, p2)) => {
                        if n > 0 && !(id2 == TAG_END || id2 > TAG_LONG_ARRAY) {
                            lemma_list_elems_wf(d, p2, e, id2, n as int, Seq::empty());
                            match spec_list_elems(d, p2, e, id2, n as int, Seq::empty()) {
                                Err(_) => {},
                                Ok((elems, p3)) => {
                                    lemma_tags_wf_from_iff(elems, 0);
                                    assert(tag_wf(SpecTag::List(elems)));
                                },
                            }
                        }
                    },
                }
            },
        }
    } else if id == TAG_COMPOUND {
        lemma_compound_entries_wf(d, pos, e, Seq::empty());
        match spec_compound_entries(d, pos, e, Seq::empty()) {
            Err(_) => {},
            Ok((en, p3)) => {
                lemma_entries_wf_from_iff(en, 0);
                assert(tag_wf(SpecTag::Compound(en)));
            },
        }
    }
}

/// The root of a decoded document is a well-formed compound.
pub proof fn lemma_root_wf(d: Seq<u8>, e: Endian)
    ensures
        spec_root(d, 0, e) matches Ok((x, p)) ==> tag_wf(x.1) && x.1 is Compound,
{
    match spec_read_u8(d, 0) {
        Err(_) => {},
        Ok((id, p1)) => {
            if id == TAG_COMPOUND {
                match spec_read_str(d, p1, e) {
                    Err(_) => {},
                    Ok((name, p2)) => {
                        lemma_compound_entries_wf(d, p2, e, Seq::empty());
                        match spec_compound_entries(d, p2, e, Seq::empty()) {
                            Err(_) => {},
                            Ok((en, p3)) => {
                                lemma_entries_wf_from_iff(en, 0);
                                assert(tag_wf(SpecTag::Compound(en)));
                            },
                        }
                    },
                }
            }
        },
    }
}

} // verus!
