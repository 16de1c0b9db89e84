//! The wire format of an NBT document, as a mathematical model.
//!
//! Every decode rule of the format is written down here as a spec function
//! over a byte sequence and a read position. The executable reader proves
//! that it returns exactly what these functions say, so this module is the
//! single place that defines what a well-formed NBT byte stream means.

use vstd::prelude::*;
use vstd::utf8::{valid_utf8, decode_utf8};

verus! {

broadcast use vstd::seq::axiom_seq_index_decreases;

/// Byte order used for every multi-byte integer and floating-point read of
/// one decode operation. The format's conventional default is big-endian,
/// but some dialects store the same grammar little-endian.
#[derive(Clone, Copy, PartialEq, Eq, Structural, Debug)]
pub enum Endian {
    Big,
    Little,
}

/// Why a decode failed. Any error aborts the whole decode; no partial tree
/// is ever returned.
#[derive(Clone, Copy, PartialEq, Eq, Structural, Debug)]
pub enum NbtError {
    /// Fewer bytes were available than a fixed-width or length-prefixed
    /// read required.
    Truncated,
    /// A type byte outside the thirteen known values stood where a type
    /// byte was expected.
    InvalidTag,
    /// The top-level value's type byte was not Compound.
    InvalidRoot,
    /// A string payload was not valid UTF-8.
    InvalidUtf8,
    /// The input was exhausted before a compound's End sentinel was found.
    UnterminatedCompound,
}

pub const TAG_END: u8 = 0x0;
pub const TAG_BYTE: u8 = 0x1;
pub const TAG_SHORT: u8 = 0x2;
pub const TAG_INT: u8 = 0x3;
pub const TAG_LONG: u8 = 0x4;
pub const TAG_FLOAT: u8 = 0x5;
pub const TAG_DOUBLE: u8 = 0x6;
pub const TAG_BYTE_ARRAY: u8 = 0x7;
pub const TAG_STRING: u8 = 0x8;
pub const TAG_LIST: u8 = 0x9;
pub const TAG_COMPOUND: u8 = 0xA;
pub const TAG_INT_ARRAY: u8 = 0xB;
pub const TAG_LONG_ARRAY: u8 = 0xC;

/// The model of one decoded tag: the twelve value kinds of the format with
/// their payloads as mathematical sequences. Floating-point payloads are
/// carried as their IEEE-754 bit patterns, so the model stays within exact
/// integer arithmetic.
pub enum SpecTag {
    Byte(u8),
    Short(i16),
    Int(i32),
    Long(i64),
    Float(u32),
    Double(u64),
    String(Seq<char>),
    ByteArray(Seq<u8>),
    List(Seq<SpecTag>),
    Compound(Seq<(Seq<char>, SpecTag)>),
    IntArray(Seq<i32>),
    LongArray(Seq<i64>),
}

/// The type byte that announces a tag of this kind on the wire.
pub open spec fn kind_of(t: SpecTag) -> u8 {
    match t {
        SpecTag::Byte(_) => TAG_BYTE,
        SpecTag::Short(_) => TAG_SHORT,
        SpecTag::Int(_) => TAG_INT,
        SpecTag::Long(_) => TAG_LONG,
        SpecTag::Float(_) => TAG_FLOAT,
        SpecTag::Double(_) => TAG_DOUBLE,
        SpecTag::String(_) => TAG_STRING,
        SpecTag::ByteArray(_) => TAG_BYTE_ARRAY,
        SpecTag::List(_) => TAG_LIST,
        SpecTag::Compound(_) => TAG_COMPOUND,
        SpecTag::IntArray(_) => TAG_INT_ARRAY,
        SpecTag::LongArray(_) => TAG_LONG_ARRAY,
    }
}

/// Whether a compound's entries carry pairwise distinct names.
pub open spec fn entries_unique(en: Seq<(Seq<char>, SpecTag)>) -> bool {
    forall|i: int, j: int| 0 <= i < j < en.len() ==> en[i].0 != en[j].0
}

/// Whether all elements of a list share one kind.
pub open spec fn homogeneous(s: Seq<SpecTag>) -> bool {
    forall|i: int, j: int|
        #![trigger s[i], s[j]]
        0 <= i < s.len() && 0 <= j < s.len() ==> kind_of(s[i]) == kind_of(s[j])
}

/// Structural soundness of a tag tree: within every compound the names
/// are unique, every list is homogeneous, and both hold recursively. The
/// decoder only ever returns well-formed trees.
pub open spec fn tag_wf(t: SpecTag) -> bool
    decreases t,
{
    match t {
        SpecTag::List(s) => tags_wf_from(s, 0) && homogeneous(s),
        SpecTag::Compound(en) => entries_unique(en) && entries_wf_from(en, 0),
        _ => true,
    }
}

/// Whether the elements of `s` from index `i` on are all well formed.
pub open spec fn tags_wf_from(s: Seq<SpecTag>, i: int) -> bool
    decreases s, s.len() - i,
{
    if i < 0 || i >= s.len() {
        true
    } else {
        tag_wf(s[i]) && tags_wf_from(s, i + 1)
    }
}

/// Whether the values of the entries of `en` from index `i` on are all
/// well formed.
pub open spec fn entries_wf_from(en: Seq<(Seq<char>, SpecTag)>, i: int) -> bool
    decreases en, en.len() - i,
{
    if i < 0 || i >= en.len() {
        true
    } else {
        tag_wf(en[i].1) && entries_wf_from(en, i + 1)
    }
}

/// `tags_wf_from` says exactly that each element from `i` on is well
/// formed.
pub proof fn lemma_tags_wf_from_iff(s: Seq<SpecTag>, i: int)
    requires
        0 <= i <= s.len(),
    ensures
        tags_wf_from(s, i) <==> (forall|j: int| i <= j < s.len() ==> #[trigger] tag_wf(s[j])),
    decreases s.len() - i,
{
    if i < s.len() {
        lemma_tags_wf_from_iff(s, i + 1);
        if tags_wf_from(s, i) {
            assert forall|j: int| i <= j < s.len() implies #[trigger] tag_wf(s[j]) by {}
        }
        if forall|j: int| i <= j < s.len() ==> #[trigger] tag_wf(s[j]) {
            assert(tag_wf(s[i]));
            assert(forall|j: int| i + 1 <= j < s.len() ==> #[trigger] tag_wf(s[j]));
            assert(tags_wf_from(s, i + 1));
        }
    }
}

/// `entries_wf_from` says exactly that each entry's value from `i` on is
/// well formed.
pub proof fn lemma_entries_wf_from_iff(en: Seq<(Seq<char>, SpecTag)>, i: int)
    requires
        0 <= i <= en.len(),
    ensures
        entries_wf_from(en, i) <==> (forall|j: int|
            i <= j < en.len() ==> #[trigger] tag_wf(en[j].1)),
    decreases en.len() - i,
{
    if i < en.len() {
        lemma_entries_wf_from_iff(en, i + 1);
        if entries_wf_from(en, i) {
            assert forall|j: int| i <= j < en.len() implies #[trigger] tag_wf(en[j].1) by {}
        }
        if forall|j: int| i <= j < en.len() ==> #[trigger] tag_wf(en[j].1) {
            assert(tag_wf(en[i].1));
            assert(forall|j: int| i + 1 <= j < en.len() ==> #[trigger] tag_wf(en[j].1));
            assert(entries_wf_from(en, i + 1));
        }
    }
}

/// The unsigned value of `width` bytes starting at `pos`, composed in the
/// given byte order.
pub open spec fn unsigned_at(d: Seq<u8>, pos: int, width: int, e: Endian) -> int
    decreases width,
{
    if width <= 0 {
        0
    } else {
        match e {
            Endian::Big => unsigned_at(d, pos, width - 1, e) * 256 + d[pos + width - 1],
            Endian::Little => unsigned_at(d, pos + 1, width - 1, e) * 256 + d[pos],
        }
    }
}

/// 256 to the power `w`: the number of values of `w` bytes.
pub open spec fn pow256(w: int) -> int
    decreases w,
{
    if w <= 0 {
        1
    } else {
        256 * pow256(w - 1)
    }
}

pub proof fn lemma_unsigned_at_bound(d: Seq<u8>, pos: int, width: int, e: Endian)
    ensures
        0 <= unsigned_at(d, pos, width, e) < pow256(width),
    decreases width,
{
    if width > 0 {
        match e {
            Endian::Big => lemma_unsigned_at_bound(d, pos, width - 1, e),
            Endian::Little => lemma_unsigned_at_bound(d, pos + 1, width - 1, e),
        }
    }
}


pub proof fn lemma_pow256_values()
    ensures
        pow256(2) == 0x1_0000,
        pow256(4) == 0x1_0000_0000,
        pow256(8) == 0x1_0000_0000_0000_0000,
{
    reveal_with_fuel(pow256, 9);
}

pub proof fn lemma_pow256_pos(w: int)
    ensures
        pow256(w) >= 1,
    decreases w,
{
    if w > 0 {
        lemma_pow256_pos(w - 1);
    }
}

pub proof fn lemma_pow256_mono(a: int, b: int)
    requires
        a <= b,
    ensures
        pow256(a) <= pow256(b),
    decreases b - a,
{
    if a < b {
        lemma_pow256_mono(a, b - 1);
        lemma_pow256_pos(b - 1);
    }
}

/// The `width` bytes that encode the unsigned value `u` in byte order
/// `e`: the scalar encoding that the fixed-width reads invert.
pub open spec fn unsigned_bytes(u: int, width: int, e: Endian) -> Seq<u8>
    decreases width,
{
    if width <= 0 {
        Seq::empty()
    } else {
        match e {
            Endian::Big => unsigned_bytes(u / 256, width - 1, e).push((u % 256) as u8),
            Endian::Little => seq![(u % 256) as u8] + unsigned_bytes(u / 256, width - 1, e),
        }
    }
}

/// The unsigned value that the two's-complement encoding of `v` in
/// `width` bytes carries.
pub open spec fn unsigned_rep(v: int, width: int) -> int {
    if v >= 0 {
        v
    } else {
        v + pow256(width)
    }
}

/// The two's-complement signed reading of the 16-bit unsigned value `u`.
pub open spec fn signed16(u: int) -> i16 {
    if u < 0x8000 {
        u as i16
    } else {
        (u - 0x1_0000) as i16
    }
}

/// The two's-complement signed reading of the 32-bit unsigned value `u`.
pub open spec fn signed32(u: int) -> i32 {
    if u < 0x8000_0000 {
        u as i32
    } else {
        (u - 0x1_0000_0000) as i32
    }
}

/// The two's-complement signed reading of the 64-bit unsigned value `u`.
pub open spec fn signed64(u: int) -> i64 {
    if u < 0x8000_0000_0000_0000 {
        u as i64
    } else {
        (u - 0x1_0000_0000_0000_0000) as i64
    }
}

/// Reads one byte: the value and the position after it.
pub open spec fn spec_read_u8(d: Seq<u8>, pos: int) -> Result<(u8, int), NbtError> {
    if 0 <= pos && pos + 1 <= d.len() {
        Ok((d[pos], pos + 1))
    } else {
        Err(NbtError::Truncated)
    }
}

/// Reads a 16-bit signed integer in byte order `e`.
pub open spec fn spec_read_i16(d: Seq<u8>, pos: int, e: Endian) -> Result<(i16, int), NbtError> {
    if 0 <= pos && pos + 2 <= d.len() {
        Ok((signed16(unsigned_at(d, pos, 2, e)), pos + 2))
    } else {
        Err(NbtError::Truncated)
    }
}

/// Reads a 32-bit signed integer in byte order `e`.
pub open spec fn spec_read_i32(d: Seq<u8>, pos: int, e: Endian) -> Result<(i32, int), NbtError> {
    if 0 <= pos && pos + 4 <= d.len() {
        Ok((signed32(unsigned_at(d, pos, 4, e)), pos + 4))
    } else {
        Err(NbtError::Truncated)
    }
}

/// Reads a 64-bit signed integer in byte order `e`.
pub open spec fn spec_read_i64(d: Seq<u8>, pos: int, e: Endian) -> Result<(i64, int), NbtError> {
    if 0 <= pos && pos + 8 <= d.len() {
        Ok((signed64(unsigned_at(d, pos, 8, e)), pos + 8))
    } else {
        Err(NbtError::Truncated)
    }
}

/// Reads the 32 bits of an IEEE-754 binary32 value in byte order `e`.
pub open spec fn spec_read_u32(d: Seq<u8>, pos: int, e: Endian) -> Result<(u32, int), NbtError> {
    if 0 <= pos && pos + 4 <= d.len() {
        Ok((unsigned_at(d, pos, 4, e) as u32, pos + 4))
    } else {
        Err(NbtError::Truncated)
    }
}

/// Reads the 64 bits of an IEEE-754 binary64 value in byte order `e`.
pub open spec fn spec_read_u64(d: Seq<u8>, pos: int, e: Endian) -> Result<(u64, int), NbtError> {
    if 0 <= pos && pos + 8 <= d.len() {
        Ok((unsigned_at(d, pos, 8, e) as u64, pos + 8))
    } else {
        Err(NbtError::Truncated)
    }
}

/// Reads a length-prefixed UTF-8 string: a 16-bit signed byte count, then
/// that many bytes of text. A count of zero or less is an empty string and
/// consumes nothing beyond the prefix; bytes that are not valid UTF-8 are
/// an error, never a lossy substitution.
pub open spec fn spec_read_str(d: Seq<u8>, pos: int, e: Endian) -> Result<
    (Seq<char>, int),
    NbtError,
> {
    match spec_read_i16(d, pos, e) {
        Err(er) => Err(er),
        Ok((n, p1)) => if n <= 0 {
            Ok((Seq::empty(), p1))
        } else if p1 + n > d.len() {
            Err(NbtError::Truncated)
        } else {
            let bytes = d.subrange(p1, p1 + n);
            if valid_utf8(bytes) {
                Ok((decode_utf8(bytes), p1 + n))
            } else {
                Err(NbtError::InvalidUtf8)
            }
        },
    }
}

/// Whether a position step stays strictly inside the input: every payload
/// consumes at least one byte, so a step that does not advance, or leaves
/// the input, can never come from a successful read.
pub open spec fn advances(pos: int, p2: int, len: int) -> bool {
    pos < p2 && p2 <= len
}

/// The payload of a tag of kind `id` at `pos`: what the recursive decoder
/// returns for it, and the position after it. `id` must be one of the
/// twelve value kinds; the End sentinel has no payload.
pub open spec fn spec_payload(d: Seq<u8>, pos: int, e: Endian, id: u8) -> Result<
    (SpecTag, int),
    NbtError,
>
    decreases d.len() - pos, 1int, 0int,
{
    if id == TAG_BYTE {
        match spec_read_u8(d, pos) {
            Err(er) => Err(er),
            Ok((b, p)) => Ok((SpecTag::Byte(b), p)),
        }
    } else if id == TAG_SHORT {
        match spec_read_i16(d, pos, e) {
            Err(er) => Err(er),
            Ok((v, p)) => Ok((SpecTag::Short(v), p)),
        }
    } else if id == TAG_INT {
        match spec_read_i32(d, pos, e) {
            Err(er) => Err(er),
            Ok((v, p)) => Ok((SpecTag::Int(v), p)),
        }
    } else if id == TAG_LONG {
        match spec_read_i64(d, pos, e) {
            Err(er) => Err(er),
            Ok((v, p)) => Ok((SpecTag::Long(v), p)),
        }
    } else if id == TAG_FLOAT {
        match spec_read_u32(d, pos, e) {
            Err(er) => Err(er),
            Ok((v, p)) => Ok((SpecTag::Float(v), p)),
        }
    } else if id == TAG_DOUBLE {
        match spec_read_u64(d, pos, e) {
            Err(er) => Err(er),
            Ok((v, p)) => Ok((SpecTag::Double(v), p)),
        }
    } else if id == TAG_BYTE_ARRAY {
        spec_byte_array(d, pos, e)
    } else if id == TAG_STRING {
        match spec_read_str(d, pos, e) {
            Err(er) => Err(er),
            Ok((s, p)) => Ok((SpecTag::String(s), p)),
        }
    } else if id == TAG_LIST {
        spec_list(d, pos, e)
    } else if id == TAG_COMPOUND {
        match spec_compound_entries(d, pos, e, Seq::empty()) {
            Err(er) => Err(er),
            Ok((entries, p)) => Ok((SpecTag::Compound(entries), p)),
        }
    } else if id == TAG_INT_ARRAY {
        spec_int_array(d, pos, e)
    } else if id == TAG_LONG_ARRAY {
        spec_long_array(d, pos, e)
    } else {
        Err(NbtError::InvalidTag)
    }
}

/// A byte array payload: a 32-bit signed byte count, then that many bytes
/// verbatim. A count of zero or less is an empty array.
pub open spec fn spec_byte_array(d: Seq<u8>, pos: int, e: Endian) -> Result<
    (SpecTag, int),
    NbtError,
> {
    match spec_read_i32(d, pos, e) {
        Err(er) => Err(er),
        Ok((n, p1)) => if n <= 0 {
            Ok((SpecTag::ByteArray(Seq::empty()), p1))
        } else if p1 + n > d.len() {
            Err(NbtError::Truncated)
        } else {
            Ok((SpecTag::ByteArray(d.subrange(p1, p1 + n)), p1 + n))
        },
    }
}

/// An integer array payload. The 32-bit signed prefix counts bytes, not
/// elements: the element count is the prefix divided by four, and bytes
/// beyond the last whole element are not consumed.
pub open spec fn spec_int_array(d: Seq<u8>, pos: int, e: Endian) -> Result<
    (SpecTag, int),
    NbtError,
> {
    match spec_read_i32(d, pos, e) {
        Err(er) => Err(er),
        Ok((n, p1)) => if n <= 0 {
            Ok((SpecTag::IntArray(Seq::empty()), p1))
        } else {
            let m = n / 4;
            if p1 + 4 * m > d.len() {
                Err(NbtError::Truncated)
            } else {
                Ok(
                    (
                        SpecTag::IntArray(
                            Seq::new(m as nat, |i: int| signed32(unsigned_at(d, p1 + 4 * i, 4, e))),
                        ),
                        p1 + 4 * m,
                    ),
                )
            }
        },
    }
}

/// A long array payload, symmetric to the integer array: the byte-count
/// prefix is divided by eight.
pub open spec fn spec_long_array(d: Seq<u8>, pos: int, e: Endian) -> Result<
    (SpecTag, int),
    NbtError,
> {
    match spec_read_i32(d, pos, e) {
        Err(er) => Err(er),
        Ok((n, p1)) => if n <= 0 {
            Ok((SpecTag::LongArray(Seq::empty()), p1))
        } else {
            let m = n / 8;
            if p1 + 8 * m > d.len() {
                Err(NbtError::Truncated)
            } else {
                Ok(
                    (
                        SpecTag::LongArray(
                            Seq::new(m as nat, |i: int| signed64(unsigned_at(d, p1 + 8 * i, 8, e))),
                        ),
                        p1 + 8 * m,
                    ),
                )
            }
        },
    }
}

/// A list payload: one type byte declaring the homogeneous element kind,
/// then a 32-bit signed element count, then that many payloads of the
/// declared kind. A count of zero or less is an empty list whatever the
/// declared kind; with a positive count the declared kind must be one of
/// the twelve value kinds.
pub open spec fn spec_list(d: Seq<u8>, pos: int, e: Endian) -> Result<(SpecTag, int), NbtError>
    decreases d.len() - pos, 0int, 0int,
{
    match spec_read_u8(d, pos) {
        Err(er) => Err(er),
        Ok((id, p1)) => match spec_read_i32(d, p1, e) {
            Err(er) => Err(er),
            Ok((n, p2)) => if n <= 0 {
                Ok((SpecTag::List(Seq::empty()), p2))
            } else if id == TAG_END || id > TAG_LONG_ARRAY {
                Err(NbtError::InvalidTag)
            } else {
                match spec_list_elems(d, p2, e, id, n as int, Seq::empty()) {
                    Err(er) => Err(er),
                    Ok((elems, p3)) => Ok((SpecTag::List(elems), p3)),
                }
            },
        },
    }
}

/// The next `n` payloads of kind `id`, appended to `acc`.
pub open spec fn spec_list_elems(
    d: Seq<u8>,
    pos: int,
    e: Endian,
    id: u8,
    n: int,
    acc: Seq<SpecTag>,
) -> Result<(Seq<SpecTag>, int), NbtError>
    decreases d.len() - pos, 2int, n,
{
    if n <= 0 {
        Ok((acc, pos))
    } else {
        match spec_payload(d, pos, e, id) {
            Err(er) => Err(er),
            Ok((t, p2)) => if advances(pos, p2, d.len() as int) {
                spec_list_elems(d, p2, e, id, n - 1, acc.push(t))
            } else {
                Err(NbtError::Truncated)
            },
        }
    }
}

/// The entries of a compound, appended to `acc`: repeatedly one type byte
/// (End stops), a name, and a payload of the named kind. A name written
/// twice overwrites its earlier value. Running out of input while looking
/// for the next type byte leaves the compound unterminated.
pub open spec fn spec_compound_entries(
    d: Seq<u8>,
    pos: int,
    e: Endian,
    acc: Seq<(Seq<char>, SpecTag)>,
) -> Result<(Seq<(Seq<char>, SpecTag)>, int), NbtError>
    decreases d.len() - pos, 0int, 0int,
{
    match spec_read_u8(d, pos) {
        Err(_) => Err(NbtError::UnterminatedCompound),
        Ok((id, p1)) => if id == TAG_END {
            Ok((acc, p1))
        } else if id > TAG_LONG_ARRAY {
            Err(NbtError::InvalidTag)
        } else {
            match spec_read_str(d, p1, e) {
                Err(er) => Err(er),
                Ok((name, p2)) => if p2 <= pos || p2 > d.len() {
                    Err(NbtError::Truncated)
                } else {
                    match spec_payload(d, p2, e, id) {
                        Err(er) => Err(er),
                        Ok((t, p3)) => if advances(pos, p3, d.len() as int) {
                            spec_compound_entries(d, p3, e, upsert(acc, name, t))
                        } else {
                            Err(NbtError::Truncated)
                        },
                    }
                },
            }
        },
    }
}

/// A named compound: its name, then its entries. This is how a compound
/// stands wherever its name has not been consumed yet: at the root of a
/// document.
pub open spec fn spec_named_compound(d: Seq<u8>, pos: int, e: Endian) -> Result<
    ((Seq<char>, SpecTag), int),
    NbtError,
> {
    match spec_read_str(d, pos, e) {
        Err(er) => Err(er),
        Ok((name, p1)) => match spec_compound_entries(d, p1, e, Seq::empty()) {
            Err(er) => Err(er),
            Ok((entries, p2)) => Ok(((name, SpecTag::Compound(entries)), p2)),
        },
    }
}

/// One tag of any kind: a type byte, then the payload it announces.
pub open spec fn spec_read_any(d: Seq<u8>, pos: int, e: Endian) -> Result<(SpecTag, int), NbtError> {
    match spec_read_u8(d, pos) {
        Err(er) => Err(er),
        Ok((id, p1)) => spec_payload(d, p1, e, id),
    }
}

/// A whole document: one type byte, which must be Compound, then the root
/// compound's name and its entries. The result is the name, the root tag,
/// and the position after the document.
pub open spec fn spec_root(d: Seq<u8>, pos: int, e: Endian) -> Result<
    ((Seq<char>, SpecTag), int),
    NbtError,
> {
    match spec_read_u8(d, pos) {
        Err(er) => Err(er),
        Ok((id, p1)) => if id != TAG_COMPOUND {
            Err(NbtError::InvalidRoot)
        } else {
            spec_named_compound(d, p1, e)
        },
    }
}

/// The value under key `k` in a sequence of compound entries: the first
/// pair whose name is `k`, if any. With unique keys the first match is the
/// only one.
pub open spec fn lookup(s: Seq<(Seq<char>, SpecTag)>, k: Seq<char>) -> Option<SpecTag>
    decreases s.len(),
{
    if s.len() == 0 {
        None
    } else if s[0].0 == k {
        Some(s[0].1)
    } else {
        lookup(s.drop_first(), k)
    }
}

/// Entry insertion with last-write-wins: a key already present keeps its
/// place but takes the new value; a new key goes to the end.
pub open spec fn upsert(s: Seq<(Seq<char>, SpecTag)>, k: Seq<char>, v: SpecTag) -> Seq<
    (Seq<char>, SpecTag),
>
    decreases s.len(),
{
    if s.len() == 0 {
        seq![(k, v)]
    } else if s[0].0 == k {
        seq![(k, v)] + s.drop_first()
    } else {
        seq![s[0]] + upsert(s.drop_first(), k, v)
    }
}


/// Looking a key up skips past entries that do not hold it.
pub proof fn lemma_lookup_skip(s: Seq<(Seq<char>, SpecTag)>, k: Seq<char>, i: int)
    requires
        0 <= i <= s.len(),
        forall|j: int| 0 <= j < i ==> (#[trigger] s[j]).0 != k,
    ensures
        lookup(s, k) == lookup(s.skip(i), k),
    decreases i,
{
    if i > 0 {
        lemma_lookup_skip(s.drop_first(), k, i - 1);
        assert(s.drop_first().skip(i - 1) =~= s.skip(i));
    } else {
        assert(s.skip(0) =~= s);
    }
}

/// Inserting under a key that stands at index `i` (and nowhere earlier)
/// replaces that entry in place.
pub proof fn lemma_upsert_found(s: Seq<(Seq<char>, SpecTag)>, k: Seq<char>, v: SpecTag, i: int)
    requires
        0 <= i < s.len(),
        s[i].0 == k,
        forall|j: int| 0 <= j < i ==> s[j].0 != k,
    ensures
        upsert(s, k, v) == s.update(i, (k, v)),
    decreases i,
{
    if i == 0 {
        assert(upsert(s, k, v) =~= s.update(0, (k, v)));
    } else {
        lemma_upsert_found(s.drop_first(), k, v, i - 1);
        assert(upsert(s, k, v) =~= s.update(i, (k, v)));
    }
}

/// Inserting under a key that no entry holds appends the pair at the end.
pub proof fn lemma_upsert_missing(s: Seq<(Seq<char>, SpecTag)>, k: Seq<char>, v: SpecTag)
    requires
        forall|j: int| 0 <= j < s.len() ==> s[j].0 != k,
    ensures
        upsert(s, k, v) == s.push((k, v)),
    decreases s.len(),
{
    if s.len() == 0 {
        assert(upsert(s, k, v) =~= s.push((k, v)));
    } else {
        lemma_upsert_missing(s.drop_first(), k, v);
        assert(upsert(s, k, v) =~= s.push((k, v)));
    }
}

} // verus!

