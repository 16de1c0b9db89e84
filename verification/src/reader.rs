//! The recursive decoder: reads NBT values out of a byte slice.
//!
//! Every read function returns exactly what the corresponding spec function
//! of [`crate::wire`] says, stated through the `lifted`/`modeled` helpers
//! below. A reader carries only its byte order, so one reader value can
//! serve any number of decode calls.

use vstd::prelude::*;
use vstd::utf8::{valid_utf8, decode_utf8};
use crate::wire::{
    Endian, NbtError, SpecTag, pow256, unsigned_at, lemma_unsigned_at_bound, spec_read_u8,
    spec_read_i16, spec_read_i32, spec_read_i64, spec_read_u32, spec_read_u64, spec_read_str,
    lemma_pow256_values, lemma_pow256_mono,
    spec_payload, spec_byte_array, spec_int_array, spec_long_array, spec_list, spec_list_elems,
    spec_compound_entries, spec_named_compound, spec_read_any, spec_root, advances, upsert,
    lemma_upsert_found, lemma_upsert_missing, signed32, signed64, TAG_END, TAG_BYTE, TAG_SHORT,
    TAG_INT, TAG_LONG, TAG_FLOAT, TAG_DOUBLE, TAG_BYTE_ARRAY, TAG_STRING, TAG_LIST, TAG_COMPOUND,
    TAG_INT_ARRAY, TAG_LONG_ARRAY,
};
use crate::tag::{
    NbtTag, tags_view, entries_view, lemma_tags_view_from, lemma_entries_view_from,
};

verus! {

/// The result of an executable read, with its position made a
/// mathematical integer so spec functions can speak of it.
pub open spec fn lifted<T>(r: Result<(T, usize), NbtError>) -> Result<(T, int), NbtError> {
    match r {
        Ok((v, p)) => Ok((v, p as int)),
        Err(er) => Err(er),
    }
}

/// As `lifted`, with the string replaced by its characters.
pub open spec fn lifted_str(r: Result<(String, usize), NbtError>) -> Result<
    (Seq<char>, int),
    NbtError,
> {
    match r {
        Ok((s, p)) => Ok((s@, p as int)),
        Err(er) => Err(er),
    }
}

/// As `lifted`, with the tag replaced by its model.
pub open spec fn modeled(r: Result<(NbtTag, usize), NbtError>) -> Result<
    (SpecTag, int),
    NbtError,
> {
    match r {
        Ok((t, p)) => Ok((t.deep_view(), p as int)),
        Err(er) => Err(er),
    }
}

/// Relies on String::from_utf8: it returns Ok exactly when the bytes are
/// valid UTF-8, and the string then holds exactly those bytes' characters.
#[verifier::external_body]
fn bytes_to_string(v: Vec<u8>) -> (r: Option<String>)
    ensures
        r is Some <==> valid_utf8(v@),
        r matches Some(s) ==> s@ == decode_utf8(v@),
{
    match String::from_utf8(v) {
        Ok(s) => Some(s),
        Err(_) => None,
    }
}

/// Puts `(name, t)` into a compound's entries with last-write-wins
/// semantics: an existing entry under the same name takes the new value in
/// place; otherwise the pair goes to the end.
pub(crate) fn insert_entry(entries: &mut Vec<(String, NbtTag)>, name: String, t: NbtTag)
    ensures
        entries_view(final(entries)) == upsert(entries_view(old(entries)), name@, t.deep_view()),
{
    let ghost s = entries_view(&*entries);
    let ghost k = name@;
    let ghost vv = t.deep_view();
    proof {
        lemma_entries_view_from(&*entries, 0);
    }
    let n = entries.len();
    let mut i: usize = 0;
    let mut idx: usize = n;
    while i < n
        invariant
            n == entries.len(),
            *entries == *old(entries),
            s == entries_view(&*entries),
            s.len() == n,
            k == name@,
            i <= n,
            idx <= n,
            forall|j: int| 0 <= j < s.len() ==> #[trigger] s[j] == (
                entries@[j].0@,
                entries@[j].1.deep_view(),
            ),
            idx == n ==> forall|j: int| 0 <= j < i ==> (#[trigger] s[j]).0 != k,
            idx < n ==> idx < i && s[idx as int].0 == k && forall|j: int|
                0 <= j < idx ==> (#[trigger] s[j]).0 != k,
        decreases n - i,
    {
        if idx == n && entries[i].0 == name {
            idx = i;
        }
        i = i + 1;
    }
    if idx < n {
        entries[idx] = (name, t);
        proof {
            lemma_upsert_found(s, k, vv, idx as int);
            lemma_entries_view_from(&*entries, 0);
            assert(entries_view(&*entries) =~= s.update(idx as int, (k, vv)));
        }
    } else {
        entries.push((name, t));
        proof {
            lemma_upsert_missing(s, k, vv);
            lemma_entries_view_from(&*entries, 0);
            assert(entries_view(&*entries) =~= s.push((k, vv)));
        }
    }
}

/// Provides functions for reading NBT data out of bytes, in a fixed byte
/// order.
pub struct NbtReader {
    /// The byte order every multi-byte read of this reader uses.
    pub endian: Endian,
}

impl NbtReader {
    /// A reader with the given byte order.
    pub fn new(endian: Endian) -> (r: NbtReader)
        ensures
            r.endian == endian,
    {
        NbtReader { endian }
    }

    /// Reads one byte.
    fn get_u8(&self, d: &[u8], pos: usize) -> (r: Result<(u8, usize), NbtError>)
        ensures
            lifted(r) == spec_read_u8(d@, pos as int),
    {
        if pos < d.len() {
            Ok((d[pos], pos + 1))
        } else {
            Err(NbtError::Truncated)
        }
    }

    /// Reads the unsigned value of `width` bytes in this reader's byte
    /// order.
    fn read_unsigned(&self, d: &[u8], pos: usize, width: usize) -> (r: Result<
        (u64, usize),
        NbtError,
    >)
        requires
            1 <= width <= 8,
        ensures
            match r {
                Ok((u, p)) => {
                    &&& pos + width <= d@.len()
                    &&& u as int == unsigned_at(d@, pos as int, width as int, self.endian)
                    &&& p == pos + width
                },
                Err(er) => pos + width > d@.len() && er == NbtError::Truncated,
            },
    {
        if pos >= d.len() || width > d.len() - pos {
            return Err(NbtError::Truncated);
        }
        proof {
            lemma_pow256_values();
        }
        match self.endian {
            Endian::Big => {
                let mut u: u64 = 0;
                let mut k: usize = 0;
                while k < width
                    invariant
                        self.endian == Endian::Big,
                        pos + width <= d@.len() <= usize::MAX,
                        k <= width <= 8,
                        u as int == unsigned_at(d@, pos as int, k as int, Endian::Big),
                        (u as int) < pow256(k as int),
                        pow256(8) == 0x1_0000_0000_0000_0000,
                    decreases width - k,
                {
                    proof {
                        lemma_pow256_mono(k as int + 1, 8);
                    }
                    u = u * 256 + (d[pos + k] as u64);
                    k = k + 1;
                }
                Ok((u, pos + width))
            },
            Endian::Little => {
                let mut u: u64 = 0;
                let mut k: usize = width;
                while k > 0
                    invariant
                        self.endian == Endian::Little,
                        pos + width <= d@.len() <= usize::MAX,
                        k <= width <= 8,
                        u as int == unsigned_at(
                            d@,
                            pos as int + k as int,
                            width as int - k as int,
                            Endian::Little,
                        ),
                        (u as int) < pow256(width as int - k as int),
                        pow256(8) == 0x1_0000_0000_0000_0000,
                    decreases k,
                {
                    proof {
                        lemma_pow256_mono(width as int - k as int + 1, 8);
                    }
                    k = k - 1;
                    u = u * 256 + (d[pos + k] as u64);
                }
                Ok((u, pos + width))
            },
        }
    }

    /// Reads a 16-bit signed integer.
    fn get_i16(&self, d: &[u8], pos: usize) -> (r: Result<(i16, usize), NbtError>)
        ensures
            lifted(r) == spec_read_i16(d@, pos as int, self.endian),
    {
        match self.read_unsigned(d, pos, 2) {
            Err(er) => Err(er),
            Ok((u, p)) => {
                proof {
                    lemma_unsigned_at_bound(d@, pos as int, 2, self.endian);
                    lemma_pow256_values();
                }
                let v: i16 = if u < 0x8000 {
                    u as i16
                } else {
                    ((u as i32) - 0x1_0000) as i16
                };
                Ok((v, p))
            },
        }
    }

    /// Reads a 32-bit signed integer.
    fn get_i32(&self, d: &[u8], pos: usize) -> (r: Result<(i32, usize), NbtError>)
        ensures
            lifted(r) == spec_read_i32(d@, pos as int, self.endian),
    {
        match self.read_unsigned(d, pos, 4) {
            Err(er) => Err(er),
            Ok((u, p)) => {
                proof {
                    lemma_unsigned_at_bound(d@, pos as int, 4, self.endian);
                    lemma_pow256_values();
                }
                let v: i32 = if u < 0x8000_0000 {
                    u as i32
                } else {
                    ((u as i64) - 0x1_0000_0000) as i32
                };
                Ok((v, p))
            },
        }
    }

    /// Reads a 64-bit signed integer.
    fn get_i64(&self, d: &[u8], pos: usize) -> (r: Result<(i64, usize), NbtError>)
        ensures
            lifted(r) == spec_read_i64(d@, pos as int, self.endian),
    {
        match self.read_unsigned(d, pos, 8) {
            Err(er) => Err(er),
            Ok((u, p)) => {
                proof {
                    lemma_unsigned_at_bound(d@, pos as int, 8, self.endian);
                    lemma_pow256_values();
                }
                let v: i64 = if u < 0x8000_0000_0000_0000 {
                    u as i64
                } else {
                    (u - 0x8000_0000_0000_0000) as i64 + i64::MIN
                };
                Ok((v, p))
            },
        }
    }

    /// Reads the 32 bits of an IEEE-754 binary32 value.
    fn get_u32(&self, d: &[u8], pos: usize) -> (r: Result<(u32, usize), NbtError>)
        ensures
            lifted(r) == spec_read_u32(d@, pos as int, self.endian),
    {
        match self.read_unsigned(d, pos, 4) {
            Err(er) => Err(er),
            Ok((u, p)) => {
                proof {
                    lemma_unsigned_at_bound(d@, pos as int, 4, self.endian);
                    lemma_pow256_values();
                }
                Ok((u as u32, p))
            },
        }
    }

    /// Reads the 64 bits of an IEEE-754 binary64 value.
    fn get_u64(&self, d: &[u8], pos: usize) -> (r: Result<(u64, usize), NbtError>)
        ensures
            lifted(r) == spec_read_u64(d@, pos as int, self.endian),
    {
        match self.read_unsigned(d, pos, 8) {
            Err(er) => Err(er),
            Ok((u, p)) => Ok((u, p)),
        }
    }

    /// Reads `len` bytes (nothing when `len` is zero or less) and appends
    /// them to `buf`.
    pub fn read_slice(&self, d: &[u8], pos: usize, buf: &mut Vec<u8>, len: i32) -> (r: Result<
        usize,
        NbtError,
    >)
        ensures
            match r {
                Ok(p) => if len <= 0 {
                    final(buf)@ == old(buf)@ && p == pos
                } else {
                    &&& pos + len <= d@.len()
                    &&& final(buf)@ == old(buf)@ + d@.subrange(pos as int, pos as int + len)
                    &&& p == pos + len
                },
                Err(er) => {
                    &&& er == NbtError::Truncated
                    &&& len > 0
                    &&& pos + len > d@.len()
                    &&& final(buf)@ == old(buf)@
                },
            },
    {
        if len <= 0 {
            return Ok(pos);
        }
        let n = len as usize;
        if pos > d.len() || n > d.len() - pos {
            return Err(NbtError::Truncated);
        }
        let mut k: usize = 0;
        while k < n
            invariant
                pos + n <= d@.len() <= usize::MAX,
                k <= n,
                buf@ == old(buf)@ + d@.subrange(pos as int, pos as int + k as int),
            decreases n - k,
        {
            buf.push(d[pos + k]);
            proof {
                assert(buf@ =~= old(buf)@ + d@.subrange(pos as int, pos as int + k as int + 1));
            }
            k = k + 1;
        }
        Ok(pos + n)
    }

    /// Reads a length-prefixed UTF-8 string: a 16-bit signed byte count,
    /// then that many bytes of text.
    pub fn read_utf8_string(&self, d: &[u8], pos: usize) -> (r: Result<(String, usize), NbtError>)
        ensures
            lifted_str(r) == spec_read_str(d@, pos as int, self.endian),
            r matches Ok((s, p)) ==> pos < p <= d@.len(),
    {
        match self.get_i16(d, pos) {
            Err(er) => Err(er),
            Ok((n, p1)) => {
                let mut buf: Vec<u8> = Vec::new();
                match self.read_slice(d, p1, &mut buf, n as i32) {
                    Err(_) => Err(NbtError::Truncated),
                    Ok(p2) => {
                        proof {
                            if n <= 0 {
                                assert(buf@ =~= Seq::<u8>::empty());
                                assert(decode_utf8(buf@) =~= Seq::<char>::empty());
                            }
                        }
                        match bytes_to_string(buf) {
                            Some(s) => Ok((s, p2)),
                            None => Err(NbtError::InvalidUtf8),
                        }
                    },
                }
            },
        }
    }

    /// Reads a Byte payload.
    pub fn read_byte(&self, d: &[u8], pos: usize) -> (r: Result<(NbtTag, usize), NbtError>)
        ensures
            modeled(r) == spec_payload(d@, pos as int, self.endian, TAG_BYTE),
            r matches Ok((t, p)) ==> pos < p <= d@.len(),
    {
        match self.get_u8(d, pos) {
            Err(er) => Err(er),
            Ok((b, p)) => Ok((NbtTag::Byte(b), p)),
        }
    }

    /// Reads a Short payload: 2 bytes, two's-complement, in this reader's
    /// byte order.
    pub fn read_short(&self, d: &[u8], pos: usize) -> (r: Result<(NbtTag, usize), NbtError>)
        ensures
            modeled(r) == spec_payload(d@, pos as int, self.endian, TAG_SHORT),
            r matches Ok((t, p)) ==> pos < p <= d@.len(),
    {
        match self.get_i16(d, pos) {
            Err(er) => Err(er),
            Ok((v, p)) => Ok((NbtTag::Short(v), p)),
        }
    }

    /// Reads an Int payload: 4 bytes, two's-complement, in this reader's
    /// byte order.
    pub fn read_int(&self, d: &[u8], pos: usize) -> (r: Result<(NbtTag, usize), NbtError>)
        ensures
            modeled(r) == spec_payload(d@, pos as int, self.endian, TAG_INT),
            r matches Ok((t, p)) ==> pos < p <= d@.len(),
    {
        match self.get_i32(d, pos) {
            Err(er) => Err(er),
            Ok((v, p)) => Ok((NbtTag::Int(v), p)),
        }
    }

    /// Reads a Long payload: 8 bytes, two's-complement, in this reader's
    /// byte order.
    pub fn read_long(&self, d: &[u8], pos: usize) -> (r: Result<(NbtTag, usize), NbtError>)
        ensures
            modeled(r) == spec_payload(d@, pos as int, self.endian, TAG_LONG),
            r matches Ok((t, p)) ==> pos < p <= d@.len(),
    {
        match self.get_i64(d, pos) {
            Err(er) => Err(er),
            Ok((v, p)) => Ok((NbtTag::Long(v), p)),
        }
    }

    /// Reads a Float payload: the 4 bytes of an IEEE-754 binary32 value,
    /// kept as its bit pattern.
    pub fn read_float(&self, d: &[u8], pos: usize) -> (r: Result<(NbtTag, usize), NbtError>)
        ensures
            modeled(r) == spec_payload(d@, pos as int, self.endian, TAG_FLOAT),
            r matches Ok((t, p)) ==> pos < p <= d@.len(),
    {
        match self.get_u32(d, pos) {
            Err(er) => Err(er),
            Ok((v, p)) => Ok((NbtTag::Float(v), p)),
        }
    }

    /// Reads a Double payload: the 8 bytes of an IEEE-754 binary64 value,
    /// kept as its bit pattern.
    pub fn read_double(&self, d: &[u8], pos: usize) -> (r: Result<(NbtTag, usize), NbtError>)
        ensures
            modeled(r) == spec_payload(d@, pos as int, self.endian, TAG_DOUBLE),
            r matches Ok((t, p)) ==> pos < p <= d@.len(),
    {
        match self.get_u64(d, pos) {
            Err(er) => Err(er),
            Ok((v, p)) => Ok((NbtTag::Double(v), p)),
        }
    }

    /// Reads a byte array payload: a 32-bit signed byte count, then that
    /// many bytes verbatim.
    pub fn read_byte_array(&self, d: &[u8], pos: usize) -> (r: Result<(NbtTag, usize), NbtError>)
        ensures
            modeled(r) == spec_byte_array(d@, pos as int, self.endian),
            r matches Ok((t, p)) ==> pos < p <= d@.len(),
    {
        match self.get_i32(d, pos) {
            Err(er) => Err(er),
            Ok((n, p1)) => {
                let mut buf: Vec<u8> = Vec::new();
                match self.read_slice(d, p1, &mut buf, n) {
                    Err(_) => Err(NbtError::Truncated),
                    Ok(p2) => {
                        proof {
                            if n <= 0 {
                                assert(buf@ =~= Seq::<u8>::empty());
                            } else {
                                assert(buf@ =~= d@.subrange(p1 as int, p1 as int + n));
                            }
                        }
                        Ok((NbtTag::ByteArray(buf), p2))
                    },
                }
            },
        }
    }

    /// Reads an integer array payload. The 32-bit signed prefix counts
    /// bytes; the element count is the prefix divided by four.
    pub fn read_int_array(&self, d: &[u8], pos: usize) -> (r: Result<(NbtTag, usize), NbtError>)
        ensures
            modeled(r) == spec_int_array(d@, pos as int, self.endian),
            r matches Ok((t, p)) ==> pos < p <= d@.len(),
    {
        match self.get_i32(d, pos) {
            Err(er) => Err(er),
            Ok((n, p1)) => {
                if n <= 0 {
                    return Ok((NbtTag::IntArray(Vec::new()), p1));
                }
                let m = n / 4;
                let mu = m as usize;
                let dl = d.len();
                if mu > 0 && (p1 >= dl || 4 * mu > dl - p1) {
                    return Err(NbtError::Truncated);
                }
                let mut elems: Vec<i32> = Vec::new();
                let mut cur = p1;
                let mut i: usize = 0;
                while i < mu
                    invariant
                        cur == p1 + 4 * i,
                        i <= mu,
                        p1 + 4 * mu <= d@.len() <= usize::MAX,
                        elems@.len() == i,
                        forall|j: int|
                            0 <= j < i ==> elems@[j] == signed32(
                                unsigned_at(d@, p1 + 4 * j, 4, self.endian),
                            ),
                    decreases mu - i,
                {
                    match self.get_i32(d, cur) {
                        Err(_) => {
                            proof {
                                assert(false);
                            }
                            return Err(NbtError::Truncated);
                        },
                        Ok((v, p)) => {
                            elems.push(v);
                            cur = p;
                            i = i + 1;
                        },
                    }
                }
                proof {
                    assert(spec_int_array(d@, pos as int, self.endian) matches Ok((st, pp))
                        && st matches SpecTag::IntArray(sq) && sq =~= elems@ && pp == cur as int);
                }
                Ok((NbtTag::IntArray(elems), cur))
            },
        }
    }

    /// Reads a long array payload. The 32-bit signed prefix counts bytes;
    /// the element count is the prefix divided by eight.
    pub fn read_long_array(&self, d: &[u8], pos: usize) -> (r: Result<(NbtTag, usize), NbtError>)
        ensures
            modeled(r) == spec_long_array(d@, pos as int, self.endian),
            r matches Ok((t, p)) ==> pos < p <= d@.len(),
    {
        match self.get_i32(d, pos) {
            Err(er) => Err(er),
            Ok((n, p1)) => {
                if n <= 0 {
                    return Ok((NbtTag::LongArray(Vec::new()), p1));
                }
                let m = n / 8;
                let mu = m as usize;
                let dl = d.len();
                if mu > 0 && (p1 >= dl || 8 * mu > dl - p1) {
                    return Err(NbtError::Truncated);
                }
                let mut elems: Vec<i64> = Vec::new();
                let mut cur = p1;
                let mut i: usize = 0;
                while i < mu
                    invariant
                        cur == p1 + 8 * i,
                        i <= mu,
                        p1 + 8 * mu <= d@.len() <= usize::MAX,
                        elems@.len() == i,
                        forall|j: int|
                            0 <= j < i ==> elems@[j] == signed64(
                                unsigned_at(d@, p1 + 8 * j, 8, self.endian),
                            ),
                    decreases mu - i,
                {
                    match self.get_i64(d, cur) {
                        Err(_) => {
                            proof {
                                assert(false);
                            }
                            return Err(NbtError::Truncated);
                        },
                        Ok((v, p)) => {
                            elems.push(v);
                            cur = p;
                            i = i + 1;
                        },
                    }
                }
                proof {
                    assert(spec_long_array(d@, pos as int, self.endian) matches Ok((st, pp))
                        && st matches SpecTag::LongArray(sq) && sq =~= elems@ && pp == cur as int);
                }
                Ok((NbtTag::LongArray(elems), cur))
            },
        }
    }

    /// Reads a list payload: one type byte declaring the homogeneous
    /// element kind, a 32-bit signed element count, then that many payloads
    /// of the declared kind.
    #[verifier::loop_isolation(false)]
    pub fn read_list(&self, d: &[u8], pos: usize) -> (r: Result<(NbtTag, usize), NbtError>)
        ensures
            modeled(r) == spec_list(d@, pos as int, self.endian),
            r matches Ok((t, p)) ==> pos < p <= d@.len(),
        decreases d@.len() - pos, 0int,
    {
        match self.get_u8(d, pos) {
            Err(er) => Err(er),
            Ok((id, p1)) => match self.get_i32(d, p1) {
                Err(er) => Err(er),
                Ok((n, p2)) => {
                    if n <= 0 {
                        return Ok((NbtTag::List(Vec::new()), p2));
                    }
                    if id == TAG_END || id > TAG_LONG_ARRAY {
                        return Err(NbtError::InvalidTag);
                    }
                    let count = n as usize;
                    let mut elems: Vec<NbtTag> = Vec::new();
                    let mut cur = p2;
                    let mut i: usize = 0;
                    proof {
                        lemma_tags_view_from(&elems, 0);
                        assert(tags_view(&elems) =~= Seq::empty());
                    }
                    while i < count
                        invariant
                            1 <= id <= 12,
                            i <= count,
                            count == n as int,
                            pos < p2 <= cur <= d@.len(),
                            spec_list_elems(
                                d@,
                                p2 as int,
                                self.endian,
                                id,
                                n as int,
                                Seq::empty(),
                            ) == spec_list_elems(
                                d@,
                                cur as int,
                                self.endian,
                                id,
                                n as int - i as int,
                                tags_view(&elems),
                            ),
                        decreases count - i,
                    {
                        match self.read_payload(d, cur, id) {
                            Err(er) => {
                                proof {
                                    assert(spec_payload(d@, cur as int, self.endian, id) == Err::<
                                        (SpecTag, int),
                                        NbtError,
                                    >(er));
                                    assert(spec_list_elems(
                                        d@,
                                        cur as int,
                                        self.endian,
                                        id,
                                        n as int - i as int,
                                        tags_view(&elems),
                                    ) == Err::<(Seq<SpecTag>, int), NbtError>(er));
                                    assert(spec_list_elems(
                                        d@,
                                        p2 as int,
                                        self.endian,
                                        id,
                                        n as int,
                                        Seq::empty(),
                                    ) == Err::<(Seq<SpecTag>, int), NbtError>(er));
                                    assert(spec_list(d@, pos as int, self.endian) == Err::<
                                        (SpecTag, int),
                                        NbtError,
                                    >(er));
                                }
                                return Err(er);
                            },
                            Ok((t, p3)) => {
                                let ghost old_tv = tags_view(&elems);
                                let ghost tm = t.deep_view();
                                proof {
                                    lemma_tags_view_from(&elems, 0);
                                }
                                proof {
                                    assert(spec_list_elems(
                                        d@,
                                        cur as int,
                                        self.endian,
                                        id,
                                        n as int - i as int,
                                        old_tv,
                                    ) == spec_list_elems(
                                        d@,
                                        p3 as int,
                                        self.endian,
                                        id,
                                        n as int - i as int - 1,
                                        old_tv.push(tm),
                                    ));
                                }
                                elems.push(t);
                                proof {
                                    lemma_tags_view_from(&elems, 0);
                                    assert(tags_view(&elems) =~= old_tv.push(tm));
                                }
                                cur = p3;
                                i = i + 1;
                            },
                        }
                    }
                    proof {
                        assert(spec_list(d@, pos as int, self.endian) matches Ok((st, pp))
                            && st == SpecTag::List(tags_view(&elems)) && pp == cur as int);
                    }
                    Ok((NbtTag::List(elems), cur))
                },
            },
        }
    }

    /// Reads a compound's entries: repeatedly one type byte (End stops), a
    /// name, and a payload of the named kind, with a name written twice
    /// overwriting its earlier value.
    fn read_compound_entries(&self, d: &[u8], pos: usize) -> (r: Result<
        (Vec<(String, NbtTag)>, usize),
        NbtError,
    >)
        ensures
            match r {
                Ok((en, p)) => {
                    &&& spec_compound_entries(d@, pos as int, self.endian, Seq::empty())
                        == Ok::<_, NbtError>((entries_view(&en), p as int))
                    &&& pos < p <= d@.len()
                },
                Err(er) => spec_compound_entries(d@, pos as int, self.endian, Seq::empty())
                    == Err::<(Seq<(Seq<char>, SpecTag)>, int), NbtError>(er),
            },
        decreases d@.len() - pos, 0int,
    {
        let mut entries: Vec<(String, NbtTag)> = Vec::new();
        let mut cur = pos;
        loop
            invariant
                pos <= cur,
                cur <= d@.len() || cur == pos,
                spec_compound_entries(d@, pos as int, self.endian, Seq::empty())
                    == spec_compound_entries(d@, cur as int, self.endian, entries_view(&entries)),
            decreases d@.len() - cur,
        {
            match self.get_u8(d, cur) {
                Err(_) => {
                    return Err(NbtError::UnterminatedCompound);
                },
                Ok((id, p1)) => {
                    if id == TAG_END {
                        return Ok((entries, p1));
                    }
                    if id > TAG_LONG_ARRAY {
                        return Err(NbtError::InvalidTag);
                    }
                    match self.read_utf8_string(d, p1) {
                        Err(er) => {
                            return Err(er);
                        },
                        Ok((name, p2)) => {
                            match self.read_payload(d, p2, id) {
                                Err(er) => {
                                    return Err(er);
                                },
                                Ok((t, p3)) => {
                                    let ghost oldv = entries_view(&entries);
                                    let ghost nm = name@;
                                    let ghost tm = t.deep_view();
                                    insert_entry(&mut entries, name, t);
                                    proof {
                                        assert(entries_view(&entries) == upsert(oldv, nm, tm));
                                    }
                                    cur = p3;
                                },
                            }
                        },
                    }
                },
            }
        }
    }

    /// Reads the payload of a tag of kind `id`: the value itself, with the
    /// type byte and (for compound entries) the name already consumed.
    pub fn read_payload(&self, d: &[u8], pos: usize, id: u8) -> (r: Result<
        (NbtTag, usize),
        NbtError,
    >)
        ensures
            modeled(r) == spec_payload(d@, pos as int, self.endian, id),
            r matches Ok((t, p)) ==> pos < p <= d@.len(),
        decreases d@.len() - pos, 1int,
    {
        if id == TAG_BYTE {
            self.read_byte(d, pos)
        } else if id == TAG_SHORT {
            self.read_short(d, pos)
        } else if id == TAG_INT {
            self.read_int(d, pos)
        } else if id == TAG_LONG {
            self.read_long(d, pos)
        } else if id == TAG_FLOAT {
            self.read_float(d, pos)
        } else if id == TAG_DOUBLE {
            self.read_double(d, pos)
        } else if id == TAG_BYTE_ARRAY {
            self.read_byte_array(d, pos)
        } else if id == TAG_STRING {
            match self.read_utf8_string(d, pos) {
                Err(er) => Err(er),
                Ok((sv, p)) => Ok((NbtTag::String(sv), p)),
            }
        } else if id == TAG_LIST {
            self.read_list(d, pos)
        } else if id == TAG_COMPOUND {
            match self.read_compound_entries(d, pos) {
                Err(er) => Err(er),
                Ok((en, p)) => Ok((NbtTag::Compound(en), p)),
            }
        } else if id == TAG_INT_ARRAY {
            self.read_int_array(d, pos)
        } else if id == TAG_LONG_ARRAY {
            self.read_long_array(d, pos)
        } else {
            Err(NbtError::InvalidTag)
        }
    }

    /// Reads one tag of any kind: a type byte, then the payload it
    /// announces.
    pub fn read(&self, d: &[u8], pos: usize) -> (r: Result<(NbtTag, usize), NbtError>)
        ensures
            modeled(r) == spec_read_any(d@, pos as int, self.endian),
            r matches Ok((t, p)) ==> pos < p <= d@.len(),
    {
        match self.get_u8(d, pos) {
            Err(er) => Err(er),
            Ok((id, p1)) => self.read_payload(d, p1, id),
        }
    }

    /// Reads a named compound: its name, then its entries. The name
    /// belongs to the enclosing context, so this is the shape of the root.
    pub fn read_compound_tag(&self, d: &[u8], pos: usize) -> (r: Result<
        ((String, NbtTag), usize),
        NbtError,
    >)
        ensures
            match r {
                Ok(((name, t), p)) => {
                    &&& spec_named_compound(d@, pos as int, self.endian) == Ok::<_, NbtError>(
                        ((name@, t.deep_view()), p as int),
                    )
                    &&& pos < p <= d@.len()
                },
                Err(er) => spec_named_compound(d@, pos as int, self.endian) == Err::<
                    ((Seq<char>, SpecTag), int),
                    NbtError,
                >(er),
            },
    {
        match self.read_utf8_string(d, pos) {
            Err(er) => Err(er),
            Ok((name, p1)) => match self.read_compound_entries(d, p1) {
                Err(er) => Err(er),
                Ok((en, p2)) => Ok(((name, NbtTag::Compound(en)), p2)),
            },
        }
    }

    /// Decodes a whole document and keeps the root's name: one type byte,
    /// which must be Compound, then the root compound's name and entries.
    pub fn decode_root_named(&self, d: &[u8]) -> (r: Result<(String, NbtTag), NbtError>)
        ensures
            match r {
                Ok((name, t)) => spec_root(d@, 0, self.endian) matches Ok(x) && x.0 == (
                    name@,
                    t.deep_view(),
                ),
                Err(er) => spec_root(d@, 0, self.endian) == Err::<
                    ((Seq<char>, SpecTag), int),
                    NbtError,
                >(er),
            },
    {
        match self.get_u8(d, 0) {
            Err(er) => Err(er),
            Ok((id, p1)) => {
                if id != TAG_COMPOUND {
                    Err(NbtError::InvalidRoot)
                } else {
                    match self.read_compound_tag(d, p1) {
                        Err(er) => Err(er),
                        Ok((pair, _)) => Ok(pair),
                    }
                }
            },
        }
    }

    /// Decodes a whole document: one type byte, which must be Compound,
    /// then the root compound's name and entries. The root's name is
    /// consumed and dropped, as every decoded value of the tree is reached
    /// by name from its parent and the root has no parent.
    pub fn decode_root(&self, d: &[u8]) -> (r: Result<NbtTag, NbtError>)
        ensures
            match r {
                Ok(t) => spec_root(d@, 0, self.endian) matches Ok(x) && x.0.1 == t.deep_view(),
                Err(er) => spec_root(d@, 0, self.endian) == Err::<
                    ((Seq<char>, SpecTag), int),
                    NbtError,
                >(er),
            },
    {
        match self.decode_root_named(d) {
            Err(er) => Err(er),
            Ok((_, t)) => Ok(t),
        }
    }
}

} // verus!
