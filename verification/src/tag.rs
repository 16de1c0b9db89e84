//! The decoded tag tree and its typed accessors.

use vstd::prelude::*;
use crate::wire::{SpecTag, lookup, lemma_lookup_skip};

verus! {

broadcast use vstd::std_specs::vec::axiom_vec_index_decreases;

/// Represents an NBT tag: a closed union of the twelve value kinds of the
/// format, each carrying its native payload. Floating-point payloads are
/// held as their IEEE-754 bit patterns (binary32 in a `u32`, binary64 in a
/// `u64`); `f32::from_bits` / `f64::from_bits` recover the numeric value
/// outside the library. A compound is a sequence of (name, value) pairs
/// with unique names, in insertion order.
#[derive(Debug, PartialEq)]
pub enum NbtTag {
    Byte(u8),
    Short(i16),
    Int(i32),
    Long(i64),
    Float(u32),
    Double(u64),
    String(String),
    ByteArray(Vec<u8>),
    List(Vec<NbtTag>),
    Compound(Vec<(String, NbtTag)>),
    IntArray(Vec<i32>),
    LongArray(Vec<i64>),
}

impl DeepView for NbtTag {
    type V = SpecTag;

    open spec fn deep_view(&self) -> SpecTag
        decreases self,
    {
        match *self {
            NbtTag::Byte(v) => SpecTag::Byte(v),
            NbtTag::Short(v) => SpecTag::Short(v),
            NbtTag::Int(v) => SpecTag::Int(v),
            NbtTag::Long(v) => SpecTag::Long(v),
            NbtTag::Float(v) => SpecTag::Float(v),
            NbtTag::Double(v) => SpecTag::Double(v),
            NbtTag::String(v) => SpecTag::String(v@),
            NbtTag::ByteArray(v) => SpecTag::ByteArray(v@),
            NbtTag::List(v) => SpecTag::List(tags_view_from(&v, 0)),
            NbtTag::Compound(v) => SpecTag::Compound(entries_view_from(&v, 0)),
            NbtTag::IntArray(v) => SpecTag::IntArray(v@),
            NbtTag::LongArray(v) => SpecTag::LongArray(v@),
        }
    }
}

/// The models of the elements of `v` from index `i` on, in order.
pub open spec fn tags_view_from(v: &Vec<NbtTag>, i: int) -> Seq<SpecTag>
    decreases v, v.len() - i,
{
    if i < 0 || i >= v.len() {
        Seq::empty()
    } else {
        seq![v[i].deep_view()] + tags_view_from(v, i + 1)
    }
}

/// The models of the (name, value) pairs of `v` from index `i` on, in
/// order.
pub open spec fn entries_view_from(v: &Vec<(String, NbtTag)>, i: int) -> Seq<(Seq<char>, SpecTag)>
    decreases v, v.len() - i,
{
    if i < 0 || i >= v.len() {
        Seq::empty()
    } else {
        seq![(v[i].0@, v[i].1.deep_view())] + entries_view_from(v, i + 1)
    }
}

/// The model of a vector of tags: its elements' models, in order.
pub open spec fn tags_view(v: &Vec<NbtTag>) -> Seq<SpecTag> {
    tags_view_from(v, 0)
}

/// The model of a vector of compound entries: its pairs' models, in order.
pub open spec fn entries_view(v: &Vec<(String, NbtTag)>) -> Seq<(Seq<char>, SpecTag)> {
    entries_view_from(v, 0)
}

pub proof fn lemma_tags_view_from(v: &Vec<NbtTag>, i: int)
    requires
        0 <= i <= v.len(),
    ensures
        tags_view_from(v, i).len() == v.len() - i,
        forall|j: int|
            0 <= j < v.len() - i ==> #[trigger] tags_view_from(v, i)[j] == v[i + j].deep_view(),
    decreases v.len() - i,
{
    if i < v.len() {
        lemma_tags_view_from(v, i + 1);
        assert(tags_view_from(v, i) == seq![v[i as int].deep_view()] + tags_view_from(v, i + 1));
    } else {
        assert(tags_view_from(v, i) =~= Seq::empty());
    }
}

pub proof fn lemma_entries_view_from(v: &Vec<(String, NbtTag)>, i: int)
    requires
        0 <= i <= v.len(),
    ensures
        entries_view_from(v, i).len() == v.len() - i,
        forall|j: int|
            0 <= j < v.len() - i ==> #[trigger] entries_view_from(v, i)[j] == (
                v[i + j].0@,
                v[i + j].1.deep_view(),
            ),
    decreases v.len() - i,
{
    if i < v.len() {
        lemma_entries_view_from(v, i + 1);
        assert(entries_view_from(v, i) == seq![(v[i as int].0@, v[i as int].1.deep_view())]
            + entries_view_from(v, i + 1));
    } else {
        assert(entries_view_from(v, i) =~= Seq::empty());
    }
}

impl NbtTag {
    /// The payload if this tag is a Byte, and nothing otherwise.
    pub fn as_byte(&self) -> (r: Option<&u8>)
        ensures
            match self.deep_view() {
                SpecTag::Byte(v) => r matches Some(x) && *x == v,
                _ => r is None,
            },
    {
        match *self {
            NbtTag::Byte(ref val) => Some(val),
            _ => None,
        }
    }

    /// The payload if this tag is a Short, and nothing otherwise.
    pub fn as_short(&self) -> (r: Option<&i16>)
        ensures
            match self.deep_view() {
                SpecTag::Short(v) => r matches Some(x) && *x == v,
                _ => r is None,
            },
    {
        match *self {
            NbtTag::Short(ref val) => Some(val),
            _ => None,
        }
    }

    /// The payload if this tag is an Int, and nothing otherwise.
    pub fn as_int(&self) -> (r: Option<&i32>)
        ensures
            match self.deep_view() {
                SpecTag::Int(v) => r matches Some(x) && *x == v,
                _ => r is None,
            },
    {
        match *self {
            NbtTag::Int(ref val) => Some(val),
            _ => None,
        }
    }

    /// The payload if this tag is a Long, and nothing otherwise.
    pub fn as_long(&self) -> (r: Option<&i64>)
        ensures
            match self.deep_view() {
                SpecTag::Long(v) => r matches Some(x) && *x == v,
                _ => r is None,
            },
    {
        match *self {
            NbtTag::Long(ref val) => Some(val),
            _ => None,
        }
    }

    /// The IEEE-754 binary32 bits if this tag is a Float, and nothing
    /// otherwise.
    pub fn as_float(&self) -> (r: Option<&u32>)
        ensures
            match self.deep_view() {
                SpecTag::Float(v) => r matches Some(x) && *x == v,
                _ => r is None,
            },
    {
        match *self {
            NbtTag::Float(ref val) => Some(val),
            _ => None,
        }
    }

    /// The IEEE-754 binary64 bits if this tag is a Double, and nothing
    /// otherwise.
    pub fn as_double(&self) -> (r: Option<&u64>)
        ensures
            match self.deep_view() {
                SpecTag::Double(v) => r matches Some(x) && *x == v,
                _ => r is None,
            },
    {
        match *self {
            NbtTag::Double(ref val) => Some(val),
            _ => None,
        }
    }

    /// The text if this tag is a String, and nothing otherwise.
    pub fn as_string(&self) -> (r: Option<&String>)
        ensures
            match self.deep_view() {
                SpecTag::String(v) => r matches Some(x) && x@ == v,
                _ => r is None,
            },
    {
        match *self {
            NbtTag::String(ref val) => Some(val),
            _ => None,
        }
    }

    /// The bytes if this tag is a ByteArray, and nothing otherwise.
    pub fn as_byte_arr(&self) -> (r: Option<&Vec<u8>>)
        ensures
            match self.deep_view() {
                SpecTag::ByteArray(v) => r matches Some(x) && x@ == v,
                _ => r is None,
            },
    {
        match *self {
            NbtTag::ByteArray(ref val) => Some(val),
            _ => None,
        }
    }

    /// The elements if this tag is a List, and nothing otherwise.
    pub fn as_list(&self) -> (r: Option<&Vec<NbtTag>>)
        ensures
            match self.deep_view() {
                SpecTag::List(v) => r matches Some(x) && tags_view(x) == v,
                _ => r is None,
            },
    {
        match *self {
            NbtTag::List(ref val) => Some(val),
            _ => None,
        }
    }

    /// The (name, value) entries if this tag is a Compound, and nothing
    /// otherwise.
    pub fn as_compound(&self) -> (r: Option<&Vec<(String, NbtTag)>>)
        ensures
            match self.deep_view() {
                SpecTag::Compound(v) => r matches Some(x) && entries_view(x) == v,
                _ => r is None,
            },
    {
        match *self {
            NbtTag::Compound(ref val) => Some(val),
            _ => None,
        }
    }

    /// The value under `name` if this tag is a Compound holding that name,
    /// and nothing otherwise. A compound's names are unique, so at most one
    /// entry can match.
    #[verifier::loop_isolation(false)]
    pub fn get<'a>(&'a self, name: &String) -> (r: Option<&'a NbtTag>)
        ensures
            match self.deep_view() {
                SpecTag::Compound(en) => match r {
                    Some(t) => lookup(en, name@) == Some(t.deep_view()),
                    None => lookup(en, name@) is None,
                },
                _ => r is None,
            },
    {
        match *self {
            NbtTag::Compound(ref v) => {
                let ghost en = entries_view_from(v, 0);
                proof {
                    lemma_entries_view_from(v, 0);
                }
                let n = v.len();
                let mut i: usize = 0;
                while i < n
                    invariant
                        n == v.len(),
                        en == entries_view_from(v, 0),
                        en.len() == n,
                        i <= n,
                        forall|j: int| 0 <= j < i ==> (#[trigger] en[j]).0 != name@,
                    decreases n - i,
                {
                    if v[i].0 == *name {
                        proof {
                            lemma_lookup_skip(en, name@, i as int);
                            assert(en.skip(i as int)[0] == en[i as int]);
                            assert(en.skip(i as int).drop_first() =~= en.skip(i as int + 1));
                        }
                        return Some(&v[i].1);
                    }
                    i = i + 1;
                }
                proof {
                    lemma_lookup_skip(en, name@, n as int);
                    assert(en.skip(n as int) =~= Seq::empty());
                }
                None
            },
            _ => None,
        }
    }

    /// The elements if this tag is an IntArray, and nothing otherwise.
    pub fn as_int_arr(&self) -> (r: Option<&Vec<i32>>)
        ensures
            match self.deep_view() {
                SpecTag::IntArray(v) => r matches Some(x) && x@ == v,
                _ => r is None,
            },
    {
        match *self {
            NbtTag::IntArray(ref val) => Some(val),
            _ => None,
        }
    }

    /// The elements if this tag is a LongArray, and nothing otherwise.
    pub fn as_long_arr(&self) -> (r: Option<&Vec<i64>>)
        ensures
            match self.deep_view() {
                SpecTag::LongArray(v) => r matches Some(x) && x@ == v,
                _ => r is None,
            },
    {
        match *self {
            NbtTag::LongArray(ref val) => Some(val),
            _ => None,
        }
    }
}

} // verus!
