//! A builder that assembles compound trees programmatically.

use vstd::prelude::*;
use crate::tag::{NbtTag, entries_view};
use crate::wire::{SpecTag, upsert};
use crate::reader::insert_entry;

verus! {

/// Builder for NBT tags: collects named values and turns them into a
/// Compound. A value added under a name already taken replaces the earlier
/// one, as it would in the decoded mapping.
pub struct NbtBuilder {
    values: Vec<(String, NbtTag)>,
    root_tag_name: String,
}

impl View for NbtBuilder {
    type V = (Seq<char>, Seq<(Seq<char>, SpecTag)>);

    closed spec fn view(&self) -> (Seq<char>, Seq<(Seq<char>, SpecTag)>) {
        (self.root_tag_name@, entries_view(&self.values))
    }
}

impl NbtBuilder {
    /// Creates a new instance of NbtBuilder. The root tag name will be
    /// empty.
    pub fn new() -> (r: NbtBuilder)
        ensures
            r@ == (Seq::<char>::empty(), Seq::<(Seq<char>, SpecTag)>::empty()),
    {
        let r = NbtBuilder { values: Vec::new(), root_tag_name: String::new() };
        proof {
            crate::tag::lemma_entries_view_from(&r.values, 0);
            assert(entries_view(&r.values) =~= Seq::<(Seq<char>, SpecTag)>::empty());
        }
        r
    }

    /// Creates a new instance of NbtBuilder with the given root tag name.
    pub fn with_root_tag(root_tag_name: String) -> (r: NbtBuilder)
        ensures
            r@.0 == root_tag_name@,
            r@.1 == Seq::<(Seq<char>, SpecTag)>::empty(),
    {
        let r = NbtBuilder { values: Vec::new(), root_tag_name };
        proof {
            crate::tag::lemma_entries_view_from(&r.values, 0);
            assert(entries_view(&r.values) =~= Seq::<(Seq<char>, SpecTag)>::empty());
        }
        r
    }

    /// Adds an i32 to the compound, replacing any earlier value under the
    /// same key.
    pub fn add_i32(self, key: &str, val: i32) -> (r: NbtBuilder)
        ensures
            r@.0 == self@.0,
            r@.1 == upsert(self@.1, key@, SpecTag::Int(val)),
    {
        let mut values = self.values;
        insert_entry(&mut values, key.to_owned(), NbtTag::Int(val));
        NbtBuilder { values, root_tag_name: self.root_tag_name }
    }

    /// Wraps everything added so far into a Compound tag.
    pub fn build(self) -> (r: NbtTag)
        ensures
            r.deep_view() == SpecTag::Compound(self@.1),
    {
        NbtTag::Compound(self.values)
    }
}

} // verus!
