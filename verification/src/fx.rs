//! Hash tables keyed by titles.
use rustc_hash::{FxBuildHasher, FxHashMap, FxHashSet};
use vstd::prelude::*;

verus! {

#[verifier::external_type_specification]
#[verifier::external_body]
pub struct ExFxBuildHasher(FxBuildHasher);

/// What a set of names holds.
pub uninterp spec fn names_in(s: FxHashSet<String>) -> Set<Seq<char>>;

/// What a table of titles holds.
pub uninterp spec fn titles_in(m: FxHashMap<Box<str>, u32>) -> Map<Seq<char>, u32>;

/// The table that leads nowhere.
pub open spec fn nothing() -> Map<Seq<char>, u32> {
    Map::empty()
}

/// An empty set: `FxHashSet::default`.
#[verifier::external_body]
pub(crate) fn no_names() -> (r: FxHashSet<String>)
    ensures
        names_in(r) == Set::<Seq<char>>::empty(),
{
    FxHashSet::default()
}

/// `HashSet::insert`: the name is in the set afterwards, and nothing else
/// changes.
#[verifier::external_body]
pub(crate) fn add_name(s: &mut FxHashSet<String>, name: String)
    ensures
        names_in(*final(s)) == names_in(*old(s)).insert(name@),
{
    s.insert(name);
}

/// `HashSet::contains`.
#[verifier::external_body]
pub(crate) fn has_name(s: &FxHashSet<String>, name: &str) -> (r: bool)
    ensures
        r == names_in(*s).contains(name@),
{
    s.contains(name)
}

/// An empty table: `FxHashMap::default`.
#[verifier::external_body]
pub(crate) fn no_titles() -> (r: FxHashMap<Box<str>, u32>)
    ensures
        titles_in(r) == nothing(),
{
    FxHashMap::default()
}

/// `HashMap::insert`: the title leads to `id` afterwards, whatever it led to
/// before, and nothing else changes.
#[verifier::external_body]
pub(crate) fn put_title(m: &mut FxHashMap<Box<str>, u32>, title: String, id: u32)
    ensures
        titles_in(*final(m)) == titles_in(*old(m)).insert(title@, id),
{
    m.insert(title.into_boxed_str(), id);
}

/// `HashMap::get`.
#[verifier::external_body]
pub(crate) fn get_title(m: &FxHashMap<Box<str>, u32>, title: &str) -> (r: Option<u32>)
    ensures
        r == (if titles_in(*m).contains_key(title@) {
            Some(titles_in(*m)[title@])
        } else {
            None
        }),
{
    m.get(title).copied()
}

} // verus!
