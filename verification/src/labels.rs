//! Names that were given to regions beforehand.

use crate::text::{chars_of, parse_i64, spelled};
use std::collections::HashMap;
use vstd::prelude::*;

verus! {

/// What a JSON text holds that is an object of texts by name.
pub uninterp spec fn labels_in(text: Seq<char>) -> Option<Map<Seq<char>, Seq<char>>>;

/// Every pair is in the map, every key of the map has a pair, and no key has
/// two.
pub open spec fn lists_all(pairs: Seq<(String, String)>, m: Map<Seq<char>, Seq<char>>) -> bool {
    &&& forall|i: int|
        0 <= i < pairs.len() ==> m.contains_key((#[trigger] pairs[i]).0@) && m[pairs[i].0@]
            == pairs[i].1@
    &&& forall|k: Seq<char>| #[trigger]
        m.contains_key(k) ==> exists|i: int| 0 <= i < pairs.len() && (#[trigger] pairs[i]).0@ == k
    &&& forall|i: int, j: int|
        0 <= i < j < pairs.len() ==> (#[trigger] pairs[i]).0@ != (#[trigger] pairs[j]).0@
}

/// `serde_json::from_str` into a `HashMap` of texts: the object that a text
/// holds, or nothing where it holds no such object. The pairs come in any
/// order.
#[verifier::external_body]
fn read_labels(text: &str) -> (r: Option<Vec<(String, String)>>)
    ensures
        r is None <==> labels_in(text@) is None,
        r matches Some(pairs) ==> labels_in(text@) matches Some(m) && lists_all(pairs@, m),
{
    match serde_json::from_str::<HashMap<String, String>>(text) {
        Ok(labels) => Some(labels.into_iter().collect()),
        Err(_) => None,
    }
}

/// A label's name spells the number of a region.
pub open spec fn names_region(k: Seq<char>, c: i32) -> bool {
    spelled(k, 10, true) == Some(c as int)
}

/// The number of a region that a label's name spells.
pub fn region_number(k: &str) -> (r: Option<i32>)
    ensures
        match r {
            Some(c) => names_region(k@, c),
            None => forall|c: i32| !#[trigger] names_region(k@, c),
        },
{
    let chars = chars_of(k);
    match parse_i64(chars.as_slice()) {
        Some(n) => if n >= i32::MIN as i64 && n <= i32::MAX as i64 {
            Some(n as i32)
        } else {
            None
        },
        None => None,
    }
}

/// `names` are those that the labels of `m` give: every name is that of a label
/// whose key spells its region, and every region that a key spells has one.
pub open spec fn are_given(names: Map<i32, String>, m: Map<Seq<char>, Seq<char>>) -> bool {
    &&& forall|c: i32| #[trigger]
        names.contains_key(c) ==> exists|k: Seq<char>| #[trigger]
            m.contains_key(k) && names_region(k, c) && m[k] == names[c]@
    &&& forall|k: Seq<char>, c: i32|
        m.contains_key(k) && #[trigger] names_region(k, c) ==> names.contains_key(c)
}

/// What labels call a region: the last of those whose key spells its number.
pub open spec fn last_named(labels: Seq<(String, String)>, c: i32) -> Option<Seq<char>>
    decreases labels.len(),
{
    if labels.len() == 0 {
        None
    } else if names_region(labels.last().0@, c) {
        Some(labels.last().1@)
    } else {
        last_named(labels.drop_last(), c)
    }
}

/// A table calls a region what the labels call it.
pub open spec fn called_so(names: Map<i32, String>, labels: Seq<(String, String)>, c: i32) -> bool {
    match last_named(labels, c) {
        Some(name) => names.contains_key(c) && names[c]@ == name,
        None => !names.contains_key(c),
    }
}

/// The names of regions among labels. Those of anything else are passed over.
pub fn names_among(labels: &Vec<(String, String)>) -> (r: HashMap<i32, String>)
    ensures
        forall|c: i32| #[trigger] called_so(r@, labels@, c),
{
    broadcast use vstd::std_specs::hash::group_hash_axioms;

    let n: usize = labels.len();
    let mut names: HashMap<i32, String> = HashMap::new();
    let mut i: usize = 0;
    assert(labels@.take(0) =~= Seq::<(String, String)>::empty());
    while i < n
        invariant
            n == labels@.len(),
            i <= n,
            forall|c: i32| #[trigger] called_so(names@, labels@.take(i as int), c),
        decreases n - i,
    {
        let ghost before = names@;
        assert(labels@.take(i + 1).drop_last() =~= labels@.take(i as int));
        assert(labels@.take(i + 1).last() == labels@[i as int]);
        if let Some(c) = region_number(labels[i].0.as_str()) {
            names.insert(c, labels[i].1.as_str().to_owned());
        }
        proof {
            assert forall|x: i32| #[trigger] called_so(names@, labels@.take(i + 1), x) by {
                assert(called_so(before, labels@.take(i as int), x));
            }
        }
        i = i + 1;
    }
    assert(labels@.take(n as int) =~= labels@);
    names
}

proof fn lemma_last_named(labels: Seq<(String, String)>, c: i32)
    ensures
        last_named(labels, c) matches Some(name) ==> exists|i: int|
            0 <= i < labels.len() && names_region((#[trigger] labels[i]).0@, c) && labels[i].1@
                == name,
        last_named(labels, c) is None ==> forall|i: int|
            0 <= i < labels.len() ==> !names_region((#[trigger] labels[i]).0@, c),
    decreases labels.len(),
{
    if labels.len() > 0 && !names_region(labels.last().0@, c) {
        let rest = labels.drop_last();
        lemma_last_named(rest, c);
        if last_named(rest, c) is Some {
            let i = choose|i: int|
                0 <= i < rest.len() && names_region((#[trigger] rest[i]).0@, c) && rest[i].1@
                    == last_named(rest, c)->0;
            assert(labels[i] == rest[i]);
        } else {
            assert forall|i: int| 0 <= i < labels.len() implies !names_region(
                (#[trigger] labels[i]).0@,
                c,
            ) by {
                if i < rest.len() {
                    assert(labels[i] == rest[i]);
                }
            }
        }
    } else if labels.len() > 0 {
        assert(labels[labels.len() - 1] == labels.last());
    }
}

/// The names that a text of labels gives to regions. A text that is none gives
/// none, and of two labels for one region either may stay.
pub fn given_names(text: &str) -> (r: HashMap<i32, String>)
    ensures
        match labels_in(text@) {
            Some(m) => are_given(r@, m),
            None => r@ == Map::<i32, String>::empty(),
        },
{
    broadcast use vstd::std_specs::hash::group_hash_axioms;

    match read_labels(text) {
        Some(labels) => {
            let names = names_among(&labels);
            proof {
                let m = labels_in(text@)->0;
                assert forall|c: i32| #[trigger] names@.contains_key(c) implies exists|
                    k: Seq<char>,
                | #[trigger]
                    m.contains_key(k) && names_region(k, c) && m[k] == names@[c]@ by {
                    lemma_last_named(labels@, c);
                    assert(called_so(names@, labels@, c));
                    let i = choose|i: int|
                        0 <= i < labels@.len() && names_region((#[trigger] labels@[i]).0@, c)
                            && labels@[i].1@ == last_named(labels@, c)->0;
                    assert(m.contains_key(labels@[i].0@));
                }
                assert forall|k: Seq<char>, c: i32|
                    m.contains_key(k) && #[trigger] names_region(k, c) implies names@.contains_key(
                    c,
                ) by {
                    lemma_last_named(labels@, c);
                    assert(called_so(names@, labels@, c));
                    let i = choose|i: int|
                        0 <= i < labels@.len() && (#[trigger] labels@[i]).0@ == k;
                    assert(names_region(labels@[i].0@, c));
                }
            }
            names
        },
        None => HashMap::new(),
    }
}

/// Of several labels for one region the last counts; a label whose key is no
/// number names nothing.
pub proof fn law_the_last_label_counts(labels: Seq<(String, String)>, label: (String, String), c: i32)
    ensures
        last_named(labels.push(label), c) == (if spelled(label.0@, 10, true) == Some(c as int) {
            Some(label.1@)
        } else {
            last_named(labels, c)
        }),
        last_named(Seq::<(String, String)>::empty(), c) is None,
{
    assert(labels.push(label).drop_last() =~= labels);
}
} // verus!
