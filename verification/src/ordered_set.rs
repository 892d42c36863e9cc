//! Insertion-ordered hash sets of the `indexmap` crate, as the rest of the
//! library sees them.
//!
//! Nothing in this file is proved: each function states what
//! `indexmap::IndexSet` does, and the proofs elsewhere rest on that.

use indexmap::IndexSet;
use std::hash::RandomState;
use vstd::prelude::*;

verus! {

/// `indexmap::IndexSet`, by name only: what a set holds is known through
/// the functions below.
#[verifier::external_type_specification]
#[verifier::external_body]
#[verifier::reject_recursive_types(T)]
#[verifier::reject_recursive_types(S)]
pub struct ExIndexSet<T, S>(IndexSet<T, S>);

/// Largest capacity hint that is handed on to `indexmap`.
pub const PREALLOCATION_LIMIT: usize = 65536;

/// The items of a set of pairs, in the order in which they were inserted.
pub uninterp spec fn pair_set_items(s: IndexSet<(u32, u32), RandomState>) -> Seq<(u32, u32)>;

/// `IndexSet::with_capacity`: an empty set. The hint only sizes the
/// allocation; it is kept small so that the size computation cannot overflow.
#[verifier::external_body]
pub(crate) fn pair_set_with_capacity(n: usize) -> (s: IndexSet<(u32, u32), RandomState>)
    requires
        n <= PREALLOCATION_LIMIT,
    ensures
        pair_set_items(s) == Seq::<(u32, u32)>::empty(),
{
    IndexSet::with_capacity(n)
}

/// `IndexSet::len`: the number of items.
#[verifier::external_body]
pub(crate) fn pair_set_len(s: &IndexSet<(u32, u32), RandomState>) -> (n: usize)
    ensures
        n == pair_set_items(*s).len(),
{
    s.len()
}

/// `IndexSet::insert_full`: an item that is already present keeps its place
/// and the set is unchanged; a new item goes to the end. Returns the item's
/// position and whether it was new.
#[verifier::external_body]
pub(crate) fn pair_set_insert_full(s: &mut IndexSet<(u32, u32), RandomState>, value: (u32, u32)) -> (r: (
    usize,
    bool,
))
    ensures
        r.1 == !pair_set_items(*old(s)).contains(value),
        r.1 ==> pair_set_items(*final(s)) == pair_set_items(*old(s)).push(value) && r.0
            == pair_set_items(*old(s)).len(),
        !r.1 ==> pair_set_items(*final(s)) == pair_set_items(*old(s)) && r.0 < pair_set_items(
            *old(s),
        ).len() && pair_set_items(*old(s))[r.0 as int] == value,
{
    s.insert_full(value)
}

/// `IndexSet::get_index_of`: the position of an item, if it is present.
#[verifier::external_body]
pub(crate) fn pair_set_get_index_of(s: &IndexSet<(u32, u32), RandomState>, value: (u32, u32)) -> (r:
    Option<usize>)
    ensures
        match r {
            Some(i) => i < pair_set_items(*s).len() && pair_set_items(*s)[i as int] == value,
            None => !pair_set_items(*s).contains(value),
        },
{
    s.get_index_of(&value)
}

/// `IndexSet::get_index`: the item at a position, if the position is in range.
#[verifier::external_body]
pub(crate) fn pair_set_get_index(s: &IndexSet<(u32, u32), RandomState>, index: usize) -> (r:
    Option<(u32, u32)>)
    ensures
        r == if index < pair_set_items(*s).len() {
            Some(pair_set_items(*s)[index as int])
        } else {
            None
        },
{
    s.get_index(index).copied()
}

/// The items of a set of ordered pairs of pairs, in the order in which they were inserted.
pub uninterp spec fn edge_set_items(s: IndexSet<((u32, u32), (u32, u32)), RandomState>) -> Seq<((u32, u32), (u32, u32))>;

/// `IndexSet::with_capacity`: an empty set. The hint only sizes the
/// allocation; it is kept small so that the size computation cannot overflow.
#[verifier::external_body]
pub(crate) fn edge_set_with_capacity(n: usize) -> (s: IndexSet<((u32, u32), (u32, u32)), RandomState>)
    requires
        n <= PREALLOCATION_LIMIT,
    ensures
        edge_set_items(s) == Seq::<((u32, u32), (u32, u32))>::empty(),
{
    IndexSet::with_capacity(n)
}

/// `IndexSet::len`: the number of items.
#[verifier::external_body]
pub(crate) fn edge_set_len(s: &IndexSet<((u32, u32), (u32, u32)), RandomState>) -> (n: usize)
    ensures
        n == edge_set_items(*s).len(),
{
    s.len()
}

/// `IndexSet::insert_full`: an item that is already present keeps its place
/// and the set is unchanged; a new item goes to the end. Returns the item's
/// position and whether it was new.
#[verifier::external_body]
pub(crate) fn edge_set_insert_full(s: &mut IndexSet<((u32, u32), (u32, u32)), RandomState>, value: ((u32, u32), (u32, u32))) -> (r: (
    usize,
    bool,
))
    ensures
        r.1 == !edge_set_items(*old(s)).contains(value),
        r.1 ==> edge_set_items(*final(s)) == edge_set_items(*old(s)).push(value) && r.0
            == edge_set_items(*old(s)).len(),
        !r.1 ==> edge_set_items(*final(s)) == edge_set_items(*old(s)) && r.0 < edge_set_items(
            *old(s),
        ).len() && edge_set_items(*old(s))[r.0 as int] == value,
{
    s.insert_full(value)
}

/// `IndexSet::get_index_of`: the position of an item, if it is present.
#[verifier::external_body]
pub(crate) fn edge_set_get_index_of(s: &IndexSet<((u32, u32), (u32, u32)), RandomState>, value: ((u32, u32), (u32, u32))) -> (r:
    Option<usize>)
    ensures
        match r {
            Some(i) => i < edge_set_items(*s).len() && edge_set_items(*s)[i as int] == value,
            None => !edge_set_items(*s).contains(value),
        },
{
    s.get_index_of(&value)
}

/// `IndexSet::get_index`: the item at a position, if the position is in range.
#[verifier::external_body]
pub(crate) fn edge_set_get_index(s: &IndexSet<((u32, u32), (u32, u32)), RandomState>, index: usize) -> (r:
    Option<((u32, u32), (u32, u32))>)
    ensures
        r == if index < edge_set_items(*s).len() {
            Some(edge_set_items(*s)[index as int])
        } else {
            None
        },
{
    s.get_index(index).copied()
}

/// The items of a set of identifiers, each as its text, in the order in
/// which they were inserted.
pub uninterp spec fn name_set_items(s: IndexSet<String, RandomState>) -> Seq<Seq<char>>;

/// `IndexSet::new`: an empty set.
#[verifier::external_body]
pub(crate) fn name_set_new() -> (s: IndexSet<String, RandomState>)
    ensures
        name_set_items(s) == Seq::<Seq<char>>::empty(),
{
    IndexSet::new()
}

/// `IndexSet::len`: the number of items.
#[verifier::external_body]
pub(crate) fn name_set_len(s: &IndexSet<String, RandomState>) -> (n: usize)
    ensures
        n == name_set_items(*s).len(),
{
    s.len()
}

/// `IndexSet::insert_full`: an identifier with a text that is already
/// present keeps its place and the set is unchanged; a new one goes to the
/// end. Returns the place and whether the identifier was new.
#[verifier::external_body]
pub(crate) fn name_set_insert_full(s: &mut IndexSet<String, RandomState>, value: String) -> (r: (
    usize,
    bool,
))
    ensures
        r.1 == !name_set_items(*old(s)).contains(value@),
        r.1 ==> name_set_items(*final(s)) == name_set_items(*old(s)).push(value@) && r.0
            == name_set_items(*old(s)).len(),
        !r.1 ==> name_set_items(*final(s)) == name_set_items(*old(s)) && r.0 < name_set_items(
            *old(s),
        ).len() && name_set_items(*old(s))[r.0 as int] == value@,
{
    s.insert_full(value)
}

/// `IndexSet::get_index_of`: the place of the identifier with the text of
/// `value`, if it is present.
#[verifier::external_body]
pub(crate) fn name_set_get_index_of(s: &IndexSet<String, RandomState>, value: &String) -> (r: Option<
    usize,
>)
    ensures
        match r {
            Some(i) => i < name_set_items(*s).len() && name_set_items(*s)[i as int] == value@,
            None => !name_set_items(*s).contains(value@),
        },
{
    s.get_index_of(value)
}

/// `IndexSet::get_index`: a copy of the identifier at a place, if the place
/// is in range.
#[verifier::external_body]
pub(crate) fn name_set_get_index(s: &IndexSet<String, RandomState>, index: usize) -> (r: Option<
    String,
>)
    ensures
        match r {
            Some(name) => index < name_set_items(*s).len() && name@ == name_set_items(
                *s,
            )[index as int],
            None => index >= name_set_items(*s).len(),
        },
{
    s.get_index(index).cloned()
}

/// The keys of a set of quotes, each as the texts of venue, source asset and
/// destination asset, in the order in which they were inserted.
pub uninterp spec fn quote_key_items(s: IndexSet<(String, String, String), RandomState>) -> Seq<
    (Seq<char>, Seq<char>, Seq<char>),
>;

/// `IndexSet::new`: an empty set.
#[verifier::external_body]
pub(crate) fn quote_keys_new() -> (s: IndexSet<(String, String, String), RandomState>)
    ensures
        quote_key_items(s) == Seq::<(Seq<char>, Seq<char>, Seq<char>)>::empty(),
{
    IndexSet::new()
}

/// `IndexSet::insert_full`: a key whose three texts are already present
/// keeps its place and the set is unchanged; a new one goes to the end.
/// Returns the place and whether the key was new.
#[verifier::external_body]
pub(crate) fn quote_keys_insert_full(
    s: &mut IndexSet<(String, String, String), RandomState>,
    value: (String, String, String),
) -> (r: (usize, bool))
    ensures
        r.1 == !quote_key_items(*old(s)).contains((value.0@, value.1@, value.2@)),
        r.1 ==> quote_key_items(*final(s)) == quote_key_items(*old(s)).push(
            (value.0@, value.1@, value.2@),
        ) && r.0 == quote_key_items(*old(s)).len(),
        !r.1 ==> quote_key_items(*final(s)) == quote_key_items(*old(s)) && r.0 < quote_key_items(
            *old(s),
        ).len() && quote_key_items(*old(s))[r.0 as int] == (value.0@, value.1@, value.2@),
{
    s.insert_full(value)
}

/// The keys of a set of queries, each as the texts of source venue, source
/// asset, destination venue and destination asset, in the order in which
/// they were inserted.
pub uninterp spec fn query_key_items(
    s: IndexSet<(String, String, String, String), RandomState>,
) -> Seq<(Seq<char>, Seq<char>, Seq<char>, Seq<char>)>;

/// `IndexSet::new`: an empty set.
#[verifier::external_body]
pub(crate) fn query_keys_new() -> (s: IndexSet<(String, String, String, String), RandomState>)
    ensures
        query_key_items(s) == Seq::<(Seq<char>, Seq<char>, Seq<char>, Seq<char>)>::empty(),
{
    IndexSet::new()
}

/// `IndexSet::insert_full`: a key whose four texts are already present
/// keeps its place and the set is unchanged; a new one goes to the end.
/// Returns the place and whether the key was new.
#[verifier::external_body]
pub(crate) fn query_keys_insert_full(
    s: &mut IndexSet<(String, String, String, String), RandomState>,
    value: (String, String, String, String),
) -> (r: (usize, bool))
    ensures
        r.1 == !query_key_items(*old(s)).contains((value.0@, value.1@, value.2@, value.3@)),
        r.1 ==> query_key_items(*final(s)) == query_key_items(*old(s)).push(
            (value.0@, value.1@, value.2@, value.3@),
        ) && r.0 == query_key_items(*old(s)).len(),
        !r.1 ==> query_key_items(*final(s)) == query_key_items(*old(s)) && r.0 < query_key_items(
            *old(s),
        ).len() && query_key_items(*old(s))[r.0 as int] == (
            value.0@,
            value.1@,
            value.2@,
            value.3@,
        ),
{
    s.insert_full(value)
}

} // verus!
