//! Sequences without duplicates that only grow at the end.

use vstd::prelude::*;

verus! {

/// `s` with `x` appended, unless `x` is in it already.
pub open spec fn with_item<T>(s: Seq<T>, x: T) -> Seq<T> {
    if s.contains(x) {
        s
    } else {
        s.push(x)
    }
}

/// What `push` does to membership.
pub proof fn lemma_push_contains<T>(s: Seq<T>, x: T, y: T)
    ensures
        s.push(x).contains(y) == (s.contains(y) || y == x),
{
    if s.contains(y) {
        let j = choose|j: int| 0 <= j < s.len() && s[j] == y;
        assert(s.push(x)[j] == y);
    }
    if y == x {
        assert(s.push(x)[s.len() as int] == y);
    }
    if s.push(x).contains(y) && y != x {
        let j = choose|j: int| 0 <= j < s.push(x).len() && s.push(x)[j] == y;
        assert(s[j] == y);
    }
}

/// What `with_item` does to membership.
pub proof fn lemma_with_item_contains<T>(s: Seq<T>, x: T, y: T)
    ensures
        with_item(s, x).contains(y) == (s.contains(y) || y == x),
{
    lemma_push_contains(s, x, y);
}

/// Appending a new item to a sequence without duplicates leaves it without
/// duplicates and every item in its place.
pub proof fn lemma_push_index_of<T>(s: Seq<T>, x: T, y: T)
    requires
        s.no_duplicates(),
        !s.contains(x),
        y == x || s.contains(y),
    ensures
        s.push(x).no_duplicates(),
        s.push(x).contains(y),
        y == x ==> s.push(x).index_of(y) == s.len(),
        y != x ==> s.contains(y) && s.push(x).index_of(y) == s.index_of(y),
{
    lemma_push_contains(s, x, y);
    let t = s.push(x);
    assert(t.no_duplicates()) by {
        assert forall|i: int, j: int| 0 <= i < t.len() && 0 <= j < t.len() && i != j implies t[i]
            != t[j] by {
            if i < s.len() && j < s.len() {
            } else if i < s.len() {
                assert(s.contains(s[i]));
            } else if j < s.len() {
                assert(s.contains(s[j]));
            }
        }
    }
    if y == x {
        assert(t[s.len() as int] == y);
    } else {
        let q = s.index_of(y);
        assert(t[q] == y);
    }
}

/// Adding an item to a sequence without duplicates leaves it without
/// duplicates and every item that was there in its place.
pub proof fn lemma_with_item_keeps<T>(s: Seq<T>, x: T, y: T)
    requires
        s.no_duplicates(),
        s.contains(y),
    ensures
        with_item(s, x).no_duplicates(),
        with_item(s, x).contains(y),
        with_item(s, x).index_of(y) == s.index_of(y),
        with_item(s, x).len() >= s.len(),
{
    if !s.contains(x) {
        lemma_push_index_of(s, x, y);
    }
}

/// Adding an item to a sequence without duplicates leaves it without
/// duplicates, with the item in it: at the end where it is new.
pub proof fn lemma_with_item_adds<T>(s: Seq<T>, x: T)
    requires
        s.no_duplicates(),
    ensures
        with_item(s, x).no_duplicates(),
        with_item(s, x).contains(x),
        !s.contains(x) ==> with_item(s, x).index_of(x) == s.len() && with_item(s, x).len()
            == s.len() + 1,
        s.contains(x) ==> with_item(s, x) == s,
        s.len() <= with_item(s, x).len() <= s.len() + 1,
{
    if !s.contains(x) {
        lemma_push_index_of(s, x, x);
    }
}

} // verus!
