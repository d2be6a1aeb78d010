//! The abstract model shared by both lists: a list is a sequence of elements,
//! and every operation is a function on sequences.
//!
//! Positions are mathematical integers. A search compares the list's element,
//! on the left, with the value searched for, on the right. What it finds is
//! stated twice: over the answers that the element type's `==` may give
//! (`compares`), which holds of every element type, and over the equality that
//! the element type specifies (`eq_spec`), for the types whose `==` obeys it.
use vstd::prelude::*;
use vstd::std_specs::cmp::PartialEqSpec;

verus! {

/// The element at `index`, absent when `index` is not a position of `items`.
pub open spec fn element_at<T>(items: Seq<T>, index: int) -> Option<T> {
    if 0 <= index < items.len() {
        Some(items[index])
    } else {
        None
    }
}

/// `items` with `value` added behind the last element.
pub open spec fn append<T>(items: Seq<T>, value: T) -> Seq<T> {
    items.push(value)
}

/// `items` with `value` placed before the element at `index`; `index` may be
/// the length, which appends. Any other `index` leaves `items` as it is.
pub open spec fn insert_before<T>(items: Seq<T>, index: int, value: T) -> Seq<T> {
    if 0 <= index <= items.len() {
        items.insert(index, value)
    } else {
        items
    }
}

/// `append` for a list that holds at most `capacity` elements: a full list
/// stays as it is.
pub open spec fn append_bounded<T>(items: Seq<T>, value: T, capacity: nat) -> Seq<T> {
    if items.len() < capacity {
        append(items, value)
    } else {
        items
    }
}

/// `insert_before` for a list that holds at most `capacity` elements: a full
/// list stays as it is.
pub open spec fn insert_before_bounded<T>(
    items: Seq<T>,
    index: int,
    value: T,
    capacity: nat,
) -> Seq<T> {
    if items.len() < capacity {
        insert_before(items, index, value)
    } else {
        items
    }
}

/// `items` without the element at `index`; unchanged when there is none.
pub open spec fn remove_at<T>(items: Seq<T>, index: int) -> Seq<T> {
    if 0 <= index < items.len() {
        items.remove(index)
    } else {
        items
    }
}

/// `items` with the element at `index` replaced; unchanged when there is none.
pub open spec fn replace_at<T>(items: Seq<T>, index: int, value: T) -> Seq<T> {
    if 0 <= index < items.len() {
        items.update(index, value)
    } else {
        items
    }
}

/// `equal` is an answer that `element == value` may give.
pub open spec fn compares<T: PartialEq>(element: T, value: T, equal: bool) -> bool {
    call_ensures(T::eq, (&element, &value), equal)
}

/// A search of `items` for `value` from the front may stop at `index`: the
/// element there may compare equal, and each one before it may compare unequal.
pub open spec fn is_first_hit<T: PartialEq>(items: Seq<T>, value: T, index: int) -> bool {
    &&& 0 <= index < items.len()
    &&& compares(items[index], value, true)
    &&& forall|j: int| 0 <= j < index ==> compares(#[trigger] items[j], value, false)
}

/// A search of `items` for `value` may come up empty: every element may
/// compare unequal.
pub open spec fn is_miss<T: PartialEq>(items: Seq<T>, value: T) -> bool {
    forall|j: int| 0 <= j < items.len() ==> compares(#[trigger] items[j], value, false)
}

/// Some element of `items` equals `value`.
pub open spec fn has_match<T: PartialEq>(items: Seq<T>, value: T) -> bool {
    exists|i: int| 0 <= i < items.len() && (#[trigger] items[i]).eq_spec(&value)
}

/// `index` is the position of the first element of `items` that equals `value`.
pub open spec fn is_first_match<T: PartialEq>(items: Seq<T>, value: T, index: int) -> bool {
    &&& 0 <= index < items.len()
    &&& items[index].eq_spec(&value)
    &&& forall|j: int| 0 <= j < index ==> !(#[trigger] items[j]).eq_spec(&value)
}

/// The position of the first element of `items` that equals `value`.
pub open spec fn first_match<T: PartialEq>(items: Seq<T>, value: T) -> Option<int> {
    if has_match(items, value) {
        Some(choose|i: int| is_first_match(items, value, i))
    } else {
        None
    }
}

/// `items` without its first element that equals `value`; unchanged when no
/// element does.
pub open spec fn remove_first<T: PartialEq>(items: Seq<T>, value: T) -> Seq<T> {
    match first_match(items, value) {
        Some(index) => items.remove(index),
        None => items,
    }
}

/// `items` with its first element that equals `old_value` replaced by
/// `new_value`; unchanged when no element does.
pub open spec fn replace_first<T: PartialEq>(items: Seq<T>, old_value: T, new_value: T) -> Seq<T> {
    match first_match(items, old_value) {
        Some(index) => items.update(index, new_value),
        None => items,
    }
}

/// A first match is the only first match, so `first_match` names it.
pub proof fn lemma_first_match_found<T: PartialEq>(items: Seq<T>, value: T, index: int)
    requires
        is_first_match(items, value, index),
    ensures
        has_match(items, value),
        first_match(items, value) == Some(index),
{
}

/// Where some element equals `value`, one of them comes first.
pub proof fn lemma_first_match_exists<T: PartialEq>(items: Seq<T>, value: T)
    requires
        has_match(items, value),
    ensures
        first_match(items, value) is Some,
        is_first_match(items, value, first_match(items, value).unwrap()),
{
    let witness = choose|i: int| 0 <= i < items.len() && (#[trigger] items[i]).eq_spec(&value);
    lemma_earliest_match(items, value, witness);
}

proof fn lemma_earliest_match<T: PartialEq>(items: Seq<T>, value: T, upto: int)
    requires
        0 <= upto < items.len(),
        items[upto].eq_spec(&value),
    ensures
        exists|i: int| is_first_match(items, value, i),
    decreases upto,
{
    if exists|j: int| 0 <= j < upto && (#[trigger] items[j]).eq_spec(&value) {
        let earlier = choose|j: int| 0 <= j < upto && (#[trigger] items[j]).eq_spec(&value);
        lemma_earliest_match(items, value, earlier);
    } else {
        assert(is_first_match(items, value, upto));
    }
}

/// For an element type whose `==` obeys its specification, a search stops at
/// the first match.
pub proof fn lemma_hit_is_first_match<T: PartialEq>(items: Seq<T>, value: T, index: int)
    requires
        T::obeys_eq_spec(),
        is_first_hit(items, value, index),
    ensures
        is_first_match(items, value, index),
        has_match(items, value),
        first_match(items, value) == Some(index),
{
    lemma_first_match_found(items, value, index);
}

/// For an element type whose `==` obeys its specification, a search comes up
/// empty only where nothing matches.
pub proof fn lemma_miss_has_no_match<T: PartialEq>(items: Seq<T>, value: T)
    requires
        T::obeys_eq_spec(),
        is_miss(items, value),
    ensures
        !has_match(items, value),
        first_match(items, value) is None,
{
}

/// An element that was appended is found at the position that was the length.
pub proof fn lemma_append_then_get<T>(items: Seq<T>, value: T)
    ensures
        append(items, value).len() == items.len() + 1,
        element_at(append(items, value), items.len() as int) == Some(value),
        forall|i: int|
            0 <= i < items.len() ==> element_at(append(items, value), i) == element_at(items, i),
{
}

/// An element that was inserted at a valid position is found at that position,
/// the elements before it stay and those from it on move up by one.
pub proof fn lemma_insert_then_get<T>(items: Seq<T>, index: int, value: T)
    requires
        0 <= index <= items.len(),
    ensures
        insert_before(items, index, value).len() == items.len() + 1,
        element_at(insert_before(items, index, value), index) == Some(value),
        forall|i: int|
            0 <= i < index ==> element_at(insert_before(items, index, value), i) == element_at(
                items,
                i,
            ),
        forall|i: int|
            index <= i < items.len() ==> element_at(insert_before(items, index, value), i + 1)
                == element_at(items, i),
{
}

/// A list with room takes an appended element as an unbounded one does, and
/// the element is found at the position that was the length.
pub proof fn lemma_append_bounded_then_get<T>(items: Seq<T>, value: T, capacity: nat)
    requires
        items.len() < capacity,
    ensures
        append_bounded(items, value, capacity) == append(items, value),
        append_bounded(items, value, capacity).len() <= capacity,
        element_at(append_bounded(items, value, capacity), items.len() as int) == Some(value),
{
}

/// A list with room takes an inserted element as an unbounded one does, and
/// the element is found at the position it was inserted at.
pub proof fn lemma_insert_bounded_then_get<T>(items: Seq<T>, index: int, value: T, capacity: nat)
    requires
        items.len() < capacity,
        0 <= index <= items.len(),
    ensures
        insert_before_bounded(items, index, value, capacity) == insert_before(items, index, value),
        insert_before_bounded(items, index, value, capacity).len() <= capacity,
        element_at(insert_before_bounded(items, index, value, capacity), index) == Some(value),
{
}

/// A list that holds as many elements as it has room for takes no more: its
/// length and its elements stay as they are, wherever the new one was to go.
pub proof fn lemma_full_takes_no_more<T>(items: Seq<T>, index: int, value: T, capacity: nat)
    requires
        items.len() >= capacity,
    ensures
        append_bounded(items, value, capacity) == items,
        insert_before_bounded(items, index, value, capacity) == items,
{
}

/// Removing a value that no element equals changes nothing: every position
/// holds what it held.
pub proof fn lemma_remove_absent<T: PartialEq>(items: Seq<T>, value: T)
    requires
        !has_match(items, value),
    ensures
        first_match(items, value) is None,
        remove_first(items, value) == items,
        forall|i: int| element_at(remove_first(items, value), i) == element_at(items, i),
{
}

/// Removing a value that some element equals takes out the first such
/// element and nothing else.
pub proof fn lemma_remove_present<T: PartialEq>(items: Seq<T>, value: T)
    requires
        has_match(items, value),
    ensures
        remove_first(items, value).len() == items.len() - 1,
        is_first_match(items, value, first_match(items, value).unwrap()),
        remove_first(items, value) == items.remove(first_match(items, value).unwrap()),
{
    lemma_first_match_exists(items, value);
}

/// Once a failed removal has left the list alone, the next one fails too.
pub proof fn lemma_remove_absent_again<T: PartialEq>(items: Seq<T>, value: T)
    requires
        !has_match(items, value),
    ensures
        !has_match(remove_first(items, value), value),
        remove_first(remove_first(items, value), value) == items,
{
}

/// There is nothing at the length or beyond, whatever the length.
pub proof fn lemma_nothing_past_end<T>(items: Seq<T>, index: int)
    requires
        index >= items.len(),
    ensures
        element_at(items, index) is None,
{
}

} // verus!
