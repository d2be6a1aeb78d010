//! The store behind the slot-indexed list, as sequences: which slots a chain
//! passes, what makes a store with its chain and its free pool valid, and what
//! linking a slot in, unlinking one and overwriting one do to it.
use vstd::prelude::*;

verus! {

/// What an occupied slot holds: an element and the slot of the next one.
pub(crate) struct Node<T: Clone + PartialEq> {
    pub(crate) data: T,
    pub(crate) next: Option<usize>,
}

/// The slot at `position` of `order`, none before its start or past its end.
pub(crate) open spec fn entry(order: Seq<usize>, position: int) -> Option<usize> {
    if 0 <= position < order.len() {
        Some(order[position])
    } else {
        None
    }
}

/// `slot` is a slot of the store and holds a node.
pub(crate) open spec fn occupied<T: Clone + PartialEq>(
    slots: Seq<Option<Node<T>>>,
    slot: usize,
) -> bool {
    slot < slots.len() && slots[slot as int] is Some
}

/// `slot` is a slot of the store and holds nothing.
pub(crate) open spec fn vacant<T: Clone + PartialEq>(
    slots: Seq<Option<Node<T>>>,
    slot: usize,
) -> bool {
    slot < slots.len() && slots[slot as int] is None
}

/// `order` lists the slots of the chain that starts at `head`: each is
/// occupied and names the one behind it, and the last names none.
pub(crate) open spec fn linked<T: Clone + PartialEq>(
    slots: Seq<Option<Node<T>>>,
    head: Option<usize>,
    order: Seq<usize>,
) -> bool {
    &&& head == entry(order, 0)
    &&& forall|k: int|
        0 <= k < order.len() ==> (#[trigger] order[k]) < slots.len()
            && slots[order[k] as int] is Some
    &&& forall|m: int|
        1 <= m <= order.len() ==> slots[order[m - 1] as int].unwrap().next == #[trigger] entry(
            order,
            m,
        )
}

/// The slots met by following the links from `start`, for at most `fuel` steps.
pub(crate) open spec fn traverse<T: Clone + PartialEq>(
    slots: Seq<Option<Node<T>>>,
    start: Option<usize>,
    fuel: nat,
) -> Seq<usize>
    decreases fuel,
{
    match start {
        Some(slot) if fuel > 0 && slot < slots.len() && slots[slot as int] is Some => seq![slot]
            + traverse(slots, slots[slot as int].unwrap().next, (fuel - 1) as nat),
        _ => Seq::empty(),
    }
}

/// The elements held by the slots of `order`, in that order.
pub(crate) open spec fn contents<T: Clone + PartialEq>(
    slots: Seq<Option<Node<T>>>,
    order: Seq<usize>,
) -> Seq<T> {
    Seq::new(order.len(), |k: int| slots[order[k] as int].unwrap().data)
}

/// What holds of a store whose chain is `order`: the chain is linked from
/// `head` and passes no slot twice; the pool lists each empty slot once and
/// nothing else; every occupied slot is on the chain.
pub(crate) open spec fn valid<T: Clone + PartialEq>(
    slots: Seq<Option<Node<T>>>,
    head: Option<usize>,
    free: Seq<usize>,
    order: Seq<usize>,
) -> bool {
    &&& linked(slots, head, order)
    &&& order.no_duplicates()
    &&& free.no_duplicates()
    &&& free.len() + order.len() == slots.len()
    &&& forall|k: int|
        0 <= k < free.len() ==> (#[trigger] free[k]) < slots.len()
            && slots[free[k] as int] is None
    &&& forall|slot: usize| #[trigger] vacant(slots, slot) ==> free.contains(slot)
    &&& forall|slot: usize| #[trigger] occupied(slots, slot) ==> order.contains(slot)
}

/// A chain that `order` lists is what a traversal with enough fuel meets.
pub(crate) proof fn lemma_traverse_linked<T: Clone + PartialEq>(
    slots: Seq<Option<Node<T>>>,
    head: Option<usize>,
    order: Seq<usize>,
    fuel: nat,
)
    requires
        linked(slots, head, order),
        order.len() <= fuel,
    ensures
        traverse(slots, head, fuel) == order,
    decreases fuel,
{
    if order.len() > 0 {
        let rest = order.skip(1);
        let next = slots[order[0] as int].unwrap().next;
        assert(next == entry(order, 1));
        assert forall|m: int| 1 <= m <= rest.len() implies slots[rest[m - 1] as int].unwrap().next
            == #[trigger] entry(rest, m) by {
            assert(entry(rest, m) == entry(order, m + 1));
        }
        lemma_traverse_linked(slots, next, rest, (fuel - 1) as nat);
    }
}

/// Taking the last slot of the pool and linking it in at `position` keeps the
/// store valid and inserts its element at `position`.
pub(crate) proof fn lemma_link_in<T: Clone + PartialEq>(
    slots: Seq<Option<Node<T>>>,
    head: Option<usize>,
    free: Seq<usize>,
    order: Seq<usize>,
    position: int,
    data: T,
    after: Seq<Option<Node<T>>>,
)
    requires
        valid(slots, head, free, order),
        0 <= position <= order.len(),
        free.len() > 0,
        after.len() == slots.len(),
        after[free.last() as int] == Some(Node { data, next: entry(order, position) }),
        position > 0 ==> after[order[position - 1] as int] == Some(
            Node { data: slots[order[position - 1] as int].unwrap().data, next: Some(free.last()) },
        ),
        forall|i: int|
            0 <= i < slots.len() && i != free.last() && (position == 0 || i != order[position - 1])
                ==> #[trigger] after[i] == slots[i],
    ensures
        valid(
            after,
            if position == 0 {
                Some(free.last())
            } else {
                head
            },
            free.drop_last(),
            order.insert(position, free.last()),
        ),
        contents(after, order.insert(position, free.last())) == contents(slots, order).insert(
            position,
            data,
        ),
{
    let slot = free.last();
    let grown = order.insert(position, slot);
    let pool = free.drop_last();
    assert forall|m: int| 1 <= m <= grown.len() implies after[grown[m - 1] as int].unwrap().next
        == #[trigger] entry(grown, m) by {
        if m < position {
            assert(entry(grown, m) == entry(order, m));
        } else if m > position + 1 {
            assert(entry(grown, m) == entry(order, m - 1));
        }
    }
    assert forall|other: usize| #[trigger] vacant(after, other) implies pool.contains(other) by {
        assert(vacant(slots, other));
        let k = choose|k: int| 0 <= k < free.len() && free[k] == other;
        assert(pool[k] == other);
    }
    assert forall|other: usize| #[trigger] occupied(after, other) implies grown.contains(other) by {
        if other == slot {
            assert(grown[position] == other);
        } else {
            assert(occupied(slots, other));
            let k = choose|k: int| 0 <= k < order.len() && order[k] == other;
            if k < position {
                assert(grown[k] == other);
            } else {
                assert(grown[k + 1] == other);
            }
        }
    }
}

/// Unlinking the slot at `position` and returning it to the pool keeps the
/// store valid and removes its element.
pub(crate) proof fn lemma_unlink<T: Clone + PartialEq>(
    slots: Seq<Option<Node<T>>>,
    head: Option<usize>,
    free: Seq<usize>,
    order: Seq<usize>,
    position: int,
    after: Seq<Option<Node<T>>>,
)
    requires
        valid(slots, head, free, order),
        0 <= position < order.len(),
        after.len() == slots.len(),
        after[order[position] as int] is None,
        position > 0 ==> after[order[position - 1] as int] == Some(
            Node {
                data: slots[order[position - 1] as int].unwrap().data,
                next: entry(order, position + 1),
            },
        ),
        forall|i: int|
            0 <= i < slots.len() && i != order[position] && (position == 0 || i != order[position
                - 1]) ==> #[trigger] after[i] == slots[i],
    ensures
        valid(
            after,
            if position == 0 {
                entry(order, 1)
            } else {
                head
            },
            free.push(order[position]),
            order.remove(position),
        ),
        contents(after, order.remove(position)) == contents(slots, order).remove(position),
{
    let slot = order[position];
    let shrunk = order.remove(position);
    let pool = free.push(slot);
    assert forall|m: int| 1 <= m <= shrunk.len() implies after[shrunk[m - 1] as int].unwrap().next
        == #[trigger] entry(shrunk, m) by {
        if m < position {
            assert(entry(shrunk, m) == entry(order, m));
        } else if m > position {
            assert(entry(shrunk, m) == entry(order, m + 1));
        }
    }
    assert forall|other: usize| #[trigger] vacant(after, other) implies pool.contains(other) by {
        if other == slot {
            assert(pool[free.len() as int] == other);
        } else {
            assert(vacant(slots, other));
            let k = choose|k: int| 0 <= k < free.len() && free[k] == other;
            assert(pool[k] == other);
        }
    }
    assert forall|other: usize| #[trigger] occupied(after, other) implies shrunk.contains(
        other,
    ) by {
        assert(occupied(slots, other));
        let k = choose|k: int| 0 <= k < order.len() && order[k] == other;
        if k < position {
            assert(shrunk[k] == other);
        } else {
            assert(shrunk[k - 1] == other);
        }
    }
}

/// Replacing the element of the slot at `position` keeps the store valid and
/// replaces the element at `position`.
pub(crate) proof fn lemma_overwrite<T: Clone + PartialEq>(
    slots: Seq<Option<Node<T>>>,
    head: Option<usize>,
    free: Seq<usize>,
    order: Seq<usize>,
    position: int,
    data: T,
    after: Seq<Option<Node<T>>>,
)
    requires
        valid(slots, head, free, order),
        0 <= position < order.len(),
        after == slots.update(
            order[position] as int,
            Some(Node { data, next: slots[order[position] as int].unwrap().next }),
        ),
    ensures
        valid(after, head, free, order),
        contents(after, order) == contents(slots, order).update(position, data),
{
    assert forall|other: usize| #[trigger] vacant(after, other) implies free.contains(other) by {
        assert(vacant(slots, other));
    }
    assert forall|other: usize| #[trigger] occupied(after, other) implies order.contains(other) by {
        assert(occupied(slots, other));
    }
}

} // verus!
