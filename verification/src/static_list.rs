//! The slot-indexed list: all elements live in one fixed store, linked by slot
//! index, with a pool of the slots that are free.
use crate::model::{
    append_bounded, compares, element_at, first_match, has_match, insert_before_bounded,
    is_first_hit, is_miss,
    lemma_hit_is_first_match, lemma_miss_has_no_match, remove_at, remove_first, replace_at,
    replace_first,
};
use crate::slots::{
    contents, entry, lemma_link_in, lemma_overwrite, lemma_traverse_linked, lemma_unlink, linked,
    occupied, traverse, vacant, valid, Node,
};
use vstd::prelude::*;
use vstd::std_specs::cmp::PartialEqSpec;

verus! {

/// The number of slots, and so the most elements a list can hold.
pub const MAX_SIZE: usize = 100;

/// A singly-linked list in a fixed store of `MAX_SIZE` slots.
pub struct StaticLinkedList<T: Clone + PartialEq> {
    nodes: [Option<Node<T>>; MAX_SIZE],
    head: Option<usize>,
    free: Vec<usize>,
    length: usize,
}

/// `array_init::array_init` builds an array by calling `initializer` once for
/// each index, from the lowest to the highest, and storing what each call
/// returned at that index. This is taken on trust from that crate: it is asked
/// that `initializer` may be called on every index below `N`, and claimed that
/// the element at each index is a value that `initializer` may return for it.
pub assume_specification<F, T, const N: usize>[ array_init::array_init::<F, T, N> ](
    initializer: F,
) -> (array: [T; N]) where F: FnMut(usize) -> T
    requires
        forall|i: usize| i < N ==> call_requires(initializer, (i,)),
    ensures
        forall|i: usize| i < N ==> call_ensures(initializer, (i,), #[trigger] array@[i as int]),
;

impl<T: Clone + PartialEq> View for StaticLinkedList<T> {
    type V = Seq<T>;

    /// The elements reachable from the head, in list order. Where they are
    /// kept is told by `order`, `pool`, `head_slot`, `slot_element` and
    /// `slot_link`.
    closed spec fn view(&self) -> Seq<T> {
        contents(self.nodes@, self.order())
    }
}

impl<T: Clone + PartialEq> StaticLinkedList<T> {
    /// The slots reachable from the head, in list order: the chain.
    pub closed spec fn order(&self) -> Seq<usize> {
        traverse(self.nodes@, self.head, MAX_SIZE as nat)
    }

    /// The free pool as it is listed. The slot that the next insertion takes
    /// is the last; a slot that is freed is added behind it.
    pub closed spec fn pool(&self) -> Seq<usize> {
        self.free@
    }

    /// What every slot of the store holds, by slot number.
    pub(crate) closed spec fn store(&self) -> Seq<Option<Node<T>>> {
        self.nodes@
    }

    /// The slot that the list starts at, none for an empty list.
    pub closed spec fn head_slot(&self) -> Option<usize> {
        self.head
    }

    /// The element that `slot` holds, none where it is empty or no slot.
    pub closed spec fn slot_element(&self, slot: usize) -> Option<T> {
        if occupied(self.nodes@, slot) {
            Some(self.nodes@[slot as int].unwrap().data)
        } else {
            None
        }
    }

    /// The slot that `slot` names as the next one, none where it names none,
    /// is empty or is no slot.
    pub closed spec fn slot_link(&self, slot: usize) -> Option<usize> {
        if occupied(self.nodes@, slot) {
            self.nodes@[slot as int].unwrap().next
        } else {
            None
        }
    }

    /// The store is valid with `order` as its chain, and the cached length is
    /// the length of that chain.
    closed spec fn valid_with(&self, order: Seq<usize>) -> bool {
        &&& valid(self.nodes@, self.head, self.free@, order)
        &&& self.length == order.len()
    }

    /// The cached length.
    pub closed spec fn spec_len(&self) -> nat {
        self.length as nat
    }

    /// The slots that hold an element.
    pub closed spec fn occupied_slots(&self) -> Set<usize> {
        Set::new(|slot: usize| occupied(self.nodes@, slot))
    }

    /// The slots that the free pool lists.
    pub closed spec fn free_slots(&self) -> Set<usize> {
        self.free@.to_set()
    }

    /// The chain from the head ends, passes no slot twice and visits exactly
    /// the occupied slots; the cached length is the number of slots on it; the
    /// free pool lists exactly the empty slots, each once.
    pub closed spec fn well_formed(&self) -> bool {
        self.valid_with(self.order())
    }

    /// A list that is valid with some chain is well formed, and that chain is
    /// the one a traversal from the head meets.
    proof fn lemma_valid_is_well_formed(&self, order: Seq<usize>)
        requires
            self.valid_with(order),
        ensures
            self.well_formed(),
            self.order() == order,
            self@ == contents(self.nodes@, order),
            self@.len() == order.len(),
    {
        lemma_traverse_linked(self.nodes@, self.head, order, MAX_SIZE as nat);
    }

    /// In a well-formed list the cached length counts exactly the elements
    /// that a traversal from the head meets, and never exceeds the capacity.
    pub proof fn lemma_length_counts_reachable(&self)
        requires
            self.well_formed(),
        ensures
            self.spec_len() == self@.len(),
            self@.len() <= MAX_SIZE,
    {
    }

    /// A well-formed list is told in full by its chain, its pool and its
    /// elements: the chain and the pool list each of their slots once; the
    /// occupied slots are those of the chain and the free slots those of the
    /// pool; the head is the first slot of the chain; the slot at each position
    /// of the chain holds the element at that position and names the slot at
    /// the next position, the last naming none; the slots of the pool are empty.
    pub proof fn lemma_store_is_chain_and_pool(&self)
        requires
            self.well_formed(),
        ensures
            self.order().no_duplicates(),
            self.pool().no_duplicates(),
            self.order().len() == self@.len(),
            self.order().len() + self.pool().len() == MAX_SIZE,
            self.occupied_slots() == self.order().to_set(),
            self.free_slots() == self.pool().to_set(),
            self.head_slot() == element_at(self.order(), 0),
            forall|k: int|
                0 <= k < self.order().len() ==> {
                    &&& (#[trigger] self.order()[k]) < MAX_SIZE
                    &&& self.slot_element(self.order()[k]) == Some(self@[k])
                    &&& self.slot_link(self.order()[k]) == element_at(self.order(), k + 1)
                },
            forall|k: int|
                0 <= k < self.pool().len() ==> {
                    &&& (#[trigger] self.pool()[k]) < MAX_SIZE
                    &&& self.slot_element(self.pool()[k]) is None
                    &&& self.slot_link(self.pool()[k]) is None
                },
    {
        let order = self.order();
        assert forall|k: int| 0 <= k < order.len() implies self.slot_link(#[trigger] order[k])
            == element_at(order, k + 1) by {
            assert(self.nodes@[order[k] as int].unwrap().next == entry(order, k + 1));
        }
    }

    /// Releasing the slot at `position` of the chain moves that slot, and no
    /// other, from the occupied slots to the free ones: it is empty afterwards,
    /// neither the head nor any link leads to it, and every other slot holds
    /// the element it held.
    pub proof fn lemma_release_moves_one_slot(before: Self, after: Self, position: int)
        requires
            before.well_formed(),
            after.well_formed(),
            0 <= position < before@.len(),
            after@ == before@.remove(position),
            after.order() == before.order().remove(position),
            after.pool() == before.pool().push(before.order()[position]),
        ensures
            before.occupied_slots().contains(before.order()[position]),
            after.occupied_slots() == before.occupied_slots().remove(before.order()[position]),
            after.free_slots() == before.free_slots().insert(before.order()[position]),
            after.slot_element(before.order()[position]) is None,
            after.head_slot() != Some(before.order()[position]),
            forall|other: usize| after.slot_link(other) != Some(before.order()[position]),
            forall|other: usize|
                other != before.order()[position] ==> after.slot_element(other)
                    == before.slot_element(other),
    {
        let slot = before.order()[position];
        let chain = before.order();
        let shrunk = after.order();
        before.lemma_store_is_chain_and_pool();
        after.lemma_store_is_chain_and_pool();
        assert(after.pool()[before.pool().len() as int] == slot);
        assert(after.free_slots() =~= before.free_slots().insert(slot)) by {
            assert forall|other: usize| before.pool().contains(other) implies after.pool().contains(
                other,
            ) by {
                let k = choose|k: int| 0 <= k < before.pool().len() && before.pool()[k] == other;
                assert(after.pool()[k] == other);
            }
        }
        assert forall|other: usize| other != slot implies after.slot_element(other)
            == before.slot_element(other) by {
            if occupied(before.nodes@, other) {
                let k = choose|k: int| 0 <= k < chain.len() && chain[k] == other;
                if k > position {
                    assert(shrunk[k - 1] == other);
                }
            }
        }
    }

    /// Claiming the last slot of the pool for `position` of the chain moves
    /// that slot, and no other, from the free slots to the occupied ones: it
    /// holds the new element afterwards, and every other slot holds what it
    /// held.
    pub proof fn lemma_claim_moves_one_slot(before: Self, after: Self, position: int, data: T)
        requires
            before.well_formed(),
            after.well_formed(),
            0 <= position <= before@.len(),
            before.pool().len() > 0,
            after@ == before@.insert(position, data),
            after.order() == before.order().insert(position, before.pool().last()),
            after.pool() == before.pool().drop_last(),
        ensures
            before.free_slots().contains(before.pool().last()),
            after.occupied_slots() == before.occupied_slots().insert(before.pool().last()),
            after.free_slots() == before.free_slots().remove(before.pool().last()),
            after.slot_element(before.pool().last()) == Some(data),
            forall|other: usize|
                other != before.pool().last() ==> after.slot_element(other)
                    == before.slot_element(other),
    {
        let slot = before.pool().last();
        let chain = before.order();
        let grown = after.order();
        before.lemma_store_is_chain_and_pool();
        after.lemma_store_is_chain_and_pool();
        assert(grown[position] == slot);
        assert forall|k: int| 0 <= k < after.pool().len() implies #[trigger] after.pool()[k]
            != slot by {
            assert(after.pool()[k] == before.pool()[k]);
        }
        assert(after.free_slots() =~= before.free_slots().remove(slot)) by {
            assert forall|other: usize|
                before.pool().contains(other) && other != slot implies after.pool().contains(
                other,
            ) by {
                let k = choose|k: int| 0 <= k < before.pool().len() && before.pool()[k] == other;
                assert(after.pool()[k] == other);
            }
        }
        assert forall|other: usize| other != slot implies after.slot_element(other)
            == before.slot_element(other) by {
            if occupied(before.nodes@, other) {
                let k = choose|k: int| 0 <= k < chain.len() && chain[k] == other;
                if k < position {
                    assert(grown[k] == other);
                } else {
                    assert(grown[k + 1] == other);
                }
            }
        }
    }

    /// Replacing the element at `position` touches the slot at that position
    /// of the chain and nothing else: the occupied and the free slots, the
    /// head and every link stay, and every other slot holds what it held.
    pub proof fn lemma_replace_keeps_store(before: Self, after: Self, position: int, data: T)
        requires
            before.well_formed(),
            after.well_formed(),
            0 <= position < before@.len(),
            after@ == before@.update(position, data),
            after.order() == before.order(),
            after.pool() == before.pool(),
        ensures
            after.occupied_slots() == before.occupied_slots(),
            after.free_slots() == before.free_slots(),
            after.head_slot() == before.head_slot(),
            after.slot_element(before.order()[position]) == Some(data),
            forall|other: usize| after.slot_link(other) == before.slot_link(other),
            forall|other: usize|
                other != before.order()[position] ==> after.slot_element(other)
                    == before.slot_element(other),
    {
        before.lemma_store_is_chain_and_pool();
        after.lemma_store_is_chain_and_pool();
    }

    /// The free slots are the slots that the pool lists, whatever the state of
    /// the list.
    pub proof fn lemma_free_slots_are_pool(&self)
        ensures
            self.free_slots() == self.pool().to_set(),
    {
    }

    /// In a well-formed list no slot is both occupied and free, and every slot
    /// of the store is one or the other. There are as many occupied slots as
    /// elements.
    pub proof fn lemma_slots_partitioned(&self)
        requires
            self.well_formed(),
        ensures
            self.occupied_slots().disjoint(self.free_slots()),
            self.occupied_slots().union(self.free_slots()) == Set::new(
                |slot: usize| slot < MAX_SIZE,
            ),
            self.occupied_slots().finite(),
            self.free_slots().finite(),
            self.occupied_slots().len() == self@.len(),
            self.free_slots().len() == MAX_SIZE - self@.len(),
    {
        let order = self.order();
        let occupied_set = self.occupied_slots();
        let free_set = self.free_slots();
        assert forall|slot: usize| slot < MAX_SIZE implies occupied_set.contains(slot)
            || free_set.contains(slot) by {
            if !occupied(self.nodes@, slot) {
                assert(vacant(self.nodes@, slot));
            }
        }
        assert(occupied_set =~= order.to_set());
        order.unique_seq_to_set();
        self.free@.unique_seq_to_set();
        vstd::seq_lib::seq_to_set_is_finite(order);
        vstd::seq_lib::seq_to_set_is_finite(self.free@);
    }

    /// What a slot of a new store holds, whatever its index: nothing.
    fn vacant_slot(_index: usize) -> (slot: Option<Node<T>>)
        ensures
            slot is None,
    {
        None
    }

    /// Creates a new, empty list with room for `MAX_SIZE` elements.
    pub fn new() -> (list: Self)
        ensures
            list.well_formed(),
            list@ == Seq::<T>::empty(),
            list.order() == Seq::<usize>::empty(),
            list.pool().len() == MAX_SIZE,
            forall|k: int| 0 <= k < MAX_SIZE ==> list.pool()[k] == MAX_SIZE - 1 - k,
    {
        let nodes: [Option<Node<T>>; MAX_SIZE] = array_init::array_init(Self::vacant_slot);
        let mut free: Vec<usize> = Vec::new();
        let mut remaining: usize = MAX_SIZE;
        while remaining > 0
            invariant
                remaining <= MAX_SIZE,
                free@.len() == MAX_SIZE - remaining,
                forall|k: int| 0 <= k < free@.len() ==> free@[k] == MAX_SIZE - 1 - k,
            decreases remaining,
        {
            remaining -= 1;
            free.push(remaining);
        }
        let list = Self { nodes, head: None, free, length: 0 };
        proof {
            let order = Seq::<usize>::empty();
            assert forall|slot: usize| #[trigger]
                vacant(list.nodes@, slot) implies list.free@.contains(slot) by {
                assert(list.free@[MAX_SIZE - 1 - slot] == slot);
            }
            list.lemma_valid_is_well_formed(order);
        }
        list
    }

    /// The number of elements.
    pub fn len(&self) -> (length: usize)
        requires
            self.well_formed(),
        ensures
            length == self@.len(),
            length == self.spec_len(),
            length <= MAX_SIZE,
    {
        self.length
    }

    /// Takes the last slot of the free pool and stores `data` in it, linked to
    /// nothing; every other slot, the head and the cached length stay. Gives no
    /// slot, and changes nothing, when the pool is empty. The slot is not yet
    /// on the chain: the caller links it in.
    pub(crate) fn allocate_node(&mut self, data: T) -> (slot: Option<usize>)
        requires
            forall|k: int| 0 <= k < old(self).pool().len() ==> old(self).pool()[k] < MAX_SIZE,
        ensures
            final(self).head_slot() == old(self).head_slot(),
            final(self).spec_len() == old(self).spec_len(),
            slot is Some <==> old(self).pool().len() > 0,
            match slot {
                Some(index) => {
                    &&& index == old(self).pool().last()
                    &&& final(self).pool() == old(self).pool().drop_last()
                    &&& final(self).store() == old(self).store().update(
                        index as int,
                        Some(Node { data, next: None }),
                    )
                    &&& final(self).slot_element(index) == Some(data)
                    &&& final(self).slot_link(index) is None
                    &&& final(self).occupied_slots() == old(self).occupied_slots().insert(index)
                    &&& old(self).free_slots().contains(index)
                    &&& old(self).pool().no_duplicates() ==> final(self).free_slots() == old(
                        self,
                    ).free_slots().remove(index)
                    &&& forall|other: usize|
                        other != index ==> final(self).slot_element(other) == old(
                            self,
                        ).slot_element(other) && final(self).slot_link(other) == old(
                            self,
                        ).slot_link(other)
                },
                None => *final(self) == *old(self),
            },
    {
        if self.free.is_empty() {
            return None;
        }
        proof {
            assert(self.pool()[self.pool().len() - 1] < MAX_SIZE);
        }
        match self.free.pop() {
            Some(index) => {
                self.nodes[index] = Some(Node { data, next: None });
                proof {
                    let before = old(self).pool();
                    let after = self.pool();
                    if before.no_duplicates() {
                        assert forall|other: usize|
                            before.contains(other) && other != index implies after.contains(
                            other,
                        ) by {
                            let k = choose|k: int| 0 <= k < before.len() && before[k] == other;
                            assert(after[k] == other);
                        }
                    }
                }
                Some(index)
            },
            None => None,
        }
    }

    /// Empties the slot at `index` and adds it behind the last slot of the free
    /// pool; every other slot, the head and the cached length stay. The slot
    /// must no longer be on the chain: the caller has unlinked it.
    pub(crate) fn free_node(&mut self, index: usize)
        requires
            index < MAX_SIZE,
        ensures
            final(self).head_slot() == old(self).head_slot(),
            final(self).spec_len() == old(self).spec_len(),
            final(self).pool() == old(self).pool().push(index),
            final(self).store() == old(self).store().update(index as int, None),
            final(self).slot_element(index) is None,
            final(self).slot_link(index) is None,
            final(self).occupied_slots() == old(self).occupied_slots().remove(index),
            final(self).free_slots() == old(self).free_slots().insert(index),
            forall|other: usize|
                other != index ==> final(self).slot_element(other) == old(self).slot_element(
                    other,
                ) && final(self).slot_link(other) == old(self).slot_link(other),
    {
        self.nodes[index] = None;
        self.free.push(index);
        proof {
            let before = old(self).pool();
            let after = self.pool();
            assert(after[before.len() as int] == index);
            assert forall|other: usize| before.contains(other) implies after.contains(other) by {
                let k = choose|k: int| 0 <= k < before.len() && before[k] == other;
                assert(after[k] == other);
            }
        }
    }

    /// Appends `data` behind the last element. A full list stays as it is.
    pub fn insert(&mut self, data: T)
        requires
            old(self).well_formed(),
        ensures
            final(self).well_formed(),
            final(self)@ == append_bounded(old(self)@, data, MAX_SIZE as nat),
            old(self)@.len() >= MAX_SIZE ==> *final(self) == *old(self),
            old(self)@.len() < MAX_SIZE ==> {
                &&& old(self).pool().len() > 0
                &&& final(self).order() == old(self).order().push(old(self).pool().last())
                &&& final(self).pool() == old(self).pool().drop_last()
            },
    {
        let ghost order = self.order();
        let ghost slots = self.nodes@;
        let ghost pool = self.free@;
        proof {
            self.lemma_valid_is_well_formed(order);
        }
        if let Some(new_index) = self.allocate_node(data) {
            if self.head.is_none() {
                self.head = Some(new_index);
            } else {
                let mut current = self.head.unwrap();
                let ghost mut passed: int = 0;
                loop
                    invariant
                        linked(self.nodes@, self.head, order),
                        0 <= passed < order.len(),
                        current == order[passed],
                    ensures
                        passed == order.len() - 1,
                    decreases order.len() - passed,
                {
                    proof {
                        assert(self.nodes@[current as int].unwrap().next == entry(
                            order,
                            passed + 1,
                        ));
                    }
                    match self.nodes[current].as_ref().unwrap().next {
                        Some(next_index) => {
                            current = next_index;
                            proof {
                                passed = passed + 1;
                            }
                        },
                        None => {
                            break ;
                        },
                    }
                }
                self.nodes[current].as_mut().unwrap().next = Some(new_index);
            }
            self.length += 1;
            proof {
                lemma_link_in(
                    slots,
                    old(self).head,
                    pool,
                    order,
                    order.len() as int,
                    data,
                    self.nodes@,
                );
                assert(order.insert(order.len() as int, new_index) =~= order.push(new_index));
                self.lemma_valid_is_well_formed(order.push(new_index));
            }
        }
    }

    /// A clone of the element at `index`, absent when `index` is not a position.
    pub fn get(&self, index: usize) -> (value: Option<T>)
        requires
            self.well_formed(),
        ensures
            value is Some <==> index < self@.len(),
            value is Some ==> cloned(element_at(self@, index as int).unwrap(), value.unwrap()),
    {
        if index >= self.length {
            return None;
        }
        let ghost order = self.order();
        proof {
            self.lemma_valid_is_well_formed(order);
        }
        let mut current = self.head?;
        let mut passed: usize = 0;
        while passed < index
            invariant
                linked(self.nodes@, self.head, order),
                passed <= index < order.len(),
                current == order[passed as int],
            decreases index - passed,
        {
            proof {
                assert(self.nodes@[current as int].unwrap().next == entry(order, passed + 1));
            }
            current = self.nodes[current].as_ref()?.next?;
            passed += 1;
        }
        Some(self.nodes[current].as_ref()?.data.clone())
    }

    /// Removes the first element that equals `data`. Says whether there was one.
    pub fn delete_element(&mut self, data: T) -> (deleted: bool)
        requires
            old(self).well_formed(),
        ensures
            final(self).well_formed(),
            deleted ==> exists|i: int|
                {
                    &&& is_first_hit(old(self)@, data, i)
                    &&& final(self)@ == old(self)@.remove(i)
                    &&& final(self).order() == old(self).order().remove(i)
                    &&& final(self).pool() == old(self).pool().push(old(self).order()[i])
                },
            !deleted ==> is_miss(old(self)@, data) && *final(self) == *old(self),
            T::obeys_eq_spec() ==> deleted == has_match(old(self)@, data) && final(self)@
                == remove_first(old(self)@, data),
            T::obeys_eq_spec() && deleted ==> {
                let hit = first_match(old(self)@, data).unwrap();
                &&& final(self).order() == old(self).order().remove(hit)
                &&& final(self).pool() == old(self).pool().push(old(self).order()[hit])
            },
    {
        let ghost order = self.order();
        let ghost slots = self.nodes@;
        let ghost pool = self.free@;
        let ghost before = self@;
        proof {
            self.lemma_valid_is_well_formed(order);
        }
        let mut current = self.head;
        let mut prev: Option<usize> = None;
        let ghost mut passed: int = 0;
        loop
            invariant
                *self == *old(self),
                self.valid_with(order),
                order == old(self).order(),
                before == old(self)@,
                before == contents(self.nodes@, order),
                slots == self.nodes@,
                pool == self.free@,
                0 <= passed <= order.len(),
                current == entry(order, passed),
                prev == entry(order, passed - 1),
                forall|j: int| 0 <= j < passed ==> compares(#[trigger] before[j], data, false),
            decreases order.len() - passed,
        {
            match current {
                Some(idx) => {
                    let node = self.nodes[idx].as_ref().unwrap();
                    let next = node.next;
                    if node.data == data {
                        if let Some(prev_idx) = prev {
                            self.nodes[prev_idx].as_mut().unwrap().next = next;
                        } else {
                            self.head = next;
                        }
                        self.free_node(idx);
                        self.length -= 1;
                        proof {
                            lemma_unlink(slots, old(self).head, pool, order, passed, self.nodes@);
                            self.lemma_valid_is_well_formed(order.remove(passed));
                            if T::obeys_eq_spec() {
                                lemma_hit_is_first_match(before, data, passed);
                            }
                        }
                        return true;
                    }
                    prev = current;
                    current = next;
                    proof {
                        passed = passed + 1;
                    }
                },
                None => {
                    proof {
                        self.lemma_valid_is_well_formed(order);
                        if T::obeys_eq_spec() {
                            lemma_miss_has_no_match(before, data);
                        }
                    }
                    return false;
                },
            }
        }
    }

    /// Inserts `data` before the element at `index`; `index` may be the length.
    /// Any larger `index`, and any insertion into a full list, leaves the list
    /// as it is.
    pub fn insert_at_index(&mut self, index: usize, data: T)
        requires
            old(self).well_formed(),
        ensures
            final(self).well_formed(),
            final(self)@ == insert_before_bounded(old(self)@, index as int, data, MAX_SIZE as nat),
            index > old(self)@.len() || old(self)@.len() >= MAX_SIZE ==> *final(self) == *old(self),
            index <= old(self)@.len() < MAX_SIZE ==> {
                &&& old(self).pool().len() > 0
                &&& final(self).order() == old(self).order().insert(
                    index as int,
                    old(self).pool().last(),
                )
                &&& final(self).pool() == old(self).pool().drop_last()
            },
    {
        if index > self.length {
            return ;
        }
        let ghost order = self.order();
        let ghost slots = self.nodes@;
        let ghost pool = self.free@;
        proof {
            self.lemma_valid_is_well_formed(order);
        }
        if let Some(new_index) = self.allocate_node(data) {
            if index == 0 {
                self.nodes[new_index].as_mut().unwrap().next = self.head;
                self.head = Some(new_index);
            } else {
                let mut current = self.head.unwrap();
                let mut passed: usize = 0;
                while passed < index - 1
                    invariant
                        linked(self.nodes@, self.head, order),
                        passed <= index - 1 < order.len(),
                        current == order[passed as int],
                    decreases index - 1 - passed,
                {
                    proof {
                        assert(self.nodes@[current as int].unwrap().next == entry(
                            order,
                            passed + 1,
                        ));
                    }
                    current = self.nodes[current].as_ref().unwrap().next.unwrap();
                    passed += 1;
                }
                self.nodes[new_index].as_mut().unwrap().next =
                    self.nodes[current].as_ref().unwrap().next;
                self.nodes[current].as_mut().unwrap().next = Some(new_index);
            }
            self.length += 1;
            proof {
                lemma_link_in(slots, old(self).head, pool, order, index as int, data, self.nodes@);
                self.lemma_valid_is_well_formed(order.insert(index as int, new_index));
            }
        }
    }

    /// Removes the element at `index`. Says whether there was one.
    pub fn delete_at_index(&mut self, index: usize) -> (deleted: bool)
        requires
            old(self).well_formed(),
        ensures
            final(self).well_formed(),
            deleted == (index < old(self)@.len()),
            final(self)@ == remove_at(old(self)@, index as int),
            deleted ==> {
                &&& final(self).order() == old(self).order().remove(index as int)
                &&& final(self).pool() == old(self).pool().push(old(self).order()[index as int])
            },
            !deleted ==> *final(self) == *old(self),
    {
        if index >= self.length {
            return false;
        }
        let ghost order = self.order();
        let ghost slots = self.nodes@;
        let ghost pool = self.free@;
        proof {
            self.lemma_valid_is_well_formed(order);
        }
        let mut current = self.head.unwrap();
        if index == 0 {
            self.head = self.nodes[current].as_ref().unwrap().next;
            self.free_node(current);
        } else {
            let mut prev = current;
            let mut passed: usize = 0;
            while passed < index - 1
                invariant
                    linked(self.nodes@, self.head, order),
                    passed <= index - 1,
                    index < order.len(),
                    prev == order[passed as int],
                decreases index - 1 - passed,
            {
                proof {
                    assert(self.nodes@[prev as int].unwrap().next == entry(order, passed + 1));
                }
                prev = self.nodes[prev].as_ref().unwrap().next.unwrap();
                passed += 1;
            }
            proof {
                assert(self.nodes@[prev as int].unwrap().next == entry(order, index as int));
            }
            current = self.nodes[prev].as_ref().unwrap().next.unwrap();
            self.nodes[prev].as_mut().unwrap().next = self.nodes[current].as_ref().unwrap().next;
            self.free_node(current);
        }
        self.length -= 1;
        proof {
            lemma_unlink(slots, old(self).head, pool, order, index as int, self.nodes@);
            self.lemma_valid_is_well_formed(order.remove(index as int));
        }
        true
    }

    /// Replaces the first element that equals `old_data` by `new_data`. Says
    /// whether there was one.
    pub fn update_element(&mut self, old_data: T, new_data: T) -> (updated: bool)
        requires
            old(self).well_formed(),
        ensures
            final(self).well_formed(),
            updated ==> exists|i: int|
                is_first_hit(old(self)@, old_data, i) && final(self)@ == old(self)@.update(
                    i,
                    new_data,
                ),
            !updated ==> is_miss(old(self)@, old_data) && *final(self) == *old(self),
            T::obeys_eq_spec() ==> updated == has_match(old(self)@, old_data) && final(self)@
                == replace_first(old(self)@, old_data, new_data),
            final(self).order() == old(self).order(),
            final(self).pool() == old(self).pool(),
    {
        let ghost order = self.order();
        let ghost slots = self.nodes@;
        let ghost before = self@;
        proof {
            self.lemma_valid_is_well_formed(order);
        }
        let mut current = self.head;
        let ghost mut passed: int = 0;
        loop
            invariant
                *self == *old(self),
                self.valid_with(order),
                order == old(self).order(),
                before == old(self)@,
                before == contents(self.nodes@, order),
                slots == self.nodes@,
                0 <= passed <= order.len(),
                current == entry(order, passed),
                forall|j: int| 0 <= j < passed ==> compares(#[trigger] before[j], old_data, false),
            decreases order.len() - passed,
        {
            match current {
                Some(index) => {
                    if self.nodes[index].as_ref().unwrap().data == old_data {
                        self.nodes[index].as_mut().unwrap().data = new_data;
                        proof {
                            lemma_overwrite(
                                slots,
                                self.head,
                                self.free@,
                                order,
                                passed,
                                new_data,
                                self.nodes@,
                            );
                            self.lemma_valid_is_well_formed(order);
                            if T::obeys_eq_spec() {
                                lemma_hit_is_first_match(before, old_data, passed);
                            }
                        }
                        return true;
                    }
                    current = self.nodes[index].as_ref().unwrap().next;
                    proof {
                        passed = passed + 1;
                    }
                },
                None => {
                    proof {
                        self.lemma_valid_is_well_formed(order);
                        if T::obeys_eq_spec() {
                            lemma_miss_has_no_match(before, old_data);
                        }
                    }
                    return false;
                },
            }
        }
    }

    /// Replaces the element at `index` by `data`. Says whether there was one.
    pub fn update_element_at_index(&mut self, index: usize, data: T) -> (updated: bool)
        requires
            old(self).well_formed(),
        ensures
            final(self).well_formed(),
            updated == (index < old(self)@.len()),
            final(self)@ == replace_at(old(self)@, index as int, data),
            final(self).order() == old(self).order(),
            final(self).pool() == old(self).pool(),
            !updated ==> *final(self) == *old(self),
    {
        if index >= self.length {
            return false;
        }
        let ghost order = self.order();
        let ghost slots = self.nodes@;
        proof {
            self.lemma_valid_is_well_formed(order);
        }
        let mut current = self.head.unwrap();
        let mut passed: usize = 0;
        while passed < index
            invariant
                linked(self.nodes@, self.head, order),
                passed <= index < order.len(),
                current == order[passed as int],
            decreases index - passed,
        {
            proof {
                assert(self.nodes@[current as int].unwrap().next == entry(order, passed + 1));
            }
            current = self.nodes[current].as_ref().unwrap().next.unwrap();
            passed += 1;
        }
        self.nodes[current].as_mut().unwrap().data = data;
        proof {
            lemma_overwrite(slots, self.head, self.free@, order, index as int, data, self.nodes@);
            self.lemma_valid_is_well_formed(order);
        }
        true
    }

    /// Whether some element equals `data`.
    pub fn find(&self, data: T) -> (found: bool)
        requires
            self.well_formed(),
        ensures
            found ==> exists|i: int| is_first_hit(self@, data, i),
            !found ==> is_miss(self@, data),
            T::obeys_eq_spec() ==> found == has_match(self@, data),
    {
        let ghost order = self.order();
        proof {
            self.lemma_valid_is_well_formed(order);
        }
        let ghost mut passed: int = 0;
        let mut current = self.head;
        loop
            invariant
                linked(self.nodes@, self.head, order),
                self@ == contents(self.nodes@, order),
                0 <= passed <= order.len(),
                current == entry(order, passed),
                forall|j: int| 0 <= j < passed ==> compares(#[trigger] self@[j], data, false),
            decreases order.len() - passed,
        {
            match current {
                Some(index) => {
                    if self.nodes[index].as_ref().unwrap().data == data {
                        proof {
                            if T::obeys_eq_spec() {
                                lemma_hit_is_first_match(self@, data, passed);
                            }
                        }
                        return true;
                    }
                    current = self.nodes[index].as_ref().unwrap().next;
                    proof {
                        passed = passed + 1;
                    }
                },
                None => {
                    proof {
                        if T::obeys_eq_spec() {
                            lemma_miss_has_no_match(self@, data);
                        }
                    }
                    return false;
                },
            }
        }
    }
}

} // verus!
