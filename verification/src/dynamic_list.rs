//! The node-chained list: every element lives in a node of its own, and each
//! node owns the rest of the list.
use crate::model::{
    append, compares, element_at, has_match, insert_before, is_first_hit, is_miss,
    lemma_hit_is_first_match, lemma_miss_has_no_match, remove_at, remove_first, replace_at,
    replace_first,
};
use vstd::prelude::*;
use vstd::std_specs::cmp::PartialEqSpec;

verus! {

struct LinkedListNode<T> {
    data: T,
    next: Option<Box<LinkedListNode<T>>>,
}

/// A singly-linked list of owned nodes with a cached length.
pub struct DynamicLinkedList<T> {
    head: Option<Box<LinkedListNode<T>>>,
    length: usize,
}

/// The elements met by following the links from `link` to the end.
spec fn chain<T>(link: Option<Box<LinkedListNode<T>>>) -> Seq<T>
    decreases link,
{
    match link {
        None => Seq::empty(),
        Some(node) => seq![node.data] + chain(node.next),
    }
}

/// The elements from a borrowed node to the end.
spec fn tail<T>(current: Option<&Box<LinkedListNode<T>>>) -> Seq<T> {
    match current {
        Some(node) => chain(Some(*node)),
        None => Seq::empty(),
    }
}

/// Moving the first element of what is ahead to the end of what is behind
/// leaves the whole as it is.
proof fn lemma_pass_one<T>(behind: Seq<T>, item: T, ahead: Seq<T>)
    ensures
        behind.push(item) + ahead == behind + (seq![item] + ahead),
{
}

/// Two chains that hold the same elements in the same order are the same.
proof fn lemma_chain_tells_link<T>(
    one: Option<Box<LinkedListNode<T>>>,
    other: Option<Box<LinkedListNode<T>>>,
)
    requires
        chain(one) == chain(other),
    ensures
        one == other,
    decreases one,
{
    match (one, other) {
        (Some(first), Some(second)) => {
            assert(chain(one)[0] == first.data);
            assert(chain(first.next) =~= chain(one).skip(1));
            assert(chain(second.next) =~= chain(other).skip(1));
            lemma_chain_tells_link(first.next, second.next);
        },
        _ => {},
    }
}

impl<T> View for DynamicLinkedList<T> {
    type V = Seq<T>;

    /// The elements reachable from the head, in list order. The cached
    /// length is not part of it: `spec_len` names it, and in a well-formed
    /// list it is the number of these elements, so that the elements tell the
    /// whole list (`lemma_elements_tell_list`).
    closed spec fn view(&self) -> Seq<T> {
        chain(self.head)
    }
}

impl<T> DynamicLinkedList<T> {
    /// The cached length.
    pub closed spec fn spec_len(&self) -> nat {
        self.length as nat
    }

    /// The cached length is the number of nodes reachable from the head.
    pub closed spec fn well_formed(&self) -> bool {
        self.length == chain(self.head).len()
    }

    /// A well-formed list is told in full by its elements: two with the same
    /// elements in the same order are equal, cached length included.
    pub proof fn lemma_elements_tell_list(one: Self, other: Self)
        requires
            one.well_formed(),
            other.well_formed(),
            one@ == other@,
        ensures
            one == other,
    {
        lemma_chain_tells_link(one.head, other.head);
    }

    /// In a well-formed list the cached length counts exactly the elements
    /// that a traversal from the head meets.
    pub proof fn lemma_length_counts_reachable(&self)
        requires
            self.well_formed(),
        ensures
            self.spec_len() == self@.len(),
            self@.len() <= usize::MAX,
    {
    }
}

impl<T: PartialEq + Clone> DynamicLinkedList<T> {
    /// The link that leads to the node at `index`: the head for 0, else the
    /// `next` of the node before. What is written through it becomes the rest
    /// of the list from `index` on.
    fn link_at(head: &mut Option<Box<LinkedListNode<T>>>, index: usize) -> (link: &mut Option<
        Box<LinkedListNode<T>>,
    >)
        requires
            index <= chain(*old(head)).len(),
        ensures
            chain(*link) == chain(*old(head)).skip(index as int),
            chain(*final(head)) == chain(*old(head)).take(index as int) + chain(*final(link)),
    {
        let ghost before = chain(*head);
        let ghost mut prefix: Seq<T> = Seq::empty();
        let mut passed: usize = 0;
        let mut current = head;
        while passed < index
            invariant
                passed <= index <= before.len(),
                prefix.len() == passed,
                before == prefix + chain(*current),
                chain(*final(head)) == prefix + chain(*final(current)),
            decreases index - passed,
        {
            let ghost item = current.unwrap().data;
            current = &mut current.as_mut().unwrap().next;
            proof {
                lemma_pass_one(prefix, item, chain(*final(current)));
                lemma_pass_one(prefix, item, chain(*current));
                prefix = prefix.push(item);
            }
            passed += 1;
        }
        current
    }

    /// Creates a new, empty linked list.
    pub fn new() -> (list: Self)
        ensures
            list.well_formed(),
            list@ == Seq::<T>::empty(),
    {
        Self { head: None, length: 0 }
    }

    /// The number of elements.
    pub fn len(&self) -> (length: usize)
        requires
            self.well_formed(),
        ensures
            length == self@.len(),
            length == self.spec_len(),
    {
        self.length
    }

    /// Appends `data` behind the last element.
    pub fn insert(&mut self, data: T)
        requires
            old(self).well_formed(),
            old(self)@.len() < usize::MAX,
        ensures
            final(self).well_formed(),
            final(self)@ == append(old(self)@, data),
    {
        let ghost before = chain(self.head);
        let ghost mut prefix: Seq<T> = Seq::empty();
        let mut current = &mut self.head;
        loop
            invariant
                before == prefix + chain(*current),
                chain(after_borrow(self.head)) == prefix + chain(*final(current)),
            ensures
                *current is None,
            decreases chain(*current).len(),
        {
            match current {
                Some(node) => {
                    let ghost item = node.data;
                    current = &mut node.next;
                    proof {
                        lemma_pass_one(prefix, item, chain(*final(current)));
                        lemma_pass_one(prefix, item, chain(*current));
                        prefix = prefix.push(item);
                    }
                },
                None => {
                    break ;
                },
            }
        }
        *current = Some(Box::new(LinkedListNode { data, next: None }));
        self.length += 1;
    }

    /// A clone of the element at `index`, absent when `index` is not a position.
    pub fn get(&self, index: usize) -> (value: Option<T>)
        requires
            self.well_formed(),
        ensures
            value is Some <==> index < self@.len(),
            value is Some ==> cloned(element_at(self@, index as int).unwrap(), value.unwrap()),
    {
        if index >= self.length {
            return None;
        }
        let mut current = self.head.as_ref();
        let mut passed: usize = 0;
        while passed < index
            invariant
                passed <= index < self@.len(),
                self@.skip(passed as int) == tail(current),
            decreases index - passed,
        {
            let node = current?;
            proof {
                assert(chain(node.next) =~= tail(current).skip(1));
            }
            current = node.next.as_ref();
            passed += 1;
        }
        proof {
            assert(self@.skip(index as int)[0] == self@[index as int]);
        }
        match current {
            Some(node) => Some(node.data.clone()),
            None => None,
        }
    }

    /// Inserts `data` before the element at `index`; `index` may be the length.
    /// Any larger `index` leaves the list as it is.
    pub fn insert_at_index(&mut self, index: usize, data: T)
        requires
            old(self).well_formed(),
            index <= old(self)@.len() ==> old(self)@.len() < usize::MAX,
        ensures
            final(self).well_formed(),
            final(self)@ == insert_before(old(self)@, index as int, data),
            index > old(self)@.len() ==> *final(self) == *old(self),
    {
        if index > self.length {
            return ;
        }
        let link = Self::link_at(&mut self.head, index);
        let following = link.take();
        *link = Some(Box::new(LinkedListNode { data, next: following }));
        self.length += 1;
    }

    /// Removes the first element that equals `data`. Says whether there was one.
    pub fn delete_element(&mut self, data: T) -> (deleted: bool)
        requires
            old(self).well_formed(),
        ensures
            final(self).well_formed(),
            deleted ==> exists|i: int|
                is_first_hit(old(self)@, data, i) && final(self)@ == old(self)@.remove(i),
            !deleted ==> is_miss(old(self)@, data) && *final(self) == *old(self),
            T::obeys_eq_spec() ==> deleted == has_match(old(self)@, data) && final(self)@
                == remove_first(old(self)@, data),
    {
        let ghost before = chain(self.head);
        let ghost mut prefix: Seq<T> = Seq::empty();
        let mut found = false;
        let mut current = &mut self.head;
        loop
            invariant_except_break
                !found,
                before == prefix + chain(*current),
                chain(after_borrow(self.head)) == prefix + chain(*final(current)),
                forall|j: int|
                    0 <= j < prefix.len() ==> compares(#[trigger] before[j], data, false),
            ensures
                found ==> is_first_hit(before, data, prefix.len() as int) && chain(
                    after_borrow(self.head),
                ) == before.remove(prefix.len() as int),
                !found ==> is_miss(before, data) && chain(after_borrow(self.head)) == before,
            decreases chain(*current).len(),
        {
            match current.take() {
                Some(mut boxed_node) => {
                    let ghost item = boxed_node.data;
                    if boxed_node.data == data {
                        *current = boxed_node.next.take();
                        found = true;
                        break ;
                    }
                    *current = Some(boxed_node);
                    current = &mut current.as_mut().unwrap().next;
                    proof {
                        lemma_pass_one(prefix, item, chain(*final(current)));
                        lemma_pass_one(prefix, item, chain(*current));
                        prefix = prefix.push(item);
                    }
                },
                None => {
                    break ;
                },
            }
        }
        proof {
            if T::obeys_eq_spec() {
                if found {
                    lemma_hit_is_first_match(before, data, prefix.len() as int);
                } else {
                    lemma_miss_has_no_match(before, data);
                }
            }
        }
        if found {
            self.length -= 1;
        }
        proof {
            if found {
                assert(is_first_hit(old(self)@, data, prefix.len() as int) && self@ == old(
                    self,
                )@.remove(prefix.len() as int));
            } else {
                lemma_chain_tells_link(self.head, old(self).head);
            }
        }
        found
    }

    /// Removes the element at `index`. Says whether there was one.
    pub fn delete_at_index(&mut self, index: usize) -> (deleted: bool)
        requires
            old(self).well_formed(),
        ensures
            final(self).well_formed(),
            deleted == (index < old(self)@.len()),
            final(self)@ == remove_at(old(self)@, index as int),
            !deleted ==> *final(self) == *old(self),
    {
        if index >= self.length {
            return false;
        }
        let ghost before = chain(self.head);
        let link = Self::link_at(&mut self.head, index);
        let ghost rest = chain(link.unwrap().next);
        proof {
            assert(rest =~= before.skip(index as int).skip(1));
        }
        let next = link.as_mut().unwrap().next.take();
        *link = next;
        self.length -= 1;
        true
    }

    /// Replaces the first element that equals `old_data` by `new_data`. Says
    /// whether there was one.
    pub fn update_element(&mut self, old_data: T, new_data: T) -> (updated: bool)
        requires
            old(self).well_formed(),
        ensures
            final(self).well_formed(),
            updated ==> exists|i: int|
                is_first_hit(old(self)@, old_data, i) && final(self)@ == old(self)@.update(
                    i,
                    new_data,
                ),
            !updated ==> is_miss(old(self)@, old_data) && *final(self) == *old(self),
            T::obeys_eq_spec() ==> updated == has_match(old(self)@, old_data) && final(self)@
                == replace_first(old(self)@, old_data, new_data),
    {
        let ghost before = chain(self.head);
        let ghost mut prefix: Seq<T> = Seq::empty();
        let mut current = &mut self.head;
        loop
            invariant
                before == old(self)@,
                before.len() == self.length,
                self.length == old(self).length,
                before == prefix + chain(*current),
                chain(after_borrow(self.head)) == prefix + chain(*final(current)),
                forall|j: int|
                    0 <= j < prefix.len() ==> compares(#[trigger] before[j], old_data, false),
            decreases chain(*current).len(),
        {
            let ghost whole = *final(current);
            match current {
                Some(node) => {
                    let ghost item = node.data;
                    if node.data == old_data {
                        node.data = new_data;
                        proof {
                            assert(prefix + chain(whole) =~= before.update(
                                prefix.len() as int,
                                new_data,
                            ));
                            if T::obeys_eq_spec() {
                                lemma_hit_is_first_match(before, old_data, prefix.len() as int);
                            }
                        }
                        return true;
                    }
                    current = &mut node.next;
                    proof {
                        lemma_pass_one(prefix, item, chain(*final(current)));
                        lemma_pass_one(prefix, item, chain(*current));
                        prefix = prefix.push(item);
                    }
                },
                None => {
                    proof {
                        lemma_chain_tells_link(after_borrow(self.head), old(self).head);
                        if T::obeys_eq_spec() {
                            lemma_miss_has_no_match(before, old_data);
                        }
                    }
                    return false;
                },
            }
        }
    }

    /// Replaces the element at `index` by `data`. Says whether there was one.
    pub fn update_element_at_index(&mut self, index: usize, data: T) -> (updated: bool)
        requires
            old(self).well_formed(),
        ensures
            final(self).well_formed(),
            updated == (index < old(self)@.len()),
            final(self)@ == replace_at(old(self)@, index as int, data),
            !updated ==> *final(self) == *old(self),
    {
        if index >= self.length {
            return false;
        }
        let ghost before = chain(self.head);
        let link = Self::link_at(&mut self.head, index);
        let ghost rest = chain(link.unwrap().next);
        proof {
            assert(rest =~= before.skip(index as int).skip(1));
        }
        link.as_mut().unwrap().data = data;
        true
    }

    /// Whether some element equals `data`.
    pub fn find(&self, data: T) -> (found: bool)
        requires
            self.well_formed(),
        ensures
            found ==> exists|i: int| is_first_hit(self@, data, i),
            !found ==> is_miss(self@, data),
            T::obeys_eq_spec() ==> found == has_match(self@, data),
    {
        let mut current = self.head.as_ref();
        let ghost mut seen: Seq<T> = Seq::empty();
        loop
            invariant
                self@ == seen + tail(current),
                forall|j: int| 0 <= j < seen.len() ==> compares(#[trigger] self@[j], data, false),
            decreases tail(current).len(),
        {
            match current {
                Some(node) => {
                    if node.data == data {
                        proof {
                            if T::obeys_eq_spec() {
                                lemma_hit_is_first_match(self@, data, seen.len() as int);
                            }
                        }
                        return true;
                    }
                    proof {
                        lemma_pass_one(seen, node.data, chain(node.next));
                        seen = seen.push(node.data);
                    }
                    current = node.next.as_ref();
                },
                None => {
                    proof {
                        if T::obeys_eq_spec() {
                            lemma_miss_has_no_match(self@, data);
                        }
                    }
                    return false;
                },
            }
        }
    }
}

} // verus!
