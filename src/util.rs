use vstd::prelude::*;

verus! {

/// A list that always holds at least one element.
pub struct NonEmptyList<T> {
    pub head: T,
    pub tail: Vec<T>,
}

impl<T> View for NonEmptyList<T> {
    type V = Seq<T>;

    /// The elements in order: the head first, then the tail.
    open spec fn view(&self) -> Seq<T> {
        seq![self.head] + self.tail@
    }
}

impl<T> NonEmptyList<T> {
    /// A list whose only element is `head`.
    pub fn new(head: T) -> (r: Self)
        ensures
            r@ == seq![head],
    {
        let r = Self { head, tail: Vec::new() };
        assert(r@ =~= seq![head]);
        r
    }

    /// The number of elements; never zero.
    pub fn len(&self) -> (r: usize)
        requires
            self.tail@.len() < usize::MAX,
        ensures
            r == self@.len(),
            r >= 1,
    {
        self.tail.len() + 1
    }

    /// The element at `i`.
    pub fn get(&self, i: usize) -> (r: &T)
        requires
            i < self@.len(),
        ensures
            *r == self@[i as int],
    {
        if i == 0 {
            &self.head
        } else {
            &self.tail[i - 1]
        }
    }

    /// References to the elements, in order.
    pub fn iter(&self) -> (r: Vec<&T>)
        ensures
            r@.len() == self@.len(),
            forall|i: int| 0 <= i < r@.len() ==> *r@[i] == self@[i],
    {
        let mut r: Vec<&T> = Vec::new();
        r.push(&self.head);
        let mut i: usize = 0;
        while i < self.tail.len()
            invariant
                i <= self.tail@.len(),
                r@.len() == i + 1,
                *r@[0] == self.head,
                forall|j: int| 1 <= j < r@.len() ==> *r@[j] == self.tail@[j - 1],
            decreases self.tail@.len() - i,
        {
            r.push(&self.tail[i]);
            i = i + 1;
        }
        r
    }

    /// A mutable reference to the element at `i`.
    pub fn get_mut(&mut self, i: usize) -> (r: &mut T)
        requires
            i < old(self)@.len(),
        ensures
            *r == old(self)@[i as int],
            final(self)@ == old(self)@.update(i as int, *final(r)),
    {
        if i == 0 {
            &mut self.head
        } else {
            &mut self.tail[i - 1]
        }
    }

    /// Insert `element` as the new head; the previous head becomes the
    /// first element of the tail.
    pub fn prepend(&mut self, element: T)
        ensures
            final(self)@ == seq![element] + old(self)@,
    {
        let mut previous = element;
        std::mem::swap(&mut self.head, &mut previous);
        self.tail.insert(0, previous);
        assert(final(self)@ =~= seq![element] + old(self)@);
    }
}

/// The edit mode of a part of the editor.
#[derive(Clone, Copy, PartialEq, Eq, Structural, Debug)]
pub enum EditMode {
    View,
    Edit,
    Delete,
}

impl Default for EditMode {
    fn default() -> (r: Self)
        ensures
            r == EditMode::View,
    {
        EditMode::View
    }
}

impl EditMode {
    /// Whether the mode is `View`.
    pub fn is_view(&self) -> (r: bool)
        ensures
            r == (*self == EditMode::View),
    {
        matches!(self, EditMode::View)
    }

    /// Whether the mode is `Edit`.
    pub fn is_edit(&self) -> (r: bool)
        ensures
            r == (*self == EditMode::Edit),
    {
        matches!(self, EditMode::Edit)
    }

    /// Whether the mode is `Delete`.
    pub fn is_delete(&self) -> (r: bool)
        ensures
            r == (*self == EditMode::Delete),
    {
        matches!(self, EditMode::Delete)
    }
}

/// A move of one item of a list to another position, as made by dragging
/// an item and dropping it in front of the item at `to_index` (or at the
/// end when `to_index` is the length of the list).
pub struct Reordering {
    pub from_index: usize,
    pub to_index: usize,
}

/// The list after moving the item at `from` so that it lands in front of
/// the item that stood at `to` (at the end when `to == s.len()`).
pub open spec fn reordered<T>(s: Seq<T>, from: int, to: int) -> Seq<T> {
    let target = if to <= from { to } else { to - 1 };
    s.remove(from).insert(target, s[from])
}

impl Reordering {
    /// Move the item as the reordering says.
    pub fn apply<T>(&self, list: &mut Vec<T>)
        requires
            self.from_index < old(list)@.len(),
            self.to_index <= old(list)@.len(),
        ensures
            final(list)@ == reordered(old(list)@, self.from_index as int, self.to_index as int),
    {
        let moved_item = list.remove(self.from_index);
        let to_index = if self.to_index <= self.from_index {
            self.to_index
        } else {
            self.to_index - 1
        };
        list.insert(to_index, moved_item);
    }
}

} // verus!
