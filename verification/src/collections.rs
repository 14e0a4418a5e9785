//! Ordered collections without duplicates, for keys that are compared by their view.

use vstd::prelude::*;

verus! {

/// A key: something that can be compared and copied by its view.
pub trait Ident: View + Sized {
    /// Whether two keys stand for the same thing.
    fn same(&self, other: &Self) -> (r: bool)
        ensures
            r == (self@ == other@),
    ;

    /// A copy of the key.
    fn dup(&self) -> (r: Self)
        ensures
            r@ == self@,
    ;
}

impl Ident for String {
    fn same(&self, other: &Self) -> (r: bool) {
        *self == *other
    }

    fn dup(&self) -> (r: Self) {
        self.clone()
    }
}

/// A set that remembers the order in which its members were added.
pub struct KeySet<T: Ident> {
    items: Vec<T>,
}

impl<T: Ident> View for KeySet<T> {
    type V = Seq<T::V>;

    /// The members, oldest first.
    closed spec fn view(&self) -> Seq<T::V> {
        Seq::new(self.items@.len(), |i: int| self.items@[i]@)
    }
}

impl<T: Ident> KeySet<T> {
    /// No member occurs twice.
    pub open spec fn wf(&self) -> bool {
        self@.no_duplicates()
    }

    /// The empty set.
    pub fn new() -> (s: KeySet<T>)
        ensures
            s@ == Seq::<T::V>::empty(),
            s.wf(),
    {
        let s: KeySet<T> = KeySet { items: Vec::new() };
        assert(s@ =~= Seq::<T::V>::empty());
        s
    }

    /// How many members there are.
    pub fn len(&self) -> (n: usize)
        ensures
            n == self@.len(),
    {
        self.items.len()
    }

    /// The `i`-th member in the order of addition.
    pub fn get(&self, i: usize) -> (item: &T)
        requires
            i < self@.len(),
        ensures
            item@ == self@[i as int],
    {
        &self.items[i]
    }

    /// The position of `item`, if it is a member.
    fn position(&self, item: &T) -> (at: Option<usize>)
        ensures
            match at {
                Some(i) => i < self@.len() && self@[i as int] == item@ && forall|j: int|
                    0 <= j < i ==> #[trigger] self@[j] != item@,
                None => !self@.contains(item@),
            },
    {
        let mut i: usize = 0;
        while i < self.items.len()
            invariant
                i <= self@.len(),
                self@.len() == self.items@.len(),
                forall|j: int| 0 <= j < i ==> #[trigger] self@[j] != item@,
            decreases self.items@.len() - i,
        {
            if self.items[i].same(item) {
                assert(self@[i as int] == item@);
                return Some(i);
            }
            assert(self@[i as int] == self.items@[i as int]@);
            i += 1;
        }
        None
    }

    /// Whether `item` is a member.
    pub fn contains(&self, item: &T) -> (r: bool)
        ensures
            r == self@.contains(item@),
    {
        match self.position(item) {
            Some(i) => {
                assert(self@[i as int] == item@);
                true
            },
            None => false,
        }
    }

    /// Adds `item` at the end unless it is a member already; says whether it was added.
    pub fn insert(&mut self, item: T) -> (added: bool)
        requires
            old(self).wf(),
        ensures
            final(self).wf(),
            added == !old(self)@.contains(item@),
            final(self)@ == if added {
                old(self)@.push(item@)
            } else {
                old(self)@
            },
    {
        if self.contains(&item) {
            return false;
        }
        let ghost v: T::V = item@;
        self.items.push(item);
        assert(self@ =~= old(self)@.push(v));
        true
    }

    /// Removes `item`, keeping the order of the others; says whether it was a member.
    pub fn remove(&mut self, item: &T) -> (removed: bool)
        requires
            old(self).wf(),
        ensures
            final(self).wf(),
            removed == old(self)@.contains(item@),
            final(self)@ == old(self)@.remove_value(item@),
    {
        match self.position(item) {
            Some(i) => {
                let _ = self.items.remove(i);
                proof {
                    let was: Seq<T::V> = old(self)@;
                    assert(self@ =~= was.remove(i as int));
                    was.index_of_first_ensures(item@);
                    assert(was[i as int] == item@);
                    assert(was.index_of_first(item@) == Some(i as int));
                }
                true
            },
            None => {
                proof {
                    old(self)@.index_of_first_ensures(item@);
                }
                false
            },
        }
    }
}

} // verus!
