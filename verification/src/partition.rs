use vstd::prelude::*;

verus! {

/// Every element of a sequence but one, in the order of the sequence: those
/// before the one left out, then those after it.
pub struct Others<'a, T> {
    pub before: &'a [T],
    pub after: &'a [T],
}

impl<'a, T> View for Others<'a, T> {
    type V = Seq<T>;

    open spec fn view(&self) -> Seq<T> {
        self.before@ + self.after@
    }
}

impl<'a, T> Others<'a, T> {
    pub fn len(&self) -> (n: usize)
        requires
            self@.len() <= usize::MAX,
        ensures
            n == self@.len(),
    {
        self.before.len() + self.after.len()
    }

    pub fn get(&self, k: usize) -> (item: &'a T)
        requires
            k < self@.len(),
        ensures
            *item == self@[k as int],
    {
        if k < self.before.len() {
            &self.before[k]
        } else {
            &self.after[k - self.before.len()]
        }
    }
}

/// Splits `items` around position `i`: the element at `i` comes back as an
/// exclusive reference, the elements before it and the elements after it as
/// two slices that keep their order.
pub fn split_bodies<'a, T>(items: &'a mut [T], i: usize) -> (parts: (&'a mut T, Others<'a, T>))
    requires
        i < old(items)@.len(),
    ensures
        *parts.0 == old(items)@[i as int],
        parts.1.before@ == old(items)@.subrange(0, i as int),
        parts.1.after@ == old(items)@.subrange(i + 1, old(items)@.len() as int),
        final(items)@ == old(items)@.update(i as int, *final(parts.0)),
{
    let (before, rest) = items.split_at_mut(i);
    let (one, after) = rest.split_at_mut(1);
    let center = &mut one[0];
    (center, Others { before: &*before, after: &*after })
}

} // verus!
