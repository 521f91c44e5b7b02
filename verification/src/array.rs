use vstd::prelude::*;

verus! {

/// A sequence of at most `N` values kept in place.
pub struct Array<T: Copy + Default, const N: usize> {
    data: [T; N],
    index: usize,
}

impl<T: Copy + Default, const N: usize> Copy for Array<T, N> {

}

impl<T: Copy + Default, const N: usize> Clone for Array<T, N> {
    fn clone(&self) -> (r: Self)
        ensures
            r == *self,
    {
        *self
    }
}

impl<T: Copy + Default, const N: usize> View for Array<T, N> {
    type V = Seq<T>;

    /// The values pushed and not removed, oldest first.
    closed spec fn view(&self) -> Seq<T> {
        self.data@.subrange(0, self.index as int)
    }
}

impl<T: Copy + Default, const N: usize> Array<T, N> {
    #[verifier::type_invariant]
    closed spec fn inv(self) -> bool {
        self.index <= N
    }

    /// An empty array.
    pub fn new() -> (r: Self)
        ensures
            r@ == Seq::<T>::empty(),
    {
        Array { data: [T::default(); N], index: 0 }
    }

    /// Forgets all values.
    pub fn clear(&mut self)
        ensures
            final(self)@ == Seq::<T>::empty(),
    {
        self.index = 0;
    }

    /// The value at place `index`, if there is one.
    pub fn get(&self, index: usize) -> (r: Option<T>)
        ensures
            r == if index < self@.len() { Some(self@[index as int]) } else { None },
    {
        proof {
            use_type_invariant(self);
        }
        if index >= self.index {
            None
        } else {
            Some(self.data[index])
        }
    }

    /// Puts `value` behind the others, where there is room for it.
    pub fn push(&mut self, value: T)
        requires
            old(self)@.len() < N,
        ensures
            final(self)@ == old(self)@.push(value),
    {
        proof {
            use_type_invariant(&*self);
        }
        self.data[self.index] = value;
        self.index += 1;
        assert(self.data@.subrange(0, self.index as int) =~= old(self)@.push(value));
    }

    /// Removes the value at `pos`; the values behind it move one place down.
    pub fn remove(&mut self, pos: usize)
        requires
            pos < old(self)@.len(),
        ensures
            final(self)@ == old(self)@.remove(pos as int),
    {
        proof {
            use_type_invariant(&*self);
        }
        let mut i: usize = pos + 1;
        while i < self.index
            invariant
                pos < i <= self.index <= N,
                self.index == old(self).index,
                forall|k: int| 0 <= k < pos ==> self.data@[k] == old(self).data@[k],
                forall|k: int| pos <= k < i - 1 ==> self.data@[k] == old(self).data@[k + 1],
                forall|k: int| i - 1 <= k < N ==> self.data@[k] == old(self).data@[k],
            decreases self.index - i,
        {
            let moved = self.data[i];
            self.data[i - 1] = moved;
            i += 1;
        }
        self.index -= 1;
        assert(self.data@.subrange(0, self.index as int) =~= old(self)@.remove(pos as int));
    }

    /// The values, oldest first.
    pub fn iter(&self) -> (r: Vec<T>)
        ensures
            r@ == self@,
    {
        proof {
            use_type_invariant(self);
        }
        let mut values: Vec<T> = Vec::new();
        let mut i: usize = 0;
        while i < self.index
            invariant
                i <= self.index <= N,
                values@ == self.data@.subrange(0, i as int),
            decreases self.index - i,
        {
            values.push(self.data[i]);
            i += 1;
            assert(values@ =~= self.data@.subrange(0, i as int));
        }
        values
    }

    /// How many values the array holds.
    pub fn len(&self) -> (r: usize)
        ensures
            r == self@.len(),
            r <= N,
    {
        proof {
            use_type_invariant(self);
        }
        self.index
    }
}

impl<T: Copy + Default, const N: usize> Default for Array<T, N> {
    fn default() -> (r: Self)
        ensures
            r@ == Seq::<T>::empty(),
    {
        Array::new()
    }
}

} // verus!
