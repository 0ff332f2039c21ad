use vstd::prelude::*;

verus! {

/// A fixed-capacity double-ended queue of at most `N` values of type
/// `T`. Backed by a ring buffer, so values can be pushed and popped from
/// either the front or the back without shifting the rest of the elements.
#[derive(Clone, Copy)]
pub struct ConstList<T, const N: usize> where T: Copy {
    values: [Option<T>; N],
    /// Physical index of the front-most element (meaningless when `len == 0`).
    start: usize,
    len: usize,
}

impl<T, const N: usize> View for ConstList<T, N> where T: Copy {
    type V = Seq<T>;

    /// The stored values, front to back.
    closed spec fn view(&self) -> Seq<T> {
        Seq::new(self.len as nat, |i: int| self.values@[Self::slot_from(self.start as int, i)]->0)
    }
}

impl<T, const N: usize> ConstList<T, N> where T: Copy {
    /// Physical slot of the logical index `i`, wrapping around the end of
    /// the backing array.
    closed spec fn slot_from(start: int, i: int) -> int {
        if start + i < N {
            start + i
        } else {
            start + i - N
        }
    }

    /// The list's internal consistency: the length fits the capacity, the
    /// front slot is in range and every logical index holds a value.
    pub closed spec fn wf(&self) -> bool {
        &&& self.len <= N
        &&& (self.start < N || N == 0)
        &&& forall|i: int| 0 <= i < self.len ==> (#[trigger] self.values@[Self::slot_from(self.start as int, i)]) is Some
    }

    /// A list never holds more values than its capacity: `new` makes a
    /// consistent list, every operation keeps it consistent, and a
    /// consistent list holds at most `N` values.
    pub proof fn lemma_len_at_most_capacity(&self)
        requires
            self.wf(),
        ensures
            self@.len() <= N,
    {
    }

    /// The backing array, slot by slot.
    pub closed spec fn spec_slots(&self) -> Seq<Option<T>> {
        self.values@
    }

    /// Creates an empty list with capacity `N`.
    pub fn new() -> (r: Self)
        ensures
            r.wf(),
            r@ == Seq::<T>::empty(),
            r.spec_slots() == Seq::new(N as nat, |i: int| None::<T>),
    {
        let r = Self { values: [None;N], start: 0, len: 0 };
        assert(r@ =~= Seq::<T>::empty());
        assert(r.spec_slots() =~= Seq::new(N as nat, |i: int| None::<T>));
        r
    }

    /// Returns the number of values currently stored in the list, i.e.
    /// its current length, not its fixed capacity `N`.
    #[allow(unused)]
    pub fn len(&self) -> (r: usize)
        requires
            self.wf(),
        ensures
            r == self@.len(),
            r <= N,
    {
        self.len
    }

    /// The backing array, including slots that hold no value of the list.
    pub fn slots(&self) -> (r: &[Option<T>; N])
        ensures
            r@ == self.spec_slots(),
    {
        &self.values
    }

    /// The value at logical index `index` (`0` = front), if there is one.
    pub fn get(&self, index: usize) -> (r: Option<T>)
        requires
            self.wf(),
        ensures
            r == (if index < self@.len() { Some(self@[index as int]) } else { None }),
    {
        if index < self.len {
            let phys = self.physical_index(index);
            self.values[phys]
        } else {
            None
        }
    }

    /// Maps a logical index (`0` = front) to its physical slot in
    /// `values`.
    fn physical_index(&self, index: usize) -> (r: usize)
        requires
            self.wf(),
            index < N,
        ensures
            r == Self::slot_from(self.start as int, index as int),
            r < N,
    {
        if index < N - self.start {
            self.start + index
        } else {
            index - (N - self.start)
        }
    }

    /// Appends `value` to the back of the list.
    pub fn push_back(&mut self, value: T)
        requires
            old(self).wf(),
            old(self)@.len() < N,
        ensures
            final(self).wf(),
            final(self)@ == old(self)@.push(value),
    {
        let phys = self.physical_index(self.len);
        self.values[phys] = Some(value);
        self.len += 1;
        assert forall|i: int| 0 <= i < self.len implies (#[trigger] self.values@[Self::slot_from(self.start as int, i)]) is Some
            && (i < old(self).len ==> self.values@[Self::slot_from(self.start as int, i)] == old(self).values@[Self::slot_from(old(self).start as int, i)]) by {
            if i < old(self).len {
                assert(Self::slot_from(self.start as int, i) != Self::slot_from(self.start as int, old(self).len as int));
                assert(old(self).values@[Self::slot_from(old(self).start as int, i)] is Some);
            } else {
                assert(Self::slot_from(self.start as int, i) == phys);
            }
        }
        assert(self@ =~= old(self)@.push(value));
    }

    /// Prepends `value` to the front of the list.
    #[allow(unused)]
    pub fn push_front(&mut self, value: T)
        requires
            old(self).wf(),
            old(self)@.len() < N,
        ensures
            final(self).wf(),
            final(self)@ == seq![value] + old(self)@,
    {
        let new_start = if self.start == 0 {
            N - 1
        } else {
            self.start - 1
        };
        self.values[new_start] = Some(value);
        self.start = new_start;
        self.len += 1;
        assert forall|i: int| 0 <= i < self.len implies (#[trigger] self.values@[Self::slot_from(self.start as int, i)]) is Some
            && (0 < i ==> self.values@[Self::slot_from(self.start as int, i)] == old(self).values@[Self::slot_from(old(self).start as int, i - 1)]) by {
            if 0 < i {
                assert(Self::slot_from(self.start as int, i) == Self::slot_from(old(self).start as int, i - 1));
                assert(Self::slot_from(old(self).start as int, i - 1) != new_start);
            }
        }
        assert(self@ =~= seq![value] + old(self)@);
    }

    /// Removes and returns the value at the back of the list, or
    /// `None` if the list is empty.
    #[allow(unused)]
    pub fn pop_back(&mut self) -> (r: Option<T>)
        requires
            old(self).wf(),
        ensures
            final(self).wf(),
            old(self)@.len() == 0 ==> r is None && final(self)@ == old(self)@,
            old(self)@.len() > 0 ==> r == Some(old(self)@.last()) && final(self)@
                == old(self)@.drop_last(),
    {
        if self.len == 0 {
            None
        } else {
            let phys = self.physical_index(self.len - 1);
            self.len -= 1;
            assert forall|i: int| 0 <= i < self.len implies (#[trigger] self.values@[Self::slot_from(self.start as int, i)]) is Some by {
                assert(Self::slot_from(self.start as int, i) == Self::slot_from(old(self).start as int, i));
            }
            assert(self@ =~= old(self)@.drop_last());
            self.values[phys]
        }
    }

    /// Removes and returns the value at the front of the list, or
    /// `None` if the list is empty.
    pub fn pop_front(&mut self) -> (r: Option<T>)
        requires
            old(self).wf(),
        ensures
            final(self).wf(),
            old(self)@.len() == 0 ==> r is None && final(self)@ == old(self)@,
            old(self)@.len() > 0 ==> r == Some(old(self)@[0]) && final(self)@
                == old(self)@.drop_first(),
    {
        if self.len == 0 {
            None
        } else {
            let value = self.values[self.start];
            self.len -= 1;
            self.start = if self.start + 1 == N {
                0
            } else {
                self.start + 1
            };
            assert forall|i: int| 0 <= i < self.len implies (#[trigger] self.values@[Self::slot_from(self.start as int, i)]) is Some
                && self.values@[Self::slot_from(self.start as int, i)] == old(self).values@[Self::slot_from(old(self).start as int, i + 1)] by {
                assert(Self::slot_from(self.start as int, i) == Self::slot_from(old(self).start as int, i + 1));
            }
            assert(old(self).values@[Self::slot_from(old(self).start as int, 0)] is Some);
            assert(self@ =~= old(self)@.drop_first());
            value
        }
    }

    /// Appends every value from `other` to the back of `self`, front to
    /// back.
    pub fn extend(&mut self, other: Self)
        requires
            old(self).wf(),
            other.wf(),
            old(self)@.len() + other@.len() <= N,
        ensures
            final(self).wf(),
            final(self)@ == old(self)@ + other@,
    {
        let mut i: usize = 0;
        while i < other.len
            invariant
                i <= other@.len(),
                other.wf(),
                old(self).wf(),
                self.len + other.len <= N,
                self.start == old(self).start,
                self.wf(),
                self.len == old(self).len,
                forall|j: int| 0 <= j < self.len ==> self.values@[Self::slot_from(self.start as int, j)] == old(self).values@[Self::slot_from(self.start as int, j)],
                forall|j: int| 0 <= j < i ==> self.values@[Self::slot_from(self.start as int, self.len + j)] == Some(other@[j]),
            decreases other.len - i,
        {
            let phys = self.physical_index(self.len + i);
            let src = other.physical_index(i);
            let ghost prev = self.values@;
            self.values[phys] = other.values[src];
            assert(other.values@[src as int] == Some(other@[i as int]));
            i += 1;
            assert forall|j: int| 0 <= j < i implies self.values@[Self::slot_from(self.start as int, self.len + j)] == Some(other@[j]) by {
                if j < i - 1 {
                    assert(Self::slot_from(self.start as int, self.len + j) != phys);
                    assert(prev[Self::slot_from(self.start as int, self.len + j)] == Some(other@[j]));
                }
            }
            assert forall|j: int| 0 <= j < self.len implies self.values@[Self::slot_from(self.start as int, j)] == old(self).values@[Self::slot_from(self.start as int, j)] by {
                assert(Self::slot_from(self.start as int, j) != phys);
                assert(prev[Self::slot_from(self.start as int, j)] == old(self).values@[Self::slot_from(self.start as int, j)]);
            }
            assert forall|j: int| 0 <= j < self.len implies (#[trigger] self.values@[Self::slot_from(self.start as int, j)]) is Some by {
                assert(Self::slot_from(self.start as int, j) != phys);
                assert(prev[Self::slot_from(self.start as int, j)] is Some);
            }
        }
        self.len += other.len;
        assert forall|j: int| 0 <= j < self.len implies (#[trigger] self.values@[Self::slot_from(self.start as int, j)]) is Some by {
            if j < old(self).len {
                assert(old(self).values@[Self::slot_from(old(self).start as int, j)] is Some);
                assert(self.values@[Self::slot_from(self.start as int, j)] == old(self).values@[Self::slot_from(self.start as int, j)]);
            } else {
                assert(self.values@[Self::slot_from(self.start as int, old(self).len + (j - old(self).len))] == Some(other@[j - old(self).len]));
            }
        }
        assert(self@ =~= old(self)@ + other@);
    }
}

/// Popping the back of a list right after pushing `v` there gives back `v`
/// and leaves the list as it was: the back of a `ConstList` is a stack.
/// `pushed` is what `push_back(v)` makes of `l`; `popped` and `r` are what
/// `pop_back` then makes of `pushed` and returns.
pub proof fn lemma_pop_back_undoes_push_back<T: Copy, const N: usize>(
    l: ConstList<T, N>,
    v: T,
    pushed: ConstList<T, N>,
    popped: ConstList<T, N>,
    r: Option<T>,
)
    requires
        pushed@ == l@.push(v),
        pushed@.len() == 0 ==> r is None && popped@ == pushed@,
        pushed@.len() > 0 ==> r == Some(pushed@.last()) && popped@ == pushed@.drop_last(),
    ensures
        r == Some(v),
        popped@ == l@,
{
    assert(l@.push(v).drop_last() =~= l@);
}

/// Popping the front of a list right after pushing `v` there gives back `v`
/// and leaves the list as it was: the front of a `ConstList` is a stack too.
/// `pushed` is what `push_front(v)` makes of `l`; `popped` and `r` are what
/// `pop_front` then makes of `pushed` and returns.
pub proof fn lemma_pop_front_undoes_push_front<T: Copy, const N: usize>(
    l: ConstList<T, N>,
    v: T,
    pushed: ConstList<T, N>,
    popped: ConstList<T, N>,
    r: Option<T>,
)
    requires
        pushed@ == seq![v] + l@,
        pushed@.len() == 0 ==> r is None && popped@ == pushed@,
        pushed@.len() > 0 ==> r == Some(pushed@[0]) && popped@ == pushed@.drop_first(),
    ensures
        r == Some(v),
        popped@ == l@,
{
    assert((seq![v] + l@).drop_first() =~= l@);
}

/// Values pushed at the back leave from the front in the order they were
/// pushed: on a non-empty list `l`, pushing `v` at the back does not change
/// what `pop_front` returns, and `v` stays behind the rest. `pushed` is what
/// `push_back(v)` makes of `l`; `popped`, `r` and `l_popped`, `r0` are what
/// `pop_front` makes of `pushed` and of `l` and returns.
pub proof fn lemma_push_back_pop_front_in_order<T: Copy, const N: usize>(
    l: ConstList<T, N>,
    v: T,
    pushed: ConstList<T, N>,
    popped: ConstList<T, N>,
    r: Option<T>,
    l_popped: ConstList<T, N>,
    r0: Option<T>,
)
    requires
        l@.len() > 0,
        pushed@ == l@.push(v),
        pushed@.len() > 0 ==> r == Some(pushed@[0]) && popped@ == pushed@.drop_first(),
        l@.len() > 0 ==> r0 == Some(l@[0]) && l_popped@ == l@.drop_first(),
    ensures
        r == r0,
        popped@ == l_popped@.push(v),
{
    assert(l@.push(v).drop_first() =~= l@.drop_first().push(v));
}

/// Extending a list by another makes a list as long as both, holding the
/// first list's values and then the second's, each in order. `extended` is
/// what `extend(other)` makes of `l`.
pub proof fn lemma_extend_appends<T: Copy, const N: usize>(
    l: ConstList<T, N>,
    other: ConstList<T, N>,
    extended: ConstList<T, N>,
)
    requires
        extended@ == l@ + other@,
    ensures
        extended@.len() == l@.len() + other@.len(),
        forall|i: int| 0 <= i < l@.len() ==> #[trigger] extended@[i] == l@[i],
        forall|i: int| 0 <= i < other@.len() ==> #[trigger] extended@[l@.len() + i] == other@[i],
{
}

} // verus!
