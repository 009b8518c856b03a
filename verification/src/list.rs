use crate::board::Coord;
use vstd::prelude::*;

verus! {

/// The index of the first item of `q` equal to `x`, or the length of `q` if there is none.
pub open spec fn position<T>(q: Seq<T>, x: T) -> int
    decreases q.len(),
{
    if q.len() == 0 {
        0
    } else if q[0] == x {
        0
    } else {
        1 + position(q.drop_first(), x)
    }
}

/// `q` without its item at `i`, the last item having taken its place; `q` itself where
/// `i` is no index of `q`.
pub open spec fn swap_out<T>(q: Seq<T>, i: int) -> Seq<T> {
    if 0 <= i < q.len() {
        q.update(i, q.last()).drop_last()
    } else {
        q
    }
}

/// The items of `q` whose flag in `keep` is set, in their order.
pub open spec fn kept<T>(q: Seq<T>, keep: Seq<bool>) -> Seq<T>
    decreases q.len(),
{
    if q.len() == 0 || keep.len() != q.len() {
        Seq::empty()
    } else if keep.last() {
        kept(q.drop_last(), keep.drop_last()).push(q.last())
    } else {
        kept(q.drop_last(), keep.drop_last())
    }
}

/// The first item equal to `x` stands where nothing before it is equal to `x`.
pub proof fn lemma_position<T>(q: Seq<T>, x: T, i: int)
    requires
        0 <= i <= q.len(),
        forall|j: int| 0 <= j < i ==> q[j] != x,
        i < q.len() ==> q[i] == x,
    ensures
        position(q, x) == i,
    decreases i,
{
    if i > 0 {
        let r = q.drop_first();
        assert forall|j: int| 0 <= j < i - 1 implies r[j] != x by {
            assert(r[j] == q[j + 1]);
        }
        lemma_position(r, x, i - 1);
    }
}

/// What `position` finds: an index, nothing equal to `x` before it, and `x` at it
/// unless it is the length.
pub proof fn lemma_position_is_first<T>(q: Seq<T>, x: T)
    ensures
        0 <= position(q, x) <= q.len(),
        forall|j: int| 0 <= j < position(q, x) ==> q[j] != x,
        position(q, x) < q.len() ==> q[position(q, x)] == x,
    decreases q.len(),
{
    if q.len() > 0 && q[0] != x {
        let r = q.drop_first();
        lemma_position_is_first(r, x);
        assert forall|j: int| 0 <= j < position(q, x) implies q[j] != x by {
            if j > 0 {
                assert(r[j - 1] == q[j]);
            }
        }
    }
}

/// A bounded vector: room for `N` items, kept in insertion order.
#[derive(Debug)]
pub struct List<T: Copy, const N: usize> {
    data: Vec<T>,
}

impl<T: Copy, const N: usize> View for List<T, N> {
    type V = Seq<T>;

    closed spec fn view(&self) -> Seq<T> {
        self.data@
    }
}

impl<T: Copy, const N: usize> List<T, N> {
    /// An empty list.
    pub fn new() -> (s: Self)
        ensures
            s@ == Seq::<T>::empty(),
    {
        Self { data: Vec::new() }
    }

    /// The list of the items of an array, in their order.
    pub fn from_array<const M: usize>(arr: [T; M]) -> (s: Self)
        requires
            M <= N,
        ensures
            s@ == arr@,
    {
        let mut s = Self::new();
        s.extend(arr);
        s
    }

    /// Adds the items of an array at the end, in their order. The list must have room
    /// for them.
    pub fn extend<const M: usize>(&mut self, arr: [T; M])
        requires
            old(self)@.len() + M <= N,
        ensures
            final(self)@ == old(self)@ + arr@,
    {
        let mut i: usize = 0;
        while i < M
            invariant
                i <= M,
                self@ == old(self)@ + arr@.subrange(0, i as int),
            decreases M - i,
        {
            self.data.push(arr[i]);
            i += 1;
            assert(self@ =~= old(self)@ + arr@.subrange(0, i as int));
        }
        assert(arr@.subrange(0, M as int) =~= arr@);
    }

    /// Adds `item` at the end. The list must have room for it.
    pub fn append(&mut self, item: T)
        requires
            old(self)@.len() < N,
        ensures
            final(self)@ == old(self)@.push(item),
    {
        self.data.push(item);
    }

    /// How many items the list holds.
    pub fn len(&self) -> (n: usize)
        ensures
            n == self@.len(),
    {
        self.data.len()
    }

    /// The item at index `i`.
    pub fn get(&self, i: usize) -> (item: T)
        requires
            i < self@.len(),
        ensures
            item == self@[i as int],
    {
        self.data[i]
    }

    /// The items as a slice.
    pub fn slice(&self) -> (s: &[T])
        ensures
            s@ == self@,
    {
        self.data.as_slice()
    }

    /// The items as a slice through which they can be changed.
    pub fn slice_mut(&mut self) -> (s: &mut [T])
        ensures
            s@ == old(self)@,
            final(s)@ == final(self)@,
    {
        self.data.as_mut_slice()
    }

    /// Whether the list holds no item.
    pub fn is_empty(&self) -> (b: bool)
        ensures
            b == (self@.len() == 0),
    {
        self.data.len() == 0
    }

    /// Removes all items.
    pub fn clear(&mut self)
        ensures
            final(self)@ == Seq::<T>::empty(),
    {
        self.data.clear();
    }

    /// Puts `item` at index `i`; the items from `i` on move one place up.
    pub(crate) fn insert(&mut self, i: usize, item: T)
        requires
            i <= old(self)@.len(),
            old(self)@.len() < N,
        ensures
            final(self)@ == old(self)@.insert(i as int, item),
    {
        self.data.insert(i, item);
    }

    /// Removes the item at `n`; the last item takes its place.
    pub fn swap_remove_at(&mut self, n: usize)
        requires
            n < old(self)@.len(),
        ensures
            final(self)@ == swap_out(old(self)@, n as int),
    {
        let _ = self.data.swap_remove(n);
    }

    /// Keeps, from index `start` on, the items for which `f` returns true, in their
    /// order; the items before `start` stay.
    pub fn filter<F: Fn(&T) -> bool>(&mut self, start: usize, f: F)
        requires
            start <= old(self)@.len(),
            forall|i: int| start <= i < old(self)@.len() ==> call_requires(f, (&old(self)@[i],)),
        ensures
            exists|keep: Seq<bool>|
                {
                    &&& keep.len() == old(self)@.len() - start
                    &&& forall|i: int|
                        0 <= i < keep.len() ==> call_ensures(
                            f,
                            (&old(self)@[start + i],),
                            #[trigger] keep[i],
                        )
                    &&& final(self)@ == old(self)@.subrange(0, start as int) + kept(
                        old(self)@.subrange(start as int, old(self)@.len() as int),
                        keep,
                    )
                },
    {
        let n: usize = self.data.len();
        let mut out: Vec<T> = Vec::new();
        let mut i: usize = 0;
        while i < start
            invariant
                i <= start <= n,
                n == self.data@.len(),
                out@ == self.data@.subrange(0, i as int),
            decreases start - i,
        {
            out.push(self.data[i]);
            i += 1;
            assert(out@ =~= self.data@.subrange(0, i as int));
        }
        let ghost mut keep: Seq<bool> = Seq::empty();
        assert(self.data@.subrange(start as int, start as int) =~= Seq::<T>::empty());
        while i < n
            invariant
                start <= i <= n,
                n == self.data@.len(),
                self.data@ == old(self)@,
                forall|j: int| start <= j < n ==> call_requires(f, (&self.data@[j],)),
                keep.len() == i - start,
                forall|j: int|
                    0 <= j < keep.len() ==> call_ensures(
                        f,
                        (&self.data@[start + j],),
                        #[trigger] keep[j],
                    ),
                out@ == self.data@.subrange(0, start as int) + kept(
                    self.data@.subrange(start as int, i as int),
                    keep,
                ),
            decreases n - i,
        {
            let item = self.data[i];
            let b = f(&item);
            proof {
                let q0 = self.data@.subrange(start as int, i as int);
                let q1 = self.data@.subrange(start as int, i + 1);
                let k1 = keep.push(b);
                assert(q1.drop_last() =~= q0);
                assert(k1.drop_last() =~= keep);
                assert(q1.last() == item);
                keep = k1;
            }
            if b {
                out.push(item);
            }
            i += 1;
            assert(out@ =~= self.data@.subrange(0, start as int) + kept(
                self.data@.subrange(start as int, i as int),
                keep,
            ));
        }
        self.data = out;
    }
}

impl<const N: usize> List<Coord, N> {
    /// Removes the first item equal to `item`, if there is one; the last item takes
    /// its place.
    pub fn swap_remove(&mut self, item: &Coord)
        ensures
            final(self)@ == swap_out(old(self)@, position(old(self)@, *item)),
    {
        let n: usize = self.data.len();
        let mut i: usize = 0;
        while i < n && !(self.data[i] == *item)
            invariant
                i <= n,
                n == self.data@.len(),
                self.data@ == old(self)@,
                forall|j: int| 0 <= j < i ==> self.data@[j] != *item,
            decreases n - i,
        {
            i += 1;
        }
        proof {
            lemma_position(self.data@, *item, i as int);
        }
        if i < n {
            let _ = self.data.swap_remove(i);
        }
    }

    /// Whether some item of the list is equal to `item`.
    pub fn contains(&self, item: &Coord) -> (b: bool)
        ensures
            b == self@.contains(*item),
    {
        let n: usize = self.data.len();
        let mut i: usize = 0;
        while i < n
            invariant
                i <= n,
                n == self.data@.len(),
                forall|j: int| 0 <= j < i ==> self.data@[j] != *item,
            decreases n - i,
        {
            if self.data[i] == *item {
                return true;
            }
            i += 1;
        }
        false
    }
}

impl<T: Copy, const N: usize> Default for List<T, N> {
    fn default() -> (s: Self)
        ensures
            s@ == Seq::<T>::empty(),
    {
        Self::new()
    }
}

impl<T: Copy, const N: usize> Clone for List<T, N> {
    fn clone(&self) -> (r: Self)
        ensures
            r@ == self@,
    {
        let mut data: Vec<T> = Vec::new();
        let mut i: usize = 0;
        while i < self.data.len()
            invariant
                i <= self.data@.len(),
                data@ == self.data@.subrange(0, i as int),
            decreases self.data@.len() - i,
        {
            data.push(self.data[i]);
            i += 1;
            assert(data@ =~= self.data@.subrange(0, i as int));
        }
        assert(data@ =~= self.data@);
        Self { data }
    }
}

} // verus!
