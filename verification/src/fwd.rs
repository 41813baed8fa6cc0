//! Forward lists: sequences that grow at the head.

use vstd::prelude::*;

verus! {

/// A cons-list; the view lists the elements head first.
#[derive(Debug)]
pub struct Fwd<A>(pub Option<Box<(A, Fwd<A>)>>);

impl<A> View for Fwd<A> {
    type V = Seq<A>;

    open spec fn view(&self) -> Seq<A>
        decreases self,
    {
        match self.0 {
            None => Seq::empty(),
            Some(cell) => seq![cell.0] + cell.1.view(),
        }
    }
}

impl<A> Fwd<A> {
    /// The empty list.
    #[inline]
    #[must_use]
    pub fn nil() -> (r: Fwd<A>)
        ensures
            r@ == Seq::<A>::empty(),
    {
        Fwd(None)
    }

    /// The list that starts with `x` and goes on with `xs`.
    #[inline]
    #[must_use]
    pub fn cons(x: A, xs: Fwd<A>) -> (r: Fwd<A>)
        ensures
            r@ == seq![x] + xs@,
    {
        Fwd(Some(Box::new((x, xs))))
    }

    /// The list that holds `x` alone.
    #[must_use]
    pub fn singleton(x: A) -> (r: Fwd<A>)
        ensures
            r@ == seq![x],
    {
        let r = Fwd::cons(x, Fwd::nil());
        proof {
            assert(r@ =~= seq![x]);
        }
        r
    }

    /// Splits the list into its head and the rest; `None` for the empty
    /// list.
    #[inline]
    #[must_use]
    pub fn uncons(self) -> (r: Option<(A, Fwd<A>)>)
        ensures
            r is Some <==> self@.len() > 0,
            r matches Some(p) ==> p.0 == self@.first() && p.1@ == self@.drop_first(),
    {
        match self.0 {
            None => None,
            Some(cell) => {
                let (x, xs) = *cell;
                proof {
                    assert((seq![x] + xs@).drop_first() =~= xs@);
                }
                Some((x, xs))
            },
        }
    }

    /// A copy of the head; `None` for the empty list.
    #[inline]
    #[must_use]
    pub fn head(&self) -> (r: Option<A>) where A: Clone
        ensures
            r is Some <==> self@.len() > 0,
            r matches Some(x) ==> cloned::<A>(self@.first(), x),
    {
        match &self.0 {
            None => {
                proof {
                    assert(self@.len() == 0);
                }
                None
            },
            Some(cell) => {
                proof {
                    assert(self@ == seq![cell.0] + cell.1@);
                }
                Some(cell.0.clone())
            },
        }
    }

    /// Everything after the head; `None` for the empty list.
    #[inline]
    #[must_use]
    pub fn tail(self) -> (r: Option<Fwd<A>>)
        ensures
            r is Some <==> self@.len() > 0,
            r matches Some(xs) ==> xs@ == self@.drop_first(),
    {
        match self.0 {
            None => None,
            Some(cell) => {
                let (x, xs) = *cell;
                proof {
                    assert((seq![x] + xs@).drop_first() =~= xs@);
                }
                Some(xs)
            },
        }
    }

    /// The elements of `self` followed by those of `other`.
    #[must_use]
    pub fn append(self, other: Fwd<A>) -> (r: Fwd<A>)
        ensures
            r@ == self@ + other@,
        decreases self,
    {
        match self.0 {
            None => {
                proof {
                    assert(self@ + other@ =~= other@);
                }
                other
            },
            Some(cell) => {
                let (x, xs) = *cell;
                proof {
                    assert(seq![x] + (xs@ + other@) =~= self@ + other@);
                }
                Fwd::cons(x, xs.append(other))
            },
        }
    }

    /// Asks `f` of each element, head first, until one answers `true`. The
    /// result says whether one did.
    pub fn visit<F>(it: &Fwd<A>, f: F) -> (found: bool) where F: Fn(&A) -> bool
        requires
            forall|i: int| 0 <= i < it@.len() ==> call_requires(f, (&#[trigger] it@[i],)),
        ensures
            found ==> exists|i: int| 0 <= i < it@.len() && call_ensures(f, (&#[trigger] it@[i],), true),
            !found ==> forall|i: int| 0 <= i < it@.len() ==> call_ensures(f, (&#[trigger] it@[i],), false),
    {
        let mut cur = it;
        let ghost mut done: int = 0;
        loop
            invariant
                0 <= done <= it@.len(),
                cur@ == it@.skip(done),
                forall|i: int| 0 <= i < it@.len() ==> call_requires(f, (&#[trigger] it@[i],)),
                forall|i: int| 0 <= i < done ==> call_ensures(f, (&#[trigger] it@[i],), false),
            decreases it@.len() - done,
        {
            match &cur.0 {
                None => {
                    return false;
                },
                Some(cell) => {
                    proof {
                        assert(cur@ == seq![cell.0] + cell.1@);
                        assert(it@[done] == cur@[0]);
                        assert(cell.1@ =~= cur@.skip(1));
                        assert(it@.skip(done).skip(1) =~= it@.skip(done + 1));
                    }
                    if f(&cell.0) {
                        return true;
                    }
                    cur = &cell.1;
                    proof {
                        done = done + 1;
                    }
                },
            }
        }
    }

    /// Removes the head and hands it out; `None`, and no change, for the
    /// empty list.
    pub fn next(&mut self) -> (r: Option<A>)
        ensures
            old(self)@.len() == 0 ==> r is None && final(self)@ == old(self)@,
            old(self)@.len() > 0 ==> r == Some(old(self)@.first()) && final(self)@ == old(self)@.drop_first(),
    {
        let mut prev = Fwd(None);
        core::mem::swap(self, &mut prev);
        match prev.0 {
            None => None,
            Some(cell) => {
                let (x, xs) = *cell;
                proof {
                    assert((seq![x] + xs@).drop_first() =~= xs@);
                }
                *self = xs;
                Some(x)
            },
        }
    }
}

impl<A: Clone> Clone for Fwd<A> {
    /// A list of the same length whose elements are copies, place by place.
    fn clone(&self) -> (r: Self)
        ensures
            r@.len() == self@.len(),
            forall|i: int| 0 <= i < self@.len() ==> cloned::<A>(#[trigger] self@[i], r@[i]),
        decreases self,
    {
        match &self.0 {
            None => Fwd(None),
            Some(cell) => {
                let x = cell.0.clone();
                let xs = (&cell.1).clone();
                Fwd(Some(Box::new((x, xs))))
            },
        }
    }
}

} // verus!
