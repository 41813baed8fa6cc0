//! Backward lists: sequences that grow at the tail.

use vstd::prelude::*;

verus! {

/// A snoc-list. The element added last sits at the outside of the structure;
/// the view lists the elements oldest first.
#[derive(Debug)]
pub struct Bwd<A>(pub Option<Box<(Bwd<A>, A)>>);

impl<A> View for Bwd<A> {
    type V = Seq<A>;

    open spec fn view(&self) -> Seq<A>
        decreases self,
    {
        match self.0 {
            None => Seq::empty(),
            Some(cell) => cell.0.view().push(cell.1),
        }
    }
}

impl<A> Bwd<A> {
    /// The empty list.
    #[inline]
    #[must_use]
    pub fn nil() -> (r: Bwd<A>)
        ensures
            r@ == Seq::<A>::empty(),
    {
        Bwd(None)
    }

    /// The list `self` followed by `x`.
    #[inline]
    #[must_use]
    pub fn snoc(self, x: A) -> (r: Bwd<A>)
        ensures
            r@ == self@.push(x),
    {
        Bwd(Some(Box::new((self, x))))
    }

    /// Adds `x` at the tail, in place.
    pub fn snoc_mut(&mut self, x: A)
        ensures
            final(self)@ == old(self)@.push(x),
    {
        let mut prev = Bwd(None);
        core::mem::swap(self, &mut prev);
        *self = Bwd::snoc(prev, x);
    }

    /// The list that holds `x` alone.
    #[must_use]
    pub fn singleton(x: A) -> (r: Bwd<A>)
        ensures
            r@ == seq![x],
    {
        Bwd::snoc(Bwd::nil(), x)
    }

    /// Splits the list into everything but the newest element, and the
    /// newest element; `None` for the empty list.
    #[inline]
    #[must_use]
    pub fn unsnoc(self) -> (r: Option<(Bwd<A>, A)>)
        ensures
            r is Some <==> self@.len() > 0,
            r matches Some(p) ==> p.0@ == self@.drop_last() && p.1 == self@.last(),
    {
        match self.0 {
            None => None,
            Some(cell) => {
                let (xs, x) = *cell;
                proof {
                    assert(xs@.push(x).drop_last() =~= xs@);
                }
                Some((xs, x))
            },
        }
    }

    /// A copy of the newest element; `None` for the empty list.
    #[inline]
    #[must_use]
    pub fn last(&self) -> (r: Option<A>) where A: Clone
        ensures
            r is Some <==> self@.len() > 0,
            r matches Some(x) ==> cloned::<A>(self@.last(), x),
    {
        match &self.0 {
            None => {
                proof {
                    assert(self@.len() == 0);
                }
                None
            },
            Some(cell) => {
                proof {
                    assert(self@ == cell.0@.push(cell.1));
                }
                Some(cell.1.clone())
            },
        }
    }

    /// Everything but the newest element; `None` for the empty list.
    #[inline]
    #[must_use]
    pub fn init(self) -> (r: Option<Bwd<A>>)
        ensures
            r is Some <==> self@.len() > 0,
            r matches Some(xs) ==> xs@ == self@.drop_last(),
    {
        match self.0 {
            None => None,
            Some(cell) => {
                let (xs, x) = *cell;
                proof {
                    assert(xs@.push(x).drop_last() =~= xs@);
                }
                Some(xs)
            },
        }
    }

    /// The elements of `self` followed by those of `other`.
    #[must_use]
    pub fn append(self, other: Bwd<A>) -> (r: Bwd<A>)
        ensures
            r@ == self@ + other@,
        decreases other,
    {
        match other.0 {
            None => {
                proof {
                    assert(self@ + other@ =~= self@);
                }
                self
            },
            Some(cell) => {
                let (xs, x) = *cell;
                proof {
                    assert((self@ + xs@).push(x) =~= self@ + other@);
                }
                Bwd::snoc(self.append(xs), x)
            },
        }
    }

    /// Asks `f` of each element, newest first, until one answers `true`.
    /// The result says whether one did.
    pub fn visit<F>(it: &Bwd<A>, f: F) -> (found: bool) where F: Fn(&A) -> bool
        requires
            forall|i: int| 0 <= i < it@.len() ==> call_requires(f, (&#[trigger] it@[i],)),
        ensures
            found ==> exists|i: int| 0 <= i < it@.len() && call_ensures(f, (&#[trigger] it@[i],), true),
            !found ==> forall|i: int| 0 <= i < it@.len() ==> call_ensures(f, (&#[trigger] it@[i],), false),
    {
        let mut cur = it;
        loop
            invariant
                cur@.len() <= it@.len(),
                cur@ == it@.take(cur@.len() as int),
                forall|i: int| 0 <= i < it@.len() ==> call_requires(f, (&#[trigger] it@[i],)),
                forall|i: int| cur@.len() <= i < it@.len() ==> call_ensures(f, (&#[trigger] it@[i],), false),
            decreases cur@.len(),
        {
            match &cur.0 {
                None => {
                    return false;
                },
                Some(cell) => {
                    let ghost k = cell.0@.len() as int;
                    proof {
                        assert(cur@ == cell.0@.push(cell.1));
                        assert(it@[k] == cur@[k]);
                        assert(cell.0@ =~= it@.take(k));
                    }
                    if f(&cell.1) {
                        return true;
                    }
                    cur = &cell.0;
                },
            }
        }
    }

    /// Removes the newest element and hands it out; `None`, and no change,
    /// for the empty list.
    pub fn next(&mut self) -> (r: Option<A>)
        ensures
            old(self)@.len() == 0 ==> r is None && final(self)@ == old(self)@,
            old(self)@.len() > 0 ==> r == Some(old(self)@.last()) && final(self)@ == old(self)@.drop_last(),
    {
        let mut prev = Bwd(None);
        core::mem::swap(self, &mut prev);
        match prev.0 {
            None => None,
            Some(cell) => {
                let (xs, x) = *cell;
                proof {
                    assert(xs@.push(x).drop_last() =~= xs@);
                }
                *self = xs;
                Some(x)
            },
        }
    }
}

impl<A: Clone> Clone for Bwd<A> {
    /// A list of the same length whose elements are copies, place by place.
    fn clone(&self) -> (r: Self)
        ensures
            r@.len() == self@.len(),
            forall|i: int| 0 <= i < self@.len() ==> cloned::<A>(#[trigger] self@[i], r@[i]),
        decreases self,
    {
        match &self.0 {
            None => Bwd(None),
            Some(cell) => {
                let xs = (&cell.0).clone();
                let x = cell.1.clone();
                Bwd(Some(Box::new((xs, x))))
            },
        }
    }
}

} // verus!
