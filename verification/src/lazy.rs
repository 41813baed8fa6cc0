//! Values that are computed when they are first asked for.

use vstd::prelude::*;

verus! {

/// A value, or the computation that will give it.
pub enum Closure<T, F> {
    /// Not computed yet.
    Delayed(F),
    /// Computed.
    Forced(T),
    /// The computation was taken out to be run and has not come back.
    Blackhole,
}

impl<T, F: FnOnce() -> T> Closure<T, F> {
    /// Whether the value can be had: it is there, or its computation can
    /// be run.
    pub open spec fn can_force(&self) -> bool {
        match self {
            Closure::Delayed(f) => call_requires(*f, ()),
            Closure::Forced(_) => true,
            Closure::Blackhole => false,
        }
    }

    /// Whether `t` is a value that `self` can come to hold: the one it
    /// holds, or one that its computation can give.
    pub open spec fn gives(&self, t: T) -> bool {
        match self {
            Closure::Delayed(f) => call_ensures(*f, (), t),
            Closure::Forced(x) => *x == t,
            Closure::Blackhole => false,
        }
    }

    /// The closure that will run `f` when it is forced.
    #[inline]
    pub fn new(f: F) -> (r: Self)
        ensures
            r == Closure::<T, F>::Delayed(f),
    {
        Closure::Delayed(f)
    }

    /// Whether the value is computed.
    #[inline]
    pub fn ready(&self) -> (r: bool)
        ensures
            r == (self is Forced),
    {
        match self {
            Closure::Forced(_) => true,
            _ => false,
        }
    }

    /// Computes the value, unless it is computed already.
    #[inline]
    pub fn seq(&mut self)
        requires
            old(self).can_force(),
        ensures
            *final(self) is Forced,
            old(self).gives((*final(self))->Forced_0),
    {
        let mut taken = Closure::Blackhole;
        core::mem::swap(self, &mut taken);
        match taken {
            Closure::Delayed(f) => {
                *self = Closure::Forced(f());
            },
            Closure::Forced(t) => {
                *self = Closure::Forced(t);
            },
            Closure::Blackhole => {},
        }
    }

    /// The value; it is computed now if it was not before, and kept.
    #[inline]
    pub fn get(&mut self) -> (r: &T)
        requires
            old(self).can_force(),
        ensures
            *final(self) == Closure::<T, F>::Forced(*r),
            old(self).gives(*r),
    {
        self.seq();
        match self {
            Closure::Forced(t) => t,
            _ => vstd::pervasive::unreached(),
        }
    }

    /// The value, if it is computed.
    #[inline]
    pub fn try_get(&self) -> (r: Option<&T>)
        ensures
            self matches Closure::Forced(t) ==> r == Some(t),
            !(self is Forced) ==> r is None,
    {
        match self {
            Closure::Forced(t) => Some(t),
            _ => None,
        }
    }

    /// The value; it is computed now if it was not before.
    #[inline]
    pub fn consume(self) -> (r: T)
        requires
            self.can_force(),
        ensures
            self.gives(r),
    {
        match self {
            Closure::Delayed(f) => f(),
            Closure::Forced(t) => t,
            Closure::Blackhole => vstd::pervasive::unreached(),
        }
    }

    /// The value if it is computed, else the closure as it was.
    #[inline]
    pub fn try_consume(self) -> (r: Result<T, Self>)
        ensures
            self matches Closure::Forced(t) ==> r == Ok::<T, Self>(t),
            !(self is Forced) ==> r == Err::<T, Self>(self),
    {
        match self {
            Closure::Forced(t) => Ok(t),
            other => Err(other),
        }
    }

    /// The closure whose value is `that`, computed.
    #[inline]
    pub fn from(that: T) -> (r: Self)
        ensures
            r == Closure::<T, F>::Forced(that),
    {
        Closure::Forced(that)
    }

    /// An iterator that gives the value once.
    pub fn into_iter(self) -> (r: ClosureIterator<T, F>)
        ensures
            r.0 == Some(self),
    {
        ClosureIterator(Some(self))
    }
}


/// Gives the value of a closure once, then nothing.
pub struct ClosureIterator<T, F>(pub Option<Closure<T, F>>);

impl<T, F: FnOnce() -> T> ClosureIterator<T, F> {
    /// The value, the first time; `None` from then on.
    pub fn next(&mut self) -> (r: Option<T>)
        requires
            old(self).0 matches Some(c) ==> c.can_force(),
        ensures
            final(self).0 is None,
            r is Some <==> old(self).0 is Some,
            r matches Some(t) ==> old(self).0->Some_0.gives(t),
    {
        match self.0.take() {
            Some(c) => Some(c.consume()),
            None => None,
        }
    }

    /// The number of values still to come, as a lower and an upper bound.
    pub fn size_hint(&self) -> (r: (usize, Option<usize>))
        ensures
            r.0 == (if self.0 is Some { 1usize } else { 0usize }),
            r.1 == Some(r.0),
    {
        let n = self.len();
        (n, Some(n))
    }

    /// The last value still to come, which is the only one.
    pub fn last(self) -> (r: Option<T>)
        requires
            self.0 matches Some(c) ==> c.can_force(),
        ensures
            r is Some <==> self.0 is Some,
            r matches Some(t) ==> self.0->Some_0.gives(t),
    {
        match self.0 {
            Some(c) => Some(c.consume()),
            None => None,
        }
    }

    /// The number of values still to come.
    pub fn count(self) -> (r: usize)
        ensures
            r == (if self.0 is Some { 1usize } else { 0usize }),
    {
        if self.0.is_some() {
            1
        } else {
            0
        }
    }

    /// The number of values still to come.
    pub fn len(&self) -> (r: usize)
        ensures
            r == (if self.0 is Some { 1usize } else { 0usize }),
    {
        if self.0.is_some() {
            1
        } else {
            0
        }
    }

    /// Whether no value is still to come.
    pub fn is_empty(&self) -> (r: bool)
        ensures
            r == (self.0 is None),
    {
        self.0.is_none()
    }
}

/// A closure behind a name of its own: a value that is computed at its
/// first use and kept.
pub struct LazyVal<T, F>(pub Closure<T, F>);

impl<T, F: FnOnce() -> T> LazyVal<T, F> {
    /// The lazy value that will run `f` at its first use.
    #[inline]
    pub fn new(f: F) -> (r: Self)
        ensures
            r.0 == Closure::<T, F>::Delayed(f),
    {
        LazyVal(Closure::new(f))
    }

    /// Computes the value, unless it is computed already.
    #[inline]
    pub fn seq(&mut self)
        requires
            old(self).0.can_force(),
        ensures
            final(self).0 is Forced,
            old(self).0.gives(final(self).0->Forced_0),
    {
        self.0.seq()
    }

    /// Whether the value is computed.
    #[inline]
    pub fn ready(&self) -> (r: bool)
        ensures
            r == (self.0 is Forced),
    {
        self.0.ready()
    }

    /// The value; it is computed now if it was not before, and kept.
    #[inline]
    pub fn get(&mut self) -> (r: &T)
        requires
            old(self).0.can_force(),
        ensures
            final(self).0 == Closure::<T, F>::Forced(*r),
            old(self).0.gives(*r),
    {
        self.0.get()
    }

    /// The value, if it is computed.
    #[inline]
    pub fn try_get(&self) -> (r: Option<&T>)
        ensures
            self.0 matches Closure::Forced(t) ==> r == Some(&t),
            !(self.0 is Forced) ==> r is None,
    {
        self.0.try_get()
    }

    /// The value; it is computed now if it was not before.
    #[inline]
    pub fn consume(self) -> (r: T)
        requires
            self.0.can_force(),
        ensures
            self.0.gives(r),
    {
        self.0.consume()
    }

    /// The value if it is computed, else the lazy value as it was.
    #[inline]
    pub fn try_consume(self) -> (r: Result<T, Self>)
        ensures
            self.0 matches Closure::Forced(t) ==> r == Ok::<T, Self>(t),
            !(self.0 is Forced) ==> r == Err::<T, Self>(self),
    {
        match self.0.try_consume() {
            Ok(t) => Ok(t),
            Err(c) => Err(LazyVal(c)),
        }
    }

    /// The lazy value whose value is `that`, computed.
    pub fn from(that: T) -> (r: Self)
        ensures
            r.0 == Closure::<T, F>::Forced(that),
    {
        LazyVal(Closure::from(that))
    }

    /// The lazy value that holds the closure `that`.
    pub fn from_closure(that: Closure<T, F>) -> (r: Self)
        ensures
            r.0 == that,
    {
        LazyVal(that)
    }

    /// The closure that the lazy value holds.
    pub fn into_closure(self) -> (r: Closure<T, F>)
        ensures
            r == self.0,
    {
        self.0
    }

    /// An iterator that gives the value once.
    pub fn into_iter(self) -> (r: ClosureIterator<T, F>)
        ensures
            r.0 == Some(self.0),
    {
        self.0.into_iter()
    }
}

} // verus!
