//! The typing context and unification in it.
//!
//! A context is an ordered list of entries. Unification never builds a
//! substitution: it takes entries off the end of the context until it meets
//! the variable it is after, decides what to put back, and puts it back.

use crate::bwd::Bwd;
use crate::complete::{lemma_unify_finds, solvable};
use crate::fwd::Fwd;
use crate::types::{
    affix_mut, affixed, instantiate_scheme, lemma_instantiate_keeps_depth, replace, restore,
    sc_depth, sc_instantiate, ty_occurs, ty_size, v, AsNoContext, Ctx, Entry, Ext, Sc, Scheme,
    Suffix, Ty, TyEntry, TyName, Type, UnifyError, FTV,
};
use crate::laws::{
    declares, lemma_occurs_check, lemma_on_top_shape, lemma_specialize_declares,
    lemma_unify_reflexive, lemma_unify_shape,
};
use crate::scoping::{
    closed_in, counted, focus_scoped, lemma_closed_declared, lemma_declares_push,
    lemma_on_top_scoped, lemma_scoped_push, lemma_specialize_scoped, lemma_unify_scoped, names,
    sc_closed, scoped,
};
use crate::soundness::{equal_in, lemma_solve_sound, lemma_unify_sound};
use std::rc::Rc;
use vstd::prelude::*;

verus! {

/// What a walk down the context is after, as plain values.
pub enum Focus {
    /// Make the variables `.0` and `.1` equal.
    Vars(TyName, TyName),
    /// Let the variable `.0` stand for the non-variable type `.2`; `.1` are
    /// the entries met so far that `.2` depends on, oldest first.
    Solve(TyName, Seq<TyEntry>, Ty),
}

/// What a walk down the context is after.
#[derive(Debug, Clone)]
pub enum Goal {
    /// Make the two variables equal.
    Vars(TyName, TyName),
    /// Let the variable stand for the type; the suffix holds the entries met
    /// so far that the type depends on.
    Solve(TyName, Suffix, Type),
}

impl View for Goal {
    type V = Focus;

    open spec fn view(&self) -> Focus {
        match self {
            Goal::Vars(a, b) => Focus::Vars(*a, *b),
            Goal::Solve(a, suffix, t) => Focus::Solve(*a, suffix@, **t),
        }
    }
}

/// A context after an operation, and how the operation ended.
pub struct Outcome {
    pub ctx: Seq<Entry>,
    pub res: Result<(), UnifyError>,
}

/// A context after the decision on one entry, and the decision: `Ok(None)`
/// to put the entry back, `Ok(Some(s))` to put `s` in its place.
pub struct Verdict {
    pub ctx: Seq<Entry>,
    pub res: Result<Option<Seq<TyEntry>>, UnifyError>,
}

/// The entries that a goal carries with it.
pub open spec fn carried(focus: Focus) -> nat {
    match focus {
        Focus::Vars(_, _) => 0,
        Focus::Solve(_, suffix, _) => suffix.len(),
    }
}

/// Whether `name` occurs in the solution of one of `suffix`'s entries.
pub open spec fn suffix_occurs(suffix: Seq<TyEntry>, name: TyName) -> bool {
    exists|i: int| 0 <= i < suffix.len() && (#[trigger] suffix[i]).occurs(name)
}

/// The decision "put the entry back" after `o`, or `o`'s error.
pub open spec fn then_restore(o: Outcome) -> Verdict {
    Verdict {
        ctx: o.ctx,
        res: match o.res {
            Ok(_) => Ok(None),
            Err(e) => Err(e),
        },
    }
}

/// Unification of `lhs` and `rhs` in `ctx`.
///
/// Two arrows: the arguments, then the results, in the context that the
/// arguments left; the first failure ends it. Two variables, or a variable
/// and an arrow: a walk down the context.
pub open spec fn unify_model(ctx: Seq<Entry>, lhs: Ty, rhs: Ty) -> Outcome
    decreases ctx.len(), ctx.len() + 1, ty_size(lhs) + ty_size(rhs),
{
    match (lhs, rhs) {
        (Ty::Arr(t0, t1), Ty::Arr(v0, v1)) => {
            let first = unify_model(ctx, *t0, *v0);
            if first.res is Ok && first.ctx.len() <= ctx.len() {
                unify_model(first.ctx, *t1, *v1)
            } else {
                first
            }
        },
        (Ty::V(a), Ty::V(b)) => on_top_model(ctx, Focus::Vars(a, b)),
        (Ty::V(a), _) => on_top_model(ctx, Focus::Solve(a, Seq::empty(), rhs)),
        (_, Ty::V(b)) => on_top_model(ctx, Focus::Solve(b, Seq::empty(), lhs)),
    }
}

/// One step of a walk: the newest entry comes off `ctx`. A `TY` entry is
/// decided on, and put back or replaced as the decision says. Any other
/// entry is stepped over and put back once the walk below it has succeeded.
/// After an error nothing is put back. An empty context is an error.
pub open spec fn on_top_model(ctx: Seq<Entry>, focus: Focus) -> Outcome
    decreases ctx.len() + carried(focus), ctx.len(), 1nat,
{
    if ctx.len() == 0 {
        Outcome { ctx, res: Err(UnifyError::NoContext) }
    } else {
        let rest = ctx.drop_last();
        match ctx.last() {
            Entry::TY(e) => {
                let d = decide_model(rest, focus, e);
                match d.res {
                    Err(err) => Outcome { ctx: d.ctx, res: Err(err) },
                    Ok(None) => Outcome { ctx: d.ctx.push(Entry::TY(e)), res: Ok(()) },
                    Ok(Some(suffix)) => Outcome { ctx: affixed(d.ctx, suffix), res: Ok(()) },
                }
            },
            other => {
                let below = on_top_model(rest, focus);
                if below.res is Ok {
                    Outcome { ctx: below.ctx.push(other), res: Ok(()) }
                } else {
                    below
                }
            },
        }
    }
}

/// The decision on the entry `e`, which was taken off the context and left
/// `rest`.
pub open spec fn decide_model(rest: Seq<Entry>, focus: Focus, e: TyEntry) -> Verdict
    decreases rest.len() + 1 + carried(focus), rest.len() + 1, 0nat,
{
    let g = e.0;
    match focus {
        Focus::Vars(a, b) => {
            if g == a && g == b {
                Verdict { ctx: rest, res: Ok(None) }
            } else if g == a {
                match e.1 {
                    None => Verdict {
                        ctx: rest,
                        res: Ok(Some(seq![TyEntry(a, Some(Rc::new(Ty::V(b))))])),
                    },
                    Some(t) => then_restore(unify_model(rest, Ty::V(b), *t)),
                }
            } else if g == b {
                match e.1 {
                    None => Verdict {
                        ctx: rest,
                        res: Ok(Some(seq![TyEntry(b, Some(Rc::new(Ty::V(a))))])),
                    },
                    Some(t) => then_restore(unify_model(rest, Ty::V(a), *t)),
                }
            } else {
                then_restore(unify_model(rest, Ty::V(a), Ty::V(b)))
            }
        },
        Focus::Solve(a, suffix, t) => {
            let occurs = ty_occurs(t, g) || suffix_occurs(suffix, g);
            if g == a {
                if occurs {
                    Verdict { ctx: rest, res: Err(UnifyError::Occurs) }
                } else {
                    match e.1 {
                        None => Verdict {
                            ctx: rest,
                            res: Ok(Some(suffix.push(TyEntry(a, Some(Rc::new(t)))))),
                        },
                        Some(known) => then_restore(unify_model(affixed(rest, suffix), *known, t)),
                    }
                }
            } else if occurs {
                let below = on_top_model(rest, Focus::Solve(a, seq![e] + suffix, t));
                Verdict {
                    ctx: below.ctx,
                    res: match below.res {
                        Ok(_) => Ok(Some(Seq::empty())),
                        Err(err) => Err(err),
                    },
                }
            } else {
                then_restore(on_top_model(rest, Focus::Solve(a, suffix, t)))
            }
        },
    }
}


/// A typing context: a counter from which names are made, and the entries.
#[derive(Debug, Clone)]
pub struct Context {
    /// The number of names handed out so far.
    pub next: u32,
    /// The entries, oldest first.
    pub ctx: Ctx,
}

impl Default for Context {
    /// The context without entries whose counter is zero.
    fn default() -> (r: Self)
        ensures
            r.next == 0,
            r.ctx@ == Seq::<Entry>::empty(),
            r.wf(),
    {
        Context { next: 0, ctx: Bwd::nil() }
    }
}

impl Context {
    /// Whether the context is in order: the solution of each entry mentions
    /// only variables that older entries declare, and every free variable
    /// that is declared was named from the counter.
    pub open spec fn wf(&self) -> bool {
        &&& scoped(self.ctx@)
        &&& counted(self.ctx@, self.next)
    }

    /// Whether the context declares every variable of `t`.
    pub open spec fn knows(&self, t: Ty) -> bool {
        closed_in(names(self.ctx@), t)
    }

    /// Declares a new variable, unsolved or standing for `decl`, as the
    /// newest entry. Its name is made from the counter, which goes up by
    /// one: no earlier call has returned it, and a context that is in order
    /// does not declare it. The context stays in order where it declares
    /// the variables of `decl`.
    pub fn fresh(&mut self, decl: Option<Type>) -> (name: TyName)
        requires
            old(self).next < u32::MAX,
        ensures
            final(self).next == old(self).next + 1,
            name == TyName::F(final(self).next),
            final(self).ctx@ == old(self).ctx@.push(Entry::TY(TyEntry(name, decl))),
            old(self).wf() ==> !declares(old(self).ctx@, name),
            old(self).wf() && (decl matches Some(d) ==> old(self).knows(*d)) ==> final(self).wf(),
            final(self).knows(Ty::V(name)),
    {
        self.next += 1;
        let name = TyName::F(self.next);
        proof {
            let entry = Entry::TY(TyEntry(name, decl));
            lemma_scoped_push(self.ctx@, entry);
            lemma_declares_push(self.ctx@, entry, name);
            assert forall|z: u32| #[trigger]
                declares(self.ctx@.push(entry), TyName::F(z)) && old(self).wf() implies z
                <= self.next by {
                lemma_declares_push(self.ctx@, entry, TyName::F(z));
            }
        }
        self.ctx.snoc_mut(Entry::TY(TyEntry(name, decl)));
        name
    }

    /// Puts the entries of `suffix` at the end of the context, in their
    /// order.
    pub fn push(&mut self, suffix: Suffix)
        ensures
            final(self).next == old(self).next,
            final(self).ctx@ == affixed(old(self).ctx@, suffix@),
    {
        affix_mut(&mut self.ctx, suffix)
    }

    /// Takes the newest `TY` entry off the context, decides on it as `goal`
    /// asks, and puts it back or replaces it. Entries of other kinds that lie
    /// above it are stepped over and keep their places. After an error the
    /// entries that were taken off are not put back.
    pub fn on_top(&mut self, goal: Goal) -> (r: Result<(), UnifyError>)
        ensures
            final(self).next == old(self).next,
            (Outcome { ctx: final(self).ctx@, res: r }) == on_top_model(old(self).ctx@, goal@),
            r is Ok ==> final(self).ctx@.len() == old(self).ctx@.len() + carried(goal@),
        decreases old(self).ctx@.len() + carried(goal@), old(self).ctx@.len(), 1nat,
    {
        match self.ctx.next() {
            None => Err(UnifyError::no_context()),
            Some(Entry::TY(entry)) => {
                match self.decide(goal, entry.clone()) {
                    Err(e) => Err(e),
                    Ok(Ext::Restore) => {
                        self.ctx.snoc_mut(Entry::TY(entry));
                        Ok(())
                    },
                    Ok(Ext::Replace(suffix)) => {
                        self.push(suffix);
                        Ok(())
                    },
                }
            },
            Some(other) => {
                match self.on_top(goal) {
                    Err(e) => Err(e),
                    Ok(()) => {
                        self.ctx.snoc_mut(other);
                        Ok(())
                    },
                }
            },
        }
    }

    /// The decision on `entry`, which was just taken off the context.
    pub fn decide(&mut self, goal: Goal, entry: TyEntry) -> (r: Result<Ext, UnifyError>)
        ensures
            final(self).next == old(self).next,
            (Verdict {
                ctx: final(self).ctx@,
                res: match r {
                    Ok(ext) => Ok(ext@),
                    Err(e) => Err(e),
                },
            }) == decide_model(old(self).ctx@, goal@, entry),
            r matches Ok(ext) ==> final(self).ctx@.len() + (match ext@ {
                None => 1,
                Some(s) => s.len(),
            }) == old(self).ctx@.len() + 1 + carried(goal@),
        decreases old(self).ctx@.len() + 1 + carried(goal@), old(self).ctx@.len() + 1, 0nat,
    {
        let TyEntry(g, d) = entry;
        match goal {
            Goal::Vars(a, b) => {
                if g == a && g == b {
                    Ok(restore())
                } else if g == a {
                    match d {
                        None => {
                            let s = Fwd::cons(TyEntry(a, Some(v(b))), Fwd::nil());
                            proof {
                                assert(s@ =~= seq![TyEntry(a, Some(Rc::new(Ty::V(b))))]);
                            }
                            Ok(replace(s))
                        },
                        Some(t) => {
                            self.unify(&v(b), &t)?;
                            Ok(restore())
                        },
                    }
                } else if g == b {
                    match d {
                        None => {
                            let s = Fwd::cons(TyEntry(b, Some(v(a))), Fwd::nil());
                            proof {
                                assert(s@ =~= seq![TyEntry(b, Some(Rc::new(Ty::V(a))))]);
                            }
                            Ok(replace(s))
                        },
                        Some(t) => {
                            self.unify(&v(a), &t)?;
                            Ok(restore())
                        },
                    }
                } else {
                    self.unify(&v(a), &v(b))?;
                    Ok(restore())
                }
            },
            Goal::Solve(a, suffix, t) => {
                let occurs = t.contains(g) || suffix.contains(g);
                if g == a {
                    if occurs {
                        Err(UnifyError::Occurs)
                    } else {
                        match d {
                            None => {
                                let s = suffix.append(Fwd::singleton(TyEntry(a, Some(t.clone()))));
                                proof {
                                    assert(s@ =~= suffix@.push(TyEntry(a, Some(Rc::new(*t)))));
                                }
                                Ok(replace(s))
                            },
                            Some(known) => {
                                self.push(suffix);
                                self.unify(&known, &t)?;
                                Ok(restore())
                            },
                        }
                    }
                } else if occurs {
                    self.solve(a, Fwd::cons(TyEntry(g, d), suffix), &t)?;
                    Ok(replace(Fwd::nil()))
                } else {
                    self.solve(a, suffix, &t)?;
                    Ok(restore())
                }
            },
        }
    }

    /// Makes `lhs` and `rhs` equal by solving variables of the context, or
    /// says why that cannot be done: `Occurs` where a variable would have to
    /// stand for a type that holds it, `NoContext` where the walk after a
    /// variable came to the end of the context.
    ///
    /// Where it succeeds, the two types are equal in the context it leaves,
    /// which has as many entries as before. After an error the context has
    /// lost the entries that had been taken off.
    ///
    /// In a context that is in order and declares the variables of both
    /// types, the answer is never `NoContext`, the context stays in order,
    /// and unification succeeds wherever the types can be made equal at all:
    /// `Occurs` says that they cannot.
    pub fn unify(&mut self, lhs: &Type, rhs: &Type) -> (r: Result<(), UnifyError>)
        ensures
            final(self).next == old(self).next,
            (Outcome { ctx: final(self).ctx@, res: r }) == unify_model(old(self).ctx@, **lhs, **rhs),
            final(self).ctx@.len() <= old(self).ctx@.len(),
            r is Ok ==> final(self).ctx@.len() == old(self).ctx@.len(),
            r is Ok ==> equal_in(final(self).ctx@, **lhs, **rhs),
            r is Err ==> r == Err::<(), UnifyError>(UnifyError::Occurs) || r == Err::<
                (),
                UnifyError,
            >(UnifyError::NoContext),
            old(self).wf() && old(self).knows(**lhs) && old(self).knows(**rhs) ==> r is Ok || r
                == Err::<(), UnifyError>(UnifyError::Occurs),
            old(self).wf() && old(self).knows(**lhs) && old(self).knows(**rhs) && r is Ok
                ==> final(self).wf() && names(final(self).ctx@) == names(old(self).ctx@),
            **lhs == **rhs && old(self).knows(**lhs) ==> r is Ok && final(self).ctx@ == old(self).ctx@,
            old(self).wf() && old(self).knows(**lhs) && old(self).knows(**rhs) && solvable(
                old(self).ctx@,
                **lhs,
                **rhs,
            ) ==> r is Ok,
            (**lhs matches Ty::V(a) && **rhs is Arr && declares(old(self).ctx@, a) && ty_occurs(
                **rhs,
                a,
            )) || (**rhs matches Ty::V(a) && **lhs is Arr && declares(old(self).ctx@, a)
                && ty_occurs(**lhs, a)) ==> r == Err::<(), UnifyError>(UnifyError::Occurs),
        decreases old(self).ctx@.len(), old(self).ctx@.len() + 1, ty_size(**lhs) + ty_size(**rhs),
    {
        proof {
            let l: &Ty = &**lhs;
            let r: &Ty = &**rhs;
            lemma_unify_shape(self.ctx@, l, r);
            if self.wf() && self.knows(*l) && self.knows(*r) && solvable(self.ctx@, *l, *r) {
                lemma_unify_finds(self.ctx@, l, r);
            }
            if *l == *r && self.knows(*l) {
                lemma_closed_declared(self.ctx@, l);
                lemma_unify_reflexive(self.ctx@, l);
            }
            if let Ty::V(a) = l {
                if *r is Arr && declares(self.ctx@, *a) && ty_occurs(*r, *a) {
                    lemma_occurs_check(self.ctx@, *a, *r);
                }
            }
            if let Ty::V(a) = r {
                if *l is Arr && declares(self.ctx@, *a) && ty_occurs(*l, *a) {
                    lemma_occurs_check(self.ctx@, *a, *l);
                }
            }
            if unify_model(self.ctx@, *l, *r).res is Ok {
                lemma_unify_sound(self.ctx@, l, r);
            }
            if self.wf() && self.knows(*l) && self.knows(*r) {
                lemma_unify_scoped(self.ctx@, l, r);
                let after = unify_model(self.ctx@, *l, *r).ctx;
                if unify_model(self.ctx@, *l, *r).res is Ok {
                    assert forall|z: u32| #[trigger] declares(after, TyName::F(z)) implies z
                        <= self.next by {
                        assert(names(after).contains(TyName::F(z)));
                        assert(names(self.ctx@).contains(TyName::F(z)));
                    }
                }
            }
        }
        match (&**lhs, &**rhs) {
            (Ty::Arr(t0, t1), Ty::Arr(v0, v1)) => {
                self.unify(t0, v0)?;
                self.unify(t1, v1)
            },
            (Ty::V(a), Ty::V(b)) => self.on_top(Goal::Vars(*a, *b)),
            (Ty::V(a), _) => self.solve(*a, Fwd::nil(), rhs),
            (_, Ty::V(b)) => self.solve(*b, Fwd::nil(), lhs),
        }
    }

    /// Lets the variable `a` stand for `t`, after a check that `a` occurs
    /// neither in `t` nor in the entries that `t` depends on. `suffix` holds
    /// entries that were taken off the context on the way to `a`; they go
    /// back in just below `a`'s entry.
    pub fn solve(&mut self, a: TyName, suffix: Suffix, t: &Type) -> (r: Result<(), UnifyError>)
        ensures
            final(self).next == old(self).next,
            (Outcome { ctx: final(self).ctx@, res: r }) == on_top_model(
                old(self).ctx@,
                Focus::Solve(a, suffix@, **t),
            ),
            final(self).ctx@.len() <= old(self).ctx@.len() + suffix@.len(),
            r is Ok ==> final(self).ctx@.len() == old(self).ctx@.len() + suffix@.len(),
            r is Ok ==> equal_in(final(self).ctx@, Ty::V(a), **t),
            r is Err ==> r == Err::<(), UnifyError>(UnifyError::Occurs) || r == Err::<
                (),
                UnifyError,
            >(UnifyError::NoContext),
            focus_scoped(old(self).ctx@, Focus::Solve(a, suffix@, **t)) ==> r is Ok || r == Err::<
                (),
                UnifyError,
            >(UnifyError::Occurs),
            focus_scoped(old(self).ctx@, Focus::Solve(a, suffix@, **t)) && r is Ok ==> scoped(
                final(self).ctx@,
            ) && names(final(self).ctx@) == names(affixed(old(self).ctx@, suffix@)),
        decreases old(self).ctx@.len() + suffix@.len(), old(self).ctx@.len(), 2nat,
    {
        proof {
            let ty: &Ty = &**t;
            let focus = Focus::Solve(a, suffix@, *ty);
            lemma_on_top_shape(self.ctx@, focus);
            if on_top_model(self.ctx@, focus).res is Ok {
                lemma_solve_sound(self.ctx@, a, suffix@, *ty);
            }
            if focus_scoped(self.ctx@, focus) {
                lemma_on_top_scoped(self.ctx@, focus);
            }
        }
        self.on_top(Goal::Solve(a, suffix, t.clone()))
    }
}


/// A context and its counter after a scheme was specialized, and the type
/// that came out.
pub struct Specialized {
    pub ctx: Seq<Entry>,
    pub next: u32,
    pub ty: Ty,
}

/// Specialization of `s` in `ctx` with the counter at `next`: binder by
/// binder from the outside, a new variable is declared (unsolved for
/// `Forall`, standing for the given type for `Let`) and put in the place of
/// the binder's variable.
pub open spec fn specialize_model(ctx: Seq<Entry>, next: u32, s: Sc) -> Specialized
    decreases sc_depth(s),
    via specialize_model_decreases
{
    match s {
        Sc::Type(t) => Specialized { ctx, next, ty: *t },
        Sc::Forall(inner) => {
            let beta = TyName::F((next + 1) as u32);
            specialize_model(
                ctx.push(Entry::TY(TyEntry(beta, None))),
                (next + 1) as u32,
                sc_instantiate(0, beta, *inner),
            )
        },
        Sc::Let(t, inner) => {
            let beta = TyName::F((next + 1) as u32);
            specialize_model(
                ctx.push(Entry::TY(TyEntry(beta, Some(t)))),
                (next + 1) as u32,
                sc_instantiate(0, beta, *inner),
            )
        },
    }
}

#[via_fn]
proof fn specialize_model_decreases(ctx: Seq<Entry>, next: u32, s: Sc) {
    let beta = TyName::F((next + 1) as u32);
    match &s {
        Sc::Type(_) => {},
        Sc::Forall(inner) => {
            lemma_instantiate_keeps_depth(0, beta, &**inner);
        },
        Sc::Let(_, inner) => {
            lemma_instantiate_keeps_depth(0, beta, &**inner);
        },
    }
}

impl Context {
    /// A type for one use of the scheme `s`: each bound variable of `s` is
    /// replaced by a variable that is declared for this use alone, after the
    /// entries that were there. A context that is in order stays in order,
    /// and declares the variables of the type, where the scheme mentions only
    /// variables that the context declares or the scheme binds.
    pub fn specialize(&mut self, s: Scheme) -> (r: Type)
        requires
            old(self).next + sc_depth(*s) <= u32::MAX,
        ensures
            (Specialized { ctx: final(self).ctx@, next: final(self).next, ty: *r })
                == specialize_model(old(self).ctx@, old(self).next, *s),
            final(self).next == old(self).next + sc_depth(*s),
            final(self).ctx@.len() == old(self).ctx@.len() + sc_depth(*s),
            final(self).ctx@.take(old(self).ctx@.len() as int) == old(self).ctx@,
            old(self).wf() && sc_closed(names(old(self).ctx@), 0, *s) ==> final(self).wf()
                && final(self).knows(*r),
        decreases sc_depth(*s),
    {
        proof {
            let sc: &Sc = &*s;
            lemma_specialize_declares(self.ctx@, self.next, sc);
            if self.wf() && sc_closed(names(self.ctx@), 0, *sc) {
                lemma_specialize_scoped(self.ctx@, self.next, sc);
            }
        }
        match &*s {
            Sc::Type(t) => t.clone(),
            Sc::Forall(inner) => {
                let beta = self.fresh(None);
                proof {
                    lemma_instantiate_keeps_depth(0, beta, &**inner);
                }
                self.specialize(instantiate_scheme(beta, inner.clone()))
            },
            Sc::Let(t, inner) => {
                let beta = self.fresh(Some(t.clone()));
                proof {
                    lemma_instantiate_keeps_depth(0, beta, &**inner);
                }
                self.specialize(instantiate_scheme(beta, inner.clone()))
            },
        }
    }
}


/// The place of the newest `TY` entry of `ctx`, if it has one.
pub open spec fn newest_ty(ctx: Seq<Entry>) -> Option<int>
    decreases ctx.len(),
{
    if ctx.len() == 0 {
        None
    } else if ctx.last() is TY {
        Some(ctx.len() - 1)
    } else {
        newest_ty(ctx.drop_last())
    }
}

/// Whether `after` and `r` are what a step on the entry at the place `k` of
/// `ctx` leaves when the decision on that entry was `d`: after an error,
/// the entries below `k`; else all entries, with the one at `k` put back or
/// replaced.
pub open spec fn stepped<E>(
    ctx: Seq<Entry>,
    k: int,
    d: Result<Ext, E>,
    after: Seq<Entry>,
    r: Result<(), E>,
) -> bool {
    match d {
        Err(e) => r == Err::<(), E>(e) && after == ctx.take(k),
        Ok(ext) => r is Ok && after == match ext@ {
            None => ctx,
            Some(suffix) => affixed(ctx.take(k), suffix) + ctx.skip(k + 1),
        },
    }
}

impl Context {
    /// Takes the newest `TY` entry off the context, asks `f` what to do
    /// with it, and puts it back or replaces it as `f` says. Entries of other
    /// kinds that lie above it are stepped over and keep their places. After
    /// an error of `f` nothing that was taken off is put back. A context
    /// without a `TY` entry is an error, the one that `E` has for it, and the
    /// context is empty afterwards.
    pub fn on_top_with<E: AsNoContext, F: FnOnce(TyEntry) -> Result<Ext, E>>(
        &mut self,
        f: F,
    ) -> (r: Result<(), E>)
        requires
            forall|e: TyEntry| call_requires(f, (e,)),
        ensures
            final(self).next == old(self).next,
            newest_ty(old(self).ctx@) is None ==> r is Err && call_ensures(
                E::no_context,
                (),
                r->Err_0,
            ) && final(self).ctx@.len() == 0,
            newest_ty(old(self).ctx@) matches Some(k) ==> 0 <= k < old(self).ctx@.len() && old(self).ctx@[k] is TY && exists|d: Result<Ext, E>|
                call_ensures(f, (old(self).ctx@[k]->TY_0,), d) && #[trigger] stepped(
                    old(self).ctx@,
                    k,
                    d,
                    final(self).ctx@,
                    r,
                ),
        decreases old(self).ctx@.len(),
    {
        let ghost before = self.ctx@;
        match self.ctx.next() {
            None => Err(E::no_context()),
            Some(Entry::TY(entry)) => {
                let ghost k = before.len() - 1;
                let ghost rest = self.ctx@;
                let d = f(entry.clone());
                proof {
                    assert(before.take(k) =~= rest);
                    assert(before.skip(k + 1) =~= Seq::<Entry>::empty());
                    assert(rest.push(Entry::TY(entry)) =~= before);
                }
                match d {
                    Err(e) => {
                        proof {
                            assert(stepped(before, k, Err::<Ext, E>(e), self.ctx@, Err::<(), E>(e)));
                        }
                        Err(e)
                    },
                    Ok(Ext::Restore) => {
                        self.ctx.snoc_mut(Entry::TY(entry));
                        proof {
                            assert(stepped(
                                before,
                                k,
                                Ok::<Ext, E>(Ext::Restore),
                                self.ctx@,
                                Ok::<(), E>(()),
                            ));
                        }
                        Ok(())
                    },
                    Ok(Ext::Replace(suffix)) => {
                        let ghost s = suffix@;
                        self.push(suffix);
                        proof {
                            assert(self.ctx@ =~= affixed(before.take(k), s) + before.skip(k + 1));
                            assert(stepped(
                                before,
                                k,
                                Ok::<Ext, E>(Ext::Replace(suffix)),
                                self.ctx@,
                                Ok::<(), E>(()),
                            ));
                        }
                        Ok(())
                    },
                }
            },
            Some(other) => {
                let ghost rest = self.ctx@;
                proof {
                    assert(rest.push(other) =~= before);
                }
                let below = self.on_top_with(f);
                let ghost left = self.ctx@;
                match below {
                    Err(e) => {
                        proof {
                            if newest_ty(rest) is Some {
                                let k = newest_ty(rest)->Some_0;
                                let d = choose|d: Result<Ext, E>|
                                    call_ensures(f, (rest[k]->TY_0,), d) && #[trigger] stepped(
                                        rest,
                                        k,
                                        d,
                                        left,
                                        below,
                                    );
                                assert(before.take(k) =~= rest.take(k));
                                assert(stepped(before, k, d, self.ctx@, Err::<(), E>(e)));
                            }
                        }
                        Err(e)
                    },
                    Ok(()) => {
                        self.ctx.snoc_mut(other);
                        proof {
                            let k = newest_ty(rest)->Some_0;
                            let d = choose|d: Result<Ext, E>|
                                call_ensures(f, (rest[k]->TY_0,), d) && #[trigger] stepped(
                                    rest,
                                    k,
                                    d,
                                    left,
                                    below,
                                );
                            assert(before.take(k) =~= rest.take(k));
                            assert(before.skip(k + 1) =~= rest.skip(k + 1).push(other));
                            if d->Ok_0@ is Some {
                                let suffix = d->Ok_0@->Some_0;
                                assert(self.ctx@ =~= affixed(before.take(k), suffix) + before.skip(
                                    k + 1,
                                ));
                            }
                            assert(stepped(before, k, d, self.ctx@, Ok::<(), E>(())));
                        }
                        Ok(())
                    },
                }
            },
        }
    }
}

} // verus!
