//! The order of a context.
//!
//! A context is scoped when the solution of each entry mentions only
//! variables that older entries declare. Unification keeps a scoped context
//! scoped: that is what the walk with its suffix is for. In a scoped context
//! that declares the variables of two types, unifying them never runs out of
//! entries.

use crate::context::{
    carried, decide_model, on_top_model, specialize_model, suffix_occurs, unify_model, Focus,
};
use crate::laws::{declares, entry_declares, lemma_unify_shape};
use crate::soundness::decided;
use crate::types::{
    affixed, lemma_instantiate_keeps_depth, sc_depth, sc_instantiate, ty_instantiate, ty_occurs,
    ty_size, Entry, FTV, Sc, Ty, TyEntry, TyName, UnifyError,
};
use std::rc::Rc;
use vstd::prelude::*;

verus! {

/// The variables that `ctx` declares.
pub open spec fn names(ctx: Seq<Entry>) -> Set<TyName> {
    Set::new(|x: TyName| declares(ctx, x))
}

/// Whether every variable of `t` is in `dom`.
pub open spec fn closed_in(dom: Set<TyName>, t: Ty) -> bool
    decreases t,
{
    match t {
        Ty::V(x) => dom.contains(x),
        Ty::Arr(l, r) => closed_in(dom, *l) && closed_in(dom, *r),
    }
}

/// Whether the solution of `entry`, if it has one, mentions variables of
/// `dom` only.
pub open spec fn entry_scoped(dom: Set<TyName>, entry: Entry) -> bool {
    entry matches Entry::TY(TyEntry(_, Some(d))) ==> closed_in(dom, *d)
}

/// Whether the solution of each entry of `ctx` mentions only variables that
/// older entries declare.
pub open spec fn scoped(ctx: Seq<Entry>) -> bool {
    forall|i: int| 0 <= i < ctx.len() ==> entry_scoped(names(ctx.take(i)), #[trigger] ctx[i])
}

/// Whether the variable that `entry` declares, if any, occurs in `t`.
pub open spec fn mentions(t: Ty, entry: Entry) -> bool {
    entry matches Entry::TY(TyEntry(g, _)) && ty_occurs(t, g)
}

/// A term that is closed in one set is closed in another that has all the
/// variables of the first but, at most, the one that `without` declares,
/// where the term does not mention that one.
pub proof fn lemma_closed_transfer(from: Set<TyName>, to: Set<TyName>, t: &Ty, without: Entry)
    requires
        closed_in(from, *t),
        forall|x: TyName| from.contains(x) && !entry_declares(without, x) ==> to.contains(x),
        !mentions(*t, without),
    ensures
        closed_in(to, *t),
    decreases *t,
{
    if let Ty::Arr(l, r) = t {
        lemma_closed_transfer(from, to, &**l, without);
        lemma_closed_transfer(from, to, &**r, without);
    }
}

/// A context with one more entry declares what the context declares, and
/// what the entry declares.
pub proof fn lemma_declares_push(ctx: Seq<Entry>, entry: Entry, x: TyName)
    ensures
        declares(ctx.push(entry), x) == (declares(ctx, x) || entry_declares(entry, x)),
{
    let all = ctx.push(entry);
    if declares(ctx, x) {
        let i = choose|i: int| 0 <= i < ctx.len() && #[trigger] entry_declares(ctx[i], x);
        assert(entry_declares(all[i], x));
    }
    if entry_declares(entry, x) {
        assert(entry_declares(all[ctx.len() as int], x));
    }
    if declares(all, x) {
        let i = choose|i: int| 0 <= i < all.len() && #[trigger] entry_declares(all[i], x);
        if i < ctx.len() {
            assert(entry_declares(ctx[i], x));
        }
    }
}

/// A context without one of its entries declares what the context
/// declared, but perhaps for what that entry declared.
pub proof fn lemma_declares_remove(ctx: Seq<Entry>, k: int, x: TyName)
    requires
        0 <= k < ctx.len(),
    ensures
        declares(ctx, x) == (declares(ctx.remove(k), x) || entry_declares(ctx[k], x)),
{
    let less = ctx.remove(k);
    if declares(ctx, x) && !entry_declares(ctx[k], x) {
        let i = choose|i: int| 0 <= i < ctx.len() && #[trigger] entry_declares(ctx[i], x);
        if i < k {
            assert(entry_declares(less[i], x));
        } else {
            assert(entry_declares(less[i - 1], x));
        }
    }
    if declares(less, x) {
        let i = choose|i: int| 0 <= i < less.len() && #[trigger] entry_declares(less[i], x);
        if i < k {
            assert(entry_declares(ctx[i], x));
        } else {
            assert(entry_declares(ctx[i + 1], x));
        }
    }
}

/// A context with one more entry is scoped where the context is, and the
/// entry's solution mentions only what the context declares.
pub proof fn lemma_scoped_push(ctx: Seq<Entry>, entry: Entry)
    ensures
        scoped(ctx.push(entry)) <==> scoped(ctx) && entry_scoped(names(ctx), entry),
{
    let all = ctx.push(entry);
    let n = ctx.len() as int;
    assert(all.take(n) =~= ctx);
    assert(all[n] == entry);
    if scoped(all) {
        assert forall|i: int| 0 <= i < ctx.len() implies entry_scoped(
            names(ctx.take(i)),
            #[trigger] ctx[i],
        ) by {
            assert(all.take(i) =~= ctx.take(i));
            assert(all[i] == ctx[i]);
        }
    }
    if scoped(ctx) && entry_scoped(names(ctx), entry) {
        assert forall|i: int| 0 <= i < all.len() implies entry_scoped(
            names(all.take(i)),
            #[trigger] all[i],
        ) by {
            if i < n {
                assert(all.take(i) =~= ctx.take(i));
                assert(all[i] == ctx[i]);
            }
        }
    }
}

/// Whether no entry of `ctx` after the place `k` mentions in its solution
/// the variable that the entry at `k` declares.
pub open spec fn unmentioned_after(ctx: Seq<Entry>, k: int) -> bool {
    forall|j: int|
        k < j < ctx.len() ==> ((#[trigger] ctx[j]) matches Entry::TY(TyEntry(_, Some(d)))
            ==> !mentions(*d, ctx[k]))
}

/// A scoped context stays scoped when an entry leaves it that no later
/// entry mentions.
pub proof fn lemma_scoped_remove(ctx: Seq<Entry>, k: int)
    requires
        0 <= k < ctx.len(),
        scoped(ctx),
        unmentioned_after(ctx, k),
    ensures
        scoped(ctx.remove(k)),
{
    let less = ctx.remove(k);
    assert forall|i: int| 0 <= i < less.len() implies entry_scoped(
        names(less.take(i)),
        #[trigger] less[i],
    ) by {
        if i < k {
            assert(less.take(i) =~= ctx.take(i));
            assert(less[i] == ctx[i]);
        } else {
            assert(less[i] == ctx[i + 1]);
            assert(less.take(i) =~= ctx.take(i + 1).remove(k));
            if let Entry::TY(TyEntry(_, Some(d))) = ctx[i + 1] {
                let from = names(ctx.take(i + 1));
                let to = names(less.take(i));
                assert forall|x: TyName| from.contains(x) && !entry_declares(ctx[k], x) implies to.contains(
                    x,
                ) by {
                    lemma_declares_remove(ctx.take(i + 1), k, x);
                }
                lemma_closed_transfer(from, to, &*d, ctx[k]);
            }
        }
    }
}


/// The entries that a walk has in hand: the context, and after it the
/// entries that it carries.
pub open spec fn whole(ctx: Seq<Entry>, focus: Focus) -> Seq<Entry> {
    match focus {
        Focus::Vars(_, _) => ctx,
        Focus::Solve(_, suffix, _) => affixed(ctx, suffix),
    }
}

/// Whether a walk starts well: what it has in hand is scoped, the context
/// declares the variable it is after, and what it has in hand declares the
/// variables of the type that the variable is to stand for.
pub open spec fn focus_scoped(ctx: Seq<Entry>, focus: Focus) -> bool {
    &&& scoped(whole(ctx, focus))
    &&& match focus {
        Focus::Vars(a, b) => declares(ctx, a) && declares(ctx, b),
        Focus::Solve(a, _, t) => declares(ctx, a) && closed_in(names(whole(ctx, focus)), t),
    }
}

/// Whether `r` is another result than the error `NoContext`.
pub open spec fn found<T>(r: Result<T, UnifyError>) -> bool {
    !(r matches Err(UnifyError::NoContext))
}

/// An entry that is put back on a context which declares what the entry
/// was scoped in leaves a scoped context, which declares all of that and
/// what the entry declares.
pub proof fn lemma_put_back(after: Seq<Entry>, base: Seq<Entry>, entry: Entry, target: Seq<Entry>)
    requires
        scoped(after),
        names(after) == names(base),
        entry_scoped(names(base), entry),
        forall|x: TyName| #[trigger]
            declares(target, x) == (declares(base, x) || entry_declares(entry, x)),
    ensures
        scoped(after.push(entry)),
        names(after.push(entry)) == names(target),
{
    lemma_scoped_push(after, entry);
    assert forall|x: TyName| names(after.push(entry)).contains(x) == names(target).contains(
        x,
    ) by {
        lemma_declares_push(after, entry, x);
        assert(names(after).contains(x) == names(base).contains(x));
        assert(names(after).contains(x) == declares(after, x));
        assert(names(base).contains(x) == declares(base, x));
        assert(declares(target, x) == (declares(base, x) || entry_declares(entry, x)));
        assert(names(target).contains(x) == declares(target, x));
        assert(names(after.push(entry)).contains(x) == declares(after.push(entry), x));
    }
    assert(names(after.push(entry)) =~= names(target));
}

/// What a context declares, the context with a suffix after it declares
/// too.
pub proof fn lemma_declares_affixed(ctx: Seq<Entry>, suffix: Seq<TyEntry>, x: TyName)
    requires
        declares(ctx, x),
    ensures
        declares(affixed(ctx, suffix), x),
{
    let i = choose|i: int| 0 <= i < ctx.len() && #[trigger] entry_declares(ctx[i], x);
    assert(entry_declares(affixed(ctx, suffix)[i], x));
}

/// What a walk after two variables knows of the context below the newest
/// entry.
pub proof fn lemma_step_vars(rest: Seq<Entry>, e: TyEntry, a: TyName, b: TyName)
    requires
        focus_scoped(rest.push(Entry::TY(e)), Focus::Vars(a, b)),
    ensures
        scoped(rest),
        entry_scoped(names(rest), Entry::TY(e)),
        e.0 != a ==> declares(rest, a),
        e.0 != b ==> declares(rest, b),
{
    lemma_scoped_push(rest, Entry::TY(e));
    lemma_declares_push(rest, Entry::TY(e), a);
    lemma_declares_push(rest, Entry::TY(e), b);
}

/// A walk that takes an entry along starts well below that entry, with the
/// same entries in hand.
pub proof fn lemma_step_carry(rest: Seq<Entry>, e: TyEntry, a: TyName, suffix: Seq<TyEntry>, t: Ty)
    requires
        focus_scoped(rest.push(Entry::TY(e)), Focus::Solve(a, suffix, t)),
        e.0 != a,
    ensures
        affixed(rest, seq![e] + suffix) == affixed(rest.push(Entry::TY(e)), suffix),
        focus_scoped(rest, Focus::Solve(a, seq![e] + suffix, t)),
{
    assert(affixed(rest, seq![e] + suffix) =~= affixed(rest.push(Entry::TY(e)), suffix));
    lemma_declares_push(rest, Entry::TY(e), a);
}

/// A walk that leaves behind an entry which nothing in hand mentions has
/// the rest in hand as a scoped context that declares the variables of its
/// type, and of the entry's solution.
pub proof fn lemma_step_skip(rest: Seq<Entry>, e: TyEntry, a: TyName, suffix: Seq<TyEntry>, t: &Ty)
    requires
        focus_scoped(rest.push(Entry::TY(e)), Focus::Solve(a, suffix, *t)),
        !ty_occurs(*t, e.0),
        !suffix_occurs(suffix, e.0),
    ensures
        scoped(affixed(rest, suffix)),
        closed_in(names(affixed(rest, suffix)), *t),
        entry_scoped(names(affixed(rest, suffix)), Entry::TY(e)),
        e.0 != a ==> focus_scoped(rest, Focus::Solve(a, suffix, *t)),
{
    let top = Entry::TY(e);
    let all = affixed(rest.push(top), suffix);
    let less = affixed(rest, suffix);
    let k = rest.len() as int;
    assert(all[k] == top);
    assert(less =~= all.remove(k));
    assert(all.take(k) =~= rest);
    assert forall|j: int| k < j < all.len() implies ((#[trigger] all[j]) matches Entry::TY(
        TyEntry(_, Some(s)),
    ) ==> !mentions(*s, all[k])) by {
        assert(all[j] == Entry::TY(suffix[j - k - 1]));
        assert(!suffix[j - k - 1].occurs(e.0));
    }
    lemma_scoped_remove(all, k);
    assert forall|x: TyName| names(all).contains(x) && !entry_declares(top, x) implies names(
        less,
    ).contains(x) by {
        lemma_declares_remove(all, k, x);
    }
    lemma_closed_transfer(names(all), names(less), t, top);
    assert forall|x: TyName| names(rest).contains(x) implies names(less).contains(x) by {
        lemma_declares_affixed(rest, suffix, x);
    }
    if let Some(known) = &e.1 {
        lemma_closed_transfer(names(rest), names(less), &**known, Entry::SEMI);
    }
    lemma_declares_push(rest, top, a);
}

/// A walk that steps over an entry of another kind starts well below it,
/// and what it has in hand there is what it had, without that entry.
pub proof fn lemma_step_other(rest: Seq<Entry>, other: Entry, focus: Focus)
    requires
        !(other is TY),
        focus_scoped(rest.push(other), focus),
    ensures
        focus_scoped(rest, focus),
        whole(rest, focus) == whole(rest.push(other), focus).remove(rest.len() as int),
{
    let k = rest.len() as int;
    let all = whole(rest.push(other), focus);
    let less = whole(rest, focus);
    assert(all[k] == other);
    assert(less =~= all.remove(k));
    lemma_scoped_remove(all, k);
    assert forall|x: TyName| names(all).contains(x) implies names(less).contains(x) by {
        lemma_declares_remove(all, k, x);
    }
    match &focus {
        Focus::Vars(a, b) => {
            lemma_declares_push(rest, other, *a);
            lemma_declares_push(rest, other, *b);
        },
        Focus::Solve(a, _, t) => {
            lemma_declares_push(rest, other, *a);
            lemma_closed_transfer(names(all), names(less), t, Entry::SEMI);
        },
    }
}

/// In a scoped context that declares the variables of two types, unifying
/// them does not end in `NoContext`; and where it succeeds, the context it
/// leaves is scoped and declares the same variables.
pub proof fn lemma_unify_scoped(ctx: Seq<Entry>, lhs: &Ty, rhs: &Ty)
    requires
        scoped(ctx),
        closed_in(names(ctx), *lhs),
        closed_in(names(ctx), *rhs),
    ensures
        found(unify_model(ctx, *lhs, *rhs).res),
        unify_model(ctx, *lhs, *rhs).res is Ok ==> scoped(unify_model(ctx, *lhs, *rhs).ctx)
            && names(unify_model(ctx, *lhs, *rhs).ctx) == names(ctx),
    decreases ctx.len(), ctx.len() + 1, ty_size(*lhs) + ty_size(*rhs),
{
    match (lhs, rhs) {
        (Ty::Arr(t0, t1), Ty::Arr(v0, v1)) => {
            let t0: &Ty = &**t0;
            let v0: &Ty = &**v0;
            lemma_unify_shape(ctx, t0, v0);
            lemma_unify_scoped(ctx, t0, v0);
            let first = unify_model(ctx, *t0, *v0);
            if first.res is Ok {
                lemma_unify_scoped(first.ctx, &**t1, &**v1);
            }
        },
        (Ty::V(a), Ty::V(b)) => {
            lemma_on_top_scoped(ctx, Focus::Vars(*a, *b));
        },
        (Ty::V(a), _) => {
            assert(affixed(ctx, Seq::empty()) =~= ctx);
            lemma_on_top_scoped(ctx, Focus::Solve(*a, Seq::empty(), *rhs));
        },
        (_, Ty::V(b)) => {
            assert(affixed(ctx, Seq::empty()) =~= ctx);
            lemma_on_top_scoped(ctx, Focus::Solve(*b, Seq::empty(), *lhs));
        },
    }
}

/// The same of a walk that starts well: it finds its variable, and where
/// it succeeds it leaves a scoped context that declares what it had in
/// hand.
pub proof fn lemma_on_top_scoped(ctx: Seq<Entry>, focus: Focus)
    requires
        focus_scoped(ctx, focus),
    ensures
        found(on_top_model(ctx, focus).res),
        on_top_model(ctx, focus).res is Ok ==> scoped(on_top_model(ctx, focus).ctx) && names(
            on_top_model(ctx, focus).ctx,
        ) == names(whole(ctx, focus)),
    decreases ctx.len() + carried(focus), ctx.len(), 1nat,
{
    let rest = ctx.drop_last();
    let top = ctx.last();
    assert(ctx.len() > 0);
    assert(rest.push(top) =~= ctx);
    match top {
        Entry::TY(e) => {
            lemma_decide_scoped(rest, focus, e);
        },
        other => {
            let all = whole(ctx, focus);
            let less = whole(rest, focus);
            lemma_step_other(rest, other, focus);
            lemma_on_top_scoped(rest, focus);
            let below = on_top_model(rest, focus);
            if below.res is Ok {
                assert forall|x: TyName| #[trigger]
                    declares(all, x) == (declares(less, x) || entry_declares(other, x)) by {
                    lemma_declares_remove(all, rest.len() as int, x);
                }
                lemma_put_back(below.ctx, less, other, all);
            }
        },
    }
}

/// The same of the decision on one entry of a walk that started well.
pub proof fn lemma_decide_scoped(rest: Seq<Entry>, focus: Focus, e: TyEntry)
    requires
        focus_scoped(rest.push(Entry::TY(e)), focus),
    ensures
        found(decide_model(rest, focus, e).res),
        decide_model(rest, focus, e).res matches Ok(d) ==> scoped(
            decided(decide_model(rest, focus, e).ctx, e, d),
        ) && names(decided(decide_model(rest, focus, e).ctx, e, d)) == names(
            whole(rest.push(Entry::TY(e)), focus),
        ),
    decreases rest.len() + 1 + carried(focus), rest.len() + 1, 0nat,
{
    let g = e.0;
    let top = Entry::TY(e);
    let ctx = rest.push(top);
    let k = rest.len() as int;
    match &focus {
        Focus::Vars(a, b) => {
            let va = Ty::V(*a);
            let vb = Ty::V(*b);
            lemma_step_vars(rest, e, *a, *b);
            assert forall|x: TyName| #[trigger]
                declares(ctx, x) == (declares(rest, x) || entry_declares(top, x)) by {
                lemma_declares_push(rest, top, x);
            }
            if g == *a && g == *b {
            } else if g == *a || g == *b {
                let other = if g == *a {
                    vb
                } else {
                    va
                };
                match &e.1 {
                    None => {
                        let solved = Entry::TY(TyEntry(g, Some(Rc::new(other))));
                        assert(affixed(rest, seq![TyEntry(g, Some(Rc::new(other)))]) =~= rest.push(
                            solved,
                        ));
                        assert forall|x: TyName| #[trigger]
                            declares(ctx, x) == (declares(rest, x) || entry_declares(solved, x)) by {}
                        lemma_put_back(rest, rest, solved, ctx);
                    },
                    Some(t) => {
                        let t: &Ty = &**t;
                        lemma_unify_scoped(rest, &other, t);
                        let after = unify_model(rest, other, *t);
                        if after.res is Ok {
                            lemma_put_back(after.ctx, rest, top, ctx);
                        }
                    },
                }
            } else {
                lemma_unify_scoped(rest, &va, &vb);
                let after = unify_model(rest, va, vb);
                if after.res is Ok {
                    lemma_put_back(after.ctx, rest, top, ctx);
                }
            }
        },
        Focus::Solve(a, suffix, t) => {
            let all = affixed(ctx, *suffix);
            let less = affixed(rest, *suffix);
            let occurs = ty_occurs(*t, g) || suffix_occurs(*suffix, g);
            if g != *a && occurs {
                let carried_on = seq![e] + *suffix;
                lemma_step_carry(rest, e, *a, *suffix, *t);
                lemma_on_top_scoped(rest, Focus::Solve(*a, carried_on, *t));
                let below = on_top_model(rest, Focus::Solve(*a, carried_on, *t));
                assert(affixed(below.ctx, Seq::empty()) =~= below.ctx);
            } else if !occurs {
                lemma_step_skip(rest, e, *a, *suffix, t);
                assert(all[k] == top);
                assert(less =~= all.remove(k));
                assert forall|x: TyName| #[trigger]
                    declares(all, x) == (declares(less, x) || entry_declares(top, x)) by {
                    lemma_declares_remove(all, k, x);
                }
                if g == *a {
                    match &e.1 {
                        None => {
                            let solved = Entry::TY(TyEntry(*a, Some(Rc::new(*t))));
                            assert(affixed(rest, suffix.push(TyEntry(*a, Some(Rc::new(*t)))))
                                =~= less.push(solved));
                            assert forall|x: TyName| #[trigger]
                                declares(all, x) == (declares(less, x) || entry_declares(
                                    solved,
                                    x,
                                )) by {}
                            lemma_put_back(less, less, solved, all);
                        },
                        Some(known) => {
                            let known: &Ty = &**known;
                            lemma_unify_scoped(less, known, t);
                            let after = unify_model(less, *known, *t);
                            if after.res is Ok {
                                lemma_put_back(after.ctx, less, top, all);
                            }
                        },
                    }
                } else {
                    lemma_on_top_scoped(rest, Focus::Solve(*a, *suffix, *t));
                    let below = on_top_model(rest, Focus::Solve(*a, *suffix, *t));
                    if below.res is Ok {
                        lemma_put_back(below.ctx, less, top, all);
                    }
                }
            }
        },
    }
}

/// A context with one more entry declares the variables of every type
/// whose variables the context declared.
pub proof fn lemma_closed_push(ctx: Seq<Entry>, entry: Entry, t: &Ty)
    requires
        closed_in(names(ctx), *t),
    ensures
        closed_in(names(ctx.push(entry)), *t),
{
    assert forall|x: TyName| names(ctx).contains(x) implies names(ctx.push(entry)).contains(x) by {
        lemma_declares_push(ctx, entry, x);
    }
    lemma_closed_transfer(names(ctx), names(ctx.push(entry)), t, Entry::SEMI);
}


/// Whether every free variable of `t` is in `dom`, and every bound index
/// of `t` is below `k`.
pub open spec fn closed_upto(dom: Set<TyName>, k: int, t: Ty) -> bool
    decreases t,
{
    match t {
        Ty::V(TyName::F(x)) => dom.contains(TyName::F(x)),
        Ty::V(TyName::B(m)) => m < k,
        Ty::Arr(l, r) => closed_upto(dom, k, *l) && closed_upto(dom, k, *r),
    }
}

/// Whether every type of the scheme `s` mentions free variables of `dom`
/// only, and bound variables of the binders of `s` and of `k` binders
/// around it only.
pub open spec fn sc_closed(dom: Set<TyName>, k: int, s: Sc) -> bool
    decreases s,
{
    match s {
        Sc::Type(t) => closed_upto(dom, k, *t),
        Sc::Forall(inner) => sc_closed(dom, k + 1, *inner),
        Sc::Let(t, inner) => closed_upto(dom, k, *t) && sc_closed(dom, k + 1, *inner),
    }
}

/// A term without bound variables whose free variables are in `dom` is
/// closed in `dom`.
pub proof fn lemma_closed_upto_zero(dom: Set<TyName>, t: &Ty)
    requires
        closed_upto(dom, 0, *t),
    ensures
        closed_in(dom, *t),
    decreases *t,
{
    if let Ty::Arr(l, r) = t {
        lemma_closed_upto_zero(dom, &**l);
        lemma_closed_upto_zero(dom, &**r);
    }
}

/// Instantiating the outermost bound variable of a term by `x` leaves a
/// term with one bound variable less, whose free variables are those it
/// had, and `x`.
pub proof fn lemma_instantiate_closed(dom: Set<TyName>, n: u32, x: TyName, t: &Ty)
    requires
        closed_upto(dom, n + 1, *t),
        x is F,
    ensures
        closed_upto(dom.insert(x), n as int, ty_instantiate(n, x, *t)),
    decreases *t,
{
    if let Ty::Arr(l, r) = t {
        lemma_instantiate_closed(dom, n, x, &**l);
        lemma_instantiate_closed(dom, n, x, &**r);
    }
}

/// The same for a scheme.
pub proof fn lemma_sc_instantiate_closed(dom: Set<TyName>, n: u32, x: TyName, s: &Sc)
    requires
        sc_closed(dom, n + 1, *s),
        x is F,
        n + sc_depth(*s) <= u32::MAX,
    ensures
        sc_closed(dom.insert(x), n as int, sc_instantiate(n, x, *s)),
    decreases *s,
{
    match s {
        Sc::Type(t) => {
            lemma_instantiate_closed(dom, n, x, &**t);
        },
        Sc::Forall(inner) => {
            lemma_sc_instantiate_closed(dom, (n + 1) as u32, x, &**inner);
        },
        Sc::Let(t, inner) => {
            lemma_instantiate_closed(dom, n, x, &**t);
            lemma_sc_instantiate_closed(dom, (n + 1) as u32, x, &**inner);
        },
    }
}

/// Whether every free variable that `ctx` declares was named from a counter
/// that stands at `next`.
pub open spec fn counted(ctx: Seq<Entry>, next: u32) -> bool {
    forall|z: u32| #[trigger] declares(ctx, TyName::F(z)) ==> z <= next
}

/// Specialization keeps a context in order: where the context is scoped
/// and counted, and the scheme mentions only variables that the context
/// declares and that the scheme binds, the context that specialization
/// leaves is scoped and counted, and declares the variables of the type
/// that comes out.
pub proof fn lemma_specialize_scoped(ctx: Seq<Entry>, next: u32, s: &Sc)
    requires
        scoped(ctx),
        counted(ctx, next),
        sc_closed(names(ctx), 0, *s),
        next + sc_depth(*s) <= u32::MAX,
    ensures
        scoped(specialize_model(ctx, next, *s).ctx),
        counted(specialize_model(ctx, next, *s).ctx, specialize_model(ctx, next, *s).next),
        closed_in(names(specialize_model(ctx, next, *s).ctx), specialize_model(ctx, next, *s).ty),
    decreases sc_depth(*s), 0nat,
{
    let beta = TyName::F((next + 1) as u32);
    match s {
        Sc::Type(t) => {
            lemma_closed_upto_zero(names(ctx), &**t);
        },
        Sc::Forall(inner) => {
            let inner: &Sc = &**inner;
            lemma_specialize_step(ctx, next, Entry::TY(TyEntry(beta, None)), inner);
        },
        Sc::Let(t, inner) => {
            let inner: &Sc = &**inner;
            lemma_closed_upto_zero(names(ctx), &**t);
            lemma_specialize_step(ctx, next, Entry::TY(TyEntry(beta, Some(*t))), inner);
        },
    }
}

/// The step of `lemma_specialize_scoped`: one variable is declared and put
/// in the place of the outermost bound variable.
proof fn lemma_specialize_step(ctx: Seq<Entry>, next: u32, entry: Entry, inner: &Sc)
    requires
        scoped(ctx),
        counted(ctx, next),
        sc_closed(names(ctx), 1, *inner),
        next + 1 + sc_depth(*inner) <= u32::MAX,
        entry matches Entry::TY(TyEntry(a, d)) && a == TyName::F((next + 1) as u32),
        entry_scoped(names(ctx), entry),
    ensures
        ({
            let beta = TyName::F((next + 1) as u32);
            let r = specialize_model(
                ctx.push(entry),
                (next + 1) as u32,
                sc_instantiate(0, beta, *inner),
            );
            &&& scoped(r.ctx)
            &&& counted(r.ctx, r.next)
            &&& closed_in(names(r.ctx), r.ty)
        }),
    decreases sc_depth(*inner), 1nat,
{
    let beta = TyName::F((next + 1) as u32);
    let rest = sc_instantiate(0, beta, *inner);
    let more = ctx.push(entry);
    lemma_instantiate_keeps_depth(0, beta, inner);
    lemma_sc_instantiate_closed(names(ctx), 0, beta, inner);
    lemma_scoped_push(ctx, entry);
    assert forall|x: TyName| names(more).contains(x) == names(ctx).insert(beta).contains(x) by {
        lemma_declares_push(ctx, entry, x);
    }
    assert(names(more) =~= names(ctx).insert(beta));
    assert forall|z: u32| #[trigger] declares(more, TyName::F(z)) implies z <= next + 1 by {
        lemma_declares_push(ctx, entry, TyName::F(z));
    }
    lemma_specialize_scoped(more, (next + 1) as u32, &rest);
}


/// A context that declares the variables of a type declares each of them.
pub proof fn lemma_closed_declared(ctx: Seq<Entry>, t: &Ty)
    ensures
        closed_in(names(ctx), *t) == crate::laws::all_declared(ctx, *t),
    decreases *t,
{
    if let Ty::Arr(l, r) = t {
        lemma_closed_declared(ctx, &**l);
        lemma_closed_declared(ctx, &**r);
    }
}

} // verus!
