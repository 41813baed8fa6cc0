//! Unification fails only where there is nothing to find.
//!
//! A solution gives every variable a type. It satisfies a context if it
//! gives each solved variable what it gives the variable's solution, and it
//! unifies two types if it gives them the same type. In a scoped context
//! that declares the variables of two types, unifying them succeeds whenever
//! a solution satisfies the context and unifies the types; and the same
//! solution satisfies the context that is left.

use crate::context::{carried, decide_model, on_top_model, suffix_occurs, unify_model, Focus};
use crate::laws::lemma_unify_shape;
use crate::scoping::{
    closed_in, focus_scoped, lemma_step_carry, lemma_step_other, lemma_step_skip, lemma_step_vars,
    lemma_unify_scoped, names, scoped, whole,
};
use crate::soundness::{
    congruence, decided, entry_holds, lemma_respects_affixed, lemma_respects_push,
    lemma_unify_sound_under, respects,
};
use crate::types::{affixed, ty_occurs, ty_size, Entry, Ty, TyEntry, TyName, FTV};
use std::rc::Rc;
use vstd::prelude::*;

verus! {

/// `t` with each variable replaced by what `sigma` gives it.
pub open spec fn apply(sigma: spec_fn(TyName) -> Ty, t: Ty) -> Ty
    decreases t,
{
    match t {
        Ty::V(x) => sigma(x),
        Ty::Arr(l, r) => Ty::Arr(Rc::new(apply(sigma, *l)), Rc::new(apply(sigma, *r))),
    }
}

/// The relation of two types to which `sigma` gives the same type.
pub open spec fn unified_by(sigma: spec_fn(TyName) -> Ty) -> spec_fn(Ty, Ty) -> bool {
    |s: Ty, t: Ty| apply(sigma, s) == apply(sigma, t)
}

/// Whether `sigma` satisfies `ctx`: it gives each solved variable what it
/// gives the variable's solution.
pub open spec fn satisfies(sigma: spec_fn(TyName) -> Ty, ctx: Seq<Entry>) -> bool {
    respects(unified_by(sigma), ctx)
}

/// The relation of a solution is a congruence.
pub proof fn lemma_unified_by_congruence(sigma: spec_fn(TyName) -> Ty)
    ensures
        congruence(unified_by(sigma)),
{
    reveal(congruence);
}

/// What a solution gives a variable of a type is no larger than what it
/// gives the type, and smaller where the type is an arrow.
pub proof fn lemma_apply_size(sigma: spec_fn(TyName) -> Ty, t: &Ty, x: TyName)
    requires
        ty_occurs(*t, x),
    ensures
        ty_size(sigma(x)) <= ty_size(apply(sigma, *t)),
        *t is Arr ==> ty_size(sigma(x)) < ty_size(apply(sigma, *t)),
    decreases *t,
{
    if let Ty::Arr(l, r) = t {
        let l: &Ty = &**l;
        let r: &Ty = &**r;
        if ty_occurs(*l, x) {
            lemma_apply_size(sigma, l, x);
        } else {
            lemma_apply_size(sigma, r, x);
        }
    }
}

/// Whether a walk can reach what it is after under `sigma`: `sigma`
/// unifies the two variables; or it gives the variable what it gives the
/// type, which is an arrow, and gives each variable that the walk carries
/// a smaller type than that.
pub open spec fn reachable(sigma: spec_fn(TyName) -> Ty, focus: Focus) -> bool {
    match focus {
        Focus::Vars(a, b) => sigma(a) == sigma(b),
        Focus::Solve(a, suffix, t) => {
            &&& t is Arr
            &&& sigma(a) == apply(sigma, t)
            &&& forall|i: int|
                0 <= i < suffix.len() ==> ty_size(sigma((#[trigger] suffix[i]).0)) < ty_size(
                    apply(sigma, t),
                )
        },
    }
}

/// Where a solution satisfies a scoped context and unifies two types whose
/// variables the context declares, unification succeeds, and the solution
/// satisfies the context that it leaves.
pub proof fn lemma_unify_complete(sigma: spec_fn(TyName) -> Ty, ctx: Seq<Entry>, lhs: &Ty, rhs: &Ty)
    requires
        scoped(ctx),
        closed_in(names(ctx), *lhs),
        closed_in(names(ctx), *rhs),
        satisfies(sigma, ctx),
        apply(sigma, *lhs) == apply(sigma, *rhs),
    ensures
        unify_model(ctx, *lhs, *rhs).res is Ok,
        satisfies(sigma, unify_model(ctx, *lhs, *rhs).ctx),
    decreases ctx.len(), ctx.len() + 1, ty_size(*lhs) + ty_size(*rhs),
{
    match (lhs, rhs) {
        (Ty::Arr(t0, t1), Ty::Arr(v0, v1)) => {
            let t0: &Ty = &**t0;
            let v0: &Ty = &**v0;
            lemma_unify_shape(ctx, t0, v0);
            lemma_unify_scoped(ctx, t0, v0);
            lemma_unify_complete(sigma, ctx, t0, v0);
            let first = unify_model(ctx, *t0, *v0);
            lemma_unify_complete(sigma, first.ctx, &**t1, &**v1);
        },
        (Ty::V(a), Ty::V(b)) => {
            lemma_on_top_complete(sigma, ctx, Focus::Vars(*a, *b));
        },
        (Ty::V(a), _) => {
            assert(affixed(ctx, Seq::empty()) =~= ctx);
            lemma_on_top_complete(sigma, ctx, Focus::Solve(*a, Seq::empty(), *rhs));
        },
        (_, Ty::V(b)) => {
            assert(affixed(ctx, Seq::empty()) =~= ctx);
            lemma_on_top_complete(sigma, ctx, Focus::Solve(*b, Seq::empty(), *lhs));
        },
    }
}

/// The same of a walk that starts well and can reach what it is after.
pub proof fn lemma_on_top_complete(sigma: spec_fn(TyName) -> Ty, ctx: Seq<Entry>, focus: Focus)
    requires
        focus_scoped(ctx, focus),
        satisfies(sigma, whole(ctx, focus)),
        reachable(sigma, focus),
    ensures
        on_top_model(ctx, focus).res is Ok,
        satisfies(sigma, on_top_model(ctx, focus).ctx),
    decreases ctx.len() + carried(focus), ctx.len(), 1nat,
{
    let rest = ctx.drop_last();
    let top = ctx.last();
    assert(ctx.len() > 0);
    assert(rest.push(top) =~= ctx);
    match top {
        Entry::TY(e) => {
            lemma_decide_complete(sigma, rest, focus, e);
        },
        other => {
            let r = unified_by(sigma);
            let k = rest.len() as int;
            let all = whole(ctx, focus);
            let less = whole(rest, focus);
            lemma_step_other(rest, other, focus);
            assert forall|i: int| 0 <= i < less.len() implies entry_holds(r, #[trigger] less[i]) by {
                if i < k {
                    assert(less[i] == all[i]);
                } else {
                    assert(less[i] == all[i + 1]);
                }
            }
            lemma_on_top_complete(sigma, rest, focus);
            lemma_respects_push(r, on_top_model(rest, focus).ctx, other);
        },
    }
}

/// The same of the decision on one entry.
pub proof fn lemma_decide_complete(
    sigma: spec_fn(TyName) -> Ty,
    rest: Seq<Entry>,
    focus: Focus,
    e: TyEntry,
)
    requires
        focus_scoped(rest.push(Entry::TY(e)), focus),
        satisfies(sigma, whole(rest.push(Entry::TY(e)), focus)),
        reachable(sigma, focus),
    ensures
        decide_model(rest, focus, e).res is Ok,
        satisfies(
            sigma,
            decided(decide_model(rest, focus, e).ctx, e, decide_model(rest, focus, e).res->Ok_0),
        ),
    decreases rest.len() + 1 + carried(focus), rest.len() + 1, 0nat,
{
    let g = e.0;
    let top = Entry::TY(e);
    let ctx = rest.push(top);
    let r = unified_by(sigma);
    match &focus {
        Focus::Vars(a, b) => {
            let va = Ty::V(*a);
            let vb = Ty::V(*b);
            lemma_step_vars(rest, e, *a, *b);
            lemma_respects_push(r, rest, top);
            if g == *a && g == *b {
            } else if g == *a || g == *b {
                let other = if g == *a {
                    vb
                } else {
                    va
                };
                match &e.1 {
                    None => {
                        let solved = TyEntry(g, Some(Rc::new(other)));
                        assert(affixed(rest, seq![solved]) =~= rest.push(Entry::TY(solved)));
                        lemma_respects_push(r, rest, Entry::TY(solved));
                    },
                    Some(t) => {
                        let t: &Ty = &**t;
                        lemma_unify_complete(sigma, rest, &other, t);
                        lemma_respects_push(r, unify_model(rest, other, *t).ctx, top);
                    },
                }
            } else {
                lemma_unify_complete(sigma, rest, &va, &vb);
                lemma_respects_push(r, unify_model(rest, va, vb).ctx, top);
            }
        },
        Focus::Solve(a, suffix, t) => {
            let less = affixed(rest, *suffix);
            let occurs = ty_occurs(*t, g) || suffix_occurs(*suffix, g);
            lemma_respects_affixed(r, ctx, *suffix);
            lemma_respects_push(r, rest, top);
            lemma_respects_affixed(r, rest, *suffix);
            if occurs {
                // what `sigma` gives `g` is smaller than what it gives `t`
                if ty_occurs(*t, g) {
                    lemma_apply_size(sigma, t, g);
                } else {
                    let i = choose|i: int| 0 <= i < suffix.len() && (#[trigger] suffix[i]).occurs(g);
                    assert(entry_holds(r, Entry::TY(suffix[i])));
                    let d: &Ty = &**(&suffix[i].1->Some_0);
                    lemma_apply_size(sigma, d, g);
                }
                assert(ty_size(sigma(g)) < ty_size(apply(sigma, *t)));
                assert(g != *a);
                let carried_on = seq![e] + *suffix;
                lemma_step_carry(rest, e, *a, *suffix, *t);
                assert forall|i: int| 0 <= i < carried_on.len() implies ty_size(
                    sigma((#[trigger] carried_on[i]).0),
                ) < ty_size(apply(sigma, *t)) by {
                    if i > 0 {
                        assert(carried_on[i] == suffix[i - 1]);
                    }
                }
                lemma_on_top_complete(sigma, rest, Focus::Solve(*a, carried_on, *t));
                let below = on_top_model(rest, Focus::Solve(*a, carried_on, *t));
                assert(affixed(below.ctx, Seq::empty()) =~= below.ctx);
            } else {
                lemma_step_skip(rest, e, *a, *suffix, t);
                if g == *a {
                    match &e.1 {
                        None => {
                            let solved = TyEntry(*a, Some(Rc::new(*t)));
                            let all = suffix.push(solved);
                            assert forall|i: int| 0 <= i < all.len() implies entry_holds(
                                r,
                                Entry::TY(#[trigger] all[i]),
                            ) by {
                                if i < suffix.len() {
                                    assert(all[i] == suffix[i]);
                                }
                            }
                            lemma_respects_affixed(r, rest, all);
                        },
                        Some(known) => {
                            let known: &Ty = &**known;
                            lemma_unify_complete(sigma, less, known, t);
                            lemma_respects_push(r, unify_model(less, *known, *t).ctx, top);
                        },
                    }
                } else {
                    lemma_on_top_complete(sigma, rest, Focus::Solve(*a, *suffix, *t));
                    lemma_respects_push(
                        r,
                        on_top_model(rest, Focus::Solve(*a, *suffix, *t)).ctx,
                        top,
                    );
                }
            }
        },
    }
}

/// Whether two types can be made equal in `ctx`: some solution satisfies
/// `ctx` and unifies them.
pub open spec fn solvable(ctx: Seq<Entry>, lhs: Ty, rhs: Ty) -> bool {
    exists|sigma: spec_fn(TyName) -> Ty| #[trigger]
        satisfies(sigma, ctx) && apply(sigma, lhs) == apply(sigma, rhs)
}

/// Completeness: in a scoped context that declares the variables of two
/// types, unifying them succeeds wherever they can be made equal, and they
/// can still be made equal in the context that is left. So an error says
/// that no solution exists.
pub proof fn lemma_unify_finds(ctx: Seq<Entry>, lhs: &Ty, rhs: &Ty)
    requires
        scoped(ctx),
        closed_in(names(ctx), *lhs),
        closed_in(names(ctx), *rhs),
        solvable(ctx, *lhs, *rhs),
    ensures
        unify_model(ctx, *lhs, *rhs).res is Ok,
        solvable(unify_model(ctx, *lhs, *rhs).ctx, *lhs, *rhs),
{
    let sigma = choose|sigma: spec_fn(TyName) -> Ty| #[trigger]
        satisfies(sigma, ctx) && apply(sigma, *lhs) == apply(sigma, *rhs);
    lemma_unify_complete(sigma, ctx, lhs, rhs);
    assert(satisfies(sigma, unify_model(ctx, *lhs, *rhs).ctx));
}

/// The context that a successful unification leaves is the most general
/// one: its solutions are the solutions of the context before that unify
/// the two types, no fewer and no more.
pub proof fn lemma_unify_most_general(
    sigma: spec_fn(TyName) -> Ty,
    ctx: Seq<Entry>,
    lhs: &Ty,
    rhs: &Ty,
)
    requires
        scoped(ctx),
        closed_in(names(ctx), *lhs),
        closed_in(names(ctx), *rhs),
        unify_model(ctx, *lhs, *rhs).res is Ok,
    ensures
        satisfies(sigma, unify_model(ctx, *lhs, *rhs).ctx) <==> satisfies(sigma, ctx) && apply(
            sigma,
            *lhs,
        ) == apply(sigma, *rhs),
{
    lemma_unified_by_congruence(sigma);
    if satisfies(sigma, unify_model(ctx, *lhs, *rhs).ctx) {
        lemma_unify_sound_under(unified_by(sigma), ctx, lhs, rhs);
    }
    if satisfies(sigma, ctx) && apply(sigma, *lhs) == apply(sigma, *rhs) {
        lemma_unify_complete(sigma, ctx, lhs, rhs);
    }
}

} // verus!
