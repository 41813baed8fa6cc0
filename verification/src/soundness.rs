//! What a successful unification means.
//!
//! A context states equations: each solved entry says that its variable is
//! equal to its solution. Two types are equal in a context if every
//! congruence on types that holds those equations relates them. A
//! unification that succeeds leaves a context in which the two types are
//! equal, and in which everything that was equal before still is.

use crate::context::{carried, decide_model, on_top_model, suffix_occurs, unify_model, Focus};
use crate::laws::lemma_unify_shape;
use crate::types::{affixed, ty_occurs, ty_size, Entry, Ty, TyEntry, TyName};
use std::rc::Rc;
use vstd::prelude::*;

verus! {

/// Whether `r` is an equivalence on types under which arrows are equal when
/// their arguments and their results are.
#[verifier::opaque]
pub open spec fn congruence(r: spec_fn(Ty, Ty) -> bool) -> bool {
    &&& forall|s: Ty| #[trigger] r(s, s)
    &&& forall|s: Ty, t: Ty| #[trigger] r(s, t) ==> r(t, s)
    &&& forall|s: Ty, t: Ty, u: Ty| #[trigger] r(s, t) && #[trigger] r(t, u) ==> r(s, u)
    &&& forall|s0: Ty, s1: Ty, t0: Ty, t1: Ty|
        #[trigger] r(s0, t0) && #[trigger] r(s1, t1) ==> r(
            Ty::Arr(Rc::new(s0), Rc::new(s1)),
            Ty::Arr(Rc::new(t0), Rc::new(t1)),
        )
}

/// A congruence relates every type to itself.
pub proof fn lemma_refl(r: spec_fn(Ty, Ty) -> bool, s: Ty)
    requires
        congruence(r),
    ensures
        r(s, s),
{
    reveal(congruence);
}

/// A congruence relates both ways.
pub proof fn lemma_sym(r: spec_fn(Ty, Ty) -> bool, s: Ty, t: Ty)
    requires
        congruence(r),
        r(s, t),
    ensures
        r(t, s),
{
    reveal(congruence);
}

/// A congruence relates what it relates to a common third.
pub proof fn lemma_trans(r: spec_fn(Ty, Ty) -> bool, s: Ty, t: Ty, u: Ty)
    requires
        congruence(r),
        r(s, t),
        r(t, u),
    ensures
        r(s, u),
{
    reveal(congruence);
}

/// A congruence relates arrows whose parts it relates.
pub proof fn lemma_arrows(r: spec_fn(Ty, Ty) -> bool, s0: Ty, s1: Ty, t0: Ty, t1: Ty)
    requires
        congruence(r),
        r(s0, t0),
        r(s1, t1),
    ensures
        r(Ty::Arr(Rc::new(s0), Rc::new(s1)), Ty::Arr(Rc::new(t0), Rc::new(t1))),
{
    reveal(congruence);
}

/// Whether `r` holds the equation of `entry`, if it states one.
pub open spec fn entry_holds(r: spec_fn(Ty, Ty) -> bool, entry: Entry) -> bool {
    entry matches Entry::TY(TyEntry(a, Some(d))) ==> r(Ty::V(a), *d)
}

/// Whether `r` holds the equations of every entry of `ctx`.
pub open spec fn respects(r: spec_fn(Ty, Ty) -> bool, ctx: Seq<Entry>) -> bool {
    forall|i: int| 0 <= i < ctx.len() ==> entry_holds(r, #[trigger] ctx[i])
}

/// Whether `r` holds the equations of every entry of `suffix`.
pub open spec fn respects_suffix(r: spec_fn(Ty, Ty) -> bool, suffix: Seq<TyEntry>) -> bool {
    forall|i: int| 0 <= i < suffix.len() ==> entry_holds(r, Entry::TY(#[trigger] suffix[i]))
}

/// Whether `s` and `t` are equal in `ctx`: related by every congruence that
/// holds the equations of `ctx`.
pub open spec fn equal_in(ctx: Seq<Entry>, s: Ty, t: Ty) -> bool {
    forall|r: spec_fn(Ty, Ty) -> bool| congruence(r) && respects(r, ctx) ==> #[trigger] r(s, t)
}

/// What a walk is to bring about, as a statement under `r`.
pub open spec fn reached(r: spec_fn(Ty, Ty) -> bool, focus: Focus) -> bool {
    match focus {
        Focus::Vars(a, b) => r(Ty::V(a), Ty::V(b)),
        Focus::Solve(a, suffix, t) => r(Ty::V(a), t) && respects_suffix(r, suffix),
    }
}

/// The entries that a decision leaves: the context it left, with the entry
/// put back or replaced.
pub open spec fn decided(ctx: Seq<Entry>, e: TyEntry, d: Option<Seq<TyEntry>>) -> Seq<Entry> {
    match d {
        None => ctx.push(Entry::TY(e)),
        Some(suffix) => affixed(ctx, suffix),
    }
}

/// A relation that holds the equations of a context and of a suffix put
/// after it holds those of each, and the other way round.
pub proof fn lemma_respects_affixed(
    r: spec_fn(Ty, Ty) -> bool,
    ctx: Seq<Entry>,
    suffix: Seq<TyEntry>,
)
    ensures
        respects(r, affixed(ctx, suffix)) <==> respects(r, ctx) && respects_suffix(r, suffix),
{
    let all = affixed(ctx, suffix);
    if respects(r, all) {
        assert forall|i: int| 0 <= i < ctx.len() implies entry_holds(r, #[trigger] ctx[i]) by {
            assert(all[i] == ctx[i]);
        }
        assert forall|i: int| 0 <= i < suffix.len() implies entry_holds(
            r,
            Entry::TY(#[trigger] suffix[i]),
        ) by {
            assert(all[ctx.len() + i] == Entry::TY(suffix[i]));
        }
    }
    if respects(r, ctx) && respects_suffix(r, suffix) {
        assert forall|i: int| 0 <= i < all.len() implies entry_holds(r, #[trigger] all[i]) by {
            if i < ctx.len() {
                assert(all[i] == ctx[i]);
            } else {
                assert(all[i] == Entry::TY(suffix[i - ctx.len()]));
            }
        }
    }
}

/// The same for one entry put after a context.
pub proof fn lemma_respects_push(r: spec_fn(Ty, Ty) -> bool, ctx: Seq<Entry>, entry: Entry)
    ensures
        respects(r, ctx.push(entry)) <==> respects(r, ctx) && entry_holds(r, entry),
{
    let all = ctx.push(entry);
    if respects(r, all) {
        assert forall|i: int| 0 <= i < ctx.len() implies entry_holds(r, #[trigger] ctx[i]) by {
            assert(all[i] == ctx[i]);
        }
        assert(all[ctx.len() as int] == entry);
    }
    if respects(r, ctx) && entry_holds(r, entry) {
        assert forall|i: int| 0 <= i < all.len() implies entry_holds(r, #[trigger] all[i]) by {
            if i < ctx.len() {
                assert(all[i] == ctx[i]);
            }
        }
    }
}

/// Under a congruence that holds the equations of the context that a
/// successful unification left, the two types are related, and the
/// equations of the context it started from hold.
pub proof fn lemma_unify_sound_under(
    r: spec_fn(Ty, Ty) -> bool,
    ctx: Seq<Entry>,
    lhs: &Ty,
    rhs: &Ty,
)
    requires
        congruence(r),
        unify_model(ctx, *lhs, *rhs).res is Ok,
        respects(r, unify_model(ctx, *lhs, *rhs).ctx),
    ensures
        r(*lhs, *rhs),
        respects(r, ctx),
    decreases ctx.len(), ctx.len() + 1, ty_size(*lhs) + ty_size(*rhs),
{
    match (lhs, rhs) {
        (Ty::Arr(t0, t1), Ty::Arr(v0, v1)) => {
            let t0: &Ty = &**t0;
            let v0: &Ty = &**v0;
            let t1: &Ty = &**t1;
            let v1: &Ty = &**v1;
            lemma_unify_shape(ctx, t0, v0);
            let first = unify_model(ctx, *t0, *v0);
            lemma_unify_sound_under(r, first.ctx, t1, v1);
            lemma_unify_sound_under(r, ctx, t0, v0);
            lemma_arrows(r, *t0, *t1, *v0, *v1);
            assert(*lhs == Ty::Arr(Rc::new(*t0), Rc::new(*t1)));
            assert(*rhs == Ty::Arr(Rc::new(*v0), Rc::new(*v1)));
        },
        (Ty::V(a), Ty::V(b)) => {
            lemma_on_top_sound_under(r, ctx, Focus::Vars(*a, *b));
        },
        (Ty::V(a), _) => {
            lemma_on_top_sound_under(r, ctx, Focus::Solve(*a, Seq::empty(), *rhs));
        },
        (_, Ty::V(b)) => {
            lemma_on_top_sound_under(r, ctx, Focus::Solve(*b, Seq::empty(), *lhs));
            lemma_sym(r, Ty::V(*b), *lhs);
        },
    }
}

/// The same of a walk: what it was after holds, and so do the equations of
/// the context it started from and of the entries it carried.
pub proof fn lemma_on_top_sound_under(r: spec_fn(Ty, Ty) -> bool, ctx: Seq<Entry>, focus: Focus)
    requires
        congruence(r),
        on_top_model(ctx, focus).res is Ok,
        respects(r, on_top_model(ctx, focus).ctx),
    ensures
        reached(r, focus),
        respects(r, ctx),
    decreases ctx.len() + carried(focus), ctx.len(), 1nat,
{
    let rest = ctx.drop_last();
    assert(rest.push(ctx.last()) =~= ctx);
    match ctx.last() {
        Entry::TY(e) => {
            let d = decide_model(rest, focus, e);
            assert(on_top_model(ctx, focus).ctx == decided(d.ctx, e, d.res->Ok_0));
            lemma_decide_sound_under(r, rest, focus, e);
            lemma_respects_push(r, rest, Entry::TY(e));
        },
        other => {
            let below = on_top_model(rest, focus);
            lemma_respects_push(r, below.ctx, other);
            lemma_on_top_sound_under(r, rest, focus);
            lemma_respects_push(r, rest, other);
        },
    }
}

/// The same of the decision on one entry, whose equation holds as well.
pub proof fn lemma_decide_sound_under(
    r: spec_fn(Ty, Ty) -> bool,
    rest: Seq<Entry>,
    focus: Focus,
    e: TyEntry,
)
    requires
        congruence(r),
        decide_model(rest, focus, e).res is Ok,
        respects(
            r,
            decided(decide_model(rest, focus, e).ctx, e, decide_model(rest, focus, e).res->Ok_0),
        ),
    ensures
        reached(r, focus),
        respects(r, rest),
        entry_holds(r, Entry::TY(e)),
    decreases rest.len() + 1 + carried(focus), rest.len() + 1, 0nat,
{
    let g = e.0;
    let d = decide_model(rest, focus, e);
    match &focus {
        Focus::Vars(a, b) => {
            let va = Ty::V(*a);
            let vb = Ty::V(*b);
            if g == *a && g == *b {
                lemma_respects_push(r, rest, Entry::TY(e));
                lemma_refl(r, va);
            } else if g == *a {
                match &e.1 {
                    None => {
                        let solved = TyEntry(*a, Some(Rc::new(vb)));
                        lemma_respects_affixed(r, rest, seq![solved]);
                        assert(entry_holds(r, Entry::TY(seq![solved][0])));
                    },
                    Some(t) => {
                        let t: &Ty = &**t;
                        lemma_respects_push(r, d.ctx, Entry::TY(e));
                        lemma_unify_sound_under(r, rest, &vb, t);
                        lemma_sym(r, vb, *t);
                        lemma_trans(r, va, *t, vb);
                    },
                }
            } else if g == *b {
                match &e.1 {
                    None => {
                        let solved = TyEntry(*b, Some(Rc::new(va)));
                        lemma_respects_affixed(r, rest, seq![solved]);
                        assert(entry_holds(r, Entry::TY(seq![solved][0])));
                        lemma_sym(r, vb, va);
                    },
                    Some(t) => {
                        let t: &Ty = &**t;
                        lemma_respects_push(r, d.ctx, Entry::TY(e));
                        lemma_unify_sound_under(r, rest, &va, t);
                        lemma_sym(r, vb, *t);
                        lemma_trans(r, va, *t, vb);
                    },
                }
            } else {
                lemma_respects_push(r, d.ctx, Entry::TY(e));
                lemma_unify_sound_under(r, rest, &va, &vb);
            }
        },
        Focus::Solve(a, suffix, t) => {
            let va = Ty::V(*a);
            let occurs = ty_occurs(*t, g) || suffix_occurs(
                *suffix,
                g,
            );
            if g == *a {
                match &e.1 {
                    None => {
                        let solved = TyEntry(*a, Some(Rc::new(*t)));
                        let all = suffix.push(solved);
                        lemma_respects_affixed(r, rest, all);
                        assert(entry_holds(r, Entry::TY(all[suffix.len() as int])));
                        assert forall|i: int| 0 <= i < suffix.len() implies entry_holds(
                            r,
                            Entry::TY(#[trigger] suffix[i]),
                        ) by {
                            assert(all[i] == suffix[i]);
                        }
                    },
                    Some(known) => {
                        let known: &Ty = &**known;
                        lemma_respects_push(r, d.ctx, Entry::TY(e));
                        lemma_unify_sound_under(r, affixed(rest, *suffix), known, t);
                        lemma_respects_affixed(r, rest, *suffix);
                        lemma_trans(r, va, *known, *t);
                    },
                }
            } else if occurs {
                let carried_on = seq![e] + *suffix;
                let below = on_top_model(rest, Focus::Solve(*a, carried_on, *t));
                assert(affixed(below.ctx, Seq::empty()) =~= below.ctx);
                lemma_on_top_sound_under(r, rest, Focus::Solve(*a, carried_on, *t));
                assert(entry_holds(r, Entry::TY(carried_on[0])));
                assert forall|i: int| 0 <= i < suffix.len() implies entry_holds(
                    r,
                    Entry::TY(#[trigger] suffix[i]),
                ) by {
                    assert(carried_on[i + 1] == suffix[i]);
                }
            } else {
                lemma_respects_push(r, d.ctx, Entry::TY(e));
                lemma_on_top_sound_under(r, rest, Focus::Solve(*a, *suffix, *t));
            }
        },
    }
}

/// Soundness: where unification succeeds, the two types are equal in the
/// context that it leaves, and whatever was equal in the context before is
/// equal in that context too.
pub proof fn lemma_unify_sound(ctx: Seq<Entry>, lhs: &Ty, rhs: &Ty)
    requires
        unify_model(ctx, *lhs, *rhs).res is Ok,
    ensures
        equal_in(unify_model(ctx, *lhs, *rhs).ctx, *lhs, *rhs),
        forall|s: Ty, t: Ty| #[trigger]
            equal_in(ctx, s, t) ==> equal_in(unify_model(ctx, *lhs, *rhs).ctx, s, t),
{
    let after = unify_model(ctx, *lhs, *rhs).ctx;
    assert forall|r: spec_fn(Ty, Ty) -> bool| congruence(r) && respects(r, after) implies #[trigger] r(
        *lhs,
        *rhs,
    ) by {
        lemma_unify_sound_under(r, ctx, lhs, rhs);
    }
    assert forall|s: Ty, t: Ty| #[trigger] equal_in(ctx, s, t) implies equal_in(after, s, t) by {
        assert forall|r: spec_fn(Ty, Ty) -> bool|
            congruence(r) && respects(r, after) implies #[trigger] r(s, t) by {
            lemma_unify_sound_under(r, ctx, lhs, rhs);
        }
    }
}


/// Soundness of solving: where the walk that is to let `a` stand for `t`
/// succeeds, `a` and `t` are equal in the context that it leaves, and
/// whatever was equal in the context before is equal in that context too.
pub proof fn lemma_solve_sound(ctx: Seq<Entry>, a: TyName, suffix: Seq<TyEntry>, t: Ty)
    requires
        on_top_model(ctx, Focus::Solve(a, suffix, t)).res is Ok,
    ensures
        equal_in(on_top_model(ctx, Focus::Solve(a, suffix, t)).ctx, Ty::V(a), t),
        forall|s: Ty, u: Ty| #[trigger]
            equal_in(ctx, s, u) ==> equal_in(
                on_top_model(ctx, Focus::Solve(a, suffix, t)).ctx,
                s,
                u,
            ),
{
    let focus = Focus::Solve(a, suffix, t);
    let after = on_top_model(ctx, focus).ctx;
    assert forall|r: spec_fn(Ty, Ty) -> bool| congruence(r) && respects(r, after) implies #[trigger] r(
        Ty::V(a),
        t,
    ) by {
        lemma_on_top_sound_under(r, ctx, focus);
    }
    assert forall|s: Ty, u: Ty| #[trigger] equal_in(ctx, s, u) implies equal_in(after, s, u) by {
        assert forall|r: spec_fn(Ty, Ty) -> bool|
            congruence(r) && respects(r, after) implies #[trigger] r(s, u) by {
            lemma_on_top_sound_under(r, ctx, focus);
        }
    }
}


/// Whether no entry of `ctx` is solved.
pub open spec fn unsolved(ctx: Seq<Entry>) -> bool {
    forall|i: int| 0 <= i < ctx.len() ==> !((#[trigger] ctx[i]) matches Entry::TY(TyEntry(_, Some(_))))
}

/// A context without solutions states no equation: only a type itself is
/// equal to it there.
pub proof fn lemma_equal_in_unsolved(ctx: Seq<Entry>, s: Ty, t: Ty)
    requires
        unsolved(ctx),
        equal_in(ctx, s, t),
    ensures
        s == t,
{
    let same = |a: Ty, b: Ty| a == b;
    assert(congruence(same)) by {
        reveal(congruence);
    }
    assert(respects(same, ctx));
    assert(same(s, t));
}

} // verus!
