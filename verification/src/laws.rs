//! Laws of unification and specialization, proved of their definitions.

use crate::context::{
    carried, decide_model, on_top_model, specialize_model, suffix_occurs, unify_model, Focus,
    Outcome, Specialized, Verdict,
};
use crate::types::{
    affixed, lemma_instantiate_keeps_depth, sc_depth, sc_instantiate, ty_instantiate, ty_occurs,
    ty_size, Entry, FTV, Sc, Ty, TyEntry, TyName, UnifyError,
};
use std::rc::Rc;
use vstd::prelude::*;

verus! {

/// Whether an entry of `ctx` declares the variable `name`.
pub open spec fn declares(ctx: Seq<Entry>, name: TyName) -> bool {
    exists|i: int| 0 <= i < ctx.len() && #[trigger] entry_declares(ctx[i], name)
}

/// Whether `entry` is the declaration of the variable `name`.
pub open spec fn entry_declares(entry: Entry, name: TyName) -> bool {
    entry matches Entry::TY(e) && e.0 == name
}

/// Whether `ctx` declares every variable of `t`.
pub open spec fn all_declared(ctx: Seq<Entry>, t: Ty) -> bool
    decreases t,
{
    match t {
        Ty::V(x) => declares(ctx, x),
        Ty::Arr(l, r) => all_declared(ctx, *l) && all_declared(ctx, *r),
    }
}

/// A declared variable is equal to itself, and finding that out leaves the
/// context as it was.
pub proof fn lemma_unify_same_variable(ctx: Seq<Entry>, a: TyName)
    requires
        declares(ctx, a),
    ensures
        on_top_model(ctx, Focus::Vars(a, a)) == (Outcome { ctx, res: Ok(()) }),
        unify_model(ctx, Ty::V(a), Ty::V(a)) == (Outcome { ctx, res: Ok(()) }),
    decreases ctx.len(),
{
    let rest = ctx.drop_last();
    let i = choose|i: int| 0 <= i < ctx.len() && #[trigger] entry_declares(ctx[i], a);
    let done = Outcome { ctx: rest, res: Ok(()) };
    assert(rest.push(ctx.last()) =~= ctx);
    if !entry_declares(ctx.last(), a) {
        assert(i < ctx.len() - 1);
        assert(entry_declares(rest[i], a));
        lemma_unify_same_variable(rest, a);
    }
    match ctx.last() {
        Entry::TY(e) => {
            if e.0 == a {
                assert(decide_model(rest, Focus::Vars(a, a), e) == (Verdict {
                    ctx: rest,
                    res: Ok(None),
                }));
            } else {
                assert(unify_model(rest, Ty::V(a), Ty::V(a)) == done);
                assert(decide_model(rest, Focus::Vars(a, a), e) == (Verdict {
                    ctx: rest,
                    res: Ok(None),
                }));
            }
        },
        _ => {
            assert(on_top_model(rest, Focus::Vars(a, a)) == done);
        },
    }
    assert(on_top_model(ctx, Focus::Vars(a, a)) == (Outcome { ctx, res: Ok(()) }));
}

/// Reflexivity: a type whose variables are all declared unifies with
/// itself, and the context stays as it was.
pub proof fn lemma_unify_reflexive(ctx: Seq<Entry>, t: &Ty)
    requires
        all_declared(ctx, *t),
    ensures
        unify_model(ctx, *t, *t) == (Outcome { ctx, res: Ok(()) }),
    decreases *t,
{
    match t {
        Ty::V(a) => {
            lemma_unify_same_variable(ctx, *a);
        },
        Ty::Arr(l, r) => {
            lemma_unify_reflexive(ctx, &**l);
            lemma_unify_reflexive(ctx, &**r);
        },
    }
}

/// The walk that is to let `a` stand for `t` fails with `Occurs` where `a`
/// is declared and occurs in `t`, whatever was met on the way.
pub proof fn lemma_solve_occurs(ctx: Seq<Entry>, a: TyName, suffix: Seq<TyEntry>, t: Ty)
    requires
        declares(ctx, a),
        ty_occurs(t, a),
    ensures
        on_top_model(ctx, Focus::Solve(a, suffix, t)).res == Err::<(), UnifyError>(
            UnifyError::Occurs,
        ),
    decreases ctx.len(),
{
    let rest = ctx.drop_last();
    let i = choose|i: int| 0 <= i < ctx.len() && #[trigger] entry_declares(ctx[i], a);
    let focus = Focus::Solve(a, suffix, t);
    let failed = Err::<(), UnifyError>(UnifyError::Occurs);
    match ctx.last() {
        Entry::TY(e) => {
            if e.0 != a {
                assert(i < ctx.len() - 1);
                assert(entry_declares(rest[i], a));
                lemma_solve_occurs(rest, a, seq![e] + suffix, t);
                lemma_solve_occurs(rest, a, suffix, t);
                assert(on_top_model(rest, Focus::Solve(a, seq![e] + suffix, t)).res == failed);
                assert(on_top_model(rest, focus).res == failed);
            }
            assert(decide_model(rest, focus, e).res == Err::<Option<Seq<TyEntry>>, UnifyError>(
                UnifyError::Occurs,
            ));
        },
        _ => {
            assert(i < ctx.len() - 1);
            assert(entry_declares(rest[i], a));
            lemma_solve_occurs(rest, a, suffix, t);
        },
    }
}

/// The occurs check: a declared variable does not unify with a function
/// type in which it occurs. The answer is `Occurs`, on either side.
pub proof fn lemma_occurs_check(ctx: Seq<Entry>, a: TyName, t: Ty)
    requires
        declares(ctx, a),
        t is Arr,
        ty_occurs(t, a),
    ensures
        unify_model(ctx, Ty::V(a), t).res == Err::<(), UnifyError>(UnifyError::Occurs),
        unify_model(ctx, t, Ty::V(a)).res == Err::<(), UnifyError>(UnifyError::Occurs),
{
    lemma_solve_occurs(ctx, a, Seq::empty(), t);
}


/// Two variables that were declared one after the other, and then unified,
/// are one variable: the younger stands for the older. A function type over
/// the one can then not be given to the other; the answer is `Occurs`.
pub proof fn lemma_aliased_variables_occur(ctx: Seq<Entry>, a: TyName, b: TyName)
    requires
        a != b,
    ensures
        ({
            let declared = ctx.push(Entry::TY(TyEntry(a, None))).push(Entry::TY(TyEntry(b, None)));
            let aliased = ctx.push(Entry::TY(TyEntry(a, None))).push(
                Entry::TY(TyEntry(b, Some(Rc::new(Ty::V(a))))),
            );
            let t = Ty::Arr(Rc::new(Ty::V(b)), Rc::new(Ty::V(b)));
            &&& unify_model(declared, Ty::V(a), Ty::V(b)) == (Outcome { ctx: aliased, res: Ok(()) })
            &&& unify_model(aliased, Ty::V(a), t).res == Err::<(), UnifyError>(UnifyError::Occurs)
        }),
{
    let ea = TyEntry(a, None);
    let eb = TyEntry(b, None);
    let solved = TyEntry(b, Some(Rc::new(Ty::V(a))));
    let one = ctx.push(Entry::TY(ea));
    let declared = one.push(Entry::TY(eb));
    let aliased = one.push(Entry::TY(solved));
    let t = Ty::Arr(Rc::new(Ty::V(b)), Rc::new(Ty::V(b)));
    // the first unification solves the younger variable
    assert(declared.drop_last() =~= one);
    assert(decide_model(one, Focus::Vars(a, b), eb) == (Verdict {
        ctx: one,
        res: Ok(Some(seq![solved])),
    }));
    assert(affixed(one, seq![solved]) =~= aliased);
    assert(on_top_model(declared, Focus::Vars(a, b)) == (Outcome { ctx: aliased, res: Ok(()) }));
    // the second walk carries the solved entry down to `a`, where it is found
    assert(aliased.drop_last() =~= one);
    assert(one.drop_last() =~= ctx);
    let carried_down = seq![solved] + Seq::<TyEntry>::empty();
    assert(carried_down[0].occurs(a));
    assert(decide_model(ctx, Focus::Solve(a, carried_down, t), ea).res == Err::<
        Option<Seq<TyEntry>>,
        UnifyError,
    >(UnifyError::Occurs));
    assert(on_top_model(one, Focus::Solve(a, carried_down, t)).res == Err::<(), UnifyError>(
        UnifyError::Occurs,
    ));
    assert(ty_occurs(Ty::V(b), b));
    assert(ty_occurs(t, b));
    assert(decide_model(one, Focus::Solve(a, Seq::empty(), t), solved).res == Err::<
        Option<Seq<TyEntry>>,
        UnifyError,
    >(UnifyError::Occurs));
    assert(on_top_model(aliased, Focus::Solve(a, Seq::empty(), t)).res == Err::<(), UnifyError>(
        UnifyError::Occurs,
    ));
}

/// Specialization declares one variable for each binder of the scheme, named
/// by the next numbers of the counter in turn, after the entries that were
/// there, which stay as they are.
pub proof fn lemma_specialize_declares(ctx: Seq<Entry>, next: u32, s: &Sc)
    requires
        next + sc_depth(*s) <= u32::MAX,
    ensures
        ({
            let r = specialize_model(ctx, next, *s);
            &&& r.next == next + sc_depth(*s)
            &&& r.ctx.len() == ctx.len() + sc_depth(*s)
            &&& r.ctx.take(ctx.len() as int) == ctx
            &&& forall|i: int|
                0 <= i < sc_depth(*s) ==> entry_declares(
                    #[trigger] r.ctx[ctx.len() + i],
                    TyName::F((next + 1 + i) as u32),
                )
        }),
    decreases sc_depth(*s),
{
    let r = specialize_model(ctx, next, *s);
    let beta = TyName::F((next + 1) as u32);
    match s {
        Sc::Type(_) => {
            assert(ctx.take(ctx.len() as int) =~= ctx);
        },
        Sc::Forall(inner) => {
            let entry = Entry::TY(TyEntry(beta, None));
            let inner: &Sc = &**inner;
            let rest = sc_instantiate(0, beta, *inner);
            lemma_instantiate_keeps_depth(0, beta, inner);
            lemma_specialize_declares(ctx.push(entry), (next + 1) as u32, &rest);
            lemma_specialize_extends(ctx, entry, next, r, sc_depth(*s));
        },
        Sc::Let(t, inner) => {
            let entry = Entry::TY(TyEntry(beta, Some(*t)));
            let inner: &Sc = &**inner;
            let rest = sc_instantiate(0, beta, *inner);
            lemma_instantiate_keeps_depth(0, beta, inner);
            lemma_specialize_declares(ctx.push(entry), (next + 1) as u32, &rest);
            lemma_specialize_extends(ctx, entry, next, r, sc_depth(*s));
        },
    }
}

/// The step of `lemma_specialize_declares`: what holds after the first
/// entry was declared holds of the whole run.
proof fn lemma_specialize_extends(
    ctx: Seq<Entry>,
    entry: Entry,
    next: u32,
    r: Specialized,
    depth: nat,
)
    requires
        depth >= 1,
        next + depth <= u32::MAX,
        entry_declares(entry, TyName::F((next + 1) as u32)),
        r.ctx.len() == ctx.len() + depth,
        r.ctx.take(ctx.len() + 1 as int) == ctx.push(entry),
        forall|i: int|
            0 <= i < depth - 1 ==> entry_declares(
                #[trigger] r.ctx[ctx.len() + 1 + i],
                TyName::F((next + 2 + i) as u32),
            ),
    ensures
        r.ctx.take(ctx.len() as int) == ctx,
        forall|i: int|
            0 <= i < depth ==> entry_declares(
                #[trigger] r.ctx[ctx.len() + i],
                TyName::F((next + 1 + i) as u32),
            ),
{
    let n = ctx.len() as int;
    assert(r.ctx.take(n) =~= r.ctx.take(n + 1).take(n));
    assert(ctx.push(entry).take(n) =~= ctx);
    assert(r.ctx[n] == r.ctx.take(n + 1)[n]);
    assert forall|i: int| 0 <= i < depth implies entry_declares(
        #[trigger] r.ctx[n + i],
        TyName::F((next + 1 + i) as u32),
    ) by {
        if i > 0 {
            let j = i - 1;
            assert(entry_declares(r.ctx[ctx.len() + 1 + j], TyName::F((next + 2 + j) as u32)));
            assert(ctx.len() + 1 + j == n + i);
        } else {
            assert(r.ctx[n] == ctx.push(entry)[n]);
        }
    }
}

/// Each use of a scheme has variables of its own: when a scheme with an
/// outermost `Forall` is specialized twice, the variable that stands for
/// that binder in the second use is another than in the first, and both
/// are declared unsolved, so neither stands for the other.
pub proof fn lemma_specialize_twice_distinct(ctx: Seq<Entry>, next: u32, s: &Sc)
    requires
        *s is Forall,
        next + 2 * sc_depth(*s) <= u32::MAX,
    ensures
        ({
            let first = specialize_model(ctx, next, *s);
            let second = specialize_model(first.ctx, first.next, *s);
            let x = TyName::F((next + 1) as u32);
            let y = TyName::F((first.next + 1) as u32);
            &&& x != y
            &&& second.ctx[ctx.len() as int] == Entry::TY(TyEntry(x, None))
            &&& second.ctx[first.ctx.len() as int] == Entry::TY(TyEntry(y, None))
        }),
{
    let first = specialize_model(ctx, next, *s);
    let second = specialize_model(first.ctx, first.next, *s);
    let x = TyName::F((next + 1) as u32);
    let y = TyName::F((first.next + 1) as u32);
    lemma_specialize_declares(ctx, next, s);
    lemma_specialize_declares(first.ctx, first.next, s);
    if let Sc::Forall(inner) = s {
        let ex = Entry::TY(TyEntry(x, None));
        let ey = Entry::TY(TyEntry(y, None));
        let inner: &Sc = &**inner;
        lemma_instantiate_keeps_depth(0, x, inner);
        lemma_instantiate_keeps_depth(0, y, inner);
        lemma_specialize_declares(ctx.push(ex), (next + 1) as u32, &sc_instantiate(0, x, *inner));
        lemma_specialize_declares(
            first.ctx.push(ey),
            (first.next + 1) as u32,
            &sc_instantiate(0, y, *inner),
        );
        let n = ctx.len() as int;
        let m = first.ctx.len() as int;
        assert(first.ctx[n] == first.ctx.take(n + 1)[n]);
        assert(second.ctx[m] == second.ctx.take(m + 1)[m]);
        assert(second.ctx[n] == second.ctx.take(m)[n]);
    }
}


/// Whether `r` is the error `Mismatch`.
pub open spec fn is_mismatch<T>(r: Result<T, UnifyError>) -> bool {
    r matches Err(UnifyError::Mismatch(_, _))
}

/// The number of entries that a decision puts in the place of the entry it
/// was made on.
pub open spec fn put_back(d: Option<Seq<TyEntry>>) -> nat {
    match d {
        None => 1,
        Some(suffix) => suffix.len(),
    }
}

/// Unification keeps the number of entries where it succeeds, and never
/// adds to it. Its errors are `Occurs` and `NoContext`: terms are variables
/// and arrows only, and a variable can meet either.
pub proof fn lemma_unify_shape(ctx: Seq<Entry>, lhs: &Ty, rhs: &Ty)
    ensures
        unify_model(ctx, *lhs, *rhs).ctx.len() <= ctx.len(),
        unify_model(ctx, *lhs, *rhs).res is Ok ==> unify_model(ctx, *lhs, *rhs).ctx.len()
            == ctx.len(),
        !is_mismatch(unify_model(ctx, *lhs, *rhs).res),
    decreases ctx.len(), ctx.len() + 1, ty_size(*lhs) + ty_size(*rhs),
{
    match (lhs, rhs) {
        (Ty::Arr(t0, t1), Ty::Arr(v0, v1)) => {
            let t0: &Ty = &**t0;
            let v0: &Ty = &**v0;
            lemma_unify_shape(ctx, t0, v0);
            let first = unify_model(ctx, *t0, *v0);
            if first.res is Ok {
                lemma_unify_shape(first.ctx, &**t1, &**v1);
            }
        },
        (Ty::V(a), Ty::V(b)) => {
            lemma_on_top_shape(ctx, Focus::Vars(*a, *b));
        },
        (Ty::V(a), _) => {
            lemma_on_top_shape(ctx, Focus::Solve(*a, Seq::empty(), *rhs));
        },
        (_, Ty::V(b)) => {
            lemma_on_top_shape(ctx, Focus::Solve(*b, Seq::empty(), *lhs));
        },
    }
}

/// A walk that succeeds leaves as many entries as it found and carried,
/// no walk leaves more, and none ends in `Mismatch`.
pub proof fn lemma_on_top_shape(ctx: Seq<Entry>, focus: Focus)
    ensures
        on_top_model(ctx, focus).ctx.len() <= ctx.len() + carried(focus),
        on_top_model(ctx, focus).res is Ok ==> on_top_model(ctx, focus).ctx.len() == ctx.len()
            + carried(focus),
        !is_mismatch(on_top_model(ctx, focus).res),
    decreases ctx.len() + carried(focus), ctx.len(), 1nat,
{
    if ctx.len() > 0 {
        let rest = ctx.drop_last();
        match ctx.last() {
            Entry::TY(e) => {
                lemma_decide_shape(rest, focus, e);
            },
            _ => {
                lemma_on_top_shape(rest, focus);
            },
        }
    }
}

/// The same of the decision on one entry.
pub proof fn lemma_decide_shape(rest: Seq<Entry>, focus: Focus, e: TyEntry)
    ensures
        decide_model(rest, focus, e).ctx.len() <= rest.len() + 1 + carried(focus),
        decide_model(rest, focus, e).res matches Ok(d) ==> decide_model(rest, focus, e).ctx.len()
            + put_back(d) == rest.len() + 1 + carried(focus),
        !is_mismatch(decide_model(rest, focus, e).res),
    decreases rest.len() + 1 + carried(focus), rest.len() + 1, 0nat,
{
    let g = e.0;
    match &focus {
        Focus::Vars(a, b) => {
            let va = Ty::V(*a);
            let vb = Ty::V(*b);
            if g == *a && g == *b {
            } else if g == *a {
                if let Some(t) = &e.1 {
                    lemma_unify_shape(rest, &vb, &**t);
                }
            } else if g == *b {
                if let Some(t) = &e.1 {
                    lemma_unify_shape(rest, &va, &**t);
                }
            } else {
                lemma_unify_shape(rest, &va, &vb);
            }
        },
        Focus::Solve(a, suffix, t) => {
            let occurs = ty_occurs(*t, g) || suffix_occurs(*suffix, g);
            if g == *a {
                if !occurs {
                    if let Some(known) = &e.1 {
                        lemma_unify_shape(affixed(rest, *suffix), &**known, t);
                    }
                }
            } else if occurs {
                lemma_on_top_shape(rest, Focus::Solve(*a, seq![e] + *suffix, *t));
            } else {
                lemma_on_top_shape(rest, Focus::Solve(*a, *suffix, *t));
            }
        },
    }
}


/// The type under all the binders of a scheme.
pub open spec fn sc_body(s: Sc) -> Ty
    decreases s,
{
    match s {
        Sc::Type(t) => *t,
        Sc::Forall(inner) => sc_body(*inner),
        Sc::Let(_, inner) => sc_body(*inner),
    }
}

/// A free variable occurs in an instantiated term where it occurred
/// before, or where it was put in the place of the bound variable.
pub proof fn lemma_instantiate_occurs(n: u32, x: TyName, t: &Ty, z: u32)
    ensures
        ty_occurs(ty_instantiate(n, x, *t), TyName::F(z)) <==> ty_occurs(
            *t,
            TyName::F(z),
        ) || (x == TyName::F(z) && ty_occurs(*t, TyName::B(n))),
    decreases *t,
{
    if let Ty::Arr(l, r) = t {
        lemma_instantiate_occurs(n, x, &**l, z);
        lemma_instantiate_occurs(n, x, &**r, z);
    }
}

/// Instantiating a scheme instantiates its body, in which the variable is
/// numbered higher by the number of binders.
pub proof fn lemma_instantiate_body(n: u32, x: TyName, s: &Sc)
    requires
        n + sc_depth(*s) <= u32::MAX,
    ensures
        sc_body(sc_instantiate(n, x, *s)) == ty_instantiate(
            (n + sc_depth(*s)) as u32,
            x,
            sc_body(*s),
        ),
    decreases *s,
{
    match s {
        Sc::Type(_) => {},
        Sc::Forall(inner) => {
            lemma_instantiate_body((n + 1) as u32, x, &**inner);
        },
        Sc::Let(_, inner) => {
            lemma_instantiate_body((n + 1) as u32, x, &**inner);
        },
    }
}

/// The free variables of a specialized type are those of the scheme's body
/// and, at most, the variables that the specialization declared.
pub proof fn lemma_specialize_occurs(ctx: Seq<Entry>, next: u32, s: &Sc, z: u32)
    requires
        next + sc_depth(*s) <= u32::MAX,
    ensures
        ty_occurs(sc_body(*s), TyName::F(z)) ==> ty_occurs(
            specialize_model(ctx, next, *s).ty,
            TyName::F(z),
        ),
        ty_occurs(specialize_model(ctx, next, *s).ty, TyName::F(z)) ==> ty_occurs(
            sc_body(*s),
            TyName::F(z),
        ) || next < z <= next + sc_depth(*s),
    decreases sc_depth(*s),
{
    let beta = TyName::F((next + 1) as u32);
    match s {
        Sc::Type(_) => {},
        Sc::Forall(inner) => {
            let inner: &Sc = &**inner;
            let rest = sc_instantiate(0, beta, *inner);
            lemma_instantiate_keeps_depth(0, beta, inner);
            lemma_instantiate_body(0, beta, inner);
            lemma_instantiate_occurs(sc_depth(*inner) as u32, beta, &sc_body(*inner), z);
            lemma_specialize_occurs(
                ctx.push(Entry::TY(TyEntry(beta, None))),
                (next + 1) as u32,
                &rest,
                z,
            );
        },
        Sc::Let(t, inner) => {
            let inner: &Sc = &**inner;
            let rest = sc_instantiate(0, beta, *inner);
            lemma_instantiate_keeps_depth(0, beta, inner);
            lemma_instantiate_body(0, beta, inner);
            lemma_instantiate_occurs(sc_depth(*inner) as u32, beta, &sc_body(*inner), z);
            lemma_specialize_occurs(
                ctx.push(Entry::TY(TyEntry(beta, Some(*t)))),
                (next + 1) as u32,
                &rest,
                z,
            );
        },
    }
}

/// Two uses of a scheme give two types: where the body of a scheme mentions
/// the variable of its outermost binder, and no variable that the context
/// has yet to declare, specializing it twice gives types that differ. The
/// first holds the variable declared for that binder in the first use, the
/// second does not.
pub proof fn lemma_specialize_twice_differs(ctx: Seq<Entry>, next: u32, s: &Sc)
    requires
        sc_depth(*s) >= 1,
        next + 2 * sc_depth(*s) <= u32::MAX,
        ty_occurs(sc_body(*s), TyName::B((sc_depth(*s) - 1) as u32)),
        forall|z: u32| z > next ==> !ty_occurs(sc_body(*s), TyName::F(z)),
    ensures
        ({
            let first = specialize_model(ctx, next, *s);
            let second = specialize_model(first.ctx, first.next, *s);
            let x = TyName::F((next + 1) as u32);
            &&& ty_occurs(first.ty, x)
            &&& !ty_occurs(second.ty, x)
            &&& first.ty != second.ty
        }),
{
    let first = specialize_model(ctx, next, *s);
    let x = TyName::F((next + 1) as u32);
    let z = (next + 1) as u32;
    lemma_specialize_declares(ctx, next, s);
    lemma_specialize_occurs(first.ctx, first.next, s, z);
    match s {
        Sc::Type(_) => {},
        Sc::Forall(inner) => {
            let inner: &Sc = &**inner;
            let rest = sc_instantiate(0, x, *inner);
            lemma_instantiate_keeps_depth(0, x, inner);
            lemma_instantiate_body(0, x, inner);
            lemma_instantiate_occurs(sc_depth(*inner) as u32, x, &sc_body(*inner), z);
            lemma_specialize_occurs(ctx.push(Entry::TY(TyEntry(x, None))), z, &rest, z);
        },
        Sc::Let(t, inner) => {
            let inner: &Sc = &**inner;
            let rest = sc_instantiate(0, x, *inner);
            lemma_instantiate_keeps_depth(0, x, inner);
            lemma_instantiate_body(0, x, inner);
            lemma_instantiate_occurs(sc_depth(*inner) as u32, x, &sc_body(*inner), z);
            lemma_specialize_occurs(ctx.push(Entry::TY(TyEntry(x, Some(*t)))), z, &rest, z);
        },
    }
}

} // verus!
