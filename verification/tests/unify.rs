use tc::bwd::Bwd;
use tc::context::{Context, Goal};
use tc::fwd::Fwd;
use tc::types::{arr, v, Entry, Sc, Ty, TyEntry, TyName, UnifyError};

fn names(ctx: &Context) -> Vec<(TyName, Option<Ty>)> {
    let mut out = Vec::new();
    let mut rest = ctx.ctx.clone();
    while let Some(entry) = rest.next() {
        match entry {
            Entry::TY(TyEntry(n, d)) => out.push((n, d.map(|t| (*t).clone()))),
            _ => panic!("unexpected entry"),
        }
    }
    out.reverse();
    out
}

#[test]
fn default_context_is_empty() {
    let ctx = Context::default();
    assert_eq!(ctx.next, 0);
    assert!(ctx.ctx.0.is_none());
}

#[test]
fn fresh_names_count_up() {
    let mut ctx = Context::default();
    let a = ctx.fresh(None);
    let b = ctx.fresh(None);
    assert_eq!(a, TyName::F(1));
    assert_eq!(b, TyName::F(2));
    assert_ne!(a, b);
    assert_eq!(ctx.next, 2);
    assert_eq!(names(&ctx), vec![(a, None), (b, None)]);
}

#[test]
fn unify_is_reflexive() {
    let mut ctx = Context::default();
    let a = ctx.fresh(None);
    let b = ctx.fresh(None);
    let t = arr(v(a), arr(v(b), v(a)));
    let before = names(&ctx);
    assert_eq!(ctx.unify(&t, &t), Ok(()));
    assert_eq!(names(&ctx), before);
}

#[test]
fn occurs_check_fails() {
    let mut ctx = Context::default();
    let a = ctx.fresh(None);
    let r = ctx.unify(&v(a), &arr(v(a), v(a)));
    assert_eq!(r, Err(UnifyError::Occurs));
}

#[test]
fn occurs_check_fails_on_the_left() {
    let mut ctx = Context::default();
    let a = ctx.fresh(None);
    let r = ctx.unify(&arr(v(a), v(a)), &v(a));
    assert_eq!(r, Err(UnifyError::Occurs));
}

#[test]
fn aliased_variables_fail_the_occurs_check() {
    let mut ctx = Context::default();
    let a = ctx.fresh(None);
    let b = ctx.fresh(None);
    assert_eq!(ctx.unify(&v(a), &v(b)), Ok(()));
    assert_eq!(names(&ctx), vec![(a, None), (b, Some(Ty::V(a)))]);
    assert_eq!(ctx.unify(&v(a), &arr(v(b), v(b))), Err(UnifyError::Occurs));
}

#[test]
fn solved_variable_meets_arrow() {
    let mut ctx = Context::default();
    let a = ctx.fresh(None);
    let t = arr(v(a), v(a));
    let b = ctx.fresh(Some(t));
    let c = ctx.fresh(None);
    assert_eq!(ctx.unify(&v(b), &arr(v(c), v(c))), Ok(()));
    assert_eq!(
        names(&ctx),
        vec![(a, None), (c, Some(Ty::V(a))), (b, Some(Ty::Arr(v(a), v(a))))]
    );
    assert_eq!(ctx.unify(&v(a), &v(c)), Ok(()));
}

#[test]
fn arrows_unify_argument_with_argument() {
    let mut ctx = Context::default();
    let a = ctx.fresh(None);
    let b = ctx.fresh(None);
    let c = ctx.fresh(None);
    let d = ctx.fresh(None);
    assert_eq!(ctx.unify(&arr(v(a), v(b)), &arr(v(c), v(d))), Ok(()));
    assert_eq!(
        names(&ctx),
        vec![(a, None), (b, None), (c, Some(Ty::V(a))), (d, Some(Ty::V(b)))]
    );
}

#[test]
fn variable_is_solved_to_an_arrow() {
    let mut ctx = Context::default();
    let a = ctx.fresh(None);
    let b = ctx.fresh(None);
    let c = ctx.fresh(None);
    // `a` is older than `c`, which its solution needs: `c` moves below `a`.
    assert_eq!(ctx.unify(&v(a), &arr(v(c), v(c))), Ok(()));
    assert_eq!(
        names(&ctx),
        vec![(c, None), (a, Some(Ty::Arr(v(c), v(c)))), (b, None)]
    );
}

#[test]
fn undeclared_variable_is_no_context() {
    let mut ctx = Context::default();
    let _a = ctx.fresh(None);
    let r = ctx.unify(&v(TyName::F(8)), &v(TyName::F(7)));
    assert_eq!(r, Err(UnifyError::NoContext));
    // nothing is put back after an error
    assert!(ctx.ctx.0.is_none());
}

#[test]
fn empty_context_is_no_context() {
    let mut ctx = Context::default();
    assert_eq!(
        ctx.unify(&v(TyName::F(1)), &arr(v(TyName::F(2)), v(TyName::F(2)))),
        Err(UnifyError::NoContext)
    );
    assert_eq!(ctx.on_top(Goal::Vars(TyName::F(1), TyName::F(1))), Err(UnifyError::NoContext));
}

#[test]
fn other_entries_keep_their_places() {
    let mut ctx = Context::default();
    let a = ctx.fresh(None);
    ctx.ctx.snoc_mut(Entry::SEMI);
    let b = ctx.fresh(None);
    ctx.ctx.snoc_mut(Entry::SEMI);
    assert_eq!(ctx.unify(&v(b), &v(a)), Ok(()));
    let mut rest = ctx.ctx.clone();
    assert!(matches!(rest.next(), Some(Entry::SEMI)));
    match rest.next() {
        Some(Entry::TY(TyEntry(n, Some(t)))) => {
            assert_eq!(n, b);
            assert_eq!(*t, Ty::V(a));
        }
        _ => panic!("expected the solved entry"),
    }
    assert!(matches!(rest.next(), Some(Entry::SEMI)));
    assert!(matches!(rest.next(), Some(Entry::TY(TyEntry(_, None)))));
    assert!(rest.next().is_none());
}

#[test]
fn push_appends_in_order() {
    let mut ctx = Context::default();
    let a = ctx.fresh(None);
    let s = Fwd::cons(
        TyEntry(TyName::F(10), None),
        Fwd::singleton(TyEntry(TyName::F(11), Some(v(a)))),
    );
    ctx.push(s);
    assert_eq!(
        names(&ctx),
        vec![(a, None), (TyName::F(10), None), (TyName::F(11), Some(Ty::V(a)))]
    );
    assert_eq!(ctx.next, 1);
}

#[test]
fn solve_puts_the_suffix_below_the_variable() {
    let mut ctx = Context::default();
    let a = ctx.fresh(None);
    let x = TyName::F(20);
    let s = Fwd::singleton(TyEntry(x, None));
    assert_eq!(ctx.solve(a, s, &arr(v(x), v(x))), Ok(()));
    assert_eq!(names(&ctx), vec![(x, None), (a, Some(Ty::Arr(v(x), v(x))))]);
}

#[test]
fn specialize_twice_gives_distinct_variables() {
    let mut ctx = Context::default();
    let s = Sc::for_all(Sc::ty(arr(v(TyName::B(0)), v(TyName::B(0)))));
    let t1 = ctx.specialize(s.clone());
    let t2 = ctx.specialize(s);
    assert_eq!(*t1, Ty::Arr(v(TyName::F(1)), v(TyName::F(1))));
    assert_eq!(*t2, Ty::Arr(v(TyName::F(2)), v(TyName::F(2))));
    assert_ne!(t1, t2);
    assert_eq!(names(&ctx), vec![(TyName::F(1), None), (TyName::F(2), None)]);
}

#[test]
fn specialize_let_declares_a_solved_variable() {
    let mut ctx = Context::default();
    let a = ctx.fresh(None);
    // forall x. let y = x -> a in y -> x
    let s = Sc::for_all(Sc::let_(
        arr(v(TyName::B(0)), v(a)),
        Sc::ty(arr(v(TyName::B(0)), v(TyName::B(1)))),
    ));
    let t = ctx.specialize(s);
    let x = TyName::F(2);
    let y = TyName::F(3);
    assert_eq!(*t, Ty::Arr(v(y), v(x)));
    assert_eq!(
        names(&ctx),
        vec![(a, None), (x, None), (y, Some(Ty::Arr(v(x), v(a))))]
    );
}

#[test]
fn specialize_monotype_is_the_type() {
    let mut ctx = Context::default();
    let a = ctx.fresh(None);
    let t = ctx.specialize(Sc::ty(arr(v(a), v(a))));
    assert_eq!(*t, Ty::Arr(v(a), v(a)));
    assert_eq!(ctx.next, 1);
}

#[test]
fn bwd_keeps_order() {
    let xs = Bwd::singleton(1u32).snoc(2).snoc(3);
    assert_eq!(xs.last(), Some(3));
    let (init, x) = xs.unsnoc().unwrap();
    assert_eq!(x, 3);
    assert_eq!(init.last(), Some(2));
    let ys = init.append(Bwd::singleton(7).snoc(8));
    let mut out = Vec::new();
    let mut it = ys;
    while let Some(x) = it.next() {
        out.push(x);
    }
    assert_eq!(out, vec![8, 7, 2, 1]);
    assert!(Bwd::<u32>::nil().unsnoc().is_none());
    assert!(Bwd::<u32>::nil().init().is_none());
    assert_eq!(Bwd::<u32>::nil().last(), None);
}

#[test]
fn bwd_visit_stops_at_the_first_match() {
    let xs = Bwd::singleton(1u32).snoc(2).snoc(3);
    assert!(Bwd::visit(&xs, |x| *x == 2));
    assert!(!Bwd::visit(&xs, |x| *x == 9));
    let mut ys = Bwd::nil();
    ys.snoc_mut(5u32);
    assert!(Bwd::visit(&ys, |x| *x == 5));
    assert_eq!(Bwd::singleton(4u32).init().unwrap().last(), None);
}

#[test]
fn fwd_keeps_order() {
    let xs = Fwd::cons(1u32, Fwd::cons(2, Fwd::singleton(3)));
    assert_eq!(xs.head(), Some(1));
    let (x, rest) = xs.uncons().unwrap();
    assert_eq!(x, 1);
    assert_eq!(rest.head(), Some(2));
    let ys = rest.append(Fwd::cons(7, Fwd::singleton(8)));
    let mut out = Vec::new();
    let mut it = ys;
    while let Some(x) = it.next() {
        out.push(x);
    }
    assert_eq!(out, vec![2, 3, 7, 8]);
    assert!(Fwd::<u32>::nil().uncons().is_none());
    assert!(Fwd::<u32>::nil().tail().is_none());
    assert_eq!(Fwd::<u32>::nil().head(), None);
    assert_eq!(Fwd::singleton(4u32).tail().unwrap().head(), None);
}

#[test]
fn fwd_visit_stops_at_the_first_match() {
    let xs = Fwd::cons(1u32, Fwd::cons(2, Fwd::singleton(3)));
    assert!(Fwd::visit(&xs, |x| *x == 3));
    assert!(!Fwd::visit(&xs, |x| *x == 9));
}

fn resolve(ctx: &Context, t: &Ty) -> Ty {
    match t {
        Ty::V(x) => {
            for (n, d) in names(ctx) {
                if n == *x {
                    if let Some(d) = d {
                        return resolve(ctx, &d);
                    }
                }
            }
            t.clone()
        }
        Ty::Arr(l, r) => Ty::Arr(
            std::rc::Rc::new(resolve(ctx, l)),
            std::rc::Rc::new(resolve(ctx, r)),
        ),
    }
}

#[test]
fn unified_types_resolve_to_the_same_type() {
    let mut ctx = Context::default();
    let a = ctx.fresh(None);
    let b = ctx.fresh(None);
    let c = ctx.fresh(None);
    let d = ctx.fresh(None);
    let lhs = arr(v(a), arr(v(b), v(c)));
    let rhs = arr(arr(v(d), v(d)), arr(v(a), v(b)));
    assert_eq!(ctx.unify(&lhs, &rhs), Ok(()));
    assert_eq!(resolve(&ctx, &lhs), resolve(&ctx, &rhs));
    let dd = Ty::Arr(v(d), v(d));
    assert_eq!(resolve(&ctx, &Ty::V(c)), dd);
    assert_eq!(ctx.next, 4);
    assert_eq!(names(&ctx).len(), 4);
    // what was made equal stays equal
    assert_eq!(ctx.unify(&lhs, &rhs), Ok(()));
    assert_eq!(ctx.unify(&v(c), &v(a)), Ok(()));
}

#[test]
fn occurs_check_sees_through_solutions() {
    let mut ctx = Context::default();
    let a = ctx.fresh(None);
    let b = ctx.fresh(Some(arr(v(a), v(a))));
    // a := b -> b would make a stand for a type that holds a
    assert_eq!(ctx.unify(&v(a), &arr(v(b), v(b))), Err(UnifyError::Occurs));
}

#[test]
fn unify_never_answers_mismatch() {
    let mut ctx = Context::default();
    let a = ctx.fresh(None);
    let b = ctx.fresh(Some(arr(v(a), v(a))));
    let c = ctx.fresh(None);
    let d = ctx.fresh(Some(arr(arr(v(c), v(c)), v(c))));
    let r = ctx.unify(&v(b), &v(d));
    assert!(!matches!(r, Err(UnifyError::Mismatch(_, _))));
    assert_eq!(r, Err(UnifyError::Occurs));
}

#[test]
fn on_top_with_restores_replaces_and_fails() {
    let mut ctx = Context::default();
    let a = ctx.fresh(None);
    let b = ctx.fresh(None);
    ctx.ctx.snoc_mut(Entry::SEMI);

    let seen = ctx.on_top_with(|e: TyEntry| -> Result<tc::types::Ext, UnifyError> {
        assert_eq!(e.0, b);
        Ok(tc::types::restore())
    });
    assert_eq!(seen, Ok(()));
    let mut rest = ctx.ctx.clone();
    assert!(matches!(rest.next(), Some(Entry::SEMI)));
    assert!(matches!(rest.next(), Some(Entry::TY(TyEntry(n, None))) if n == b));

    let x = TyName::F(30);
    let r = ctx.on_top_with(|e: TyEntry| -> Result<tc::types::Ext, UnifyError> {
        Ok(tc::types::replace(Fwd::cons(
            TyEntry(x, None),
            Fwd::singleton(TyEntry(e.0, Some(v(x)))),
        )))
    });
    assert_eq!(r, Ok(()));
    let mut rest = ctx.ctx.clone();
    assert!(matches!(rest.next(), Some(Entry::SEMI)));
    assert!(matches!(rest.next(), Some(Entry::TY(TyEntry(n, Some(_)))) if n == b));
    assert!(matches!(rest.next(), Some(Entry::TY(TyEntry(n, None))) if n == x));
    assert!(matches!(rest.next(), Some(Entry::TY(TyEntry(n, None))) if n == a));
    assert!(rest.next().is_none());

    let r = ctx.on_top_with(|_e: TyEntry| -> Result<tc::types::Ext, UnifyError> {
        Err(UnifyError::Occurs)
    });
    assert_eq!(r, Err(UnifyError::Occurs));
    // the entry that was decided on, and the one above it, are gone
    assert_eq!(names(&ctx), vec![(a, None), (x, None)]);

    let mut empty = Context::default();
    empty.ctx.snoc_mut(Entry::SEMI);
    let r = empty.on_top_with(|_e: TyEntry| -> Result<tc::types::Ext, UnifyError> {
        Ok(tc::types::restore())
    });
    assert_eq!(r, Err(UnifyError::NoContext));
    assert!(empty.ctx.0.is_none());
}
