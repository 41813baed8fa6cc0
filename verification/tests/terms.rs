use tc::bwd::Bwd;
use tc::fwd::Fwd;
use tc::types::{
    affix, arr, bind_type, instantiate, instantiate_n, instantiate_scheme, instantiate_scheme_n,
    replace, restore, v, AsNoContext, Entry, Ext, Sc, Ty, TyEntry, TyName, UnifyError, FTV,
};

#[test]
fn instantiate_replaces_index_zero_and_shifts() {
    let x = TyName::F(5);
    let t = arr(v(TyName::B(0)), arr(v(TyName::B(2)), v(TyName::F(1))));
    let r = instantiate(x, t);
    assert_eq!(*r, Ty::Arr(v(x), arr(v(TyName::B(1)), v(TyName::F(1)))));
}

#[test]
fn instantiate_n_leaves_lower_indices() {
    let x = TyName::F(5);
    let t = arr(v(TyName::B(0)), arr(v(TyName::B(1)), v(TyName::B(2))));
    let r = instantiate_n(1, x, t);
    assert_eq!(*r, Ty::Arr(v(TyName::B(0)), arr(v(x), v(TyName::B(1)))));
}

#[test]
fn bind_type_captures_and_shifts() {
    let t = arr(v(TyName::F(5)), arr(v(TyName::B(0)), v(TyName::F(6))));
    let r = bind_type(5, t);
    assert_eq!(*r, Ty::Arr(v(TyName::B(0)), arr(v(TyName::B(1)), v(TyName::F(6)))));
}

#[test]
fn instantiate_undoes_bind_type() {
    let t = arr(v(TyName::F(5)), arr(v(TyName::B(3)), v(TyName::F(6))));
    let r = instantiate(TyName::F(5), bind_type(5, t.clone()));
    assert_eq!(r, t);
}

#[test]
fn instantiate_scheme_goes_under_binders() {
    let x = TyName::F(9);
    // the variable 0 outside is the variable 1 under one binder
    let s = Sc::for_all(Sc::ty(arr(v(TyName::B(0)), v(TyName::B(1)))));
    let r = instantiate_scheme(x, s.clone());
    assert_eq!(*r, Sc::Forall(Sc::ty(arr(v(TyName::B(0)), v(x)))));
    let l = Sc::let_(v(TyName::B(1)), Sc::ty(v(TyName::B(2))));
    let r = instantiate_scheme_n(1, x, l);
    assert_eq!(*r, Sc::Let(v(x), Sc::ty(v(x))));
}

#[test]
fn contains_finds_variables() {
    let a = TyName::F(1);
    let b = TyName::F(2);
    let t = arr(v(a), arr(v(a), v(a)));
    assert!(t.contains(a));
    assert!(!t.contains(b));
    assert!(a.contains(a));
    assert!(!a.contains(b));
    assert!(Some(t.clone()).contains(a));
    assert!(!None::<Ty>.contains(a));
    // the declared name of an entry does not count
    assert!(!TyEntry(a, None).contains(a));
    assert!(TyEntry(b, Some(t.clone())).contains(a));
    let fwd = Fwd::cons(TyEntry(a, None), Fwd::singleton(TyEntry(b, Some(t.clone()))));
    assert!(fwd.contains(a));
    assert!(!fwd.contains(b));
    let bwd = Bwd::singleton(TyEntry(b, Some(t))).snoc(TyEntry(a, None));
    assert!(bwd.contains(a));
    assert!(!bwd.contains(b));
}

#[test]
fn affix_appends_type_entries() {
    let a = TyName::F(1);
    let b = TyName::F(2);
    let ctx = Bwd::singleton(Entry::SEMI);
    let out = affix(ctx, Fwd::cons(TyEntry(a, None), Fwd::singleton(TyEntry(b, None))));
    let mut it = out;
    assert!(matches!(it.next(), Some(Entry::TY(TyEntry(n, None))) if n == b));
    assert!(matches!(it.next(), Some(Entry::TY(TyEntry(n, None))) if n == a));
    assert!(matches!(it.next(), Some(Entry::SEMI)));
    assert!(it.next().is_none());
}

#[test]
fn ext_constructors() {
    assert!(matches!(restore(), Ext::Restore));
    assert!(matches!(Ext::default(), Ext::Restore));
    assert!(matches!(replace(Fwd::nil()), Ext::Replace(s) if s.0.is_none()));
    assert_eq!(UnifyError::no_context(), UnifyError::NoContext);
}

#[test]
fn bind_suffix_generalizes_outermost_first() {
    let a = TyName::F(1);
    let b = TyName::F(2);
    let suffix = Fwd::cons(TyEntry(a, None), Fwd::singleton(TyEntry(b, Some(arr(v(a), v(a))))));
    let s = tc::types::bind_suffix(suffix, arr(v(b), v(a)));
    let b0 = TyName::B(0);
    let b1 = TyName::B(1);
    assert_eq!(
        *s,
        Sc::Forall(Sc::let_(arr(v(b0), v(b0)), Sc::ty(arr(v(b0), v(b1)))))
    );
    assert_eq!(*tc::types::bind_suffix(Fwd::nil(), v(a)), Sc::Type(v(a)));
}

#[test]
fn specialize_undoes_bind_suffix() {
    let a = TyName::F(1);
    let b = TyName::F(2);
    let suffix = Fwd::cons(TyEntry(a, None), Fwd::singleton(TyEntry(b, Some(arr(v(a), v(a))))));
    let s = tc::types::bind_suffix(suffix, arr(v(b), v(a)));
    let mut ctx = tc::context::Context::default();
    let t = ctx.specialize(s);
    assert_eq!(*t, Ty::Arr(v(b), v(a)));
    assert_eq!(ctx.next, 2);
}

#[test]
fn bind_scheme_goes_under_binders() {
    let s = Sc::for_all(Sc::ty(arr(v(TyName::B(0)), arr(v(TyName::B(1)), v(TyName::F(4))))));
    let r = tc::types::bind_scheme(4, s.clone());
    assert_eq!(
        *r,
        Sc::Forall(Sc::ty(arr(v(TyName::B(0)), arr(v(TyName::B(2)), v(TyName::B(1))))))
    );
    assert_eq!(instantiate_scheme(TyName::F(4), r), s);
    let t = tc::types::bind_type_n(1, 4, arr(v(TyName::B(0)), v(TyName::F(4))));
    assert_eq!(*t, Ty::Arr(v(TyName::B(0)), v(TyName::B(1))));
}
