//! Type terms, context entries and type schemes.

use crate::bwd::Bwd;
use crate::fwd::Fwd;
use std::rc::Rc;
use vstd::prelude::*;

verus! {

/// The name of a type variable: `B` is bound by an enclosing scheme and
/// counts binders from the inside out; `F` is free, and owned by a context.
#[derive(PartialEq, Eq, PartialOrd, Ord, Clone, Copy, Hash, Debug, Structural)]
pub enum TyName {
    B(u32),
    F(u32),
}

/// A type term: a variable, or a function type from an argument to a result.
#[derive(PartialEq, Eq, PartialOrd, Ord, Clone, Hash, Debug)]
pub enum Ty {
    V(TyName),
    Arr(Type, Type),
}

/// A shared handle to a type term.
pub type Type = Rc<Ty>;

/// The number of nodes of a term.
pub open spec fn ty_size(t: Ty) -> nat
    decreases t,
{
    match t {
        Ty::V(_) => 1,
        Ty::Arr(l, r) => 1 + ty_size(*l) + ty_size(*r),
    }
}

/// Whether the variable `name` stands anywhere in `t`.
pub open spec fn ty_occurs(t: Ty, name: TyName) -> bool
    decreases t,
{
    match t {
        Ty::V(x) => x == name,
        Ty::Arr(l, r) => ty_occurs(*l, name) || ty_occurs(*r, name),
    }
}

/// Whether every bound index in `t` is below `k`.
pub open spec fn ty_bound_below(t: Ty, k: int) -> bool
    decreases t,
{
    match t {
        Ty::V(TyName::B(m)) => m < k,
        Ty::V(TyName::F(_)) => true,
        Ty::Arr(l, r) => ty_bound_below(*l, k) && ty_bound_below(*r, k),
    }
}

/// `t` with the bound variable `n` replaced by the variable `x`, and every
/// bound index above `n` lowered by one: the binder `n` is gone.
pub open spec fn ty_instantiate(n: u32, x: TyName, t: Ty) -> Ty
    decreases t,
{
    match t {
        Ty::V(TyName::B(m)) => if m == n {
            Ty::V(x)
        } else if n < m {
            Ty::V(TyName::B((m - 1) as u32))
        } else {
            t
        },
        Ty::V(TyName::F(_)) => t,
        Ty::Arr(l, r) => Ty::Arr(
            Rc::new(ty_instantiate(n, x, *l)),
            Rc::new(ty_instantiate(n, x, *r)),
        ),
    }
}

/// `t` with the free variable `x` captured as the bound variable `n`, and
/// every bound index from `n` on raised by one: a binder was put around `t`
/// and `n` binders that lie within.
pub open spec fn ty_bind_n(n: u32, x: u32, t: Ty) -> Ty
    decreases t,
{
    match t {
        Ty::V(TyName::B(m)) => if m >= n {
            Ty::V(TyName::B((m + 1) as u32))
        } else {
            t
        },
        Ty::V(TyName::F(y)) => if y == x {
            Ty::V(TyName::B(n))
        } else {
            t
        },
        Ty::Arr(l, r) => Ty::Arr(Rc::new(ty_bind_n(n, x, *l)), Rc::new(ty_bind_n(n, x, *r))),
    }
}

/// `t` with the free variable `x` captured as the bound variable `0`, and
/// every bound index raised by one: a binder was put around `t`.
pub open spec fn ty_bind(x: u32, t: Ty) -> Ty {
    ty_bind_n(0, x, t)
}

/// The variable `n` as a type.
pub fn v(n: TyName) -> (r: Type)
    ensures
        *r == Ty::V(n),
{
    Rc::new(Ty::V(n))
}

/// The function type from `arg` to `res`.
pub fn arr(arg: Type, res: Type) -> (r: Type)
    ensures
        *r == Ty::Arr(arg, res),
{
    Rc::new(Ty::Arr(arg, res))
}

/// Replaces the bound variable `n` of `t` by `x` and closes the gap it
/// leaves in the numbering.
pub fn instantiate_n(n: u32, x: TyName, t: Type) -> (r: Type)
    ensures
        *r == ty_instantiate(n, x, *t),
    decreases *t,
{
    match &*t {
        Ty::V(TyName::B(m)) => {
            if *m == n {
                v(x)
            } else if n < *m {
                v(TyName::B(*m - 1))
            } else {
                t
            }
        },
        Ty::V(TyName::F(_)) => t,
        Ty::Arr(arg, res) => arr(
            instantiate_n(n, x, arg.clone()),
            instantiate_n(n, x, res.clone()),
        ),
    }
}

/// Replaces the next bound variable of `t`, the one numbered `0`, by `x`.
pub fn instantiate(x: TyName, t: Type) -> (r: Type)
    ensures
        *r == ty_instantiate(0, x, *t),
{
    instantiate_n(0, x, t)
}

/// Captures the free variable `x` of `t` as the bound variable `n`, under
/// `n` binders that lie within the new one.
pub fn bind_type_n(n: u32, x: u32, t: Type) -> (r: Type)
    requires
        ty_bound_below(*t, u32::MAX as int),
    ensures
        *r == ty_bind_n(n, x, *t),
    decreases *t,
{
    match &*t {
        Ty::V(TyName::B(m)) => {
            if *m >= n {
                v(TyName::B(*m + 1))
            } else {
                t
            }
        },
        Ty::V(TyName::F(y)) => {
            if *y == x {
                v(TyName::B(n))
            } else {
                t
            }
        },
        Ty::Arr(arg, res) => arr(bind_type_n(n, x, arg.clone()), bind_type_n(n, x, res.clone())),
    }
}

/// Captures the free variable `x` of `t` as the bound variable `0`.
pub fn bind_type(x: u32, t: Type) -> (r: Type)
    requires
        ty_bound_below(*t, u32::MAX as int),
    ensures
        *r == ty_bind(x, *t),
{
    bind_type_n(0, x, t)
}

/// Putting a binder around a term and taking it away again, with the name
/// that was captured, gives the term back.
pub proof fn lemma_instantiate_bind_n(n: u32, x: u32, t: &Ty)
    requires
        ty_bound_below(*t, u32::MAX as int),
    ensures
        ty_instantiate(n, TyName::F(x), ty_bind_n(n, x, *t)) == *t,
    decreases *t,
{
    if let Ty::Arr(l, r) = t {
        lemma_instantiate_bind_n(n, x, &**l);
        lemma_instantiate_bind_n(n, x, &**r);
    }
}

/// The same for the outermost binder.
pub proof fn lemma_instantiate_bind(x: u32, t: &Ty)
    requires
        ty_bound_below(*t, u32::MAX as int),
    ensures
        ty_instantiate(0, TyName::F(x), ty_bind(x, *t)) == *t,
{
    lemma_instantiate_bind_n(0, x, t);
}

/// A binder raises the bound indices of a term by one at most.
pub proof fn lemma_bind_bound(n: u32, x: u32, t: &Ty, k: int)
    requires
        ty_bound_below(*t, k),
        n <= k < u32::MAX,
    ensures
        ty_bound_below(ty_bind_n(n, x, *t), k + 1),
    decreases *t,
{
    if let Ty::Arr(l, r) = t {
        lemma_bind_bound(n, x, &**l, k);
        lemma_bind_bound(n, x, &**r, k);
    }
}

/// Things in which a type variable can occur.
pub trait FTV {
    /// Whether `name` stands anywhere in `self`.
    spec fn occurs(&self, name: TyName) -> bool;

    /// Decides `occurs`.
    fn contains(&self, name: TyName) -> (r: bool)
        ensures
            r == self.occurs(name),
    ;
}

impl FTV for TyName {
    open spec fn occurs(&self, name: TyName) -> bool {
        *self == name
    }

    fn contains(&self, name: TyName) -> (r: bool) {
        *self == name
    }
}

impl FTV for Ty {
    open spec fn occurs(&self, name: TyName) -> bool {
        ty_occurs(*self, name)
    }

    fn contains(&self, name: TyName) -> (r: bool)
        decreases self,
    {
        match self {
            Ty::V(x) => *x == name,
            Ty::Arr(l, r) => (**l).contains(name) || (**r).contains(name),
        }
    }
}

impl<T: FTV> FTV for Rc<T> {
    open spec fn occurs(&self, name: TyName) -> bool {
        (**self).occurs(name)
    }

    fn contains(&self, name: TyName) -> (r: bool) {
        (**self).contains(name)
    }
}

impl<A: FTV> FTV for Option<A> {
    open spec fn occurs(&self, name: TyName) -> bool {
        match self {
            Some(x) => x.occurs(name),
            None => false,
        }
    }

    fn contains(&self, name: TyName) -> (r: bool) {
        match self {
            Some(x) => x.contains(name),
            None => false,
        }
    }
}

impl<A: FTV> FTV for Bwd<A> {
    open spec fn occurs(&self, name: TyName) -> bool {
        exists|i: int| 0 <= i < self@.len() && (#[trigger] self@[i]).occurs(name)
    }

    fn contains(&self, name: TyName) -> (r: bool) {
        let ask = |x: &A| -> (b: bool)
            ensures
                b == x.occurs(name),
            {
                let b = x.contains(name);
                b
            };
        Bwd::visit(self, ask)
    }
}

impl<A: FTV> FTV for Fwd<A> {
    open spec fn occurs(&self, name: TyName) -> bool {
        exists|i: int| 0 <= i < self@.len() && (#[trigger] self@[i]).occurs(name)
    }

    fn contains(&self, name: TyName) -> (r: bool) {
        let ask = |x: &A| -> (b: bool)
            ensures
                b == x.occurs(name),
            {
                let b = x.contains(name);
                b
            };
        Fwd::visit(self, ask)
    }
}

/// A type variable in a context: its name and, once it is solved, the type
/// that it stands for.
#[derive(Debug)]
pub struct TyEntry(pub TyName, pub Option<Type>);

impl Clone for TyEntry {
    fn clone(&self) -> (r: Self)
        ensures
            r == *self,
    {
        TyEntry(
            self.0,
            match &self.1 {
                Some(t) => Some(t.clone()),
                None => None,
            },
        )
    }
}

impl FTV for TyEntry {
    /// A variable occurs in an entry where it occurs in the entry's
    /// solution; the name that the entry declares does not count.
    open spec fn occurs(&self, name: TyName) -> bool {
        match self.1 {
            Some(t) => ty_occurs(*t, name),
            None => false,
        }
    }

    fn contains(&self, name: TyName) -> (r: bool) {
        match &self.1 {
            Some(t) => (**t).contains(name),
            None => false,
        }
    }
}


/// The name of a term variable.
#[derive(PartialEq, Eq, PartialOrd, Ord, Clone, Hash, Debug)]
pub struct TmName(pub String);

/// A term: a variable, an application, an abstraction or a let-binding.
#[derive(PartialEq, Eq, PartialOrd, Ord, Clone, Hash, Debug)]
pub enum Tm {
    V(TmName),
    App(Term, Term),
    Lam(TmName, Term),
    Let(TmName, Term, Term),
}

/// A shared handle to a term.
pub type Term = Rc<Tm>;

/// A type scheme. Each `Forall` and each `Let` binds one variable, numbered
/// from the inside out; `Let` also gives the type that its variable stands
/// for.
#[derive(PartialEq, Eq, PartialOrd, Ord, Clone, Hash, Debug)]
pub enum Sc {
    Type(Type),
    Forall(Scheme),
    Let(Type, Scheme),
}

/// A shared handle to a type scheme.
pub type Scheme = Rc<Sc>;

/// A term variable in a context, with its scheme.
#[derive(PartialEq, Eq, PartialOrd, Ord, Clone, Hash, Debug)]
pub struct TmEntry(pub TmName, pub Scheme);

/// One slot of a context. Unification reads the `TY` slots only.
#[derive(Debug, Clone)]
pub enum Entry {
    TY(TyEntry),
    TM(TmEntry),
    SEMI,
}

/// A context: its entries, oldest first.
pub type Ctx = Bwd<Entry>;

/// Entries that wait to be put into a context, oldest first.
pub type Suffix = Fwd<TyEntry>;

/// `ctx` followed by the entries of `suffix`, each as a `TY` slot.
pub open spec fn affixed(ctx: Seq<Entry>, suffix: Seq<TyEntry>) -> Seq<Entry> {
    ctx + suffix.map_values(|e: TyEntry| Entry::TY(e))
}

/// Puts the entries of `suffix` at the end of `ctx`, in their order.
pub fn affix(ctx: Ctx, suffix: Suffix) -> (r: Ctx)
    ensures
        r@ == affixed(ctx@, suffix@),
{
    let mut ctx = ctx;
    affix_mut(&mut ctx, suffix);
    ctx
}

/// Puts the entries of `suffix` at the end of `ctx`, in their order, in
/// place.
pub fn affix_mut(ctx: &mut Ctx, suffix: Suffix)
    ensures
        final(ctx)@ == affixed(old(ctx)@, suffix@),
{
    let mut rest = suffix;
    let ghost mut done: int = 0;
    proof {
        assert(suffix@.take(0) =~= Seq::<TyEntry>::empty());
        assert(affixed(old(ctx)@, suffix@.take(0)) =~= old(ctx)@);
        assert(suffix@.skip(0) =~= suffix@);
    }
    loop
        invariant
            0 <= done <= suffix@.len(),
            rest@ == suffix@.skip(done),
            ctx@ == affixed(old(ctx)@, suffix@.take(done)),
        ensures
            ctx@ == affixed(old(ctx)@, suffix@),
        decreases suffix@.len() - done,
    {
        match rest.next() {
            None => {
                proof {
                    assert(suffix@.take(done) =~= suffix@);
                }
                break ;
            },
            Some(te) => {
                proof {
                    assert(suffix@.skip(done).drop_first() =~= suffix@.skip(done + 1));
                    assert(affixed(old(ctx)@, suffix@.take(done)).push(Entry::TY(te)) =~= affixed(
                        old(ctx)@,
                        suffix@.take(done + 1),
                    ));
                    done = done + 1;
                }
                ctx.snoc_mut(Entry::TY(te));
            },
        }
    }
}

/// What is put back in place of the entry that was taken off a context.
#[derive(Debug, Clone)]
pub enum Ext {
    /// The entry itself, unchanged.
    Restore,
    /// These entries instead.
    Replace(Suffix),
}

impl View for Ext {
    type V = Option<Seq<TyEntry>>;

    /// `None` for `Restore`, the entries for `Replace`.
    open spec fn view(&self) -> Option<Seq<TyEntry>> {
        match self {
            Ext::Restore => None,
            Ext::Replace(suffix) => Some(suffix@),
        }
    }
}

/// Puts the entry back.
pub fn restore() -> (r: Ext)
    ensures
        r == Ext::Restore,
{
    Ext::Restore
}

/// Puts `suffix` in the entry's place.
pub fn replace(suffix: Suffix) -> (r: Ext)
    ensures
        r == Ext::Replace(suffix),
{
    Ext::Replace(suffix)
}

impl Default for Ext {
    fn default() -> (r: Self)
        ensures
            r == Ext::Restore,
    {
        Ext::Restore
    }
}

/// Errors that can say that a context ran out of entries.
pub trait AsNoContext: Sized {
    /// The error for a context without entries.
    fn no_context() -> Self;
}

/// Why two types could not be made equal.
#[derive(Debug, Clone, PartialEq, Eq, PartialOrd, Ord)]
pub enum UnifyError {
    /// A variable would have to stand for a type that holds the variable.
    Occurs,
    /// The two types have different shapes.
    Mismatch(Type, Type),
    /// A variable was looked for that no entry of the context declares.
    NoContext,
}

impl AsNoContext for UnifyError {
    fn no_context() -> (r: Self)
        ensures
            r == UnifyError::NoContext,
    {
        UnifyError::NoContext
    }
}


/// The number of binders of a scheme.
pub open spec fn sc_depth(s: Sc) -> nat
    decreases s,
{
    match s {
        Sc::Type(_) => 0,
        Sc::Forall(inner) => 1 + sc_depth(*inner),
        Sc::Let(_, inner) => 1 + sc_depth(*inner),
    }
}

/// `s` with the bound variable that is numbered `n` outside of `s` replaced
/// by `x`. Under each binder of `s` that variable is numbered one higher.
pub open spec fn sc_instantiate(n: u32, x: TyName, s: Sc) -> Sc
    decreases s,
{
    match s {
        Sc::Type(t) => Sc::Type(Rc::new(ty_instantiate(n, x, *t))),
        Sc::Forall(inner) => Sc::Forall(Rc::new(sc_instantiate((n + 1) as u32, x, *inner))),
        Sc::Let(t, inner) => Sc::Let(
            Rc::new(ty_instantiate(n, x, *t)),
            Rc::new(sc_instantiate((n + 1) as u32, x, *inner)),
        ),
    }
}

impl Sc {
    /// The scheme without binders that is the type `t`.
    pub fn ty(t: Type) -> (r: Scheme)
        ensures
            *r == Sc::Type(t),
    {
        Rc::new(Sc::Type(t))
    }

    /// `s` under one more binder, whose variable is unsolved.
    pub fn for_all(s: Scheme) -> (r: Scheme)
        ensures
            *r == Sc::Forall(s),
    {
        Rc::new(Sc::Forall(s))
    }

    /// `s` under one more binder, whose variable stands for `t`.
    pub fn let_(t: Type, s: Scheme) -> (r: Scheme)
        ensures
            *r == Sc::Let(t, s),
    {
        Rc::new(Sc::Let(t, s))
    }
}

/// Replaces by `x` the bound variable of `s` that is numbered `n` outside of
/// `s`.
pub fn instantiate_scheme_n(n: u32, x: TyName, s: Scheme) -> (r: Scheme)
    requires
        n + sc_depth(*s) <= u32::MAX,
    ensures
        *r == sc_instantiate(n, x, *s),
    decreases *s,
{
    match &*s {
        Sc::Type(t) => Sc::ty(instantiate_n(n, x, t.clone())),
        Sc::Forall(inner) => Sc::for_all(instantiate_scheme_n(n + 1, x, inner.clone())),
        Sc::Let(t, inner) => Sc::let_(
            instantiate_n(n, x, t.clone()),
            instantiate_scheme_n(n + 1, x, inner.clone()),
        ),
    }
}

/// Replaces the next bound variable of `s`, the one numbered `0` outside of
/// `s`, by `x`.
pub fn instantiate_scheme(x: TyName, s: Scheme) -> (r: Scheme)
    requires
        sc_depth(*s) <= u32::MAX,
    ensures
        *r == sc_instantiate(0, x, *s),
{
    instantiate_scheme_n(0, x, s)
}

/// Instantiating a bound variable leaves the binders of a scheme as they
/// are.
pub proof fn lemma_instantiate_keeps_depth(n: u32, x: TyName, s: &Sc)
    ensures
        sc_depth(sc_instantiate(n, x, *s)) == sc_depth(*s),
    decreases *s,
{
    match s {
        Sc::Type(_) => {},
        Sc::Forall(inner) => {
            lemma_instantiate_keeps_depth((n + 1) as u32, x, &**inner);
        },
        Sc::Let(_, inner) => {
            lemma_instantiate_keeps_depth((n + 1) as u32, x, &**inner);
        },
    }
}


/// Whether every bound index in every type of `s` is below `k`.
pub open spec fn sc_bound_below(s: Sc, k: int) -> bool
    decreases s,
{
    match s {
        Sc::Type(t) => ty_bound_below(*t, k),
        Sc::Forall(inner) => sc_bound_below(*inner, k),
        Sc::Let(t, inner) => ty_bound_below(*t, k) && sc_bound_below(*inner, k),
    }
}

/// `s` with the free variable `x` captured as the bound variable that is
/// numbered `n` outside of `s`: a binder was put around `s`.
pub open spec fn sc_bind(n: u32, x: u32, s: Sc) -> Sc
    decreases s,
{
    match s {
        Sc::Type(t) => Sc::Type(Rc::new(ty_bind_n(n, x, *t))),
        Sc::Forall(inner) => Sc::Forall(Rc::new(sc_bind((n + 1) as u32, x, *inner))),
        Sc::Let(t, inner) => Sc::Let(
            Rc::new(ty_bind_n(n, x, *t)),
            Rc::new(sc_bind((n + 1) as u32, x, *inner)),
        ),
    }
}

/// The scheme that binds the variables of `suffix` in `t`, the first entry
/// outermost: an unsolved entry gives a `Forall`, a solved one a `Let` with
/// its solution.
pub open spec fn suffix_bound(suffix: Seq<TyEntry>, t: Ty) -> Sc
    decreases suffix.len(),
{
    if suffix.len() == 0 {
        Sc::Type(Rc::new(t))
    } else {
        let inner = sc_bind(0, suffix[0].0->F_0, suffix_bound(suffix.drop_first(), t));
        match suffix[0].1 {
            None => Sc::Forall(Rc::new(inner)),
            Some(d) => Sc::Let(d, Rc::new(inner)),
        }
    }
}

/// Whether the entries of `suffix` declare free variables, and their
/// solutions hold no bound variable.
pub open spec fn suffix_closed(suffix: Seq<TyEntry>) -> bool {
    forall|i: int|
        0 <= i < suffix.len() ==> (#[trigger] suffix[i]).0 is F && (suffix[i].1 matches Some(d)
            ==> ty_bound_below(*d, 0))
}

/// Captures the free variable `x` of `s` as the bound variable that is
/// numbered `n` outside of `s`.
pub fn bind_scheme_n(n: u32, x: u32, s: Scheme) -> (r: Scheme)
    requires
        n + sc_depth(*s) <= u32::MAX,
        sc_bound_below(*s, u32::MAX as int),
    ensures
        *r == sc_bind(n, x, *s),
    decreases *s,
{
    match &*s {
        Sc::Type(t) => Sc::ty(bind_type_n(n, x, t.clone())),
        Sc::Forall(inner) => Sc::for_all(bind_scheme_n(n + 1, x, inner.clone())),
        Sc::Let(t, inner) => Sc::let_(
            bind_type_n(n, x, t.clone()),
            bind_scheme_n(n + 1, x, inner.clone()),
        ),
    }
}

/// Captures the free variable `x` of `s` as the variable of a new outermost
/// binder.
pub fn bind_scheme(x: u32, s: Scheme) -> (r: Scheme)
    requires
        sc_depth(*s) <= u32::MAX,
        sc_bound_below(*s, u32::MAX as int),
    ensures
        *r == sc_bind(0, x, *s),
{
    bind_scheme_n(0, x, s)
}

/// A binder raises the bound indices of a scheme by one at most, and leaves
/// its other binders as they are.
pub proof fn lemma_sc_bind_bound(n: u32, x: u32, s: &Sc, k: int)
    requires
        sc_bound_below(*s, k),
        n + sc_depth(*s) <= k < u32::MAX,
    ensures
        sc_bound_below(sc_bind(n, x, *s), k + 1),
        sc_depth(sc_bind(n, x, *s)) == sc_depth(*s),
    decreases *s,
{
    match s {
        Sc::Type(t) => {
            lemma_bind_bound(n, x, &**t, k);
        },
        Sc::Forall(inner) => {
            lemma_sc_bind_bound((n + 1) as u32, x, &**inner, k);
        },
        Sc::Let(t, inner) => {
            lemma_bind_bound(n, x, &**t, k);
            lemma_sc_bind_bound((n + 1) as u32, x, &**inner, k);
        },
    }
}

/// Putting a binder around a scheme and taking it away again, with the name
/// that was captured, gives the scheme back.
pub proof fn lemma_sc_instantiate_bind(n: u32, x: u32, s: &Sc)
    requires
        sc_bound_below(*s, u32::MAX as int),
        n + sc_depth(*s) <= u32::MAX,
    ensures
        sc_instantiate(n, TyName::F(x), sc_bind(n, x, *s)) == *s,
    decreases *s,
{
    match s {
        Sc::Type(t) => {
            lemma_instantiate_bind_n(n, x, &**t);
        },
        Sc::Forall(inner) => {
            lemma_sc_instantiate_bind((n + 1) as u32, x, &**inner);
        },
        Sc::Let(t, inner) => {
            lemma_instantiate_bind_n(n, x, &**t);
            lemma_sc_instantiate_bind((n + 1) as u32, x, &**inner);
        },
    }
}

/// The scheme that binds `suffix` in `t` has one binder for each entry, and
/// no bound index in it reaches the number of its binders.
pub proof fn lemma_suffix_bound_shape(suffix: Seq<TyEntry>, t: &Ty)
    requires
        suffix_closed(suffix),
        ty_bound_below(*t, 0),
        suffix.len() <= u32::MAX,
    ensures
        sc_depth(suffix_bound(suffix, *t)) == suffix.len(),
        sc_bound_below(suffix_bound(suffix, *t), suffix.len() as int),
    decreases suffix.len(),
{
    if suffix.len() > 0 {
        let rest = suffix.drop_first();
        let k = rest.len() as int;
        assert forall|i: int| 0 <= i < rest.len() implies (#[trigger] rest[i]).0 is F && (
        rest[i].1 matches Some(d) ==> ty_bound_below(*d, 0)) by {
            assert(rest[i] == suffix[i + 1]);
        }
        lemma_suffix_bound_shape(rest, t);
        let inner = suffix_bound(rest, *t);
        lemma_sc_bind_bound(0, suffix[0].0->F_0, &inner, k);
        if let Some(d) = &suffix[0].1 {
            lemma_bound_weaker(&**d, 0, k + 1);
        }
    }
}

/// A bound on the bound indices of a term can be raised.
pub proof fn lemma_bound_weaker(t: &Ty, k: int, m: int)
    requires
        ty_bound_below(*t, k),
        k <= m,
    ensures
        ty_bound_below(*t, m),
    decreases *t,
{
    if let Ty::Arr(l, r) = t {
        lemma_bound_weaker(&**l, k, m);
        lemma_bound_weaker(&**r, k, m);
    }
}

/// A bound on the bound indices of a scheme can be raised.
pub proof fn lemma_sc_bound_weaker(s: &Sc, k: int, m: int)
    requires
        sc_bound_below(*s, k),
        k <= m,
    ensures
        sc_bound_below(*s, m),
    decreases *s,
{
    match s {
        Sc::Type(t) => {
            lemma_bound_weaker(&**t, k, m);
        },
        Sc::Forall(inner) => {
            lemma_sc_bound_weaker(&**inner, k, m);
        },
        Sc::Let(t, inner) => {
            lemma_bound_weaker(&**t, k, m);
            lemma_sc_bound_weaker(&**inner, k, m);
        },
    }
}

/// Generalizes `t` over the entries of `e`: the scheme binds their
/// variables in `t`, the first entry outermost. An unsolved entry becomes a
/// `Forall`, a solved one a `Let` that keeps its solution.
pub fn bind_suffix(e: Suffix, t: Type) -> (r: Scheme)
    requires
        suffix_closed(e@),
        ty_bound_below(*t, 0),
        e@.len() <= u32::MAX,
    ensures
        *r == suffix_bound(e@, *t),
    decreases e@.len(),
{
    match e.uncons() {
        None => Sc::ty(t),
        Some((TyEntry(a, d), rest)) => {
            proof {
                assert(e@[0] == TyEntry(a, d));
                assert forall|i: int| 0 <= i < rest@.len() implies (#[trigger] rest@[i]).0 is F && (
                rest@[i].1 matches Some(s) ==> ty_bound_below(*s, 0)) by {
                    assert(rest@[i] == e@[i + 1]);
                }
                let ty: &Ty = &*t;
                lemma_suffix_bound_shape(rest@, ty);
                lemma_sc_bound_weaker(
                    &suffix_bound(rest@, *ty),
                    rest@.len() as int,
                    u32::MAX as int,
                );
            }
            let inner = bind_suffix(rest, t);
            let x = match a {
                TyName::F(y) => y,
                TyName::B(y) => y,
            };
            let bound = bind_scheme(x, inner);
            match d {
                None => Sc::for_all(bound),
                Some(s) => Sc::let_(s, bound),
            }
        },
    }
}

} // verus!
