use tc::lazy::{Closure, ClosureIterator, LazyVal};

#[test]
fn closure_is_forced_once() {
    let mut c = Closure::new(|| 6 * 7);
    assert!(!c.ready());
    assert!(c.try_get().is_none());
    assert_eq!(*c.get(), 42);
    assert!(c.ready());
    assert_eq!(c.try_get(), Some(&42));
    c.seq();
    assert_eq!(c.consume(), 42);
}

#[test]
fn closure_consume_runs_the_computation() {
    let c = Closure::new(|| String::from("made"));
    assert_eq!(c.consume(), "made");
}

#[test]
fn closure_try_consume() {
    let c = Closure::new(|| 1u8);
    let back = match c.try_consume() {
        Ok(_) => panic!("not forced yet"),
        Err(c) => c,
    };
    assert!(!back.ready());
    let mut forced = back;
    forced.seq();
    assert!(matches!(forced.try_consume(), Ok(1)));
}

#[test]
fn closure_from_a_value_is_ready() {
    let c: Closure<u32, fn() -> u32> = Closure::from(5);
    assert!(c.ready());
    assert_eq!(c.try_get(), Some(&5));
    assert_eq!(c.consume(), 5);
}

#[test]
fn closure_iterator_gives_one_value() {
    let mut it = Closure::new(|| 3u32).into_iter();
    assert_eq!(it.len(), 1);
    assert!(!it.is_empty());
    assert_eq!(it.size_hint(), (1, Some(1)));
    assert_eq!(it.next(), Some(3));
    assert_eq!(it.len(), 0);
    assert!(it.is_empty());
    assert_eq!(it.size_hint(), (0, Some(0)));
    assert_eq!(it.next(), None);
    assert_eq!(it.count(), 0);
    assert_eq!(Closure::new(|| 4u32).into_iter().count(), 1);
    assert_eq!(Closure::new(|| 4u32).into_iter().last(), Some(4));
    let none: ClosureIterator<u32, fn() -> u32> = ClosureIterator(None);
    assert_eq!(none.last(), None);
}

#[test]
fn lazy_val_is_computed_at_first_use() {
    let mut l = LazyVal::new(|| vec![1, 2, 3]);
    assert!(!l.ready());
    assert!(l.try_get().is_none());
    assert_eq!(l.get().len(), 3);
    assert!(l.ready());
    l.seq();
    assert_eq!(l.try_get(), Some(&vec![1, 2, 3]));
    assert_eq!(l.consume(), vec![1, 2, 3]);
}

#[test]
fn lazy_val_conversions() {
    let l: LazyVal<u32, fn() -> u32> = LazyVal::from(9);
    assert!(l.ready());
    assert!(matches!(l.try_consume(), Ok(9)));
    let l = LazyVal::from_closure(Closure::new(|| 2u32));
    assert!(!l.ready());
    let l = match l.try_consume() {
        Ok(_) => panic!("not forced yet"),
        Err(l) => l,
    };
    let c = l.into_closure();
    assert_eq!(c.consume(), 2);
    assert_eq!(LazyVal::new(|| 8u32).into_iter().next(), Some(8));
}
