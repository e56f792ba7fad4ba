use object_pool::{Pool, Reusable};
use std::mem::drop;

#[test]
fn detach() {
    let pool = Pool::new(1, || Vec::new());
    let (pool, mut object) = pool.try_pull().unwrap().detach();
    object.push(1);
    Reusable::new(&pool, object);
    assert_eq!(pool.try_pull().unwrap().get()[0], 1);
}

#[test]
fn detach_then_attach() {
    let pool = Pool::new(1, || Vec::new());
    let (pool, mut object) = pool.try_pull().unwrap().detach();
    object.push(1);
    pool.attach(object);
    assert_eq!(pool.try_pull().unwrap().get()[0], 1);
}

#[test]
fn pull() {
    let pool = Pool::<Vec<u8>>::new(1, || Vec::new());

    let object1 = pool.try_pull();
    let object2 = pool.try_pull();
    let object3 = pool.pull(|| Vec::new());

    assert!(object1.is_some());
    assert!(object2.is_none());
    drop(object1);
    drop(object2);
    drop(object3);
    assert_eq!(pool.len(), 2);
}

#[test]
fn e2e() {
    let pool = Pool::new(10, || Vec::new());
    let mut objects = Vec::new();

    for i in 0..10 {
        let mut object = pool.try_pull().unwrap();
        object.get_mut().push(i);
        objects.push(object);
    }

    assert!(pool.try_pull().is_none());
    drop(objects);
    assert!(pool.try_pull().is_some());

    #[allow(clippy::reversed_empty_ranges)]
    for i in 10..0 {
        let mut object = pool.try_pull().unwrap().detach().1;
        assert_eq!(object.pop(), Some(i));
    }
}

#[test]
fn new_pool_holds_cap_objects() {
    let pool = Pool::new(3, || 7u32);
    assert_eq!(pool.len(), 3);
    assert!(!pool.is_empty());
    let a = pool.try_pull().unwrap();
    let b = pool.try_pull().unwrap();
    let c = pool.try_pull().unwrap();
    assert_eq!(*a.get() + *b.get() + *c.get(), 21);
    assert!(pool.is_empty());
    assert_eq!(pool.len(), 0);
    assert!(pool.try_pull().is_none());
}

#[test]
fn empty_pool() {
    let pool: Pool<u8> = Pool::new(0, || 0);
    assert!(pool.is_empty());
    assert_eq!(pool.len(), 0);
    assert!(pool.try_pull().is_none());
}

#[test]
fn dropped_object_goes_back() {
    let pool = Pool::new(2, || 0u64);
    {
        let mut object = pool.try_pull().unwrap();
        *object.get_mut() = 42;
        assert_eq!(pool.len(), 1);
    }
    assert_eq!(pool.len(), 2);
    // the object comes back as it was left: objects are not reset
    let object = pool.try_pull().unwrap();
    assert_eq!(*object.get(), 42);
}

#[test]
fn detached_object_stays_out() {
    let pool = Pool::new(1, || String::from("a"));
    let (owner, object) = pool.try_pull().unwrap().detach();
    assert_eq!(object, "a");
    assert_eq!(owner.len(), 0);
    assert!(pool.is_empty());
}

#[test]
fn pull_falls_back_only_when_empty() {
    let pool = Pool::new(1, || 1u32);
    let first = pool.pull(|| 2);
    assert_eq!(*first.get(), 1);
    let second = pool.pull(|| 2);
    assert_eq!(*second.get(), 2);
    drop(first);
    drop(second);
    assert_eq!(pool.len(), 2);
}

#[test]
fn last_attached_is_pulled_first() {
    let pool = Pool::new(0, || 0u32);
    pool.attach(1);
    pool.attach(2);
    assert_eq!(pool.len(), 2);
    assert_eq!(*pool.try_pull().unwrap().get(), 2);
}

#[test]
fn reusable_new_lends_for_the_pool() {
    let pool = Pool::new(0, || 0u32);
    let lent = Reusable::new(&pool, 5);
    assert_eq!(*lent.get(), 5);
    assert!(pool.is_empty());
    drop(lent);
    assert_eq!(pool.len(), 1);
    assert_eq!(*pool.try_pull().unwrap().get(), 5);
}
