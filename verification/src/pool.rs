use vstd::prelude::*;

use crate::sync::{locked_is_empty, locked_len, locked_pop, locked_push, new_lock};

verus! {

/// The store of a pool: objects are pushed and popped at its end.
pub type Stack<T> = Vec<T>;

/// A pool of objects of type `T`, shared between threads through `&Pool<T>`.
#[verifier::reject_recursive_types(T)]
pub struct Pool<T> {
    objects: parking_lot::Mutex<Stack<T>>,
    /// The objects that `new` computed before handing them to the lock.
    start: Ghost<Seq<T>>,
}

/// An object lent out by a pool; it goes back to that pool when dropped,
/// unless it has been detached.
#[verifier::reject_recursive_types(T)]
pub struct Reusable<'a, T> {
    pool: &'a Pool<T>,
    data: Option<T>,
}

/// `count` objects, each a result of `init`.
fn fill<T, F: Fn() -> T>(count: usize, init: &F) -> (objects: Stack<T>)
    requires
        init.requires(()),
    ensures
        objects.len() == count,
        forall|i: int| 0 <= i < count ==> init.ensures((), #[trigger] objects@[i]),
{
    let mut objects: Stack<T> = Vec::new();
    let mut i: usize = 0;
    while i < count
        invariant
            init.requires(()),
            i <= count,
            objects.len() == i,
            forall|j: int| 0 <= j < i ==> init.ensures((), #[trigger] objects@[j]),
        decreases count - i,
    {
        let object = init();
        objects.push(object);
        i = i + 1;
    }
    objects
}

impl<T> Pool<T> {
    /// The objects that `new` computed, in order, before handing them to the
    /// lock. Nothing ties this record to what the lock holds, then or later.
    pub closed spec fn initial_objects(&self) -> Seq<T> {
        self.start@
    }

    /// A pool that starts with `cap` objects, each made by `init`.
    pub fn new<F: Fn() -> T>(cap: usize, init: F) -> (pool: Pool<T>)
        requires
            init.requires(()),
        ensures
            pool.initial_objects().len() == cap,
            forall|i: int| 0 <= i < cap ==> init.ensures((), #[trigger] pool.initial_objects()[i]),
    {
        let objects = fill(cap, &init);
        let start = Ghost(objects@);
        Pool { objects: new_lock(objects), start }
    }

    /// The number of objects in the pool at the moment of the call.
    pub fn len(&self) -> usize {
        locked_len(&self.objects)
    }

    /// Whether the pool held no object at the moment of the call.
    pub fn is_empty(&self) -> bool {
        locked_is_empty(&self.objects)
    }

    /// Takes the most recently stored object out of the pool, lent out so that it
    /// comes back when dropped; `None` when the pool is empty.
    pub fn try_pull(&self) -> (pulled: Option<Reusable<'_, T>>)
        ensures
            pulled matches Some(r) ==> r.owner() == self && r.held() is Some,
    {
        match locked_pop(&self.objects) {
            Some(data) => Some(Reusable::new(self, data)),
            None => None,
        }
    }

    /// Like `try_pull`, but an empty pool lends out a new object made by
    /// `fallback`, which goes back to this pool when dropped.
    pub fn pull<F: Fn() -> T>(&self, fallback: F) -> (pulled: Reusable<'_, T>)
        requires
            fallback.requires(()),
        ensures
            pulled.owner() == self,
            pulled.held() is Some,
    {
        let pulled = self.try_pull();
        self.lend_or_make(pulled, fallback)
    }

    /// What `pull` lends, given what `try_pull` gave: that object when there was
    /// one, without calling `fallback`; otherwise a new object made by `fallback`,
    /// lent on behalf of this pool.
    fn lend_or_make<'a, F: Fn() -> T>(&'a self, pulled: Option<Reusable<'a, T>>, fallback: F) -> (lent: Reusable<'a, T>)
        requires
            fallback.requires(()),
        ensures
            pulled matches Some(r) ==> lent == r,
            pulled is None ==> lent.owner() == self && lent.held() is Some && fallback.ensures(
                (),
                lent.held()->0,
            ),
    {
        match pulled {
            Some(r) => r,
            None => Reusable::new(self, fallback()),
        }
    }

    /// Gives the pool an object to lend out.
    pub fn attach(&self, t: T)
        opens_invariants none
        no_unwind
    {
        locked_push(&self.objects, t);
    }
}

impl<'a, T> Reusable<'a, T> {
    /// The pool that the object goes back to.
    pub closed spec fn owner(&self) -> &'a Pool<T> {
        self.pool
    }

    /// The object, while it is lent out.
    pub closed spec fn held(&self) -> Option<T> {
        self.data
    }

    /// Lends out `t` on behalf of `pool`: dropping the result gives `t` to `pool`.
    pub fn new(pool: &'a Pool<T>, t: T) -> (r: Self)
        ensures
            r.owner() == pool,
            r.held() == Some(t),
    {
        Reusable { pool, data: Some(t) }
    }

    /// The object.
    pub fn get(&self) -> (t: &T)
        requires
            self.held() is Some,
        ensures
            *t == self.held()->0,
    {
        self.data.as_ref().unwrap()
    }

    /// The object, to change it in place.
    pub fn get_mut(&mut self) -> (t: &mut T)
        requires
            old(self).held() is Some,
        ensures
            *t == old(self).held()->0,
            final(self).held() == Some(*final(t)),
            final(self).owner() == old(self).owner(),
    {
        self.data.as_mut().unwrap()
    }

    /// Takes the object out of the pool's care: it will not go back when dropped.
    pub fn detach(self) -> (r: (&'a Pool<T>, T))
        requires
            self.held() is Some,
        ensures
            r.0 == self.owner(),
            r.1 == self.held()->0,
    {
        let mut lent = self;
        let data = lent.data.take();
        (lent.pool, data.unwrap())
    }
}

impl<'a, T> Drop for Reusable<'a, T> {
    /// Gives the object back to its pool, unless it was detached.
    fn drop(&mut self)
        ensures
            final(self).held() is None,
        opens_invariants none
        no_unwind
    {
        let mut data: Option<T> = None;
        std::mem::swap(&mut data, &mut self.data);
        match data {
            Some(t) => self.pool.attach(t),
            None => {},
        }
    }
}

} // verus!
