//! A pool of a fixed set of objects whose free list is a row of atomic words,
//! one bit per object: pulling an object claims its bit, giving it back sets the
//! bit again. Object `i` rests in slot `i`, which only the claimant of bit `i`
//! touches, so the slot's lock is never contended.

use std::sync::atomic::AtomicU64;
use std::sync::atomic::Ordering;
use std::sync::Arc;

use vstd::prelude::*;

use crate::bits::{
    count_free, fresh_free_words, fresh_words, free_set, lemma_fresh_words_free_all, release_mask,
    scan_cleared, scan_loaded, scan_next, scan_start, scan_wf, word_count, ScanStep,
};
use crate::sync::{locked_replace_at, locked_take, new_lock, set_bits_at, share};

verus! {

/// The free list: bit `i % 64` of word `i / 64` is set while object `i` is in the pool.
struct FreeList {
    ints: Vec<AtomicU64>,
    entries: usize,
    /// The words that `new` computed before making the atomics from them.
    start: Ghost<Seq<u64>>,
}

fn load_word(word: &AtomicU64) -> u64 {
    word.load(Ordering::Relaxed)
}

fn clear_bits(word: &AtomicU64, keep: u64) -> u64 {
    word.fetch_and(keep, Ordering::Acquire)
}

/// The value of an option known to hold one, to change it in place.
fn inside<T>(option: &mut Option<T>) -> (t: &mut T)
    requires
        *old(option) is Some,
    ensures
        *t == (*old(option))->0,
        *final(option) == Some(*final(t)),
    no_unwind
{
    match option {
        Some(t) => t,
        None => vstd::pervasive::unreached(),
    }
}

impl FreeList {
    #[verifier::type_invariant]
    spec fn well_sized(self) -> bool {
        self.ints.len() == word_count(self.entries as nat)
    }

    /// A free list of `entries` objects, all of them free.
    fn new(entries: usize) -> (list: FreeList)
        ensures
            list.entries == entries,
            list.start@ == fresh_words(entries as nat),
    {
        let words = fresh_free_words(entries);
        let mut ints: Vec<AtomicU64> = Vec::new();
        let mut i: usize = 0;
        while i < words.len()
            invariant
                i <= words.len(),
                ints.len() == i,
                words@.len() == word_count(entries as nat),
            decreases words.len() - i,
        {
            ints.push(AtomicU64::new(words[i]));
            i = i + 1;
        }
        FreeList { ints, entries, start: Ghost(words@) }
    }

    /// Claims a free object and returns its index. The scan reads the words in
    /// turn, and in each tries the free bits it read from the lowest up, each by
    /// clearing it (`scan_next`); a bit that was still set when it was cleared is
    /// claimed (`scan_cleared`). `None` when the scan has read every word and holds
    /// no free bit.
    fn first_free(&self) -> (found: Option<usize>)
        ensures
            found matches Some(i) ==> i < self.entries,
    {
        proof {
            use_type_invariant(self);
        }
        let mut scan = scan_start();
        loop
            invariant
                self.ints.len() == word_count(self.entries as nat),
                scan_wf(scan, self.entries as nat),
            decreases self.ints.len() - scan.next, scan.bits,
        {
            match scan_next(self.entries, self.ints.len(), scan) {
                ScanStep::Load(w) => {
                    let word: u64 = load_word(&self.ints[w]);
                    scan = scan_loaded(self.entries, scan, word);
                },
                ScanStep::Clear(w, keep) => {
                    let prev: u64 = clear_bits(&self.ints[w], keep);
                    match scan_cleared(self.entries, scan, prev) {
                        Ok(index) => {
                            return Some(index);
                        },
                        Err(after) => {
                            scan = after;
                        },
                    }
                },
                ScanStep::Done => {
                    return None;
                },
            }
        }
    }

    /// Puts object `index` back in the free list.
    fn free(&self, index: usize)
        requires
            index < self.entries,
        opens_invariants none
        no_unwind
    {
        proof {
            use_type_invariant(self);
        }
        let (w, mask) = release_mask(index);
        set_bits_at(&self.ints, w, mask);
    }

    /// The number of free objects in the words as they are read, one after another.
    fn len(&self) -> (n: usize)
        ensures
            n <= self.entries,
            exists|seen: Seq<u64>|
                seen.len() == word_count(self.entries as nat) && n == free_set(
                    seen,
                    self.entries as nat,
                ).len(),
    {
        proof {
            use_type_invariant(self);
        }
        let mut seen: Vec<u64> = Vec::new();
        let mut i: usize = 0;
        while i < self.ints.len()
            invariant
                i <= self.ints.len(),
                seen.len() == i,
            decreases self.ints.len() - i,
        {
            seen.push(load_word(&self.ints[i]));
            i = i + 1;
        }
        count_free(&seen, self.entries)
    }
}

/// A pool of a fixed set of objects, shared between threads through `&Pool<T>`
/// or `Arc<Pool<T>>`. Object `i` rests in slot `i` while it is in the pool.
#[verifier::reject_recursive_types(T)]
pub struct Pool<T> {
    objects: Vec<parking_lot::Mutex<Option<T>>>,
    freelist: FreeList,
    /// The objects that `from_vec` was given, object `i` for slot `i`.
    start: Ghost<Seq<T>>,
}

/// An object lent out by a borrowed pool; it goes back when dropped.
#[verifier::reject_recursive_types(T)]
pub struct ObjectRef<'a, T> {
    pool: &'a Pool<T>,
    value: Option<T>,
    index: usize,
}

/// An object lent out by a pool held in an `Arc`; it goes back when dropped.
#[verifier::reject_recursive_types(T)]
pub struct Object<T> {
    pool: Arc<Pool<T>>,
    value: Option<T>,
    index: usize,
}

impl<T> Pool<T> {
    #[verifier::type_invariant]
    spec fn one_bit_per_object(self) -> bool {
        self.objects.len() == self.freelist.entries
    }

    /// The number of objects the pool was made with.
    pub closed spec fn slots(&self) -> nat {
        self.objects@.len()
    }

    /// The objects that `from_vec` was given, object `i` for slot `i`. Nothing ties
    /// this record to what the slots hold, then or later.
    pub closed spec fn initial_objects(&self) -> Seq<T> {
        self.start@
    }

    /// The indices marked free by the words that the free list's constructor
    /// computed. Nothing ties this record to what the atomic words hold, then or
    /// later.
    pub closed spec fn free_at_start(&self) -> Set<nat> {
        free_set(self.freelist.start@, self.freelist.entries as nat)
    }

    /// A pool of the given objects, all of them free; object `i` is `objects[i]`.
    pub fn from_vec(objects: Vec<T>) -> (pool: Pool<T>)
        ensures
            pool.slots() == objects.len(),
            pool.initial_objects() == objects@,
            pool.free_at_start() == Set::new(|i: nat| i < objects.len()),
    {
        let count: usize = objects.len();
        let ghost initial = objects@;
        let mut slots: Vec<parking_lot::Mutex<Option<T>>> = Vec::new();
        for object in it: objects.into_iter()
            invariant
                slots.len() == it.index(),
                it.seq().len() == count,
        {
            slots.push(new_lock(Some(object)));
        }
        let freelist = FreeList::new(count);
        proof {
            lemma_fresh_words_free_all(count as nat);
        }
        Pool { objects: slots, freelist, start: Ghost(initial) }
    }

    /// The number of objects the pool was made with.
    pub fn capacity(&self) -> (n: usize)
        ensures
            n == self.slots(),
    {
        self.objects.len()
    }

    /// The number of objects in the pool, counted a word of the free list at a time.
    pub fn len(&self) -> (n: usize)
        ensures
            n <= self.slots(),
            exists|seen: Seq<u64>|
                seen.len() == word_count(self.slots()) && n == free_set(seen, self.slots()).len(),
    {
        proof {
            use_type_invariant(self);
        }
        self.freelist.len()
    }

    /// Takes a free object out of the shared pool, lent out until the result is
    /// dropped; `None` when no object is free.
    pub fn pull_owned(self: &Arc<Self>) -> (pulled: Option<Object<T>>)
        ensures
            pulled matches Some(r) ==> r.owner() == **self && r.slot() < self.slots() && r.held() is Some,
    {
        let shared: &Pool<T> = self;
        proof {
            use_type_invariant(shared);
        }
        match shared.freelist.first_free() {
            Some(index) => match locked_take(&shared.objects[index]) {
                Some(value) => Some(Object { pool: share(self), value: Some(value), index }),
                None => {
                    // A slot whose bit was set holds its object; were it empty,
                    // its bit goes back and nothing is lent out.
                    shared.freelist.free(index);
                    None
                },
            },
            None => None,
        }
    }

    /// Takes a free object, lent out until the result is dropped; `None` when no
    /// object is free.
    pub fn pull(&self) -> (pulled: Option<ObjectRef<'_, T>>)
        ensures
            pulled matches Some(r) ==> r.owner() == self && r.slot() < self.slots() && r.held() is Some,
    {
        proof {
            use_type_invariant(self);
        }
        match self.freelist.first_free() {
            Some(index) => match locked_take(&self.objects[index]) {
                Some(value) => Some(ObjectRef { pool: self, value: Some(value), index }),
                None => {
                    // A slot whose bit was set holds its object; were it empty,
                    // its bit goes back and nothing is lent out.
                    self.freelist.free(index);
                    None
                },
            },
            None => None,
        }
    }
}

impl<'a, T> ObjectRef<'a, T> {
    #[verifier::type_invariant]
    spec fn within_pool(self) -> bool {
        self.index < self.pool.freelist.entries
    }

    /// The pool that the object goes back to.
    pub closed spec fn owner(&self) -> &'a Pool<T> {
        self.pool
    }

    /// The index of the object in its pool.
    pub closed spec fn slot(&self) -> nat {
        self.index as nat
    }

    /// The object, while it is lent out.
    pub closed spec fn held(&self) -> Option<T> {
        self.value
    }

    /// The object.
    pub fn get(&self) -> (t: &T)
        requires
            self.held() is Some,
        ensures
            *t == self.held()->0,
    {
        self.value.as_ref().unwrap()
    }

    /// The object, to change it in place.
    pub fn get_mut(&mut self) -> (t: &mut T)
        requires
            old(self).held() is Some,
        ensures
            *t == old(self).held()->0,
            final(self).held() == Some(*final(t)),
            final(self).owner() == old(self).owner(),
            final(self).slot() == old(self).slot(),
        no_unwind
    {
        proof {
            use_type_invariant(&*self);
        }
        inside(&mut self.value)
    }
}

impl<'a, T> Drop for ObjectRef<'a, T> {
    /// Puts the object back in its slot and marks it free.
    fn drop(&mut self)
        ensures
            final(self).held() is None,
        opens_invariants none
        no_unwind
    {
        proof {
            use_type_invariant(&*self);
            use_type_invariant(self.pool);
        }
        let mut value: Option<T> = None;
        std::mem::swap(&mut value, &mut self.value);
        match value {
            Some(v) => {
                locked_replace_at(&self.pool.objects, self.index, v);
                self.pool.freelist.free(self.index);
            },
            None => {},
        }
    }
}

impl<T> Object<T> {
    #[verifier::type_invariant]
    spec fn within_pool(self) -> bool {
        self.index < self.pool.freelist.entries
    }

    /// The pool that the object goes back to.
    pub closed spec fn owner(&self) -> Pool<T> {
        *self.pool
    }

    /// The index of the object in its pool.
    pub closed spec fn slot(&self) -> nat {
        self.index as nat
    }

    /// The object, while it is lent out.
    pub closed spec fn held(&self) -> Option<T> {
        self.value
    }

    /// The object.
    pub fn get(&self) -> (t: &T)
        requires
            self.held() is Some,
        ensures
            *t == self.held()->0,
    {
        self.value.as_ref().unwrap()
    }

    /// The object, to change it in place.
    pub fn get_mut(&mut self) -> (t: &mut T)
        requires
            old(self).held() is Some,
        ensures
            *t == old(self).held()->0,
            final(self).held() == Some(*final(t)),
            final(self).owner() == old(self).owner(),
            final(self).slot() == old(self).slot(),
        no_unwind
    {
        proof {
            use_type_invariant(&*self);
        }
        inside(&mut self.value)
    }
}

impl<T> Drop for Object<T> {
    /// Puts the object back in its slot and marks it free.
    fn drop(&mut self)
        ensures
            final(self).held() is None,
        opens_invariants none
        no_unwind
    {
        let pool: &Pool<T> = &self.pool;
        proof {
            use_type_invariant(&*self);
            use_type_invariant(pool);
        }
        let mut value: Option<T> = None;
        std::mem::swap(&mut value, &mut self.value);
        match value {
            Some(v) => {
                locked_replace_at(&pool.objects, self.index, v);
                pool.freelist.free(self.index);
            },
            None => {},
        }
    }
}

} // verus!
