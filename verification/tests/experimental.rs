use object_pool::bits::{
    claim_in, count_free, count_ones, fresh_free_words, index_of, lowest_bit, place_of,
    release_mask, scan_cleared, scan_loaded, scan_next, scan_start, word_mask_of, words_for,
    ScanStep,
};
use object_pool::experimental::Pool;
use std::cell::RefCell;
use std::rc::Rc;
use std::sync::Arc;

const N: usize = 500;

struct DropTest {
    drops: Rc<RefCell<Vec<bool>>>,
    index: usize,
}

impl Drop for DropTest {
    fn drop(&mut self) {
        self.drops.borrow_mut()[self.index] = true
    }
}

fn new_drop_pool() -> (Rc<RefCell<Vec<bool>>>, Pool<DropTest>) {
    let drops = Rc::new(RefCell::new(vec![false; N]));
    let p: Pool<DropTest> = Pool::from_vec(
        (0..N)
            .map(|index| DropTest {
                drops: drops.clone(),
                index,
            })
            .collect(),
    );
    (drops, p)
}

#[test]
fn size_check() {
    let p: Pool<()> = Pool::from_vec(std::iter::empty().collect());
    assert_eq!(p.len(), 0);
    assert_eq!(p.capacity(), 0);
    assert_eq!(fresh_free_words(0).len(), 1);
    assert_eq!(fresh_free_words(0)[0], 0);
    assert!(p.pull().is_none());

    let p: Pool<usize> = Pool::from_vec((0..1usize).collect());
    assert_eq!(p.len(), 1);
    assert_eq!(p.capacity(), 1);
    assert_eq!(fresh_free_words(1).len(), 1);
    assert_eq!(fresh_free_words(1)[0], 1);
    assert!(p.pull().is_some());

    let p: Pool<usize> = Pool::from_vec((0..65usize).collect());
    assert_eq!(p.len(), 65);
    assert_eq!(p.capacity(), 65);
    assert_eq!(fresh_free_words(65).len(), 2);
    assert_eq!(fresh_free_words(65)[0], u64::MAX);
    assert_eq!(fresh_free_words(65)[1], 1);
    assert!(p.pull().is_some());

    let p: Pool<usize> = Pool::from_vec((0..500usize).collect());
    assert_eq!(p.len(), 500);
    assert_eq!(p.capacity(), 500);
    assert_eq!(fresh_free_words(500).len(), 8);
    assert!(fresh_free_words(500)[0..7].iter().all(|x| *x == u64::MAX));
    assert_eq!(fresh_free_words(500)[7], u64::MAX >> 12);
    assert!(p.pull().is_some());
}

#[test]
fn full_and_partial_drop() {
    let (drops, p) = new_drop_pool();
    drop(p);
    assert!(drops.borrow().iter().all(|dropped| *dropped));

    let (drops, p) = new_drop_pool();
    for _ in 0..N / 2 {
        std::mem::forget(p.pull().unwrap());
    }
    drop(p);

    assert!(drops.borrow()[..N / 2].iter().all(|dropped| !*dropped));
    assert!(drops.borrow()[N / 2..].iter().all(|dropped| *dropped));
}

#[test]
fn pull_set_return() {
    let p: Pool<usize> = Pool::from_vec((0..100usize).collect());
    assert_eq!(p.len(), 100);
    assert_eq!(p.capacity(), 100);
    assert_eq!(fresh_free_words(100).len(), 2);
    assert_eq!(fresh_free_words(100)[0], u64::MAX);
    assert_eq!(fresh_free_words(100)[1], u64::MAX >> 28);

    let mut objects = Vec::new();
    for _ in 0..p.len() {
        let mut o = p.pull();
        if let Some(ref mut o) = o {
            *o.get_mut() += 1;
        }
        objects.push(o)
    }

    assert_eq!(p.len(), 0);
    assert!(p.pull().is_none());

    drop(objects);

    assert_eq!(p.len(), 100);
    assert_eq!(p.capacity(), 100);
    // objects come out from the lowest index up, so the i-th pull reads slot i
    let mut again = Vec::new();
    for i in 0..100 {
        let o = p.pull().unwrap();
        assert_eq!(*o.get(), i + 1);
        again.push(o);
    }
    assert_eq!(p.capacity(), 100);
}

#[test]
fn objects_are_pulled_from_the_lowest_index() {
    let p: Pool<usize> = Pool::from_vec((0..130usize).collect());
    let mut held = Vec::new();
    for expected in 0..130 {
        let o = p.pull().unwrap();
        assert_eq!(*o.get(), expected);
        held.push(o);
    }
    assert!(p.pull().is_none());
    // giving back object 70 makes it the next one pulled
    let back = held.remove(70);
    drop(back);
    assert_eq!(p.len(), 1);
    assert_eq!(*p.pull().unwrap().get(), 70);
}

#[test]
fn pool_of_whole_words() {
    let p: Pool<usize> = Pool::from_vec((0..128usize).collect());
    assert_eq!(p.len(), 128);
    assert_eq!(fresh_free_words(128), vec![u64::MAX, u64::MAX]);
    assert_eq!(fresh_free_words(64), vec![u64::MAX]);
}

#[test]
fn owned_objects_go_back() {
    let p = Arc::new(Pool::from_vec(vec![10u32, 20]));
    let mut a = p.pull_owned().unwrap();
    let b = p.pull_owned().unwrap();
    assert!(p.pull_owned().is_none());
    assert_eq!(p.len(), 0);
    assert_eq!(*a.get(), 10);
    assert_eq!(*b.get(), 20);
    *a.get_mut() = 11;
    drop(a);
    assert_eq!(p.len(), 1);
    let c = p.pull().unwrap();
    assert_eq!(*c.get(), 11);
    drop(b);
    drop(c);
    assert_eq!(p.len(), 2);
}

#[test]
fn word_helpers() {
    assert_eq!(words_for(0), 1);
    assert_eq!(words_for(1), 1);
    assert_eq!(words_for(64), 1);
    assert_eq!(words_for(65), 2);
    assert_eq!(word_mask_of(100, 0), u64::MAX);
    assert_eq!(word_mask_of(100, 1), (1u64 << 36) - 1);
    assert_eq!(word_mask_of(100, 2), 0);
    assert_eq!(word_mask_of(128, 1), u64::MAX);
    assert_eq!(lowest_bit(0b1011_0000), 4);
    assert_eq!(lowest_bit(1u64 << 63), 63);
    assert_eq!(index_of(3, 5), 197);
    assert_eq!(place_of(197), (3, 5));
    assert_eq!(place_of(63), (0, 63));
}

#[test]
fn one_owned_object() {
    let p = Arc::new(Pool::from_vec((0..1usize).collect()));
    let mut o = p.pull_owned().unwrap();
    assert_eq!(*o.get(), 0);
    assert_eq!(p.len(), 0);
    assert_eq!(Arc::strong_count(&p), 2);
    assert!(p.pull_owned().is_none());
    assert!(p.pull().is_none());
    *o.get_mut() = 7;
    drop(o);
    assert_eq!(p.len(), 1);
    assert_eq!(Arc::strong_count(&p), 1);
    assert_eq!(*p.pull().unwrap().get(), 7);
}

#[test]
fn claim_steps() {
    // bit 4 is the lowest of 0b1011_0000; still set in the word: claimed
    assert_eq!(claim_in(2, 0b1011_0000, 0b1111_0000), Ok(132));
    // taken by another holder meanwhile: try the others still set
    assert_eq!(claim_in(2, 0b1011_0000, 0b1010_0000), Err(0b1010_0000));
    assert_eq!(claim_in(0, 0b1011_0000, 0b0010_0000), Err(0b0010_0000));
}

#[test]
fn counting_free_objects() {
    assert_eq!(count_ones(0), 0);
    assert_eq!(count_ones(u64::MAX), 64);
    assert_eq!(count_ones(0b1011_0000), 3);
    assert_eq!(count_free(&fresh_free_words(100), 100), 100);
    assert_eq!(count_free(&fresh_free_words(0), 0), 0);
    // bits beyond the objects are not counted
    assert_eq!(count_free(&vec![u64::MAX, u64::MAX], 70), 70);
    assert_eq!(count_free(&vec![0, 0b101], 70), 2);
}

#[test]
fn scan_steps() {
    // a free list of 70 objects: two words
    let start = scan_start();
    assert!(matches!(scan_next(70, 2, start), ScanStep::Load(0)));
    // word 0 read empty: go on to word 1
    let s = scan_loaded(70, start, 0);
    assert_eq!((s.next, s.bits), (1, 0));
    assert!(matches!(scan_next(70, 2, s), ScanStep::Load(1)));
    // word 1 read with bits 2, 5 and 40 set: bit 40 stands for no object
    let s = scan_loaded(70, s, (1 << 2) | (1 << 5) | (1 << 40));
    assert_eq!(s.bits, (1 << 2) | (1 << 5));
    match scan_next(70, 2, s) {
        ScanStep::Clear(w, keep) => {
            assert_eq!(w, 1);
            assert_eq!(keep, !(1u64 << 2));
        }
        _ => panic!("expected a clear"),
    }
    // bit 2 had been taken meanwhile: bit 5 is tried next
    let s = match scan_cleared(70, s, 1 << 5) {
        Err(after) => after,
        Ok(_) => panic!("bit 2 was taken"),
    };
    assert_eq!(s.bits, 1 << 5);
    assert_eq!(scan_cleared(70, s, 1 << 5).ok(), Some(69));
    // nothing left after the last word
    let s = scan_loaded(70, scan_loaded(70, start, 0), 0);
    assert!(matches!(scan_next(70, 2, s), ScanStep::Done));
}

#[test]
fn release_masks() {
    assert_eq!(release_mask(0), (0, 1));
    assert_eq!(release_mask(69), (1, 1 << 5));
    assert_eq!(release_mask(63), (0, 1 << 63));
}
