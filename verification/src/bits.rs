//! The word arithmetic of a free list: one bit per object, 64 objects to a word,
//! a set bit meaning that the object is free.

use vstd::prelude::*;
use vstd::relations::injective_on;

verus! {

/// Objects tracked by one word.
pub const WORD_BITS: usize = 64;

/// Every bit of a word set.
pub open spec fn all_ones() -> u64 {
    0xffff_ffff_ffff_ffffu64
}

/// Whether bit `b` of `word` is set.
pub open spec fn has_bit(word: u64, b: u64) -> bool {
    b < 64 && (word >> b) & 1u64 == 1u64
}

/// The number of words a free list of `entries` objects is made of: one per 64
/// objects, rounded up, and never fewer than one.
pub open spec fn word_count(entries: nat) -> nat {
    if entries == 0 {
        1
    } else {
        ((entries + 63) / 64) as nat
    }
}

/// The bits of word `w` that stand for an object, that is an index below `entries`.
pub open spec fn word_mask(entries: nat, w: nat) -> u64 {
    if entries >= w * 64 + 64 {
        all_ones()
    } else if entries <= w * 64 {
        0u64
    } else {
        all_ones() >> ((64 - (entries - w * 64)) as u64)
    }
}

/// The words of a free list of `entries` objects in which every object is free.
pub open spec fn fresh_words(entries: nat) -> Seq<u64> {
    Seq::new(word_count(entries), |w: int| word_mask(entries, w as nat))
}

/// The indices that `words` mark free, among the first `entries`.
pub open spec fn free_set(words: Seq<u64>, entries: nat) -> Set<nat> {
    Set::new(
        |i: nat|
            i < entries && i / 64 < words.len() && has_bit(words[(i / 64) as int], (i % 64) as u64),
    )
}

proof fn lemma_low_mask_bits(n: u64, s: u64, b: u64)
    requires
        0 < n < 64,
        s + n == 64,
        b < 64,
    ensures
        ((0xffff_ffff_ffff_ffffu64 >> s) >> b) & 1u64 == 1u64 <==> b < n,
{
    assert(((0xffff_ffff_ffff_ffffu64 >> s) >> b) & 1u64 == 1u64 <==> b < n) by (bit_vector)
        requires
            0 < n < 64,
            s + n == 64,
            b < 64,
    ;
}

/// The mask of word `w` has bit `b` set exactly when index `w * 64 + b` is below `entries`.
pub proof fn lemma_word_mask_bits(entries: nat, w: nat, b: u64)
    requires
        b < 64,
    ensures
        has_bit(word_mask(entries, w), b) <==> w * 64 + b < entries,
{
    let m = word_mask(entries, w);
    if entries >= w * 64 + 64 {
        assert((0xffff_ffff_ffff_ffffu64 >> b) & 1u64 == 1u64) by (bit_vector)
            requires
                b < 64,
        ;
    } else if entries <= w * 64 {
        assert((0u64 >> b) & 1u64 == 0u64) by (bit_vector);
    } else {
        let n = (entries - w * 64) as u64;
        lemma_low_mask_bits(n, (64 - n) as u64, b);
    }
}

/// `word_count(entries)` for an executable count of objects.
pub fn words_for(entries: usize) -> (n: usize)
    ensures
        n == word_count(entries as nat),
{
    let full: usize = entries / WORD_BITS;
    if entries % WORD_BITS != 0 {
        full + 1
    } else if full == 0 {
        1
    } else {
        full
    }
}

/// The words of a free list of `entries` objects in which every object is free:
/// a full word for each whole 64 objects, the low bits of one more word for the
/// rest, and a single empty word when there is no object at all.
pub fn fresh_free_words(entries: usize) -> (words: Vec<u64>)
    ensures
        words@ == fresh_words(entries as nat),
{
    let count: usize = entries / WORD_BITS + if entries % WORD_BITS != 0 { 1 } else { 0 };
    let mut words: Vec<u64> = Vec::new();
    let mut i: usize = 0;
    while i < count
        invariant
            i <= count,
            count == entries / 64 + if entries % 64 != 0 { 1int } else { 0int },
            words@ == Seq::new(i as nat, |w: int| 0xffff_ffff_ffff_ffffu64),
        decreases count - i,
    {
        words.push(0xffff_ffff_ffff_ffffu64);
        i = i + 1;
    }
    let in_last_word: usize = entries % WORD_BITS;
    if words.len() == 0 {
        words.push(0u64);
    } else if in_last_word != 0 {
        let last: usize = words.len() - 1;
        words.set(last, 0xffff_ffff_ffff_ffffu64 >> (64 - in_last_word) as u64);
    }
    proof {
        assert forall|w: int| 0 <= w < words@.len() implies words@[w] == word_mask(
            entries as nat,
            w as nat,
        ) by {
            if entries == 0 {
            } else if entries % 64 != 0 && w == words@.len() - 1 {
                assert(w == entries / 64);
                assert(entries - w * 64 == entries % 64);
            } else {
                assert(w < entries / 64);
                assert(entries >= w * 64 + 64);
            }
        }
        assert(words@ =~= fresh_words(entries as nat));
    }
    words
}

/// The index of the object that bit `b` of word `w` stands for.
pub open spec fn index_at(w: nat, b: u64) -> nat {
    w * 64 + b as nat
}

/// `bits` with bit `b` cleared: the object it stands for is taken.
pub open spec fn cleared(bits: u64, b: u64) -> u64 {
    bits & !(1u64 << b)
}

/// `bits` with bit `b` set: the object it stands for is free again.
pub open spec fn marked(bits: u64, b: u64) -> u64 {
    bits | (1u64 << b)
}

/// Clearing bit `b` changes that bit alone.
pub proof fn lemma_cleared_bits(bits: u64, b: u64, j: u64)
    requires
        b < 64,
        j < 64,
    ensures
        has_bit(cleared(bits, b), j) <==> has_bit(bits, j) && j != b,
{
    assert(((bits & !(1u64 << b)) >> j) & 1u64 == 1u64 <==> (bits >> j) & 1u64 == 1u64 && j
        != b) by (bit_vector)
        requires
            b < 64,
            j < 64,
    ;
}

/// Setting bit `b` changes that bit alone.
pub proof fn lemma_marked_bits(bits: u64, b: u64, j: u64)
    requires
        b < 64,
        j < 64,
    ensures
        has_bit(marked(bits, b), j) <==> has_bit(bits, j) || j == b,
{
    assert(((bits | (1u64 << b)) >> j) & 1u64 == 1u64 <==> (bits >> j) & 1u64 == 1u64 || j == b)
        by (bit_vector)
        requires
            b < 64,
            j < 64,
    ;
}

/// `word_mask(entries, w)` for executable values.
pub fn word_mask_of(entries: usize, w: usize) -> (mask: u64)
    ensures
        mask == word_mask(entries as nat, w as nat),
{
    let whole: usize = entries / WORD_BITS;
    if whole > w {
        0xffff_ffff_ffff_ffffu64
    } else if whole < w {
        0u64
    } else {
        let rest: usize = entries % WORD_BITS;
        if rest == 0 {
            0u64
        } else {
            0xffff_ffff_ffff_ffffu64 >> (64 - rest) as u64
        }
    }
}

/// The index of the object that bit `b` of word `w` stands for.
pub fn index_of(w: usize, b: u64) -> (i: usize)
    requires
        b < 64,
        index_at(w as nat, b) <= usize::MAX,
    ensures
        i == index_at(w as nat, b),
{
    w * WORD_BITS + b as usize
}

/// The word and the bit that stand for object `i`.
pub fn place_of(i: usize) -> (place: (usize, u64))
    ensures
        place.1 < 64,
        place.0 == i / 64,
        index_at(place.0 as nat, place.1) == i,
    opens_invariants none
    no_unwind
{
    (i / WORD_BITS, (i % WORD_BITS) as u64)
}

/// The word of object `i` and the mask that sets its bit in that word, the
/// mask handed to the atomic word when the object is given back.
pub fn release_mask(i: usize) -> (r: (usize, u64))
    ensures
        r.0 == i / 64,
        index_at(r.0 as nat, (i % 64) as u64) == i,
        r.1 == 1u64 << ((i % 64) as u64),
        forall|x: u64| #[trigger] (x | r.1) == marked(x, (i % 64) as u64),
    opens_invariants none
    no_unwind
{
    let (w, b) = place_of(i);
    (w, 1u64 << b)
}

/// The lowest set bit of `bits` (64 when none is set).
pub open spec fn least_bit(bits: u64) -> u64 {
    vstd::std_specs::bits::u64_trailing_zeros(bits) as u64
}

/// The lowest set bit of a word that has one: the free object with the
/// smallest index that the word tracks.
pub fn lowest_bit(bits: u64) -> (b: u64)
    requires
        bits != 0,
    ensures
        b == least_bit(bits),
        has_bit(bits, b),
        forall|j: u64| j < b ==> !has_bit(bits, j),
{
    proof {
        vstd::std_specs::bits::axiom_u64_trailing_zeros(bits);
    }
    let b: u32 = bits.trailing_zeros();
    b as u64
}

/// The number of set bits of `word`.
pub open spec fn ones(word: u64) -> nat
    decreases word,
{
    if word == 0 {
        0
    } else {
        (word % 2) as nat + ones(word / 2)
    }
}

/// The number of set bits of `word`, counted a bit at a time.
pub fn count_ones(word: u64) -> (n: u32)
    ensures
        n == ones(word),
{
    proof {
        lemma_ones_masked(word, 0xffff_ffff_ffff_ffffu64);
        lemma_ones_low(0);
        assert(0xffff_ffff_ffff_ffffu64 >> 0u64 == 0xffff_ffff_ffff_ffffu64) by (bit_vector);
        assert(word & 0xffff_ffff_ffff_ffffu64 == word) by (bit_vector);
    }
    let mut rest: u64 = word;
    let mut n: u32 = 0;
    while rest != 0
        invariant
            n + ones(rest) == ones(word),
            ones(word) <= 64,
        decreases rest,
    {
        n = n + (rest % 2) as u32;
        rest = rest / 2;
    }
    n
}

/// Masking a word keeps no more set bits than the mask has.
pub proof fn lemma_ones_masked(a: u64, m: u64)
    ensures
        ones(a & m) <= ones(m),
    decreases m,
{
    if m == 0 {
        assert(a & 0u64 == 0u64) by (bit_vector);
    } else {
        assert((a & m) / 2 == (a / 2) & (m / 2)) by (bit_vector);
        assert((a & m) % 2 <= m % 2) by (bit_vector);
        lemma_ones_masked(a / 2, m / 2);
    }
}

/// A word whose `64 - s` low bits are set has `64 - s` set bits.
proof fn lemma_ones_low(s: u64)
    requires
        s < 64,
    ensures
        ones(0xffff_ffff_ffff_ffffu64 >> s) == 64 - s,
    decreases 64 - s,
{
    let m = 0xffff_ffff_ffff_ffffu64 >> s;
    assert(m != 0 && m % 2 == 1) by (bit_vector)
        requires
            s < 64,
            m == 0xffff_ffff_ffff_ffffu64 >> s,
    ;
    if s == 63 {
        assert(m / 2 == 0) by (bit_vector)
            requires
                m == 0xffff_ffff_ffff_ffffu64 >> 63u64,
        ;
        assert(ones(m / 2) == 0);
    } else {
        let t = (s + 1) as u64;
        assert(m / 2 == 0xffff_ffff_ffff_ffffu64 >> t) by (bit_vector)
            requires
                s < 63,
                t == s + 1,
                m == 0xffff_ffff_ffff_ffffu64 >> s,
        ;
        lemma_ones_low(t);
    }
}

/// The objects that word `w` stands for, out of `entries`.
pub open spec fn objects_in_word(entries: nat, w: nat) -> nat {
    if entries >= w * 64 + 64 {
        64
    } else if entries <= w * 64 {
        0
    } else {
        (entries - w * 64) as nat
    }
}

/// The mask of a word has one set bit per object that the word stands for.
pub proof fn lemma_ones_word_mask(entries: nat, w: nat)
    ensures
        ones(word_mask(entries, w)) == objects_in_word(entries, w),
{
    if entries >= w * 64 + 64 {
        lemma_ones_low(0);
        assert(0xffff_ffff_ffff_ffffu64 >> 0u64 == 0xffff_ffff_ffff_ffffu64) by (bit_vector);
    } else if entries <= w * 64 {
    } else {
        lemma_ones_low((64 - (entries - w * 64)) as u64);
    }
}

/// The free objects that `words` count, a word at a time, among the first `entries`.
pub open spec fn free_count(words: Seq<u64>, entries: nat) -> nat
    decreases words.len(),
{
    if words.len() == 0 {
        0
    } else {
        free_count(words.drop_last(), entries) + ones(
            words.last() & word_mask(entries, (words.len() - 1) as nat),
        )
    }
}

/// The objects that the first `n` words stand for.
pub open spec fn objects_in_words(entries: nat, n: nat) -> nat {
    if entries < n * 64 {
        entries
    } else {
        n * 64
    }
}

/// Whatever the words hold, they count no more free objects than the words stand for.
pub proof fn lemma_free_count_bound(words: Seq<u64>, entries: nat)
    ensures
        free_count(words, entries) <= objects_in_words(entries, words.len()),
    decreases words.len(),
{
    if words.len() > 0 {
        let n = (words.len() - 1) as nat;
        lemma_free_count_bound(words.drop_last(), entries);
        lemma_ones_masked(words.last(), word_mask(entries, n));
        lemma_ones_word_mask(entries, n);
    }
}

proof fn lemma_fresh_count(entries: nat, n: nat)
    requires
        n <= word_count(entries),
    ensures
        free_count(fresh_words(entries).take(n as int), entries) == objects_in_words(entries, n),
    decreases n,
{
    if n > 0 {
        let k = (n - 1) as nat;
        let s = fresh_words(entries).take(n as int);
        assert(s.drop_last() =~= fresh_words(entries).take(k as int));
        lemma_fresh_count(entries, k);
        let m = word_mask(entries, k);
        assert(m & m == m) by (bit_vector);
        lemma_ones_word_mask(entries, k);
    }
}

/// A free list made for `entries` objects marks every one of them free and no
/// other index, and counts `entries` free objects.
pub proof fn lemma_fresh_words_free_all(entries: nat)
    ensures
        free_set(fresh_words(entries), entries) == Set::new(|i: nat| i < entries),
        free_count(fresh_words(entries), entries) == entries,
{
    let words = fresh_words(entries);
    assert forall|i: nat| i < entries implies #[trigger] free_set(words, entries).contains(i) by {
        let w = i / 64;
        let b = (i % 64) as u64;
        lemma_word_mask_bits(entries, w, b);
    }
    assert(free_set(words, entries) =~= Set::new(|i: nat| i < entries));
    let n = word_count(entries);
    lemma_fresh_count(entries, n);
    assert(words.take(n as int) =~= words);
    assert(entries <= n * 64) by (nonlinear_arith)
        requires
            n == (if entries == 0 { 1 } else { ((entries + 63) / 64) as nat }),
    ;
}

/// Clearing the bit of index `w * 64 + b` takes exactly that index out of the free set.
pub proof fn lemma_claim_takes_one(words: Seq<u64>, entries: nat, w: nat, b: u64)
    requires
        w < words.len(),
        b < 64,
    ensures
        free_set(words.update(w as int, cleared(words[w as int], b)), entries) == free_set(
            words,
            entries,
        ).remove(index_at(w, b)),
{
    let after = words.update(w as int, cleared(words[w as int], b));
    assert forall|i: nat| #[trigger]
        free_set(after, entries).contains(i) <==> free_set(words, entries).remove(
            index_at(w, b),
        ).contains(i) by {
        if i / 64 == w {
            lemma_cleared_bits(words[w as int], b, (i % 64) as u64);
        }
    }
    assert(free_set(after, entries) =~= free_set(words, entries).remove(index_at(w, b)));
}

/// Setting the bit of index `w * 64 + b`, an index below `entries`, puts exactly
/// that index into the free set.
pub proof fn lemma_release_adds_one(words: Seq<u64>, entries: nat, w: nat, b: u64)
    requires
        w < words.len(),
        b < 64,
        w * 64 + b < entries,
    ensures
        free_set(words.update(w as int, marked(words[w as int], b)), entries) == free_set(
            words,
            entries,
        ).insert(index_at(w, b)),
{
    let after = words.update(w as int, marked(words[w as int], b));
    assert forall|i: nat| #[trigger]
        free_set(after, entries).contains(i) <==> free_set(words, entries).insert(
            index_at(w, b),
        ).contains(i) by {
        if i / 64 == w {
            lemma_marked_bits(words[w as int], b, (i % 64) as u64);
        }
    }
    assert(free_set(after, entries) =~= free_set(words, entries).insert(index_at(w, b)));
}

/// Giving back the object just taken leaves its word as it was.
pub proof fn lemma_release_undoes_claim(bits: u64, b: u64)
    requires
        has_bit(bits, b),
    ensures
        marked(cleared(bits, b), b) == bits,
{
    assert((bits >> b) & 1u64 == 1u64 ==> (bits & !(1u64 << b)) | (1u64 << b) == bits)
        by (bit_vector)
        requires
            b < 64,
    ;
}

/// The bits set in `word`.
pub open spec fn set_bits_of(word: u64) -> Set<u64> {
    Set::new(|b: u64| has_bit(word, b))
}

/// The indices of word `w` whose bit is set in `word`.
pub open spec fn indices_in_word(word: u64, w: nat) -> Set<nat> {
    Set::new(|i: nat| i / 64 == w && has_bit(word, (i % 64) as u64))
}

proof fn lemma_ones_is_bit_count(word: u64)
    ensures
        set_bits_of(word).finite(),
        set_bits_of(word).len() == ones(word),
    decreases word,
{
    let bits = set_bits_of(word);
    if word == 0 {
        assert forall|b: u64| !#[trigger] has_bit(0u64, b) by {
            assert((0u64 >> b) & 1u64 == 0u64) by (bit_vector);
        }
        assert(bits =~= Set::empty());
    } else {
        let half = word / 2;
        lemma_ones_is_bit_count(half);
        let up = |b: u64| (b + 1) as u64;
        let shifted = set_bits_of(half).map(up);
        assert forall|b: u64| #[trigger] has_bit(half, b) implies b < 63 by {
            assert(b < 64 && (half >> b) & 1u64 == 1u64 ==> b < 63) by (bit_vector)
                requires
                    half == word / 2,
            ;
        }
        assert(injective_on(up, set_bits_of(half))) by {
            assert forall|a: u64, b: u64|
                set_bits_of(half).contains(a) && set_bits_of(half).contains(b) && #[trigger] up(a)
                    == #[trigger] up(b) implies a == b by {}
        }
        vstd::set_lib::lemma_map_size(set_bits_of(half), shifted, up);
        let low: Set<u64> = if word % 2 == 1 {
            Set::empty().insert(0u64)
        } else {
            Set::empty()
        };
        assert forall|b: u64| #[trigger] bits.contains(b) <==> low.contains(b) || shifted.contains(b) by {
            if b == 0 {
                assert((word >> 0u64) & 1u64 == 1u64 <==> word % 2 == 1) by (bit_vector);
                if shifted.contains(0u64) {
                    let a = choose|a: u64| set_bits_of(half).contains(a) && up(a) == 0u64;
                    assert(a < 63);
                    assert(false);
                }
            } else if b < 64 {
                let c = (b - 1) as u64;
                assert((word >> b) & 1u64 == (half >> c) & 1u64) by (bit_vector)
                    requires
                        half == word / 2,
                        1 <= b < 64,
                        c == b - 1,
                ;
                if has_bit(half, c) {
                    assert(set_bits_of(half).contains(c));
                    assert(up(c) == b);
                    assert(shifted.contains(b));
                }
                if shifted.contains(b) {
                    let a = choose|a: u64| set_bits_of(half).contains(a) && up(a) == b;
                    assert(a < 63);
                    assert(a == c);
                }
            } else {
                if shifted.contains(b) {
                    let a = choose|a: u64| set_bits_of(half).contains(a) && up(a) == b;
                    assert(a < 63);
                }
            }
        }
        assert(bits =~= low + shifted);
        assert(low.disjoint(shifted));
        vstd::set_lib::lemma_set_disjoint_lens(low, shifted);
    }
}

proof fn lemma_indices_in_word_count(word: u64, w: nat)
    ensures
        indices_in_word(word, w).finite(),
        indices_in_word(word, w).len() == ones(word),
{
    lemma_ones_is_bit_count(word);
    let at = |b: u64| index_at(w, b);
    assert(injective_on(at, set_bits_of(word))) by {
        assert forall|a: u64, b: u64|
            set_bits_of(word).contains(a) && set_bits_of(word).contains(b) && #[trigger] at(a)
                == #[trigger] at(b) implies a == b by {}
    }
    assert forall|i: nat| #[trigger]
        indices_in_word(word, w).contains(i) <==> set_bits_of(word).map(at).contains(i) by {
        if indices_in_word(word, w).contains(i) {
            let b = (i % 64) as u64;
            assert(set_bits_of(word).contains(b) && at(b) == i);
        }
        if set_bits_of(word).map(at).contains(i) {
            let b = choose|b: u64| set_bits_of(word).contains(b) && at(b) == i;
            assert(i / 64 == w && i % 64 == b);
        }
    }
    assert(indices_in_word(word, w) =~= set_bits_of(word).map(at));
    vstd::set_lib::lemma_map_size(set_bits_of(word), indices_in_word(word, w), at);
}

/// The count that a free list gives, a word at a time, is the number of objects
/// that it marks free.
pub proof fn lemma_free_count_is_free_objects(words: Seq<u64>, entries: nat)
    ensures
        free_set(words, entries).finite(),
        free_count(words, entries) == free_set(words, entries).len(),
    decreases words.len(),
{
    if words.len() == 0 {
        assert(free_set(words, entries) =~= Set::empty());
    } else {
        let n = (words.len() - 1) as nat;
        let before = words.drop_last();
        let mask = word_mask(entries, n);
        let last = words.last() & mask;
        lemma_free_count_is_free_objects(before, entries);
        lemma_indices_in_word_count(last, n);
        let tail = indices_in_word(last, n);
        assert forall|i: nat| #[trigger]
            free_set(words, entries).contains(i) <==> free_set(before, entries).contains(i)
                || tail.contains(i) by {
            if i / 64 == n {
                let b = (i % 64) as u64;
                lemma_word_mask_bits(entries, n, b);
                let x = words.last();
                assert(((x & mask) >> b) & 1u64 == 1u64 <==> (x >> b) & 1u64 == 1u64 && (mask
                    >> b) & 1u64 == 1u64) by (bit_vector)
                    requires
                        b < 64,
                ;
            }
        }
        assert(free_set(words, entries) =~= free_set(before, entries) + tail);
        assert(free_set(before, entries).disjoint(tail));
        vstd::set_lib::lemma_set_disjoint_lens(free_set(before, entries), tail);
    }
}

/// A bit of a masked word is set exactly when it is set in both the word and the mask.
pub proof fn lemma_masked_bit(word: u64, mask: u64, j: u64)
    ensures
        has_bit(word & mask, j) <==> has_bit(word, j) && has_bit(mask, j),
{
    assert(j < 64 ==> (((word & mask) >> j) & 1u64 == 1u64 <==> (word >> j) & 1u64 == 1u64 && (
    mask >> j) & 1u64 == 1u64)) by (bit_vector);
}

/// The object that a scan of the free list claims, the lowest set bit of the
/// first word that has a free object, is the free object of least index.
pub proof fn lemma_scan_finds_least_free(words: Seq<u64>, entries: nat, w: nat, b: u64)
    requires
        w < words.len(),
        has_bit(words[w as int] & word_mask(entries, w), b),
        forall|j: u64| j < b ==> !has_bit(words[w as int] & word_mask(entries, w), j),
        forall|v: nat| v < w ==> #[trigger] words[v as int] & word_mask(entries, v) == 0,
    ensures
        free_set(words, entries).contains(index_at(w, b)),
        forall|i: nat| #[trigger] free_set(words, entries).contains(i) ==> index_at(w, b) <= i,
{
    lemma_masked_bit(words[w as int], word_mask(entries, w), b);
    lemma_word_mask_bits(entries, w, b);
    assert forall|i: nat| #[trigger] free_set(words, entries).contains(i) implies index_at(w, b)
        <= i by {
        let v = i / 64;
        let j = (i % 64) as u64;
        lemma_word_mask_bits(entries, v, j);
        lemma_masked_bit(words[v as int], word_mask(entries, v), j);
        if v < w {
            assert(words[v as int] & word_mask(entries, v) == 0);
            assert((0u64 >> j) & 1u64 == 0u64) by (bit_vector);
        } else if v == w {
            assert(!(j < b));
        }
    }
}

/// Claiming a free object lowers the count of free objects by one, and giving
/// it back raises the count by one again.
pub proof fn lemma_claim_and_release_count(words: Seq<u64>, entries: nat, w: nat, b: u64)
    requires
        w < words.len(),
        b < 64,
        free_set(words, entries).contains(index_at(w, b)),
    ensures
        free_count(words.update(w as int, cleared(words[w as int], b)), entries) + 1 == free_count(
            words,
            entries,
        ),
        free_count(
            words.update(w as int, cleared(words[w as int], b)).update(
                w as int,
                marked(cleared(words[w as int], b), b),
            ),
            entries,
        ) == free_count(words, entries),
{
    let taken = words.update(w as int, cleared(words[w as int], b));
    lemma_claim_takes_one(words, entries, w, b);
    lemma_free_count_is_free_objects(words, entries);
    lemma_free_count_is_free_objects(taken, entries);
    lemma_release_undoes_claim(words[w as int], b);
    assert(taken.update(w as int, marked(cleared(words[w as int], b), b)) =~= words);
}

/// One step of claiming an object of word `w`. `bits` are the word's free bits
/// still worth trying, and `prev` is what the word held when the lowest of them,
/// `least_bit(bits)`, was cleared in it. The object is claimed when its bit was
/// still set in `prev`, and its index is returned; otherwise another holder took
/// it first, and the bits left worth trying are the others of `bits` that `prev`
/// still has set.
pub fn claim_in(w: usize, bits: u64, prev: u64) -> (r: Result<usize, u64>)
    requires
        bits != 0,
        index_at(w as nat, least_bit(bits)) <= usize::MAX,
    ensures
        least_bit(bits) < 64,
        has_bit(bits, least_bit(bits)),
        match r {
            Ok(i) => has_bit(prev, least_bit(bits)) && i == index_at(w as nat, least_bit(bits)),
            Err(rest) => !has_bit(prev, least_bit(bits)) && rest == cleared(bits, least_bit(bits))
                & prev,
        },
{
    let b: u64 = lowest_bit(bits);
    let one: u64 = 1u64 << b;
    proof {
        assert(prev & one != 0 <==> (prev >> b) & 1u64 == 1u64) by (bit_vector)
            requires
                b < 64,
                one == 1u64 << b,
        ;
    }
    if prev & one != 0 {
        Ok(index_of(w, b))
    } else {
        Err(bits & !one & prev)
    }
}

/// The number of objects that `words`, the words of a free list of `entries`
/// objects, mark free: the masked set bits of each word, added up.
pub fn count_free(words: &Vec<u64>, entries: usize) -> (n: usize)
    requires
        words.len() == word_count(entries as nat),
    ensures
        n == free_set(words@, entries as nat).len(),
        n <= entries,
{
    let mut n: usize = 0;
    let mut i: usize = 0;
    while i < words.len()
        invariant
            i <= words.len(),
            n == free_count(words@.take(i as int), entries as nat),
            n <= entries,
        decreases words.len() - i,
    {
        let mask: u64 = word_mask_of(entries, i);
        let ones: u32 = count_ones(words[i] & mask);
        proof {
            let next = words@.take(i + 1);
            assert(next.drop_last() =~= words@.take(i as int));
            lemma_free_count_bound(next, entries as nat);
        }
        n = n + ones as usize;
        i = i + 1;
    }
    proof {
        assert(words@.take(i as int) =~= words@);
        lemma_free_count_is_free_objects(words@, entries as nat);
    }
    n
}

/// Where a scan of the free list stands: words `0 .. next` have been read, and
/// `bits` are the free bits of word `next - 1` that the scan has not yet seen
/// taken (none before the first read).
#[derive(Clone, Copy)]
pub struct Scan {
    pub next: usize,
    pub bits: u64,
}

/// What a scan does next.
pub enum ScanStep {
    /// Read word `w`.
    Load(usize),
    /// Clear bits of word `w` with the mask `keep`, which lacks one bit.
    Clear(usize, u64),
    /// Every word has been read and no free bit is left: nothing to claim.
    Done,
}

/// The words as the scan holds them: the words before the current one have no
/// free bit left, and the current one has `bits`.
pub open spec fn scan_view(scan: Scan) -> Seq<u64> {
    Seq::new(scan.next as nat, |v: int| if v == scan.next - 1 { scan.bits } else { 0u64 })
}

/// A scan of a free list of `entries` objects: it reads no word past the
/// last, and keeps no bit that stands for no object.
pub open spec fn scan_wf(scan: Scan, entries: nat) -> bool {
    &&& scan.next <= word_count(entries)
    &&& scan.next == 0 ==> scan.bits == 0
    &&& scan.next > 0 ==> scan.bits & word_mask(entries, (scan.next - 1) as nat) == scan.bits
}

/// The scan before it has read a word.
pub fn scan_start() -> (scan: Scan)
    ensures
        scan.next == 0,
        scan.bits == 0,
{
    Scan { next: 0, bits: 0 }
}

/// The next step of a scan of a free list of `entries` objects, made of `words`
/// words. While the current word has a free bit, the scan clears its lowest
/// one, the object of least index among those the scan holds free; once it has
/// none, the scan reads the next word; after the last word, it is done, and
/// then it holds no object free.
pub fn scan_next(entries: usize, words: usize, scan: Scan) -> (step: ScanStep)
    requires
        words == word_count(entries as nat),
        scan_wf(scan, entries as nat),
    ensures
        scan.bits != 0 ==> {
            &&& scan.next > 0
            &&& least_bit(scan.bits) < 64
            &&& step == ScanStep::Clear((scan.next - 1) as usize, !(1u64 << least_bit(scan.bits)))
            &&& free_set(scan_view(scan), entries as nat).contains(
                index_at((scan.next - 1) as nat, least_bit(scan.bits)),
            )
            &&& forall|i: nat| #[trigger]
                free_set(scan_view(scan), entries as nat).contains(i) ==> index_at(
                    (scan.next - 1) as nat,
                    least_bit(scan.bits),
                ) <= i
        },
        scan.bits == 0 && scan.next < words ==> step == ScanStep::Load(scan.next),
        scan.bits == 0 && scan.next == words ==> step == ScanStep::Done && free_set(
            scan_view(scan),
            entries as nat,
        ) == Set::<nat>::empty(),
{
    let view = Ghost(scan_view(scan));
    if scan.bits != 0 {
        let b: u64 = lowest_bit(scan.bits);
        proof {
            let w = (scan.next - 1) as nat;
            let mask = word_mask(entries as nat, w);
            lemma_masked_bit(scan.bits, mask, b);
            assert forall|j: u64| j < b implies !has_bit(view@[w as int] & mask, j) by {
                lemma_masked_bit(scan.bits, mask, j);
            }
            assert forall|v: nat| v < w implies #[trigger] view@[v as int] & word_mask(
                entries as nat,
                v,
            ) == 0 by {
                let m = word_mask(entries as nat, v);
                assert(0u64 & m == 0) by (bit_vector);
            }
            lemma_scan_finds_least_free(view@, entries as nat, w, b);
        }
        ScanStep::Clear(scan.next - 1, !(1u64 << b))
    } else if scan.next < words {
        ScanStep::Load(scan.next)
    } else {
        proof {
            assert forall|i: nat| !#[trigger] free_set(view@, entries as nat).contains(i) by {
                let j = (i % 64) as u64;
                assert((0u64 >> j) & 1u64 == 0u64) by (bit_vector);
            }
            assert(free_set(view@, entries as nat) =~= Set::<nat>::empty());
        }
        ScanStep::Done
    }
}

/// The scan after it has read `loaded` as word `scan.next`: it holds free the
/// bits of `loaded` that stand for an object.
pub fn scan_loaded(entries: usize, scan: Scan, loaded: u64) -> (after: Scan)
    requires
        scan.next < word_count(entries as nat),
    ensures
        after.next == scan.next + 1,
        after.bits == loaded & word_mask(entries as nat, scan.next as nat),
        scan_wf(after, entries as nat),
{
    let mask: u64 = word_mask_of(entries, scan.next);
    let bits: u64 = loaded & mask;
    proof {
        assert(bits & mask == bits) by (bit_vector)
            requires
                bits == loaded & mask,
        ;
    }
    Scan { next: scan.next + 1, bits }
}

/// The scan after it cleared its lowest free bit, the word having held `prev`
/// just before. When the bit was still set in `prev`, the object is claimed and
/// its index returned; otherwise another holder took it, and the scan goes on
/// with the bits it held that `prev` still has set, fewer than before.
pub fn scan_cleared(entries: usize, scan: Scan, prev: u64) -> (r: Result<usize, Scan>)
    requires
        scan_wf(scan, entries as nat),
        scan.bits != 0,
    ensures
        scan.next > 0,
        match r {
            Ok(i) => has_bit(prev, least_bit(scan.bits)) && i == index_at(
                (scan.next - 1) as nat,
                least_bit(scan.bits),
            ) && i < entries,
            Err(after) => !has_bit(prev, least_bit(scan.bits)) && after.next == scan.next
                && after.bits == cleared(scan.bits, least_bit(scan.bits)) & prev && after.bits
                < scan.bits && scan_wf(after, entries as nat),
        },
{
    let w: usize = scan.next - 1;
    let ghost b = least_bit(scan.bits);
    proof {
        vstd::std_specs::bits::axiom_u64_trailing_zeros(scan.bits);
        let mask = word_mask(entries as nat, w as nat);
        lemma_masked_bit(scan.bits, mask, b);
        lemma_word_mask_bits(entries as nat, w as nat, b);
    }
    match claim_in(w, scan.bits, prev) {
        Ok(i) => Ok(i),
        Err(rest) => {
            proof {
                let bits = scan.bits;
                let mask = word_mask(entries as nat, w as nat);
                assert(rest < bits && rest & mask == rest) by (bit_vector)
                    requires
                        b < 64,
                        (bits >> b) & 1u64 == 1u64,
                        rest == bits & !(1u64 << b) & prev,
                        bits & mask == bits,
                ;
            }
            Err(Scan { next: scan.next, bits: rest })
        },
    }
}

} // verus!
