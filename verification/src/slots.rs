//! Sequence vocabulary shared by the fixed-capacity tables: the first slot
//! that satisfies a predicate, how many do, and the generation-tagged packing
//! of a slot index into a 32-bit id.
use vstd::prelude::*;

verus! {

/// The first index at or after `k` whose element satisfies `p`, or `s.len()`
/// when there is none.
pub open spec fn first_from<T>(s: Seq<T>, p: spec_fn(T) -> bool, k: int) -> int
    decreases s.len() - k,
{
    if k >= s.len() {
        s.len() as int
    } else if p(s[k]) {
        k
    } else {
        first_from(s, p, k + 1)
    }
}

/// The first index whose element satisfies `p`, or `s.len()`.
pub open spec fn first<T>(s: Seq<T>, p: spec_fn(T) -> bool) -> int {
    first_from(s, p, 0)
}

/// Whether some element satisfies `p`.
pub open spec fn any<T>(s: Seq<T>, p: spec_fn(T) -> bool) -> bool {
    exists|i: int| 0 <= i < s.len() && p(#[trigger] s[i])
}

/// How many elements satisfy `p`.
pub open spec fn count<T>(s: Seq<T>, p: spec_fn(T) -> bool) -> nat
    decreases s.len(),
{
    if s.len() == 0 {
        0
    } else {
        count(s.drop_last(), p) + (if p(s.last()) { 1nat } else { 0nat })
    }
}

/// The predicate of a free slot.
pub open spec fn free<T>() -> spec_fn(Option<T>) -> bool {
    |o: Option<T>| o is None
}

/// The predicate of an occupied slot.
pub open spec fn used<T>() -> spec_fn(Option<T>) -> bool {
    |o: Option<T>| o is Some
}

/// `n` empty slots.
pub open spec fn empty<T>(n: nat) -> Seq<Option<T>> {
    Seq::new(n, |i: int| None)
}

/// What [`first_from`] returns: nothing before it satisfies `p`, and it does.
pub proof fn lemma_first_from<T>(s: Seq<T>, p: spec_fn(T) -> bool, k: int)
    requires
        0 <= k <= s.len(),
    ensures
        k <= first_from(s, p, k) <= s.len(),
        forall|j: int| k <= j < first_from(s, p, k) ==> !p(#[trigger] s[j]),
        first_from(s, p, k) < s.len() ==> p(s[first_from(s, p, k)]),
    decreases s.len() - k,
{
    if k < s.len() && !p(s[k]) {
        lemma_first_from(s, p, k + 1);
    }
}

pub proof fn lemma_first<T>(s: Seq<T>, p: spec_fn(T) -> bool)
    ensures
        0 <= first(s, p) <= s.len(),
        forall|j: int| 0 <= j < first(s, p) ==> !p(#[trigger] s[j]),
        first(s, p) < s.len() ==> p(s[first(s, p)]),
{
    lemma_first_from(s, p, 0);
}

/// An index with nothing satisfying before it is the first one if it
/// satisfies, and is the end if it is the length.
pub proof fn lemma_first_is<T>(s: Seq<T>, p: spec_fn(T) -> bool, i: int)
    requires
        0 <= i <= s.len(),
        forall|j: int| 0 <= j < i ==> !p(#[trigger] s[j]),
        i < s.len() ==> p(s[i]),
    ensures
        first(s, p) == i,
{
    lemma_first(s, p);
    let f = first(s, p);
    if f < i {
        assert(!p(s[f]));
    }
    if i < f {
        assert(!p(s[i]));
    }
}

pub proof fn lemma_count_bound<T>(s: Seq<T>, p: spec_fn(T) -> bool)
    ensures
        count(s, p) <= s.len(),
    decreases s.len(),
{
    if s.len() > 0 {
        lemma_count_bound(s.drop_last(), p);
    }
}

/// Replacing one element moves the count by the difference at that element.
pub proof fn lemma_count_update<T>(s: Seq<T>, p: spec_fn(T) -> bool, i: int, v: T)
    requires
        0 <= i < s.len(),
    ensures
        count(s.update(i, v), p) + (if p(s[i]) { 1nat } else { 0nat }) == count(s, p) + (if p(v) {
            1nat
        } else {
            0nat
        }),
    decreases s.len(),
{
    let t = s.update(i, v);
    if i == s.len() - 1 {
        assert(t.drop_last() =~= s.drop_last());
    } else {
        assert(t.drop_last() =~= s.drop_last().update(i, v));
        assert(t.last() == s.last());
        lemma_count_update(s.drop_last(), p, i, v);
    }
}

/// One step of a counting loop.
pub proof fn lemma_count_take<T>(s: Seq<T>, p: spec_fn(T) -> bool, i: int)
    requires
        0 <= i < s.len(),
    ensures
        count(s.take(i + 1), p) == count(s.take(i), p) + (if p(s[i]) { 1nat } else { 0nat }),
        count(s.take(i + 1), p) <= i + 1,
{
    assert(s.take(i + 1).drop_last() =~= s.take(i));
    lemma_count_bound(s.take(i + 1), p);
}

pub proof fn lemma_count_zero<T>(s: Seq<T>, p: spec_fn(T) -> bool)
    requires
        forall|i: int| 0 <= i < s.len() ==> !p(#[trigger] s[i]),
    ensures
        count(s, p) == 0,
    decreases s.len(),
{
    if s.len() > 0 {
        assert forall|i: int| 0 <= i < s.drop_last().len() implies !p(
            #[trigger] s.drop_last()[i],
        ) by {
            assert(s.drop_last()[i] == s[i]);
        }
        lemma_count_zero(s.drop_last(), p);
    }
}

pub proof fn lemma_count_positive<T>(s: Seq<T>, p: spec_fn(T) -> bool, i: int)
    requires
        0 <= i < s.len(),
        p(s[i]),
    ensures
        count(s, p) > 0,
    decreases s.len(),
{
    if i < s.len() - 1 {
        assert(s.drop_last()[i] == s[i]);
        lemma_count_positive(s.drop_last(), p, i);
    }
}

/// The first free slot of `v`, or `None` when every slot is taken.
pub fn find_free<T>(v: &Vec<Option<T>>) -> (r: Option<usize>)
    ensures
        match r {
            Some(i) => i == first(v@, free::<T>()) && i < v@.len() && v@[i as int] is None,
            None => first(v@, free::<T>()) == v@.len(),
        },
{
    let mut i: usize = 0;
    while i < v.len()
        invariant
            i <= v@.len(),
            forall|j: int| 0 <= j < i ==> !free::<T>()(#[trigger] v@[j]),
        decreases v@.len() - i,
    {
        if v[i].is_none() {
            proof {
                lemma_first_is(v@, free::<T>(), i as int);
            }
            return Some(i);
        }
        i += 1;
    }
    proof {
        lemma_first_is(v@, free::<T>(), i as int);
    }
    None
}

/// How many slots of `v` are taken.
pub fn count_used<T>(v: &Vec<Option<T>>) -> (n: usize)
    ensures
        n == count(v@, used::<T>()),
{
    let mut n: usize = 0;
    let mut i: usize = 0;
    while i < v.len()
        invariant
            i <= v@.len(),
            n <= i,
            n == count(v@.take(i as int), used::<T>()),
        decreases v@.len() - i,
    {
        proof {
            lemma_count_take(v@, used::<T>(), i as int);
        }
        if v[i].is_some() {
            n += 1;
        }
        i += 1;
    }
    assert(v@.take(i as int) =~= v@);
    n
}

/// A vector of `n` empty slots.
pub fn empty_slots<T>(n: usize) -> (v: Vec<Option<T>>)
    ensures
        v@ == empty::<T>(n as nat),
{
    let mut v: Vec<Option<T>> = Vec::new();
    while v.len() < n
        invariant
            v@.len() <= n,
            forall|i: int| 0 <= i < v@.len() ==> v@[i] is None,
        decreases n - v@.len(),
    {
        v.push(None);
    }
    assert(v@ =~= empty::<T>(n as nat));
    v
}

/// The slot index carried by a packed id: its low half.
pub open spec fn packed_index(raw: u32) -> int {
    raw as int % 0x1_0000
}

/// The generation carried by a packed id: its high half.
pub open spec fn packed_generation(raw: u32) -> int {
    raw as int / 0x1_0000
}

/// The id with the given index and generation.
pub open spec fn packed(index: int, generation: u16) -> u32 {
    (generation * 0x1_0000 + index) as u32
}

/// Packing loses nothing.
pub proof fn lemma_packed(index: int, generation: u16)
    requires
        0 <= index < 0x1_0000,
    ensures
        packed_index(packed(index, generation)) == index,
        packed_generation(packed(index, generation)) == generation,
{
}

/// Packs a slot index and its generation.
pub fn pack(index: usize, generation: u16) -> (raw: u32)
    requires
        index < 0x1_0000,
    ensures
        raw == packed(index as int, generation),
{
    let i: u32 = index as u32;
    let g: u32 = generation as u32;
    proof {
        assert((g << 16) | (i & 0xffff) == g * 0x1_0000 + i) by (bit_vector)
            requires
                g < 0x1_0000u32,
                i < 0x1_0000u32,
        ;
    }
    (g << 16) | (i & 0xffff)
}

/// The slot index of a packed id.
pub fn unpack_index(raw: u32) -> (index: usize)
    ensures
        index == packed_index(raw),
        index < 0x1_0000,
{
    proof {
        assert(raw & 0xffff == raw % 0x1_0000) by (bit_vector);
    }
    (raw & 0xffff) as usize
}

/// The generation of a packed id.
pub fn unpack_generation(raw: u32) -> (generation: u16)
    ensures
        generation == packed_generation(raw),
{
    proof {
        assert(raw >> 16 == raw / 0x1_0000) by (bit_vector);
    }
    (raw >> 16) as u16
}

/// The `i`-th place after `head` on a ring of `cap` places.
pub open spec fn ring(head: int, i: int, cap: int) -> int {
    if head + i < cap {
        head + i
    } else {
        head + i - cap
    }
}

/// Where the `i`-th entry after `head` stands on a ring of `cap` places.
pub fn ring_index(head: usize, i: usize, cap: usize) -> (r: usize)
    requires
        head < cap,
        i <= cap,
        cap <= 0x1_0000,
    ensures
        r == ring(head as int, i as int, cap as int),
        r < cap,
{
    proof {
        let s = head + i;
        if s < cap {
            vstd::arithmetic::div_mod::lemma_small_mod(s as nat, cap as nat);
        } else {
            vstd::arithmetic::div_mod::lemma_mod_sub_multiples_vanish(s as int, cap as int);
            vstd::arithmetic::div_mod::lemma_small_mod((s - cap) as nat, cap as nat);
        }
    }
    (head + i) % cap
}

} // verus!
