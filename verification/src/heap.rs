//! The kernel heap: first-fit allocation over an address-ordered list of free
//! blocks that are merged with their neighbours as they come back. Addresses
//! are plain numbers; whoever owns the memory turns them into pointers.
use vstd::prelude::*;
use vstd::arithmetic::power2::pow2;
use crate::slots;

verus! {

/// Allocation quantum: minimum size and minimum alignment.
pub const MIN_BLOCK: usize = 16;

/// Allocation failure: no free region can satisfy the request.
#[derive(Clone, Copy, PartialEq, Eq, Debug, Structural)]
pub struct AllocError;

/// What an allocation asks for.
#[derive(Clone, Copy, PartialEq, Eq, Debug, Structural)]
pub struct Layout {
    pub size: usize,
    pub align: usize,
}

impl Layout {
    /// Alignments are powers of two.
    pub open spec fn valid(self) -> bool {
        exists|k: nat| self.align == #[trigger] pow2(k)
    }
}

/// One free block.
#[derive(Clone, Copy, PartialEq, Eq, Debug, Structural)]
pub struct Hole {
    pub addr: usize,
    pub size: usize,
}

/// `x` rounded up to a multiple of `n`.
pub open spec fn round_up(x: int, n: int) -> int {
    (x + n - 1) / n * n
}

/// `layout.size` rounded up to the allocation quantum, never zero.
pub open spec fn block_size(layout: Layout) -> int {
    round_up(
        if layout.size == 0 {
            1
        } else {
            layout.size as int
        },
        MIN_BLOCK as int,
    )
}

/// `layout.align`, at least the allocation quantum.
pub open spec fn block_align(layout: Layout) -> int {
    if layout.align < MIN_BLOCK {
        MIN_BLOCK as int
    } else {
        layout.align as int
    }
}

/// Whether a block of `size` bytes aligned to `align` fits in `h`.
pub open spec fn has_room(size: int, align: int) -> spec_fn(Hole) -> bool {
    |h: Hole| round_up(h.addr as int, align) + size <= h.addr + h.size
}

/// Whether byte `x` is free.
pub open spec fn is_free(holes: Seq<Hole>, x: int) -> bool {
    exists|i: int| 0 <= i < holes.len() && #[trigger] inside(holes[i], x)
}

/// Whether byte `x` is in `h`.
pub open spec fn inside(h: Hole, x: int) -> bool {
    h.addr <= x < h.addr + h.size
}

/// The free bytes in `holes`.
pub open spec fn free_bytes(holes: Seq<Hole>) -> int
    decreases holes.len(),
{
    if holes.len() == 0 {
        0
    } else {
        free_bytes(holes.drop_last()) + holes.last().size
    }
}

/// The blocks of `holes` are whole, lie in `[base, end)`, and stand in address
/// order with something in use between any two.
pub open spec fn canonical(holes: Seq<Hole>, base: int, end: int) -> bool {
    &&& forall|i: int|
        0 <= i < holes.len() ==> {
            let h = #[trigger] holes[i];
            &&& h.size >= MIN_BLOCK
            &&& h.size % MIN_BLOCK == 0
            &&& h.addr % MIN_BLOCK == 0
            &&& base <= h.addr
            &&& h.addr + h.size <= end
        }
    &&& forall|i: int, j: int|
        0 <= i < j < holes.len() ==> (#[trigger] holes[i]).addr + holes[i].size < (
        #[trigger] holes[j]).addr
}

/// What a [`Heap`] holds: the region, its free blocks, the bytes in use, and
/// the blocks handed out (address to size).
#[verifier::ext_equal]
pub struct HeapView {
    pub base: int,
    pub end: int,
    pub holes: Seq<Hole>,
    pub used: int,
    pub live: Map<int, int>,
}

impl HeapView {
    /// The heap's invariant: the free list is canonical, every byte is either
    /// free or in use, and the blocks handed out are whole, inside the region,
    /// apart from one another and from everything free.
    pub open spec fn wf(self) -> bool {
        &&& 0 <= self.base <= self.end <= usize::MAX
        &&& canonical(self.holes, self.base, self.end)
        &&& self.used + free_bytes(self.holes) == self.end - self.base
        &&& self.used >= 0
        &&& forall|a: int| #[trigger]
            self.live.contains_key(a) ==> {
                &&& self.live[a] >= MIN_BLOCK
                &&& self.live[a] % MIN_BLOCK as int == 0
                &&& a % MIN_BLOCK as int == 0
                &&& self.base <= a
                &&& a + self.live[a] <= self.end
            }
        &&& forall|a: int, x: int| #[trigger]
            self.live.contains_key(a) && a <= x < a + self.live[a] ==> !#[trigger] is_free(
                self.holes,
                x,
            )
        &&& forall|a: int, b: int| #[trigger]
            self.live.contains_key(a) && #[trigger] self.live.contains_key(b) && a < b ==> a
                + self.live[a] <= b
    }

    /// The first free block with room for `layout`, or the length of the list.
    pub open spec fn fit(self, layout: Layout) -> int {
        slots::first(self.holes, has_room(block_size(layout), block_align(layout)))
    }

    /// Where an allocation that finds room goes.
    pub open spec fn place(self, layout: Layout) -> int {
        round_up(self.holes[self.fit(layout)].addr as int, block_align(layout))
    }
}

/// The kernel heap.
pub struct Heap {
    holes: Vec<Hole>,
    total: usize,
    used: usize,
    base: Ghost<int>,
    live: Ghost<Map<int, int>>,
}

impl View for Heap {
    type V = HeapView;

    closed spec fn view(&self) -> HeapView {
        HeapView {
            base: self.base@,
            end: self.base@ + self.total,
            holes: self.holes@,
            used: self.used as int,
            live: self.live@,
        }
    }
}

/// Disjoint blocks in order take no more room than there is.
proof fn lemma_free_bounded(holes: Seq<Hole>, base: int, end: int)
    requires
        canonical(holes, base, end),
        base <= end,
    ensures
        0 <= free_bytes(holes) <= end - base,
        holes.len() > 0 ==> free_bytes(holes) <= holes.last().addr + holes.last().size - base,
    decreases holes.len(),
{
    if holes.len() > 0 {
        let rest = holes.drop_last();
        let last = holes.last();
        assert(last == holes[holes.len() - 1]);
        assert forall|i: int| 0 <= i < rest.len() implies {
            let h = #[trigger] rest[i];
            &&& h.size >= MIN_BLOCK
            &&& h.size % MIN_BLOCK == 0
            &&& h.addr % MIN_BLOCK == 0
            &&& base <= h.addr
            &&& h.addr + h.size <= last.addr
        } by {
            assert(rest[i] == holes[i]);
        }
        assert(canonical(rest, base, last.addr as int));
        lemma_free_bounded(rest, base, last.addr as int);
    }
}

/// Replacing the block at `i` moves the number of free bytes by the
/// difference.
proof fn lemma_free_update(holes: Seq<Hole>, i: int, h: Hole)
    requires
        0 <= i < holes.len(),
    ensures
        free_bytes(holes.update(i, h)) == free_bytes(holes) - holes[i].size + h.size,
    decreases holes.len(),
{
    let t = holes.update(i, h);
    if i == holes.len() - 1 {
        assert(t.drop_last() =~= holes.drop_last());
    } else {
        assert(t.drop_last() =~= holes.drop_last().update(i, h));
        assert(t.last() == holes.last());
        lemma_free_update(holes.drop_last(), i, h);
    }
}

proof fn lemma_free_insert(holes: Seq<Hole>, i: int, h: Hole)
    requires
        0 <= i <= holes.len(),
    ensures
        free_bytes(holes.insert(i, h)) == free_bytes(holes) + h.size,
    decreases holes.len(),
{
    let t = holes.insert(i, h);
    if i == holes.len() {
        assert(t.drop_last() =~= holes);
    } else {
        assert(t.drop_last() =~= holes.drop_last().insert(i, h));
        assert(t.last() == holes.last());
        lemma_free_insert(holes.drop_last(), i, h);
    }
}

proof fn lemma_free_remove(holes: Seq<Hole>, i: int)
    requires
        0 <= i < holes.len(),
    ensures
        free_bytes(holes.remove(i)) == free_bytes(holes) - holes[i].size,
{
    lemma_free_insert(holes.remove(i), i, holes[i]);
    assert(holes.remove(i).insert(i, holes[i]) =~= holes);
}

/// Rounding up to a positive multiple.
proof fn lemma_round_up(x: int, n: int)
    requires
        x >= 0,
        n > 0,
    ensures
        x <= round_up(x, n) < x + n,
        round_up(x, n) % n == 0,
{
    vstd::arithmetic::div_mod::lemma_fundamental_div_mod(x + n - 1, n);
    vstd::arithmetic::div_mod::lemma_mod_bound(x + n - 1, n);
    let q = (x + n - 1) / n;
    vstd::arithmetic::mul::lemma_mul_is_commutative(n, q);
    vstd::arithmetic::div_mod::lemma_mod_multiples_basic(q, n);
}

/// An alignment that is a power of two and at least the quantum is a multiple
/// of it.
proof fn lemma_align(layout: Layout)
    requires
        layout.valid(),
    ensures
        block_align(layout) % MIN_BLOCK as int == 0,
        block_align(layout) >= MIN_BLOCK,
{
    let k = choose|k: nat| layout.align == #[trigger] pow2(k);
    vstd::arithmetic::power2::lemma2_to64();
    if k >= 4 {
        vstd::arithmetic::power2::lemma_pow2_adds((k - 4) as nat, 4);
        let q = pow2((k - 4) as nat) as int;
        assert(pow2(k) == q * 16);
        vstd::arithmetic::div_mod::lemma_mod_multiples_basic(q, 16);
    } else {
        vstd::arithmetic::power2::lemma_pow2_strictly_increases(k, 4);
    }
}

/// A multiple of a multiple of the quantum is a multiple of the quantum.
proof fn lemma_mod_chain(x: int, n: int)
    requires
        x >= 0,
        n > 0,
        x % n == 0,
        n % MIN_BLOCK as int == 0,
    ensures
        x % MIN_BLOCK as int == 0,
{
    vstd::arithmetic::div_mod::lemma_fundamental_div_mod(x, n);
    vstd::arithmetic::div_mod::lemma_fundamental_div_mod(n, 16);
    let a = x / n;
    let b = n / 16;
    assert(x == (a * b) * 16) by (nonlinear_arith)
        requires
            x == n * a,
            n == 16 * b,
    ;
    vstd::arithmetic::div_mod::lemma_mod_multiples_basic(a * b, 16);
}

/// Rounds a layout up to the allocation quantum; an error for a size no heap
/// could ever satisfy.
fn normalize(layout: Layout) -> (r: Result<(usize, usize), AllocError>)
    ensures
        match r {
            Ok((size, align)) => size == block_size(layout) && align == block_align(layout),
            Err(e) => layout.size + MIN_BLOCK - 1 > usize::MAX,
        },
{
    let align: usize = if layout.align < MIN_BLOCK {
        MIN_BLOCK
    } else {
        layout.align
    };
    let size: usize = if layout.size < 1 {
        1
    } else {
        layout.size
    };
    if size > usize::MAX - (MIN_BLOCK - 1) {
        return Err(AllocError);
    }
    Ok(((size + (MIN_BLOCK - 1)) / MIN_BLOCK * MIN_BLOCK, align))
}

impl Heap {
    /// The heap's invariant.
    pub open spec fn wf(&self) -> bool {
        self@.wf()
    }

    pub fn empty() -> (h: Heap)
        ensures
            h.wf(),
            h@ == (HeapView {
                base: 0,
                end: 0,
                holes: Seq::empty(),
                used: 0,
                live: Map::empty(),
            }),
    {
        Heap {
            holes: Vec::new(),
            total: 0,
            used: 0,
            base: Ghost(0),
            live: Ghost(Map::empty()),
        }
    }

    /// Adopts the whole blocks of `[base, base + size)` as heap memory. A
    /// region too small for even one block leaves the heap as it was.
    pub fn init(&mut self, base: usize, size: usize)
        requires
            base + size <= usize::MAX,
            base + MIN_BLOCK - 1 <= usize::MAX,
        ensures
            ({
                let start = round_up(base as int, MIN_BLOCK as int);
                let end = (base + size) / MIN_BLOCK as int * MIN_BLOCK;
                if end - start < MIN_BLOCK {
                    *final(self) == *old(self)
                } else {
                    &&& final(self).wf()
                    &&& final(self)@ == (HeapView {
                        base: start,
                        end,
                        holes: seq![Hole { addr: start as usize, size: (end - start) as usize }],
                        used: 0,
                        live: Map::empty(),
                    })
                }
            }),
    {
        let start: usize = (base + (MIN_BLOCK - 1)) / MIN_BLOCK * MIN_BLOCK;
        let end: usize = (base + size) / MIN_BLOCK * MIN_BLOCK;
        if end <= start || end - start < MIN_BLOCK {
            return;
        }
        let usable: usize = end - start;
        let mut holes: Vec<Hole> = Vec::new();
        holes.push(Hole { addr: start, size: usable });
        self.holes = holes;
        self.total = usable;
        self.used = 0;
        self.base = Ghost(start as int);
        self.live = Ghost(Map::empty());
        proof {
            assert(self@.holes =~= seq![Hole { addr: start, size: usable }]);
            assert(self@.holes.drop_last() =~= Seq::<Hole>::empty());
            assert(free_bytes(self@.holes) == usable) by {
                reveal_with_fuel(free_bytes, 2);
            }
        }
    }

    /// Bytes the heap manages.
    pub fn total(&self) -> (n: usize)
        ensures
            n == self@.end - self@.base,
    {
        self.total
    }

    /// Bytes handed out.
    pub fn used(&self) -> (n: usize)
        ensures
            n == self@.used,
    {
        self.used
    }
}

/// `holes` with the block `[at, at + size)` cut out of hole `i`: what is left
/// in front of it and behind it stays free.
spec fn carved(holes: Seq<Hole>, i: int, at: int, size: int) -> Seq<Hole> {
    let h = holes[i];
    let front = Hole { addr: h.addr, size: (at - h.addr) as usize };
    let back = Hole {
        addr: (at + size) as usize,
        size: (h.addr + h.size - at - size) as usize,
    };
    if front.size > 0 && back.size > 0 {
        holes.update(i, front).insert(i + 1, back)
    } else if front.size > 0 {
        holes.update(i, front)
    } else if back.size > 0 {
        holes.update(i, back)
    } else {
        holes.remove(i)
    }
}

/// A block that is whole and inside `[base, end)`.
spec fn whole(h: Hole, base: int, end: int) -> bool {
    &&& h.size >= MIN_BLOCK
    &&& h.size % MIN_BLOCK == 0
    &&& h.addr % MIN_BLOCK == 0
    &&& base <= h.addr
    &&& h.addr + h.size <= end
}

/// Replacing a block by another that stays clear of its neighbours.
proof fn lemma_replace(holes: Seq<Hole>, base: int, end: int, i: int, h: Hole)
    requires
        canonical(holes, base, end),
        0 <= i < holes.len(),
        whole(h, base, end),
        i > 0 ==> holes[i - 1].addr + holes[i - 1].size < h.addr,
        i + 1 < holes.len() ==> h.addr + h.size < holes[i + 1].addr,
    ensures
        canonical(holes.update(i, h), base, end),
        free_bytes(holes.update(i, h)) == free_bytes(holes) - holes[i].size + h.size,
        forall|x: int| #[trigger]
            is_free(holes.update(i, h), x) <==> (is_free(holes, x) && !inside(holes[i], x))
                || inside(h, x),
{
    let c = holes.update(i, h);
    lemma_free_update(holes, i, h);
    assert forall|a: int, b: int| 0 <= a < b < c.len() implies (#[trigger] c[a]).addr + c[a].size < (
    #[trigger] c[b]).addr by {
        if b == i && a < i - 1 {
            assert(holes[a].addr + holes[a].size < holes[i - 1].addr);
        } else if a == i && b > i + 1 {
            assert(holes[i + 1].addr + holes[i + 1].size < holes[b].addr);
        } else if a != i && b != i {
            assert(holes[a].addr + holes[a].size < holes[b].addr);
        }
    }
    assert forall|k: int| 0 <= k < c.len() implies whole(#[trigger] c[k], base, end) by {
        if k != i {
            assert(c[k] == holes[k]);
        }
    }
    assert(canonical(c, base, end));
    assert forall|x: int| #[trigger] is_free(c, x) <==> (is_free(holes, x) && !inside(holes[i], x))
        || inside(h, x) by {
        if is_free(c, x) && !inside(h, x) {
            let k = choose|k: int| 0 <= k < c.len() && #[trigger] inside(c[k], x);
            assert(inside(holes[k], x));
            if inside(holes[i], x) {
                lemma_one_block(holes, base, end, i, k, x);
            }
        }
        if is_free(holes, x) && !inside(holes[i], x) {
            let k = choose|k: int| 0 <= k < holes.len() && #[trigger] inside(holes[k], x);
            assert(inside(c[k], x));
        }
        if inside(h, x) {
            assert(inside(c[i], x));
        }
    }
}

/// A byte is in at most one block.
proof fn lemma_one_block(holes: Seq<Hole>, base: int, end: int, i: int, j: int, x: int)
    requires
        canonical(holes, base, end),
        0 <= i < holes.len(),
        0 <= j < holes.len(),
        inside(holes[i], x),
        inside(holes[j], x),
    ensures
        i == j,
{
    if i < j {
        assert(holes[i].addr + holes[i].size < holes[j].addr);
    } else if j < i {
        assert(holes[j].addr + holes[j].size < holes[i].addr);
    }
}

/// Putting a block between two that it does not touch.
proof fn lemma_insert(holes: Seq<Hole>, base: int, end: int, i: int, h: Hole)
    requires
        canonical(holes, base, end),
        0 <= i <= holes.len(),
        whole(h, base, end),
        i > 0 ==> holes[i - 1].addr + holes[i - 1].size < h.addr,
        i < holes.len() ==> h.addr + h.size < holes[i].addr,
    ensures
        canonical(holes.insert(i, h), base, end),
        free_bytes(holes.insert(i, h)) == free_bytes(holes) + h.size,
        forall|x: int| #[trigger]
            is_free(holes.insert(i, h), x) <==> is_free(holes, x) || inside(h, x),
{
    let c = holes.insert(i, h);
    lemma_free_insert(holes, i, h);
    assert forall|k: int| 0 <= k < c.len() implies #[trigger] c[k] == (if k < i {
        holes[k]
    } else if k == i {
        h
    } else {
        holes[k - 1]
    }) by {}
    assert forall|a: int, b: int| 0 <= a < b < c.len() implies (#[trigger] c[a]).addr + c[a].size < (
    #[trigger] c[b]).addr by {
        let oa = if a < i {
            a
        } else {
            a - 1
        };
        let ob = if b < i {
            b
        } else {
            b - 1
        };
        if a != i && b != i {
            assert(holes[oa].addr + holes[oa].size < holes[ob].addr);
        } else if b == i && a < i - 1 {
            assert(holes[a].addr + holes[a].size < holes[i - 1].addr);
        } else if a == i && ob > i {
            assert(holes[i].addr + holes[i].size < holes[ob].addr);
        }
    }
    assert forall|k: int| 0 <= k < c.len() implies whole(#[trigger] c[k], base, end) by {
        if k < i {
            assert(c[k] == holes[k]);
        } else if k > i {
            assert(c[k] == holes[k - 1]);
        }
    }
    assert(canonical(c, base, end));
    assert forall|x: int| #[trigger] is_free(c, x) <==> is_free(holes, x) || inside(h, x) by {
        if is_free(c, x) && !inside(h, x) {
            let k = choose|k: int| 0 <= k < c.len() && #[trigger] inside(c[k], x);
            if k < i {
                assert(inside(holes[k], x));
            } else {
                assert(inside(holes[k - 1], x));
            }
        }
        if is_free(holes, x) {
            let k = choose|k: int| 0 <= k < holes.len() && #[trigger] inside(holes[k], x);
            if k < i {
                assert(inside(c[k], x));
            } else {
                assert(inside(c[k + 1], x));
            }
        }
        if inside(h, x) {
            assert(inside(c[i], x));
        }
    }
}

/// Taking a whole block off the list.
proof fn lemma_remove(holes: Seq<Hole>, base: int, end: int, i: int)
    requires
        canonical(holes, base, end),
        0 <= i < holes.len(),
    ensures
        canonical(holes.remove(i), base, end),
        free_bytes(holes.remove(i)) == free_bytes(holes) - holes[i].size,
        forall|x: int| #[trigger]
            is_free(holes.remove(i), x) <==> is_free(holes, x) && !inside(holes[i], x),
{
    let c = holes.remove(i);
    lemma_free_remove(holes, i);
    assert forall|k: int| 0 <= k < c.len() implies #[trigger] c[k] == (if k < i {
        holes[k]
    } else {
        holes[k + 1]
    }) by {}
    assert forall|a: int, b: int| 0 <= a < b < c.len() implies (#[trigger] c[a]).addr + c[a].size < (
    #[trigger] c[b]).addr by {
        let oa = if a < i {
            a
        } else {
            a + 1
        };
        let ob = if b < i {
            b
        } else {
            b + 1
        };
        assert(holes[oa].addr + holes[oa].size < holes[ob].addr);
    }
    assert(canonical(c, base, end));
    assert forall|x: int| #[trigger] is_free(c, x) <==> is_free(holes, x) && !inside(
        holes[i],
        x,
    ) by {
        if is_free(c, x) {
            let k = choose|k: int| 0 <= k < c.len() && #[trigger] inside(c[k], x);
            let at = if k < i {
                k
            } else {
                k + 1
            };
            assert(inside(holes[at], x));
            if inside(holes[i], x) {
                lemma_one_block(holes, base, end, i, at, x);
            }
        }
        if is_free(holes, x) && !inside(holes[i], x) {
            let k = choose|k: int| 0 <= k < holes.len() && #[trigger] inside(holes[k], x);
            if k < i {
                assert(inside(c[k], x));
            } else {
                assert(inside(c[k - 1], x));
            }
        }
    }
}

/// Cutting a block out of a hole keeps the list canonical and takes nothing
/// else.
proof fn lemma_carved(holes: Seq<Hole>, base: int, end: int, i: int, at: int, size: int)
    requires
        canonical(holes, base, end),
        end <= usize::MAX,
        0 <= i < holes.len(),
        holes[i].addr <= at,
        at + size <= holes[i].addr + holes[i].size,
        at % MIN_BLOCK as int == 0,
        size % MIN_BLOCK as int == 0,
        size >= MIN_BLOCK,
    ensures
        canonical(carved(holes, i, at, size), base, end),
        free_bytes(carved(holes, i, at, size)) == free_bytes(holes) - size,
        forall|x: int| #[trigger]
            is_free(carved(holes, i, at, size), x) <==> is_free(holes, x) && !(at <= x < at
                + size),
{
    let h = holes[i];
    let front = Hole { addr: h.addr, size: (at - h.addr) as usize };
    let back = Hole {
        addr: (at + size) as usize,
        size: (h.addr + h.size - at - size) as usize,
    };
    let c = carved(holes, i, at, size);
    assert(front.size % MIN_BLOCK == 0);
    assert(back.size % MIN_BLOCK == 0);
    assert(back.addr % MIN_BLOCK == 0);
    if i > 0 {
        assert(holes[i - 1].addr + holes[i - 1].size < h.addr);
    }
    if i + 1 < holes.len() {
        assert(h.addr + h.size < holes[i + 1].addr);
    }
    if front.size > 0 {
        let u = holes.update(i, front);
        lemma_replace(holes, base, end, i, front);
        if back.size > 0 {
            lemma_insert(u, base, end, i + 1, back);
        }
    } else if back.size > 0 {
        lemma_replace(holes, base, end, i, back);
    } else {
        lemma_remove(holes, base, end, i);
    }
    assert forall|x: int| #[trigger] is_free(c, x) <==> is_free(holes, x) && !(at <= x < at
        + size) by {
        if inside(h, x) {
            assert(is_free(holes, x));
        }
        if front.size > 0 && back.size > 0 {
            let u = holes.update(i, front);
            assert(is_free(u, x) <==> (is_free(holes, x) && !inside(h, x)) || inside(front, x));
        }
    }
}

/// `holes` with the block `[addr, addr + size)` put back at place `k`, merged
/// with whichever neighbours it touches.
spec fn merged(holes: Seq<Hole>, k: int, addr: int, size: int) -> Seq<Hole> {
    let fore = k < holes.len() && addr + size == holes[k].addr;
    let aft = k > 0 && holes[k - 1].addr + holes[k - 1].size == addr;
    if aft && fore {
        holes.update(
            k - 1,
            Hole {
                addr: holes[k - 1].addr,
                size: (holes[k - 1].size + size + holes[k].size) as usize,
            },
        ).remove(k)
    } else if aft {
        holes.update(
            k - 1,
            Hole { addr: holes[k - 1].addr, size: (holes[k - 1].size + size) as usize },
        )
    } else if fore {
        holes.update(k, Hole { addr: addr as usize, size: (size + holes[k].size) as usize })
    } else {
        holes.insert(k, Hole { addr: addr as usize, size: size as usize })
    }
}

/// Putting a block back keeps the list canonical and frees exactly it.
proof fn lemma_merged(holes: Seq<Hole>, base: int, end: int, k: int, addr: int, size: int)
    requires
        canonical(holes, base, end),
        0 <= base <= addr,
        addr + size <= end,
        end <= usize::MAX,
        addr % MIN_BLOCK as int == 0,
        size % MIN_BLOCK as int == 0,
        size >= MIN_BLOCK,
        0 <= k <= holes.len(),
        k > 0 ==> holes[k - 1].addr + holes[k - 1].size <= addr,
        k < holes.len() ==> addr + size <= holes[k].addr,
    ensures
        canonical(merged(holes, k, addr, size), base, end),
        free_bytes(merged(holes, k, addr, size)) == free_bytes(holes) + size,
        forall|x: int| #[trigger]
            is_free(merged(holes, k, addr, size), x) <==> is_free(holes, x) || (addr <= x < addr
                + size),
{
    let fore = k < holes.len() && addr + size == holes[k].addr;
    let aft = k > 0 && holes[k - 1].addr + holes[k - 1].size == addr;
    if aft && fore {
        lemma_merged_both(holes, base, end, k, addr, size);
    } else if aft {
        lemma_merged_aft(holes, base, end, k, addr, size);
    } else if fore {
        lemma_merged_fore(holes, base, end, k, addr, size);
    } else {
        lemma_merged_alone(holes, base, end, k, addr, size);
    }
}

/// A block that touches the hole before it only.
proof fn lemma_merged_aft(holes: Seq<Hole>, base: int, end: int, k: int, addr: int, size: int)
    requires
        canonical(holes, base, end),
        0 <= base,
        addr + size <= end,
        end <= usize::MAX,
        size % MIN_BLOCK as int == 0,
        size >= MIN_BLOCK,
        0 < k <= holes.len(),
        holes[k - 1].addr + holes[k - 1].size == addr,
        k < holes.len() ==> addr + size < holes[k].addr,
    ensures
        canonical(merged(holes, k, addr, size), base, end),
        free_bytes(merged(holes, k, addr, size)) == free_bytes(holes) + size,
        forall|x: int| #[trigger]
            is_free(merged(holes, k, addr, size), x) <==> is_free(holes, x) || (addr <= x < addr
                + size),
{
    let h = holes[k - 1];
    let one = Hole { addr: h.addr, size: (h.size + size) as usize };
    if k > 1 {
        assert(holes[k - 2].addr + holes[k - 2].size < h.addr);
    }
    assert(whole(one, base, end)) by {
        assert(whole(h, base, end));
    }
    lemma_replace(holes, base, end, k - 1, one);
    lemma_inside_is_free(holes, k - 1);
    let m = merged(holes, k, addr, size);
    assert(m == holes.update(k - 1, one));
    assert forall|x: int| #[trigger] is_free(m, x) <==> is_free(holes, x) || (addr <= x < addr
        + size) by {
        assert(inside(one, x) <==> inside(h, x) || (addr <= x < addr + size));
        assert(inside(holes[k - 1], x) ==> is_free(holes, x));
    }
}

/// A block that touches the hole after it only.
proof fn lemma_merged_fore(holes: Seq<Hole>, base: int, end: int, k: int, addr: int, size: int)
    requires
        canonical(holes, base, end),
        0 <= base <= addr,
        end <= usize::MAX,
        addr % MIN_BLOCK as int == 0,
        size % MIN_BLOCK as int == 0,
        size >= MIN_BLOCK,
        0 <= k < holes.len(),
        addr + size == holes[k].addr,
        k > 0 ==> holes[k - 1].addr + holes[k - 1].size < addr,
    ensures
        canonical(merged(holes, k, addr, size), base, end),
        free_bytes(merged(holes, k, addr, size)) == free_bytes(holes) + size,
        forall|x: int| #[trigger]
            is_free(merged(holes, k, addr, size), x) <==> is_free(holes, x) || (addr <= x < addr
                + size),
{
    let h = holes[k];
    let one = Hole { addr: addr as usize, size: (size + h.size) as usize };
    if k + 1 < holes.len() {
        assert(h.addr + h.size < holes[k + 1].addr);
    }
    assert(whole(one, base, end)) by {
        assert(whole(h, base, end));
    }
    lemma_replace(holes, base, end, k, one);
    lemma_inside_is_free(holes, k);
    let m = merged(holes, k, addr, size);
    assert(m == holes.update(k, one));
    assert forall|x: int| #[trigger] is_free(m, x) <==> is_free(holes, x) || (addr <= x < addr
        + size) by {
        assert(inside(one, x) <==> inside(h, x) || (addr <= x < addr + size));
        assert(inside(holes[k], x) ==> is_free(holes, x));
    }
}

/// A block that touches no hole.
proof fn lemma_merged_alone(holes: Seq<Hole>, base: int, end: int, k: int, addr: int, size: int)
    requires
        canonical(holes, base, end),
        0 <= base <= addr,
        addr + size <= end,
        end <= usize::MAX,
        addr % MIN_BLOCK as int == 0,
        size % MIN_BLOCK as int == 0,
        size >= MIN_BLOCK,
        0 <= k <= holes.len(),
        k > 0 ==> holes[k - 1].addr + holes[k - 1].size < addr,
        k < holes.len() ==> addr + size < holes[k].addr,
    ensures
        canonical(merged(holes, k, addr, size), base, end),
        free_bytes(merged(holes, k, addr, size)) == free_bytes(holes) + size,
        forall|x: int| #[trigger]
            is_free(merged(holes, k, addr, size), x) <==> is_free(holes, x) || (addr <= x < addr
                + size),
{
    let block = Hole { addr: addr as usize, size: size as usize };
    lemma_insert(holes, base, end, k, block);
    let m = merged(holes, k, addr, size);
    assert forall|x: int| #[trigger] is_free(m, x) <==> is_free(holes, x) || (addr <= x < addr
        + size) by {
        assert(inside(block, x) <==> addr <= x < addr + size);
    }
}

/// Every byte of a listed block is free.
proof fn lemma_inside_is_free(holes: Seq<Hole>, i: int)
    requires
        0 <= i < holes.len(),
    ensures
        forall|x: int| #[trigger] inside(holes[i], x) ==> is_free(holes, x),
{
}

proof fn lemma_merged_both(holes: Seq<Hole>, base: int, end: int, k: int, addr: int, size: int)
    requires
        canonical(holes, base, end),
        0 <= base,
        end <= usize::MAX,
        size % MIN_BLOCK as int == 0,
        size >= MIN_BLOCK,
        0 < k < holes.len(),
        holes[k - 1].addr + holes[k - 1].size == addr,
        addr + size == holes[k].addr,
    ensures
        canonical(merged(holes, k, addr, size), base, end),
        free_bytes(merged(holes, k, addr, size)) == free_bytes(holes) + size,
        forall|x: int| #[trigger]
            is_free(merged(holes, k, addr, size), x) <==> is_free(holes, x) || (addr <= x < addr
                + size),
{
    let a = holes[k - 1];
    let b = holes[k];
    let one = Hole { addr: a.addr, size: (a.size + size + b.size) as usize };
    let u = holes.remove(k);
    let m = merged(holes, k, addr, size);
    assert(whole(a, base, end) && whole(b, base, end));
    assert(whole(one, base, end));
    if k > 1 {
        assert(holes[k - 2].addr + holes[k - 2].size < a.addr);
        assert(u[k - 2] == holes[k - 2]);
    }
    if k + 1 < holes.len() {
        assert(b.addr + b.size < holes[k + 1].addr);
        assert(u[k] == holes[k + 1]);
    }
    lemma_remove(holes, base, end, k);
    assert(u[k - 1] == a);
    lemma_replace(u, base, end, k - 1, one);
    assert(m =~= u.update(k - 1, one));
    lemma_inside_is_free(holes, k - 1);
    lemma_inside_is_free(holes, k);
    assert forall|x: int| #[trigger] is_free(m, x) <==> is_free(holes, x) || (addr <= x < addr
        + size) by {
        assert(is_free(u, x) <==> is_free(holes, x) && !inside(b, x));
        assert(inside(one, x) <==> inside(a, x) || inside(b, x) || (addr <= x < addr + size));
    }
}

impl Heap {
    /// Allocates per `layout` from the first free block with room;
    /// [`AllocError`] on exhaustion. The block is aligned as asked, inside the
    /// region, and apart from every other one handed out.
    pub fn try_alloc(&mut self, layout: Layout) -> (r: Result<usize, AllocError>)
        requires
            old(self).wf(),
            layout.valid(),
        ensures
            final(self).wf(),
            match r {
                Ok(addr) => {
                    let v = old(self)@;
                    let w = final(self)@;
                    &&& v.fit(layout) < v.holes.len()
                    &&& addr == v.place(layout)
                    &&& addr as int % block_align(layout) == 0
                    &&& forall|x: int|
                        addr <= x < addr + block_size(layout) ==> #[trigger] is_free(v.holes, x)
                    &&& forall|x: int| #[trigger]
                        is_free(w.holes, x) <==> is_free(v.holes, x) && !(addr <= x < addr
                            + block_size(layout))
                    &&& w.used == v.used + block_size(layout)
                    &&& w.live == v.live.insert(addr as int, block_size(layout))
                    &&& w.base == v.base
                    &&& w.end == v.end
                },
                Err(_) => {
                    &&& *final(self) == *old(self)
                    &&& old(self)@.fit(layout) == old(self)@.holes.len()
                },
            },
    {
        let (size, align) = match normalize(layout) {
            Ok((s, a)) => (s, a),
            Err(e) => {
                proof {
                    let holes = self@.holes;
                    let q = has_room(block_size(layout), block_align(layout));
                    lemma_too_large(layout);
                    lemma_align(layout);
                    assert forall|j: int| 0 <= j < holes.len() implies !q(#[trigger] holes[j]) by {
                        lemma_round_up(holes[j].addr as int, block_align(layout));
                    }
                    slots::lemma_first_is(holes, q, holes.len() as int);
                }
                return Err(e);
            },
        };
        let ghost v = self@;
        let ghost p = has_room(size as int, align as int);
        proof {
            lemma_align(layout);
        }
        let mut i: usize = 0;
        while i < self.holes.len()
            invariant
                self@ == v,
                *self == *old(self),
                v.wf(),
                size == block_size(layout),
                align == block_align(layout),
                align >= MIN_BLOCK,
                align as int % MIN_BLOCK as int == 0,
                p == has_room(size as int, align as int),
                i <= v.holes.len(),
                forall|j: int| 0 <= j < i ==> !p(#[trigger] v.holes[j]),
            decreases v.holes.len() - i,
        {
            let hole: Hole = self.holes[i];
            proof {
                lemma_round_up(hole.addr as int, align as int);
                lemma_round_up(
                    if layout.size == 0 {
                        1
                    } else {
                        layout.size as int
                    },
                    MIN_BLOCK as int,
                );
                assert(hole == v.holes[i as int]);
                assert(hole.addr + hole.size <= v.end);
                lemma_round_up_by_rest(hole.addr as int, align as int);
            }
            let rest: usize = hole.addr % align;
            let pad: usize = if rest == 0 {
                0
            } else {
                align - rest
            };
            let available: usize = hole.size.saturating_sub(pad);
            if available < size {
                assert(!p(v.holes[i as int]));
                i += 1;
                continue;
            }
            let at: usize = hole.addr + pad;
            assert(at == round_up(hole.addr as int, align as int));
            assert(at + size <= hole.addr + hole.size);
            let tail: usize = available - size;
            proof {
                slots::lemma_first_is(v.holes, p, i as int);
                lemma_mod_chain(at as int, align as int);
                lemma_carved(v.holes, v.base, v.end, i as int, at as int, size as int);
                lemma_free_bounded(v.holes, v.base, v.end);
                lemma_free_bounded(
                    carved(v.holes, i as int, at as int, size as int),
                    v.base,
                    v.end,
                );
            }
            if pad > 0 {
                self.holes[i] = Hole { addr: hole.addr, size: pad };
                if tail > 0 {
                    self.holes.insert(i + 1, Hole { addr: at + size, size: tail });
                }
            } else if tail > 0 {
                self.holes[i] = Hole { addr: at + size, size: tail };
            } else {
                let _ = self.holes.remove(i);
            }
            assert(self.holes@ =~= carved(v.holes, i as int, at as int, size as int));
            self.used = self.used + size;
            let live: Ghost<Map<int, int>> = Ghost(self.live@.insert(at as int, size as int));
            self.live = live;
            proof {
                let w = self@;
                assert forall|a: int| #[trigger] w.live.contains_key(a) implies {
                    &&& w.live[a] >= MIN_BLOCK
                    &&& w.live[a] % MIN_BLOCK as int == 0
                    &&& a % MIN_BLOCK as int == 0
                    &&& w.base <= a
                    &&& a + w.live[a] <= w.end
                } by {
                    if a != at {
                        assert(v.live.contains_key(a));
                    }
                }
                assert forall|x: int| at <= x < at + size implies #[trigger] is_free(
                    v.holes,
                    x,
                ) by {
                    assert(inside(v.holes[i as int], x));
                }
                assert forall|a: int, b: int| #[trigger]
                    w.live.contains_key(a) && #[trigger] w.live.contains_key(b) && a
                        < b implies a + w.live[a] <= b by {
                    if a == at && b != at {
                        if a + w.live[a] > b {
                            assert(is_free(v.holes, b));
                            assert(v.live.contains_key(b));
                        }
                    } else if b == at && a != at {
                        if a + w.live[a] > b {
                            assert(is_free(v.holes, b));
                            assert(v.live.contains_key(a));
                        }
                    } else if a != at {
                        assert(v.live.contains_key(a) && v.live.contains_key(b));
                    }
                }
                assert forall|a: int, x: int| #[trigger]
                    w.live.contains_key(a) && a <= x < a + w.live[a] implies !#[trigger] is_free(
                    w.holes,
                    x,
                ) by {
                    if a != at {
                        assert(v.live.contains_key(a));
                    }
                }
            }
            return Ok(at);
        }
        proof {
            slots::lemma_first_is(v.holes, p, i as int);
        }
        Err(AllocError)
    }

    /// Returns an allocation. `addr` must come from
    /// [`try_alloc`](Self::try_alloc) on this heap with this exact `layout`.
    pub fn dealloc(&mut self, addr: usize, layout: Layout)
        requires
            old(self).wf(),
            old(self)@.live.contains_key(addr as int),
            old(self)@.live[addr as int] == block_size(layout),
        ensures
            final(self).wf(),
            ({
                let v = old(self)@;
                let w = final(self)@;
                &&& forall|x: int| #[trigger]
                    is_free(w.holes, x) <==> is_free(v.holes, x) || (addr <= x < addr + block_size(
                        layout,
                    ))
                &&& w.used == v.used - block_size(layout)
                &&& w.live == v.live.remove(addr as int)
                &&& w.base == v.base
                &&& w.end == v.end
            }),
    {
        let ghost v = self@;
        let (size, _) = match normalize(layout) {
            Ok((s, a)) => (s, a),
            Err(_) => {
                proof {
                    lemma_round_up(layout.size as int, MIN_BLOCK as int);
                    lemma_too_large(layout);
                }
                return;
            },
        };
        proof {
            lemma_free_bounded(v.holes, v.base, v.end);
        }
        self.insert_hole(addr, size);
        proof {
            lemma_free_bounded(self@.holes, v.base, v.end);
        }
        self.used = self.used - size;
        let live: Ghost<Map<int, int>> = Ghost(self.live@.remove(addr as int));
        self.live = live;
        proof {
            let w = self@;
            assert forall|a: int, x: int| #[trigger]
                w.live.contains_key(a) && a <= x < a + w.live[a] implies !#[trigger] is_free(
                w.holes,
                x,
            ) by {
                assert(v.live.contains_key(a));
                assert(v.live.contains_key(addr as int));
                if addr <= x < addr + size {
                    if a < addr {
                        assert(a + v.live[a] <= addr);
                    } else {
                        assert(addr + v.live[addr as int] <= a);
                    }
                }
            }
            assert forall|a: int, b: int| #[trigger]
                w.live.contains_key(a) && #[trigger] w.live.contains_key(b) && a < b implies a
                + w.live[a] <= b by {
                assert(v.live.contains_key(a) && v.live.contains_key(b));
            }
            assert forall|a: int| #[trigger] w.live.contains_key(a) implies w.live[a]
                >= MIN_BLOCK by {
                assert(v.live.contains_key(a));
            }
        }
    }

    /// Inserts a free block into the address-ordered list, merging it with
    /// adjacent ones.
    fn insert_hole(&mut self, addr: usize, size: usize)
        requires
            old(self)@.base >= 0,
            old(self)@.end <= usize::MAX,
            canonical(old(self)@.holes, old(self)@.base, old(self)@.end),
            old(self)@.base <= addr,
            addr + size <= old(self)@.end,
            addr % MIN_BLOCK == 0,
            size % MIN_BLOCK == 0,
            size >= MIN_BLOCK,
            forall|x: int| addr <= x < addr + size ==> !#[trigger] is_free(old(self)@.holes, x),
        ensures
            final(self)@ == (HeapView { holes: final(self)@.holes, ..old(self)@ }),
            canonical(final(self)@.holes, old(self)@.base, old(self)@.end),
            free_bytes(final(self)@.holes) == free_bytes(old(self)@.holes) + size,
            forall|x: int| #[trigger]
                is_free(final(self)@.holes, x) <==> is_free(old(self)@.holes, x) || (addr <= x
                    < addr + size),
    {
        let ghost v = self@;
        let ghost holes = self@.holes;
        let mut k: usize = 0;
        while k < self.holes.len() && self.holes[k].addr < addr
            invariant
                self@ == v,
                holes == v.holes,
                *self == *old(self),
                k <= holes.len(),
                forall|j: int| 0 <= j < k ==> (#[trigger] holes[j]).addr < addr,
            decreases holes.len() - k,
        {
            k += 1;
        }
        proof {
            assert forall|j: int| k <= j < holes.len() implies (#[trigger] holes[j]).addr >= addr by {
                if j > k {
                    assert(holes[k as int].addr + holes[k as int].size < holes[j].addr);
                }
            }
            if k > 0 {
                let h = holes[k - 1];
                if h.addr + h.size > addr {
                    assert(inside(h, addr as int));
                    assert(is_free(holes, addr as int));
                }
            }
            if k < holes.len() {
                let h = holes[k as int];
                assert(h.addr + h.size <= v.end);
                if h.addr < addr + size {
                    assert(inside(h, h.addr as int));
                    assert(is_free(holes, h.addr as int));
                }
            }
            lemma_merged(holes, v.base, v.end, k as int, addr as int, size as int);
        }
        let mut new_size: usize = size;
        let mut fore: bool = false;
        if k < self.holes.len() {
            let c: Hole = self.holes[k];
            if addr + size == c.addr {
                fore = true;
                new_size = size + c.size;
            }
        }
        let mut aft: bool = false;
        if k > 0 {
            let p: Hole = self.holes[k - 1];
            if p.addr + p.size == addr {
                aft = true;
                self.holes[k - 1] = Hole { addr: p.addr, size: p.size + new_size };
                if fore {
                    let _ = self.holes.remove(k);
                }
            }
        }
        if !aft {
            if fore {
                self.holes[k] = Hole { addr, size: new_size };
            } else {
                self.holes.insert(k, Hole { addr, size });
            }
        }
        assert(self.holes@ =~= merged(holes, k as int, addr as int, size as int));
    }
}

/// Rounding up adds what is missing to the next multiple.
proof fn lemma_round_up_by_rest(x: int, n: int)
    requires
        x >= 0,
        n > 0,
    ensures
        round_up(x, n) == if x % n == 0 {
            x
        } else {
            x + n - x % n
        },
{
    let q = x / n;
    let r = x % n;
    vstd::arithmetic::div_mod::lemma_fundamental_div_mod(x, n);
    vstd::arithmetic::div_mod::lemma_mod_bound(x, n);
    if r == 0 {
        assert(x + n - 1 == q * n + (n - 1)) by (nonlinear_arith)
            requires
                x == n * q + r,
                r == 0,
        ;
        vstd::arithmetic::div_mod::lemma_fundamental_div_mod_converse(x + n - 1, n, q, n - 1);
        assert(q * n == x) by (nonlinear_arith)
            requires
                x == n * q + r,
                r == 0,
        ;
    } else {
        assert(x + n - 1 == (q + 1) * n + (r - 1)) by (nonlinear_arith)
            requires
                x == n * q + r,
        ;
        vstd::arithmetic::div_mod::lemma_fundamental_div_mod_converse(x + n - 1, n, q + 1, r - 1);
        assert((q + 1) * n == x + n - r) by (nonlinear_arith)
            requires
                x == n * q + r,
        ;
    }
}

/// No block handed out is as large as a request that is rejected outright.
proof fn lemma_too_large(layout: Layout)
    requires
        layout.size + MIN_BLOCK - 1 > usize::MAX,
    ensures
        block_size(layout) > usize::MAX,
{
    lemma_round_up(layout.size as int, MIN_BLOCK as int);
}

/// A canonical free list is determined by which bytes are free.
pub proof fn law_free_list_is_canonical(a: Seq<Hole>, b: Seq<Hole>, base: int, end: int)
    requires
        canonical(a, base, end),
        canonical(b, base, end),
        forall|x: int| is_free(a, x) == #[trigger] is_free(b, x),
    ensures
        a == b,
    decreases a.len(),
{
    if a.len() == 0 || b.len() == 0 {
        if a.len() > 0 {
            assert(inside(a[0], a[0].addr as int));
            assert(is_free(a, a[0].addr as int) == is_free(b, a[0].addr as int));
        }
        if b.len() > 0 {
            assert(inside(b[0], b[0].addr as int));
            assert(is_free(b, b[0].addr as int));
        }
        assert(a =~= b);
    } else {
        let m = a.len() - 1;
        let n = b.len() - 1;
        lemma_last_reaches(a, b, base, end);
        lemma_last_reaches(b, a, base, end);
        assert(a[m].addr + a[m].size == b[n].addr + b[n].size);
        lemma_last_starts(a, b, base, end);
        lemma_last_starts(b, a, base, end);
        assert(a[m] == b[n]);
        lemma_remove(a, base, end, m);
        lemma_remove(b, base, end, n);
        assert(a.remove(m) =~= a.drop_last());
        assert(b.remove(n) =~= b.drop_last());
        assert forall|x: int| is_free(a.drop_last(), x) == #[trigger] is_free(
            b.drop_last(),
            x,
        ) by {
            assert(is_free(a.remove(m), x) <==> is_free(a, x) && !inside(a[m], x));
            assert(is_free(b.remove(n), x) <==> is_free(b, x) && !inside(b[n], x));
        }
        law_free_list_is_canonical(a.drop_last(), b.drop_last(), base, end);
        assert(a =~= a.drop_last().push(a[m]));
        assert(b =~= b.drop_last().push(b[n]));
    }
}

/// The last block of `a` reaches no further than the last block of `b`, when
/// everything free in `a` is free in `b`.
proof fn lemma_last_reaches(a: Seq<Hole>, b: Seq<Hole>, base: int, end: int)
    requires
        canonical(a, base, end),
        canonical(b, base, end),
        a.len() > 0,
        b.len() > 0,
        forall|x: int| is_free(a, x) == #[trigger] is_free(b, x),
    ensures
        a.last().addr + a.last().size <= b.last().addr + b.last().size,
{
    let m = a.len() - 1;
    let n = b.len() - 1;
    let x = a[m].addr + a[m].size - 1;
    assert(inside(a[m], x));
    assert(is_free(b, x));
    let k = choose|k: int| 0 <= k < b.len() && #[trigger] inside(b[k], x);
    if k < n {
        assert(b[k].addr + b[k].size < b[n].addr);
    }
}

/// Nor does it start later.
proof fn lemma_last_starts(a: Seq<Hole>, b: Seq<Hole>, base: int, end: int)
    requires
        canonical(a, base, end),
        canonical(b, base, end),
        a.len() > 0,
        b.len() > 0,
        forall|x: int| is_free(a, x) == #[trigger] is_free(b, x),
        a.last().addr + a.last().size == b.last().addr + b.last().size,
    ensures
        b.last().addr <= a.last().addr,
{
    let m = a.len() - 1;
    let n = b.len() - 1;
    if a[m].addr < b[n].addr {
        let x = b[n].addr - 1;
        assert(inside(a[m], x));
        assert(is_free(b, x));
        let k = choose|k: int| 0 <= k < b.len() && #[trigger] inside(b[k], x);
        if k < n {
            assert(b[k].addr + b[k].size < b[n].addr);
        }
    }
}

/// Giving back what was just allocated leaves the heap exactly as it was, to
/// the free list: nothing is lost and nothing stays fragmented.
pub proof fn law_alloc_then_dealloc_restores(
    before: HeapView,
    during: HeapView,
    after: HeapView,
    addr: int,
    size: int,
)
    requires
        before.wf(),
        during.wf(),
        after.wf(),
        // what an allocation did
        forall|x: int| addr <= x < addr + size ==> #[trigger] is_free(before.holes, x),
        forall|x: int| #[trigger]
            is_free(during.holes, x) <==> is_free(before.holes, x) && !(addr <= x < addr + size),
        during.used == before.used + size,
        during.live == before.live.insert(addr, size),
        during.base == before.base,
        during.end == before.end,
        size > 0,
        // what giving it back did
        forall|x: int| #[trigger]
            is_free(after.holes, x) <==> is_free(during.holes, x) || (addr <= x < addr + size),
        after.used == during.used - size,
        after.live == during.live.remove(addr),
        after.base == during.base,
        after.end == during.end,
    ensures
        after == before,
{
    assert forall|x: int| is_free(before.holes, x) == #[trigger] is_free(after.holes, x) by {
        assert(is_free(during.holes, x) <==> is_free(before.holes, x) && !(addr <= x < addr
            + size));
        if addr <= x < addr + size {
            assert(is_free(before.holes, x));
        }
    }
    law_free_list_is_canonical(before.holes, after.holes, before.base, before.end);
    assert(!before.live.contains_key(addr)) by {
        if before.live.contains_key(addr) {
            assert(is_free(before.holes, addr));
        }
    }
    assert(after.live =~= before.live);
    assert(after =~= before);
}

/// Two blocks handed out never overlap.
pub proof fn law_live_blocks_are_disjoint(v: HeapView, a: int, b: int, x: int)
    requires
        v.wf(),
        v.live.contains_key(a),
        v.live.contains_key(b),
        a != b,
    ensures
        !(a <= x < a + v.live[a] && b <= x < b + v.live[b]),
{
    if a < b {
        assert(a + v.live[a] <= b);
    } else {
        assert(b + v.live[b] <= a);
    }
}

/// A block is large enough for what was asked and no larger than rounding makes
/// it, and aligned at least as asked.
pub proof fn law_a_block_covers_its_layout(layout: Layout)
    ensures
        block_size(layout) >= layout.size,
        block_size(layout) >= MIN_BLOCK,
        block_size(layout) % MIN_BLOCK as int == 0,
        layout.size > 0 ==> block_size(layout) < layout.size + MIN_BLOCK,
        layout.size == 0 ==> block_size(layout) == MIN_BLOCK,
        block_align(layout) >= layout.align,
        block_align(layout) >= MIN_BLOCK,
        layout.align >= MIN_BLOCK ==> block_align(layout) == layout.align,
        layout.align < MIN_BLOCK ==> block_align(layout) == MIN_BLOCK,
{
    lemma_round_up(
        if layout.size == 0 {
            1
        } else {
            layout.size as int
        },
        MIN_BLOCK as int,
    );
}

/// An allocation is placed in the first free block that has room for it at an
/// aligned address, at the lowest such address of it; it fails only when no free
/// block has room.
pub proof fn law_the_first_block_with_room_is_used(v: HeapView, layout: Layout, k: int, at: int)
    requires
        v.wf(),
        0 <= k < v.holes.len(),
        v.holes[k].addr <= at,
        at % block_align(layout) == 0,
        at + block_size(layout) <= v.holes[k].addr + v.holes[k].size,
    ensures
        0 <= v.fit(layout) <= k,
        ({
            let h = v.holes[v.fit(layout)];
            &&& h.addr <= v.place(layout)
            &&& v.place(layout) + block_size(layout) <= h.addr + h.size
            &&& v.place(layout) % block_align(layout) == 0
            &&& v.place(layout) < h.addr + block_align(layout)
            &&& v.fit(layout) == k ==> v.place(layout) <= at
        }),
{
    let size = block_size(layout);
    let align = block_align(layout);
    let p = has_room(size, align);
    slots::lemma_first(v.holes, p);
    lemma_round_up(v.holes[k].addr as int, align);
    lemma_lowest_aligned(v.holes[k].addr as int, align, at);
    assert(p(v.holes[k]));
    let f = v.fit(layout);
    if f > k {
        assert(!p(v.holes[k]));
    }
    assert(p(v.holes[f]));
    lemma_round_up(v.holes[f].addr as int, align);
}

/// Rounding up finds the lowest multiple.
proof fn lemma_lowest_aligned(x: int, n: int, at: int)
    requires
        0 <= x <= at,
        n > 0,
        at % n == 0,
    ensures
        round_up(x, n) <= at,
{
    lemma_round_up(x, n);
    let r = round_up(x, n);
    if r > at {
        vstd::arithmetic::div_mod::lemma_fundamental_div_mod(r, n);
        vstd::arithmetic::div_mod::lemma_fundamental_div_mod(at, n);
        let a = r / n;
        let b = at / n;
        assert(n * a > n * b && n * a < n * b + n);
        assert(false) by (nonlinear_arith)
            requires
                n > 0,
                n * a > n * b,
                n * a < n * b + n,
        ;
    }
}

/// What is free is what the free blocks hold, byte by byte, and how much that is
/// is their sizes together.
pub proof fn law_free_bytes_are_those_of_the_blocks(holes: Seq<Hole>, h: Hole, x: int)
    ensures
        is_free(holes, x) <==> exists|i: int|
            0 <= i < holes.len() && (#[trigger] holes[i]).addr <= x < holes[i].addr + holes[i].size,
        free_bytes(holes.push(h)) == free_bytes(holes) + h.size,
        free_bytes(Seq::empty()) == 0,
{
    assert(holes.push(h).drop_last() =~= holes);
    if is_free(holes, x) {
        let i = choose|i: int| 0 <= i < holes.len() && #[trigger] inside(holes[i], x);
        assert(holes[i].addr <= x < holes[i].addr + holes[i].size);
    }
    if exists|i: int|
        0 <= i < holes.len() && (#[trigger] holes[i]).addr <= x < holes[i].addr + holes[i].size {
        let i = choose|i: int|
            0 <= i < holes.len() && (#[trigger] holes[i]).addr <= x < holes[i].addr + holes[i].size;
        assert(inside(holes[i], x));
    }
}

} // verus!
