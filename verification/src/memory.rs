//! Address arithmetic and the reserved blocks that the allocators hand out from.

use vstd::prelude::*;
use vstd::arithmetic::power2::is_pow2;
use vstd::arithmetic::div_mod::lemma_mod_breakdown;
use vstd::arithmetic::div_mod::lemma_fundamental_div_mod;
use vstd::arithmetic::div_mod::lemma_mod_multiples_vanish;
use vstd::arithmetic::div_mod::lemma_small_mod;

verus! {

/// The least multiple of `align` that is not below `addr`.
pub open spec fn align_up(addr: int, align: int) -> int
    recommends
        align > 0,
{
    if addr % align == 0 {
        addr
    } else {
        addr + align - addr % align
    }
}

/// `align_up` names a multiple of `align`, at most `align - 1` above `addr`,
/// and no multiple of `align` lies between `addr` and it.
pub proof fn lemma_align_up_is_least(addr: int, align: int)
    requires
        align > 0,
    ensures
        align_up(addr, align) % align == 0,
        addr <= align_up(addr, align) < addr + align,
        forall|m: int| addr <= m && #[trigger] (m % align) == 0 ==> align_up(addr, align) <= m,
{
    let r = addr % align;
    let up = align_up(addr, align);
    if r != 0 {
        lemma_fundamental_div_mod(addr, align);
        assert(up == align * (addr / align + 1)) by (nonlinear_arith)
            requires
                up == addr + align - r,
                addr == align * (addr / align) + r,
        ;
        lemma_mod_multiples_vanish(addr / align + 1, 0, align);
        lemma_small_mod(0, align as nat);
    }
    assert forall|m: int| addr <= m && #[trigger] (m % align) == 0 implies up <= m by {
        lemma_fundamental_div_mod(m, align);
        lemma_fundamental_div_mod(addr, align);
        if m < up {
            assert(false) by (nonlinear_arith)
                requires
                    align > 0,
                    m == align * (m / align),
                    addr == align * (addr / align) + r,
                    0 < r < align,
                    addr <= m < addr + align - r,
            ;
        }
    }
}

/// A number is a power of two exactly when it shares no bit with its predecessor.
proof fn lemma_single_bit(n: u64)
    ensures
        is_pow2(n as int) <==> n > 0 && n & ((n - 1) as u64) == 0,
    decreases n,
{
    reveal(is_pow2);
    if n > 1 {
        let h: u64 = n / 2;
        lemma_single_bit(h);
        assert(n > 1 && h == n / 2 ==> ((n & ((n - 1) as u64) == 0) <==> (n % 2 == 0 && h & ((h - 1) as u64)
            == 0))) by (bit_vector);
    } else if n == 1 {
        assert(1u64 & ((1u64 - 1) as u64) == 0) by (bit_vector);
    }
}

/// Masking with a power of two less one gives the remainder by that power.
proof fn lemma_mask_is_remainder(x: u64, a: u64)
    requires
        is_pow2(a as int),
    ensures
        x & ((a - 1) as u64) == x % a,
    decreases a,
{
    reveal(is_pow2);
    if a == 1 {
        assert(x & ((1u64 - 1) as u64) == 0) by (bit_vector);
    } else {
        let b: u64 = a / 2;
        let y: u64 = x / 2;
        lemma_mask_is_remainder(y, b);
        assert(a >= 2 && a % 2 == 0 && b == a / 2 && y == x / 2 ==> x & ((a - 1) as u64) == (y & ((b
            - 1) as u64)) * 2 + x % 2) by (bit_vector);
        lemma_mod_breakdown(x as int, 2, b as int);
        assert(2 * (b as int) == a);
    }
}

/// Whether `n` is a power of two.
pub fn is_power_of_two(n: usize) -> (b: bool)
    ensures
        b == is_pow2(n as int),
{
    proof {
        lemma_single_bit(n as u64);
    }
    if n == 0 {
        false
    } else {
        let w: u64 = n as u64;
        (w & (w - 1)) == 0
    }
}

/// Rounds `addr` up to the next multiple of `align`, by a bit mask where
/// `align` is a power of two and by a remainder otherwise; `None` where
/// `align` is zero or the multiple does not fit in a `usize`.
pub fn round_up(addr: usize, align: usize) -> (r: Option<usize>)
    ensures
        r is Some <==> align > 0 && align_up(addr as int, align as int) <= usize::MAX,
        r is Some ==> r.unwrap() == align_up(addr as int, align as int),
{
    if align == 0 {
        return None;
    }
    let rem: usize = if is_power_of_two(align) {
        proof {
            lemma_mask_is_remainder(addr as u64, align as u64);
        }
        let mask: u64 = (align as u64) - 1;
        ((addr as u64) & mask) as usize
    } else {
        addr % align
    };
    if rem == 0 {
        Some(addr)
    } else {
        addr.checked_add(align - rem)
    }
}

/// The least power of two that is not below `n`.
pub open spec fn next_pow2(n: int) -> int
    decreases n,
{
    if n <= 1 {
        1
    } else {
        2 * next_pow2((n + 1) / 2)
    }
}

/// Of two different powers of two, the larger is at least twice the smaller.
proof fn lemma_pow2_gap(p: int, q: int)
    requires
        is_pow2(p),
        is_pow2(q),
        p < q,
    ensures
        2 * p <= q,
    decreases q,
{
    reveal(is_pow2);
    if p > 1 {
        lemma_pow2_gap(p / 2, q / 2);
    }
}

/// `next_pow2(n)` is a power of two, is not below `n`, and no power of two
/// lies between `n` and it.
pub proof fn lemma_next_pow2_is_least(n: int)
    ensures
        is_pow2(next_pow2(n)),
        n <= next_pow2(n),
        n >= 1 ==> next_pow2(n) < 2 * n,
        forall|q: int| n <= q && #[trigger] is_pow2(q) ==> next_pow2(n) <= q,
    decreases n,
{
    reveal(is_pow2);
    if n > 1 {
        lemma_next_pow2_is_least((n + 1) / 2);
        assert(is_pow2(next_pow2(n)));
    }
    let np = next_pow2(n);
    assert forall|q: int| n <= q && #[trigger] is_pow2(q) implies np <= q by {
        if q < np {
            lemma_pow2_gap(q, np);
        }
    }
}

/// The least power of two that is not below `n`; `None` where it does not fit
/// in a `usize`.
pub fn next_power_of_two(n: usize) -> (r: Option<usize>)
    ensures
        r is Some <==> next_pow2(n as int) <= usize::MAX,
        r is Some ==> r.unwrap() == next_pow2(n as int),
{
    proof {
        reveal(is_pow2);
        lemma_next_pow2_is_least(n as int);
    }
    let mut p: usize = 1;
    while p < n
        invariant
            p >= 1,
            is_pow2(p as int),
            p == 1 || p < 2 * n,
            is_pow2(next_pow2(n as int)),
            n <= next_pow2(n as int),
            n >= 1 ==> next_pow2(n as int) < 2 * n,
        decreases usize::MAX - p,
    {
        match p.checked_add(p) {
            Some(q) => {
                proof {
                    reveal(is_pow2);
                }
                p = q;
            },
            None => {
                proof {
                    if p < next_pow2(n as int) {
                        lemma_pow2_gap(p as int, next_pow2(n as int));
                    }
                }
                return None;
            },
        }
    }
    proof {
        let np = next_pow2(n as int);
        if p < np {
            lemma_pow2_gap(p as int, np);
        } else if np < p {
            lemma_pow2_gap(np, p as int);
        }
    }
    Some(p)
}

/// Whether a region of `size` bytes aligned to `align` may be asked for: both
/// are positive, and the region together with the `align - 1` bytes of slack
/// that bring its start to a multiple of `align` stays within `isize::MAX`.
pub open spec fn request_fits(size: int, align: int) -> bool {
    size > 0 && align > 0 && size + align - 1 <= isize::MAX
}

/// Whether a region of `size` bytes aligned to `align` can be placed in a
/// buffer that begins at `base`: its start is not the null address and its end
/// is an address.
pub open spec fn placeable(base: int, size: int, align: int) -> bool {
    &&& size > 0
    &&& align > 0
    &&& align_up(base, align) > 0
    &&& align_up(base, align) + size <= usize::MAX
}

/// Address of the first byte of the buffer that `store` has reserved.
///
/// Calls `Vec::as_ptr`. The address is whatever the system allocator gave, so
/// nothing is claimed of it.
#[verifier::external_body]
fn buffer_address(store: &Vec<u8>) -> usize {
    store.as_ptr() as usize
}

/// A reserved region of memory: `size` bytes that begin at an address aligned
/// to `align`. The region is released when the block is dropped.
pub struct Block {
    store: Vec<u8>,
    start: usize,
    size: usize,
    align: usize,
}

impl Block {
    /// Address of the region's first byte.
    pub closed spec fn start(&self) -> int {
        self.start as int
    }

    /// Number of bytes in the region.
    pub closed spec fn size(&self) -> int {
        self.size as int
    }

    /// The alignment that the region was asked with.
    pub closed spec fn alignment(&self) -> int {
        self.align as int
    }

    /// The region is not empty, does not begin at the null address, begins at
    /// a multiple of its alignment and ends at an address.
    pub closed spec fn wf(&self) -> bool {
        &&& self.size > 0
        &&& self.align > 0
        &&& self.start > 0
        &&& self.start as int % self.align as int == 0
        &&& self.start + self.size <= usize::MAX
    }

    /// What `wf` says, over the block's public model.
    pub proof fn lemma_wf(&self)
        requires
            self.wf(),
        ensures
            self.size() > 0,
            self.alignment() > 0,
            self.start() > 0,
            self.start() % self.alignment() == 0,
            self.start() + self.size() <= usize::MAX,
    {
    }

    /// The region of `size` bytes aligned to `align` inside a buffer `store`
    /// that begins at `base`: it starts at the first multiple of `align` in
    /// the buffer.
    pub fn place(store: Vec<u8>, base: usize, size: usize, align: usize) -> (r: Option<Block>)
        ensures
            r is Some <==> placeable(base as int, size as int, align as int),
            r is Some ==> {
                &&& r.unwrap().wf()
                &&& r.unwrap().start() == align_up(base as int, align as int)
                &&& r.unwrap().size() == size
                &&& r.unwrap().alignment() == align
            },
    {
        if size == 0 {
            return None;
        }
        match round_up(base, align) {
            None => None,
            Some(start) => {
                proof {
                    lemma_align_up_is_least(base as int, align as int);
                }
                if start == 0 || start > usize::MAX - size {
                    None
                } else {
                    Some(Block { store, start, size, align })
                }
            },
        }
    }

    /// Reserves a region of `size` bytes aligned to `align` from the system
    /// allocator. A request that does not fit is refused; one that fits
    /// succeeds or not as the system allocator decides.
    pub fn reserve(size: usize, align: usize) -> (r: Option<Block>)
        ensures
            !request_fits(size as int, align as int) ==> r is None,
            r is Some ==> {
                &&& r.unwrap().wf()
                &&& r.unwrap().size() == size
                &&& r.unwrap().alignment() == align
            },
    {
        if size == 0 || align == 0 {
            return None;
        }
        let limit: usize = isize::MAX as usize;
        let slack: usize = align - 1;
        if slack > limit || size > limit - slack {
            return None;
        }
        let mut store: Vec<u8> = Vec::new();
        match store.try_reserve(size + slack) {
            Ok(_) => {
                let base: usize = buffer_address(&store);
                Block::place(store, base, size, align)
            },
            Err(_) => None,
        }
    }

    /// Address of the region's first byte.
    pub fn address(&self) -> (a: usize)
        ensures
            a == self.start(),
    {
        self.start
    }

    /// Number of bytes in the region.
    pub fn len(&self) -> (n: usize)
        ensures
            n == self.size(),
    {
        self.size
    }
}

} // verus!
