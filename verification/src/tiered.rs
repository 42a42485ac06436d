use vstd::prelude::*;
use vstd::arithmetic::div_mod::{
    lemma_fundamental_div_mod, lemma_fundamental_div_mod_converse_div,
    lemma_fundamental_div_mod_converse_mod, lemma_mod_division_less_than_divisor,
    lemma_div_pos_is_pos, lemma_div_nonincreasing,
};
use vstd::arithmetic::mul::{
    lemma_mul_inequality, lemma_mul_is_distributive_add_other_way, lemma_mul_nonnegative,
};

verus! {

/// The caller-recoverable failures of this container: a construction request
/// the container rejects, or an index outside the permitted range.
#[derive(Debug, Clone, Copy, PartialEq, Eq, Structural)]
pub enum TieredError {
    /// A container cannot be created with a requested capacity of zero.
    ZeroCapacity,
    /// The element type has size zero; the tiered layout's cost model is
    /// meaningless for such types, so they are rejected at construction.
    ZeroSizedElement,
    /// The index lies outside the range the operation permits.
    IndexOutOfBounds,
}

/// A dynamic sequence container backed by one contiguous buffer that is
/// organized into `t_count` tiers of `t_size` slots each. Every tier is a
/// circular buffer: its logical slot 0 sits at the physical position given by
/// its entry in `offsets`. Logical index `i` lives in tier `i / t_size` at
/// physical slot `rotated_slot(t_size, offset, i % t_size)` of that tier.
#[derive(Debug, Clone)]
pub struct VecTiered<T> {
    /// Slots per tier in the current layout.
    t_size: usize,
    /// Number of tiers currently in use.
    t_count: usize,
    /// Index of the last tier holding live elements (always `t_count - 1`).
    t_last: usize,
    /// Total element slots currently allocated (`buffer` length).
    capacity: usize,
    /// Number of logically present elements.
    len: usize,
    /// One rotation offset per tier in use, each in `[0, t_size)`.
    offsets: Vec<usize>,
    /// The backing storage; slots not holding a live element are unused.
    buffer: Vec<Option<T>>,
    /// Scratch region of exactly `t_size` slots, used transiently to
    /// normalize one tier; it never keeps live data between operations.
    scratch: Vec<Option<T>>,
}

/// Physical slot (within one tier) of the tier's logical slot `j`, when the
/// tier of `ts` slots is rotated by `off`. Equals `(j + off) % ts` for
/// `0 <= j < ts` and `0 <= off < ts`, written without `%` so that all
/// rotation reasoning stays linear.
pub closed spec fn rotated_slot(ts: int, off: int, j: int) -> int {
    if j + off < ts {
        j + off
    } else {
        j + off - ts
    }
}

impl<T> VecTiered<T> {
    /// Contents of logical slot `j` of tier `t`.
    pub closed spec fn tier_at(&self, t: int, j: int) -> Option<T> {
        self.buffer@[t * self.t_size + rotated_slot(self.t_size as int, self.offsets@[t] as int, j)]
    }

    /// Physical buffer position of logical index `i`.
    pub closed spec fn phys(&self, i: int) -> int {
        (i / (self.t_size as int)) * self.t_size + rotated_slot(
            self.t_size as int,
            self.offsets@[i / (self.t_size as int)] as int,
            i % (self.t_size as int),
        )
    }

    /// Contents of the slot holding logical index `i`.
    pub closed spec fn at(&self, i: int) -> Option<T> {
        self.buffer@[self.phys(i)]
    }

    /// Allocated capacity, in element slots.
    pub closed spec fn spec_capacity(&self) -> int {
        self.capacity as int
    }

    /// Slots per tier of the current layout.
    pub closed spec fn spec_t_size(&self) -> int {
        self.t_size as int
    }

    /// Geometric well-formedness of the tier layout: sizes agree, every
    /// offset is in range, and the tiers in use fit in the buffer.
    spec fn layout_ok(&self) -> bool {
        &&& 8 <= self.t_size
        &&& self.t_size * self.t_size <= self.capacity
        &&& self.buffer@.len() == self.capacity
        &&& self.scratch@.len() == self.t_size
        &&& 1 <= self.t_count
        &&& self.t_count * self.t_size <= self.capacity
        &&& self.t_last == self.t_count - 1
        &&& self.offsets@.len() == self.t_count
        &&& forall|t: int| 0 <= t < self.t_count ==> #[trigger] self.offsets@[t] < self.t_size
        &&& self.len <= self.t_count * self.t_size
    }

    /// Full invariant: the layout is well formed, every tier but the last
    /// holds elements, and every logical index below `len` holds an element.
    pub closed spec fn wf(&self) -> bool {
        &&& self.layout_ok()
        &&& self.t_count > 1 ==> (self.t_count - 1) * self.t_size < self.len
        &&& forall|i: int| 0 <= i < self.len ==> (#[trigger] self.at(i)) is Some
    }

    /// The stored length never exceeds the allocated capacity.
    pub proof fn lemma_len_le_capacity(&self)
        requires
            self.wf(),
        ensures
            self@.len() <= self.spec_capacity(),
    {
    }
}

impl<T> View for VecTiered<T> {
    type V = Seq<T>;

    /// The logical contents, in positional order.
    closed spec fn view(&self) -> Seq<T> {
        Seq::new(self.len as nat, |i: int| self.at(i)->0)
    }
}

/// `a <= x / d` exactly when `a * d <= x`, for nonnegative operands.
proof fn lemma_le_div_iff(a: int, x: int, d: int)
    requires
        0 <= a,
        0 <= x,
        1 <= d,
    ensures
        a <= x / d <==> a * d <= x,
{
    lemma_fundamental_div_mod(x, d);
    lemma_mod_division_less_than_divisor(x, d);
    let q = x / d;
    let r = x % d;
    assert(x == d * q + r);
    if a * d <= x {
        if a > q {
            lemma_mul_inequality(q + 1, a, d);
            assert((q + 1) * d <= a * d);
            assert((q + 1) * d == q * d + d) by (nonlinear_arith);
            assert(q * d == d * q) by (nonlinear_arith);
            assert(false);
        }
    } else {
        if a <= q {
            lemma_mul_inequality(a, q, d);
            assert(a * d <= q * d);
            assert(q * d == d * q) by (nonlinear_arith);
            assert(false);
        }
    }
}

/// Splits a flat index into its tier and in-tier slot.
proof fn lemma_split_index(i: int, ts: int)
    requires
        0 <= i,
        1 <= ts,
    ensures
        0 <= i / ts,
        0 <= i % ts < ts,
        i == (i / ts) * ts + i % ts,
{
    lemma_fundamental_div_mod(i, ts);
    lemma_mod_division_less_than_divisor(i, ts);
    lemma_div_pos_is_pos(i, ts);
    assert(i == ts * (i / ts) + i % ts);
    assert(ts * (i / ts) == (i / ts) * ts) by (nonlinear_arith);
}

/// The flat index `t * ts + j` decomposes back into tier `t` and slot `j`.
proof fn lemma_flat_index(t: int, j: int, ts: int)
    requires
        0 <= t,
        0 <= j < ts,
    ensures
        (t * ts + j) / ts == t,
        (t * ts + j) % ts == j,
{
    lemma_fundamental_div_mod_converse_div(t * ts + j, ts, t, j);
    lemma_fundamental_div_mod_converse_mod(t * ts + j, ts, t, j);
}

/// An index below `tc * ts` falls in a tier below `tc`.
proof fn lemma_tier_of_bounded(i: int, tc: int, ts: int)
    requires
        1 <= ts,
        0 <= i < tc * ts,
    ensures
        i / ts < tc,
{
    lemma_split_index(i, ts);
    if i / ts >= tc {
        lemma_mul_inequality(tc, i / ts, ts);
        assert(false);
    }
}

/// The physical range of tier `t` lies inside the first `tc` tiers.
proof fn lemma_tier_range(t: int, tc: int, ts: int)
    requires
        0 <= t < tc,
        1 <= ts,
    ensures
        0 <= t * ts,
        t * ts + ts <= tc * ts,
{
    lemma_mul_nonnegative(t, ts);
    lemma_mul_inequality(t + 1, tc, ts);
    lemma_mul_is_distributive_add_other_way(ts, t, 1);
}

/// Rounding-up division: `(len + k - 1) / k` tiers hold `len` elements.
proof fn lemma_ceil_div(len: int, k: int)
    requires
        1 <= len,
        1 <= k,
    ensures
        1 <= (len + k - 1) / k,
        len <= ((len + k - 1) / k) * k,
        ((len + k - 1) / k) * k < len + k,
{
    lemma_split_index(len + k - 1, k);
    lemma_div_pos_is_pos(len + k - 1, k);
    let q = (len + k - 1) / k;
    if q == 0 {
        assert(false);
    }
}

/// Swaps the contents of two distinct slots of a backing buffer.
fn swap_slots<T>(v: &mut Vec<Option<T>>, a: usize, b: usize)
    requires
        a < old(v)@.len(),
        b < old(v)@.len(),
        a != b,
    ensures
        final(v)@ == old(v)@.update(a as int, old(v)@[b as int]).update(
            b as int,
            old(v)@[a as int],
        ),
{
    let mut tmp: Option<T> = None;
    core::mem::swap(&mut v[a], &mut tmp);
    core::mem::swap(&mut v[b], &mut tmp);
    core::mem::swap(&mut v[a], &mut tmp);
    proof {
        assert(final(v)@ =~= old(v)@.update(a as int, old(v)@[b as int]).update(
            b as int,
            old(v)@[a as int],
        ));
    }
}

/// Puts `x` into slot `p` and hands back what the slot held.
fn replace_slot<T>(v: &mut Vec<Option<T>>, p: usize, x: Option<T>) -> (r: Option<T>)
    requires
        p < old(v)@.len(),
    ensures
        r == old(v)@[p as int],
        final(v)@ == old(v)@.update(p as int, x),
{
    let mut tmp = x;
    core::mem::swap(&mut v[p], &mut tmp);
    tmp
}

/// Integer square root: the largest `r` with `r * r <= n`.
fn isqrt(n: usize) -> (r: usize)
    ensures
        r * r <= n,
        n < (r + 1) * (r + 1),
        r <= n,
{
    let mut r: usize = 0;
    loop
        invariant
            r * r <= n,
            r <= n,
        decreases n - r,
    {
        proof {
            assert(r < usize::MAX) by (nonlinear_arith)
                requires r * r <= n && n <= usize::MAX;
            lemma_div_nonincreasing(n as int, (r + 1) as int);
        }
        if r + 1 <= n / (r + 1) {
            proof {
                lemma_le_div_iff((r + 1) as int, n as int, (r + 1) as int);
                lemma_mul_inequality(1, (r + 1) as int, (r + 1) as int);
            }
            r = r + 1;
        } else {
            proof {
                lemma_le_div_iff((r + 1) as int, n as int, (r + 1) as int);
            }
            return r;
        }
    }
}

impl<T> VecTiered<T> {
    /// Creates a container able to hold at least `n` elements before its
    /// first growth. A request of zero and a zero-sized element type are
    /// rejected. For `n <= 64` the layout is fixed at tiers of 8 slots and a
    /// capacity of 64; otherwise the tier size is `isqrt(n) + 1` and the
    /// capacity its square.
    pub fn with_capacity(n: usize) -> (r: Result<Self, TieredError>)
        requires
            n <= usize::MAX / 4,
        ensures
            n == 0 ==> r == Result::<Self, TieredError>::Err(TieredError::ZeroCapacity),
            n >= 1 && vstd::layout::size_of::<T>() == 0 ==> r == Result::<
                Self,
                TieredError,
            >::Err(TieredError::ZeroSizedElement),
            n >= 1 && vstd::layout::size_of::<T>() != 0 ==> {
                &&& r is Ok
                &&& r->Ok_0.wf()
                &&& r->Ok_0@ == Seq::<T>::empty()
                &&& (n <= 64 ==> r->Ok_0.spec_t_size() == 8 && r->Ok_0.spec_capacity() == 64)
                &&& (n > 64 ==> {
                    let k = r->Ok_0.spec_t_size();
                    &&& (k - 1) * (k - 1) <= n < k * k
                    &&& r->Ok_0.spec_capacity() == k * k
                    &&& r->Ok_0.spec_capacity() <= 4 * n
                })
            },
    {
        if n == 0 {
            return Err(TieredError::ZeroCapacity);
        }
        if core::mem::size_of::<T>() == 0 {
            return Err(TieredError::ZeroSizedElement);
        }
        let (ts, cap): (usize, usize) = if n <= 64 {
            (8, 64)
        } else {
            let s = isqrt(n);
            proof {
                // s * s <= n and s >= 8 keep (s + 1) * (s + 1) within 4 * n.
                assert(s >= 8) by {
                    if s < 8 {
                        assert((s + 1) * (s + 1) <= 64) by (nonlinear_arith)
                            requires 0 <= s < 8;
                        assert(false);
                    }
                };
                assert((s + 1) * (s + 1) <= 4 * n) by (nonlinear_arith)
                    requires s * s <= n && 1 <= s;
            }
            let k = s + 1;
            (k, k * k)
        };
        let mut buffer: Vec<Option<T>> = Vec::new();
        while buffer.len() < cap
            invariant
                buffer@.len() <= cap,
            decreases cap - buffer@.len(),
        {
            buffer.push(None);
        }
        let mut scratch: Vec<Option<T>> = Vec::new();
        while scratch.len() < ts
            invariant
                scratch@.len() <= ts,
            decreases ts - scratch@.len(),
        {
            scratch.push(None);
        }
        let mut offsets: Vec<usize> = Vec::new();
        offsets.push(0);
        let c = VecTiered {
            t_size: ts,
            t_count: 1,
            t_last: 0,
            capacity: cap,
            len: 0,
            offsets,
            buffer,
            scratch,
        };
        proof {
            assert(c@ =~= Seq::<T>::empty());
        }
        Ok(c)
    }

    /// Number of elements currently stored.
    pub fn len(&self) -> (r: usize)
        ensures
            r == self@.len(),
    {
        self.len
    }

    /// Number of element slots currently allocated.
    pub fn capacity(&self) -> (r: usize)
        ensures
            r == self.spec_capacity(),
    {
        self.capacity
    }

    /// Whether the container holds no elements.
    pub fn is_empty(&self) -> (r: bool)
        ensures
            r == (self@.len() == 0),
    {
        self.len == 0
    }

    /// The physical position of a logical index stays inside its tier's
    /// region, and hence inside the buffer.
    proof fn lemma_phys_bounds(&self, i: int)
        requires
            self.layout_ok(),
            0 <= i < self.t_count * self.t_size,
        ensures
            (i / (self.t_size as int)) * self.t_size <= self.phys(i),
            self.phys(i) < (i / (self.t_size as int)) * self.t_size + self.t_size,
            0 <= self.phys(i) < self.t_count * self.t_size,
            self.phys(i) < self.buffer@.len(),
    {
        let ts = self.t_size as int;
        lemma_split_index(i, ts);
        lemma_tier_of_bounded(i, self.t_count as int, ts);
        lemma_tier_range(i / ts, self.t_count as int, ts);
    }

    /// Distinct logical indices occupy distinct physical slots.
    proof fn lemma_phys_injective(&self, q1: int, q2: int)
        requires
            self.layout_ok(),
            0 <= q1 < self.t_count * self.t_size,
            0 <= q2 < self.t_count * self.t_size,
            q1 != q2,
        ensures
            self.phys(q1) != self.phys(q2),
    {
        let ts = self.t_size as int;
        lemma_split_index(q1, ts);
        lemma_split_index(q2, ts);
        self.lemma_phys_bounds(q1);
        self.lemma_phys_bounds(q2);
        if q1 / ts == q2 / ts {
        } else if q1 / ts < q2 / ts {
            lemma_mul_inequality(q1 / ts + 1, q2 / ts, ts);
            lemma_mul_is_distributive_add_other_way(ts, q1 / ts, 1);
        } else {
            lemma_mul_inequality(q2 / ts + 1, q1 / ts, ts);
            lemma_mul_is_distributive_add_other_way(ts, q2 / ts, 1);
        }
    }

    /// Computes the physical buffer position of logical index `i`.
    fn phys_index(&self, i: usize) -> (p: usize)
        requires
            self.layout_ok(),
            i < self.t_count * self.t_size,
        ensures
            p as int == self.phys(i as int),
            p < self.buffer@.len(),
    {
        let ts = self.t_size;
        proof {
            self.lemma_phys_bounds(i as int);
            lemma_split_index(i as int, ts as int);
            lemma_tier_of_bounded(i as int, self.t_count as int, ts as int);
            lemma_tier_range(i as int / ts as int, self.t_count as int, ts as int);
            assert(2 * ts <= ts * ts) by (nonlinear_arith)
                requires 2 <= ts;
        }
        let t = i / ts;
        let sub = i % ts;
        let off = self.offsets[t];
        let p0 = if sub + off >= ts {
            sub + off - ts
        } else {
            sub + off
        };
        t * ts + p0
    }

    /// Resets tier `t`'s offset to zero by realigning its contents through
    /// the scratch region; no tier's logical contents change.
    fn normalize(&mut self, t: usize)
        requires
            old(self).layout_ok(),
            t < old(self).t_count,
        ensures
            final(self).layout_ok(),
            final(self).t_size == old(self).t_size,
            final(self).t_count == old(self).t_count,
            final(self).t_last == old(self).t_last,
            final(self).capacity == old(self).capacity,
            final(self).len == old(self).len,
            final(self).buffer@.len() == old(self).buffer@.len(),
            final(self).scratch@.len() == old(self).scratch@.len(),
            final(self).offsets@ == old(self).offsets@.update(t as int, 0usize),
            forall|u: int, j: int|
                0 <= u < final(self).t_count && 0 <= j < final(self).t_size
                    ==> #[trigger] final(self).tier_at(u, j) == old(self).tier_at(u, j),
    {
        let ts = self.t_size;
        let off = self.offsets[t];
        if off == 0 {
            proof {
                assert(self.offsets@ =~= old(self).offsets@.update(t as int, 0usize));
            }
            return ;
        }
        proof {
            lemma_tier_range(t as int, self.t_count as int, ts as int);
            assert(2 * ts <= ts * ts) by (nonlinear_arith)
                requires 2 <= ts;
        }
        let base = t * ts;
        let mut j: usize = 0;
        while j < ts
            invariant
                old(self).layout_ok(),
                t < old(self).t_count,
                ts == self.t_size,
                0 < off < ts,
                j <= ts,
                self.t_size == old(self).t_size,
                self.t_count == old(self).t_count,
                self.t_last == old(self).t_last,
                self.capacity == old(self).capacity,
                self.len == old(self).len,
                self.offsets@ == old(self).offsets@,
                self.buffer@.len() == old(self).buffer@.len(),
                self.scratch@.len() == old(self).scratch@.len(),
                off == self.offsets@[t as int],
                base == t * ts,
                base + ts <= self.buffer@.len(),
                ts <= self.scratch@.len(),
                forall|k: int| 0 <= k < j ==> self.scratch@[k] == old(self).tier_at(t as int, k),
                forall|m: int|
                    0 <= m < self.buffer@.len() && !(base <= m < base + ts)
                        ==> self.buffer@[m] == old(self).buffer@[m],
                forall|k: int|
                    j <= k < ts ==> self.buffer@[base + rotated_slot(ts as int, off as int, k)]
                        == old(self).buffer@[base + rotated_slot(ts as int, off as int, k)],
            decreases ts - j,
        {
            proof {
                assert(2 * ts <= ts * ts) by (nonlinear_arith)
                    requires 2 <= ts;
            }
            let p = if j + off >= ts {
                j + off - ts
            } else {
                j + off
            };
            let x = replace_slot(&mut self.buffer, base + p, None);
            let _ = replace_slot(&mut self.scratch, j, x);
            j = j + 1;
        }
        let mut j: usize = 0;
        while j < ts
            invariant
                old(self).layout_ok(),
                t < old(self).t_count,
                ts == self.t_size,
                j <= ts,
                self.t_size == old(self).t_size,
                self.t_count == old(self).t_count,
                self.t_last == old(self).t_last,
                self.capacity == old(self).capacity,
                self.len == old(self).len,
                self.offsets@ == old(self).offsets@,
                self.buffer@.len() == old(self).buffer@.len(),
                self.scratch@.len() == old(self).scratch@.len(),
                base == t * ts,
                base + ts <= self.buffer@.len(),
                ts <= self.scratch@.len(),
                forall|k: int| 0 <= k < j ==> self.buffer@[base + k] == old(self).tier_at(t as int, k),
                forall|k: int| j <= k < ts ==> self.scratch@[k] == old(self).tier_at(t as int, k),
                forall|m: int|
                    0 <= m < self.buffer@.len() && !(base <= m < base + ts)
                        ==> self.buffer@[m] == old(self).buffer@[m],
            decreases ts - j,
        {
            let x = replace_slot(&mut self.scratch, j, None);
            let _ = replace_slot(&mut self.buffer, base + j, x);
            j = j + 1;
        }
        self.offsets[t] = 0;
        proof {
            assert forall|u: int, jj: int|
                0 <= u < self.t_count && 0 <= jj < self.t_size implies #[trigger] self.tier_at(
                u,
                jj,
            ) == old(self).tier_at(u, jj) by {
                let tsi = ts as int;
                if u == t {
                    assert(rotated_slot(tsi, 0, jj) == jj);
                } else {
                    lemma_tier_range(u, self.t_count as int, tsi);
                    if u < t as int {
                        lemma_mul_inequality(u + 1, t as int, tsi);
                        lemma_mul_is_distributive_add_other_way(tsi, u, 1);
                    } else {
                        lemma_mul_inequality(t as int + 1, u, tsi);
                        lemma_mul_is_distributive_add_other_way(tsi, t as int, 1);
                    }
                }
            }
        }
    }

    /// Opens one more tier at the end of the layout, with offset zero.
    fn open_tier(&mut self)
        requires
            old(self).layout_ok(),
            (old(self).t_count + 1) * old(self).t_size <= old(self).capacity,
        ensures
            final(self).layout_ok(),
            final(self).t_size == old(self).t_size,
            final(self).t_count == old(self).t_count + 1,
            final(self).t_last == old(self).t_last + 1,
            final(self).capacity == old(self).capacity,
            final(self).len == old(self).len,
            final(self).buffer@ == old(self).buffer@,
            final(self).scratch@ == old(self).scratch@,
            final(self).offsets@ == old(self).offsets@.push(0usize),
            forall|i: int|
                0 <= i < old(self).t_count * old(self).t_size ==> #[trigger] final(self).at(i)
                    == old(self).at(i),
    {
        proof {
            let ts = old(self).t_size as int;
            let tc = old(self).t_count as int;
            lemma_mul_is_distributive_add_other_way(ts, tc, 1);
            assert(tc + 1 <= (tc + 1) * ts) by (nonlinear_arith)
                requires 1 <= ts, 0 <= tc;
        }
        self.offsets.push(0);
        self.t_count = self.t_count + 1;
        self.t_last = self.t_last + 1;
        proof {
            assert forall|i: int|
                0 <= i < old(self).t_count * old(self).t_size
                implies #[trigger] self.at(i) == old(self).at(i) by {
                let ts = self.t_size as int;
                lemma_split_index(i, ts);
                lemma_tier_of_bounded(i, old(self).t_count as int, ts);
            }
        }
    }

    /// Enlarges the allocation when it is exhausted. While the capacity sits
    /// below the re-tier threshold for the current tier size, two tiers'
    /// worth of slots are appended and the layout is untouched; past the
    /// threshold the container re-tiers: it derives a fresh tier size from
    /// the doubled capacity and redistributes every live element into the new
    /// layout with all offsets zero, keeping the tier count O(sqrt capacity).
    fn grow(&mut self)
        requires
            old(self).wf(),
            old(self).capacity <= usize::MAX / 8,
        ensures
            final(self).wf(),
            final(self)@ == old(self)@,
            final(self).len == old(self).len,
            old(self).capacity < final(self).capacity,
            final(self).capacity <= 3 * old(self).capacity,
            (final(self).t_count + 1) * final(self).t_size <= final(self).capacity,
    {
        let ts = self.t_size;
        proof {
            assert(ts <= ts * ts) by (nonlinear_arith)
                requires 1 <= ts;
        }
        let half = ts / 2;
        proof {
            lemma_div_nonincreasing(ts as int, 2);
            assert((ts + half) * (ts + half) <= 4 * (ts * ts)) by (nonlinear_arith)
                requires 0 <= half <= ts;
        }
        let root = ts + half;
        if self.capacity < root * root {
            let new_cap = self.capacity + 2 * ts;
            while self.buffer.len() < new_cap
                invariant
                    old(self).wf(),
                    self.t_size == old(self).t_size,
                    self.t_count == old(self).t_count,
                    self.t_last == old(self).t_last,
                    self.capacity == old(self).capacity,
                    self.len == old(self).len,
                    self.offsets@ == old(self).offsets@,
                    self.scratch@ == old(self).scratch@,
                    old(self).buffer@.len() <= self.buffer@.len() <= new_cap,
                    new_cap >= old(self).capacity,
                    forall|m: int|
                        0 <= m < old(self).buffer@.len() ==> self.buffer@[m] == old(self).buffer@[m],
                decreases new_cap - self.buffer@.len(),
            {
                self.buffer.push(None);
            }
            self.capacity = new_cap;
            proof {
                lemma_mul_is_distributive_add_other_way(ts as int, self.t_count as int, 1);
                assert forall|i: int|
                    0 <= i < self.t_count * self.t_size
                    implies #[trigger] self.at(i) == old(self).at(i) by {
                    old(self).lemma_phys_bounds(i);
                }
                assert(self@ =~= old(self)@);
            }
        } else {
            let doubled = 2 * self.capacity;
            let s = isqrt(doubled);
            let k = s + 1;
            proof {
                assert(64 <= ts * ts) by (nonlinear_arith)
                    requires 8 <= ts;
                assert(s >= 8) by {
                    if s < 8 {
                        assert((s + 1) * (s + 1) <= 64) by (nonlinear_arith)
                            requires 0 <= s < 8;
                        assert(false);
                    }
                }
                assert((s + 1) * (s + 1) <= 4 * doubled) by (nonlinear_arith)
                    requires s * s <= doubled && 1 <= s;
                let b = (self.capacity as int) / 4;
                lemma_split_index(self.capacity as int, 4);
                assert(s <= b) by {
                    if s > b {
                        assert(s * s >= (b + 1) * (b + 1)) by (nonlinear_arith)
                            requires s >= b + 1 && b >= 0;
                        assert((b + 1) * (b + 1) > 2 * (4 * b + 3)) by (nonlinear_arith)
                            requires b >= 16;
                        assert(false);
                    }
                }
                assert((s + 1) * (s + 1) == s * s + 2 * s + 1) by (nonlinear_arith);
            }
            let new_cap = k * k;
            let mut new_buf: Vec<Option<T>> = Vec::new();
            let mut i: usize = 0;
            while i < self.len
                invariant
                    old(self).wf(),
                    i <= self.len,
                    self.t_size == old(self).t_size,
                    self.t_count == old(self).t_count,
                    self.t_last == old(self).t_last,
                    self.capacity == old(self).capacity,
                    self.len == old(self).len,
                    self.offsets@ == old(self).offsets@,
                    self.scratch@ == old(self).scratch@,
                    self.buffer@.len() == old(self).buffer@.len(),
                    self.layout_ok(),
                    new_buf@.len() == i,
                    forall|q: int| 0 <= q < i ==> new_buf@[q] == old(self).at(q),
                    forall|q: int| i <= q < self.len ==> #[trigger] self.at(q) == old(self).at(q),
                decreases self.len - i,
            {
                let ghost pre = *self;
                let p = self.phys_index(i);
                let x = replace_slot(&mut self.buffer, p, None);
                proof {
                    assert(pre.at(i as int) == old(self).at(i as int));
                    assert(x == old(self).at(i as int));
                }
                new_buf.push(x);
                proof {
                    assert forall|q: int|
                        i + 1 <= q < self.len
                        implies #[trigger] self.at(q) == old(self).at(q) by {
                        pre.lemma_phys_injective(i as int, q);
                        pre.lemma_phys_bounds(q);
                        assert(pre.at(q) == old(self).at(q));
                        assert(self.phys(q) == pre.phys(q));
                        assert(self.at(q) == pre.at(q));
                    }
                }
                i = i + 1;
            }
            while new_buf.len() < new_cap
                invariant
                    old(self).wf(),
                    self.len == old(self).len,
                    self.len <= new_buf@.len() <= new_cap,
                    forall|q: int| 0 <= q < self.len ==> new_buf@[q] == old(self).at(q),
                decreases new_cap - new_buf@.len(),
            {
                new_buf.push(None);
            }
            let new_tc: usize = if self.len == 0 {
                1
            } else {
                proof {
                    lemma_ceil_div(self.len as int, k as int);
                }
                (self.len + k - 1) / k
            };
            proof {
                if self.len >= 1 {
                    lemma_ceil_div(self.len as int, k as int);
                }
                assert(2 * k <= k * k) by (nonlinear_arith)
                    requires 2 <= k;
                lemma_mul_is_distributive_add_other_way(k as int, new_tc as int, 1);
            }
            let mut new_offsets: Vec<usize> = Vec::new();
            while new_offsets.len() < new_tc
                invariant
                    new_offsets@.len() <= new_tc,
                    forall|q: int| 0 <= q < new_offsets@.len() ==> new_offsets@[q] == 0usize,
                decreases new_tc - new_offsets@.len(),
            {
                new_offsets.push(0);
            }
            let mut new_scratch: Vec<Option<T>> = Vec::new();
            while new_scratch.len() < k
                invariant
                    new_scratch@.len() <= k,
                decreases k - new_scratch@.len(),
            {
                new_scratch.push(None);
            }
            self.buffer = new_buf;
            self.scratch = new_scratch;
            self.offsets = new_offsets;
            self.t_size = k;
            self.capacity = new_cap;
            self.t_count = new_tc;
            self.t_last = new_tc - 1;
            proof {
                lemma_mul_is_distributive_add_other_way(k as int, new_tc as int, 1);
                assert((new_tc - 1) * k == new_tc * k - k) by (nonlinear_arith);
                assert forall|q: int|
                    0 <= q < self.len
                    implies #[trigger] self.at(q) == old(self).at(q) by {
                    lemma_split_index(q, k as int);
                    lemma_tier_of_bounded(q, new_tc as int, k as int);
                    lemma_tier_range(q / (k as int), new_tc as int, k as int);
                }
                assert(self@ =~= old(self)@);
            }
        }
    }

    /// Makes room for one structural insertion: afterwards the tiers in use
    /// have at least one free slot, growing the buffer and opening a new
    /// tier as needed. No logical contents change.
    fn ensure_room(&mut self)
        requires
            old(self).wf(),
            old(self).capacity <= usize::MAX / 8,
        ensures
            final(self).layout_ok(),
            final(self).len == old(self).len,
            final(self).len < final(self).t_count * final(self).t_size,
            final(self)@ == old(self)@,
            forall|i: int|
                0 <= i < final(self).len ==> (#[trigger] final(self).at(i)) is Some,
            old(self).capacity <= final(self).capacity,
            final(self).capacity <= old(self).capacity || final(self).capacity <= 6 * old(self).len,
            final(self).t_count > 1
                ==> (final(self).t_count - 1) * final(self).t_size <= final(self).len,
    {
        if self.len == self.capacity {
            proof {
                let tsx = self.t_size as int;
                assert(64 <= tsx * tsx) by (nonlinear_arith)
                    requires 8 <= tsx;
            }
            self.grow();
            proof {
                assert(self.capacity <= 6 * old(self).len);
            }
        }
        proof {
            let tsx = self.t_size as int;
            let tcx = self.t_count as int;
            assert(tsx <= tsx * tsx && tcx <= tcx * tsx) by (nonlinear_arith)
                requires 1 <= tsx && 0 <= tcx;
            lemma_mul_is_distributive_add_other_way(tsx, tcx, 1);
        }
        if self.len == self.t_count * self.t_size {
            if self.capacity < (self.t_count + 1) * self.t_size {
                proof {
                    let tsx = self.t_size as int;
                    assert(7 * tsx <= tsx * tsx - tsx && 64 <= tsx * tsx) by (nonlinear_arith)
                        requires 8 <= tsx;
                    assert(self.t_size < self.len);
                    assert(self.capacity < 2 * self.len);
                }
                self.grow();
                proof {
                    assert(self.capacity <= 6 * old(self).len);
                }
            }
            proof {
                let tsx = self.t_size as int;
                let tcx = self.t_count as int;
                assert(tsx <= tsx * tsx && tcx <= tcx * tsx) by (nonlinear_arith)
                    requires 1 <= tsx && 0 <= tcx;
                lemma_mul_is_distributive_add_other_way(tsx, tcx, 1);
            }
            if self.len == self.t_count * self.t_size {
                let ghost mid = *self;
                self.open_tier();
                proof {
                    lemma_mul_is_distributive_add_other_way(
                        mid.t_size as int,
                        mid.t_count as int,
                        1,
                    );
                    assert forall|i: int|
                        0 <= i < self.len implies (#[trigger] self.at(i)) is Some by {
                        assert(self.at(i) == mid.at(i));
                        assert(mid.at(i) is Some);
                    }
                    assert(self@ =~= mid@);
                }
            }
        }
    }

    /// Inserts `elem` at logical position `index`, shifting every later
    /// element one position right. The target tier is normalized and shifted
    /// physically; each following tier is rotated left by one offset step
    /// while a single carried element is swapped through, so the edit costs
    /// O(sqrt n). Fails exactly when `index` exceeds the current length.
    pub fn insert(&mut self, index: usize, elem: T) -> (r: Result<(), TieredError>)
        requires
            old(self).wf(),
            old(self).spec_capacity() <= usize::MAX as int / 8,
        ensures
            final(self).wf(),
            old(self).spec_capacity() <= final(self).spec_capacity(),
            index > old(self)@.len() ==> r == Result::<(), TieredError>::Err(
                TieredError::IndexOutOfBounds,
            ) && final(self)@ == old(self)@ && final(self).spec_capacity() == old(self).spec_capacity(),
            index <= old(self)@.len() ==> r == Result::<(), TieredError>::Ok(()) && final(self)@
                == old(self)@.insert(index as int, elem) && final(self)@.len() == old(self)@.len()
                + 1,
            final(self).spec_capacity() <= old(self).spec_capacity() || final(self).spec_capacity() <= 6 * old(self)@.len(),
    {
        if index > self.len {
            return Err(TieredError::IndexOutOfBounds);
        }
        self.ensure_room();
        let ghost s0 = *self;
        let ts = self.t_size;
        proof {
            lemma_split_index(index as int, ts as int);
            lemma_tier_of_bounded(index as int, self.t_count as int, ts as int);
        }
        let t = index / ts;
        let sub = index % ts;
        self.normalize(t);
        let ghost s1 = *self;
        let carry = self.insert_in_tier(t, sub, elem);
        let ghost s2 = *self;
        let ghost carry0 = carry;
        self.cascade_left(t, carry);
        let ghost s3 = *self;
        proof {
            let tsi = ts as int;
            let ti = t as int;
            let tc = s3.t_count as int;
            let idx = index as int;
            assert forall|q: int| 0 <= q < s3.len + 1 implies #[trigger] s3.at(q) == (if q < idx {
                s0.at(q)
            } else if q == idx {
                Some(elem)
            } else {
                s0.at(q - 1)
            }) by {
                lemma_split_index(q, tsi);
                lemma_tier_of_bounded(q, tc, tsi);
                let u = q / tsi;
                let k = q % tsi;
                lemma_tier_range(u, tc, tsi);
                assert(s3.at(q) == s3.tier_at(u, k));
                if u < ti {
                    lemma_mul_inequality(u + 1, ti, tsi);
                    lemma_mul_is_distributive_add_other_way(tsi, u, 1);
                    assert(q < idx);
                    assert(s3.tier_at(u, k) == s2.tier_at(u, k));
                    assert(s2.tier_at(u, k) == s1.tier_at(u, k));
                    assert(s1.tier_at(u, k) == s0.tier_at(u, k));
                    lemma_flat_index(u, k, tsi);
                    assert(s0.at(q) == s0.tier_at(u, k));
                } else if u == ti {
                    assert(s3.tier_at(u, k) == s2.tier_at(u, k));
                    if k < sub {
                        assert(s2.tier_at(ti, k) == s1.tier_at(ti, k));
                        assert(s1.tier_at(ti, k) == s0.tier_at(ti, k));
                        lemma_flat_index(ti, k, tsi);
                        assert(s0.at(q) == s0.tier_at(ti, k));
                    } else if k == sub {
                        assert(q == idx);
                        assert(s2.tier_at(ti, k) == Some(elem));
                    } else {
                        assert(q > idx);
                        assert(s2.tier_at(ti, k) == s1.tier_at(ti, k - 1));
                        assert(s1.tier_at(ti, k - 1) == s0.tier_at(ti, k - 1));
                        lemma_flat_index(ti, k - 1, tsi);
                        assert(s0.at(q - 1) == s0.tier_at(ti, k - 1));
                    }
                } else {
                    lemma_mul_inequality(ti + 1, u, tsi);
                    lemma_mul_is_distributive_add_other_way(tsi, ti, 1);
                    assert(q > idx);
                    if k >= 1 {
                        assert(s3.tier_at(u, k) == s2.tier_at(u, k - 1));
                        assert(s2.tier_at(u, k - 1) == s1.tier_at(u, k - 1));
                        assert(s1.tier_at(u, k - 1) == s0.tier_at(u, k - 1));
                        lemma_flat_index(u, k - 1, tsi);
                        assert(s0.at(q - 1) == s0.tier_at(u, k - 1));
                    } else {
                        lemma_mul_is_distributive_add_other_way(tsi, u - 1, 1);
                        lemma_flat_index(u - 1, tsi - 1, tsi);
                        assert(s0.at(q - 1) == s0.tier_at(u - 1, tsi - 1));
                        if u == ti + 1 {
                            assert(s3.tier_at(u, 0) == carry0);
                            assert(carry0 == s1.tier_at(ti, tsi - 1));
                            assert(s1.tier_at(ti, tsi - 1) == s0.tier_at(ti, tsi - 1));
                        } else {
                            assert(s3.tier_at(u, 0) == s2.tier_at(u - 1, tsi - 1));
                            assert(s2.tier_at(u - 1, tsi - 1) == s1.tier_at(u - 1, tsi - 1));
                            assert(s1.tier_at(u - 1, tsi - 1) == s0.tier_at(u - 1, tsi - 1));
                        }
                    }
                }
            }
        }
        self.len = self.len + 1;
        proof {
            let idx = index as int;
            assert forall|q: int| 0 <= q < self.len implies #[trigger] self.at(q) == s3.at(q) by {
                assert(self.phys(q) == s3.phys(q));
            }
            assert(self@ =~= s0@.insert(idx, elem));
            assert(self@ =~= old(self)@.insert(idx, elem));
        }
        Ok(())
    }

    /// Within the (normalized) tier `t`, shifts the slots at and after `sub`
    /// one position right, puts `elem` at slot `sub`, and hands back the
    /// tier's displaced last slot as the carry.
    fn insert_in_tier(&mut self, t: usize, sub: usize, elem: T) -> (carry: Option<T>)
        requires
            old(self).layout_ok(),
            t < old(self).t_count,
            sub < old(self).t_size,
            old(self).offsets@[t as int] == 0,
        ensures
            final(self).layout_ok(),
            final(self).t_size == old(self).t_size,
            final(self).t_count == old(self).t_count,
            final(self).t_last == old(self).t_last,
            final(self).capacity == old(self).capacity,
            final(self).len == old(self).len,
            final(self).offsets@ == old(self).offsets@,
            final(self).scratch@ == old(self).scratch@,
            final(self).buffer@.len() == old(self).buffer@.len(),
            carry == old(self).tier_at(t as int, old(self).t_size as int - 1),
            forall|k: int|
                0 <= k < sub ==> #[trigger] final(self).tier_at(t as int, k) == old(self).tier_at(
                    t as int,
                    k,
                ),
            final(self).tier_at(t as int, sub as int) == Some(elem),
            forall|k: int|
                sub < k < final(self).t_size ==> #[trigger] final(self).tier_at(t as int, k)
                    == old(self).tier_at(t as int, k - 1),
            forall|u: int, k: int|
                0 <= u < final(self).t_count && u != t as int && 0 <= k < final(self).t_size
                    ==> #[trigger] final(self).tier_at(u, k) == old(self).tier_at(u, k),
    {
        let ts = self.t_size;
        proof {
            lemma_tier_range(t as int, self.t_count as int, ts as int);
        }
        let base = t * ts;
        let carry = replace_slot(&mut self.buffer, base + ts - 1, None);
        let mut j = ts - 1;
        while j > sub
            invariant
                old(self).layout_ok(),
                ts == old(self).t_size,
                t < old(self).t_count,
                sub < ts,
                sub <= j < ts,
                base == t * ts,
                base + ts <= old(self).buffer@.len(),
                self.t_size == old(self).t_size,
                self.t_count == old(self).t_count,
                self.t_last == old(self).t_last,
                self.capacity == old(self).capacity,
                self.len == old(self).len,
                self.offsets@ == old(self).offsets@,
                self.scratch@ == old(self).scratch@,
                self.buffer@.len() == old(self).buffer@.len(),
                forall|m: int|
                    0 <= m < self.buffer@.len() && !(base <= m < base + ts) ==> self.buffer@[m]
                        == old(self).buffer@[m],
                forall|k: int|
                    0 <= k < j ==> #[trigger] self.buffer@[base + k] == old(self).buffer@[base
                        + k],
                forall|k: int|
                    j < k < ts ==> #[trigger] self.buffer@[base + k] == old(self).buffer@[base + k
                        - 1],
            decreases j,
        {
            let ghost pre = *self;
            swap_slots(&mut self.buffer, base + j - 1, base + j);
            proof {
                assert(pre.buffer@[base + (j - 1)] == old(self).buffer@[base + (j - 1)]);
                assert forall|k: int|
                    j - 1 < k < ts implies #[trigger] self.buffer@[base + k] == old(self).buffer@[base + k - 1] by {
                    if k > j {
                        assert(pre.buffer@[base + k] == old(self).buffer@[base + k - 1]);
                    }
                }
                assert forall|k: int|
                    0 <= k < j - 1 implies #[trigger] self.buffer@[base + k] == old(self).buffer@[base + k] by {
                    assert(pre.buffer@[base + k] == old(self).buffer@[base + k]);
                }
            }
            j = j - 1;
        }
        let _ = replace_slot(&mut self.buffer, base + sub, Some(elem));
        proof {
            let tsi = ts as int;
            assert(rotated_slot(tsi, 0, tsi - 1) == tsi - 1);
            assert(carry == old(self).tier_at(t as int, tsi - 1));
            assert forall|k: int|
                0 <= k < sub implies #[trigger] self.tier_at(t as int, k) == old(self).tier_at(
                t as int,
                k,
            ) by {
                assert(rotated_slot(tsi, 0, k) == k);
                assert(self.buffer@[base + k] == old(self).buffer@[base + k]);
            }
            assert(rotated_slot(tsi, 0, sub as int) == sub as int);
            assert forall|k: int|
                sub < k < ts implies #[trigger] self.tier_at(t as int, k) == old(self).tier_at(
                t as int,
                k - 1,
            ) by {
                assert(rotated_slot(tsi, 0, k) == k);
                assert(rotated_slot(tsi, 0, k - 1) == k - 1);
                assert(self.buffer@[base + k] == old(self).buffer@[base + k - 1]);
            }
            assert forall|u: int, k: int|
                0 <= u < self.t_count && u != t as int && 0 <= k < ts
                implies #[trigger] self.tier_at(u, k) == old(self).tier_at(u, k) by {
                assert(old(self).offsets@[u] < ts);
                lemma_tier_range(u, self.t_count as int, tsi);
                if u < t as int {
                    lemma_mul_inequality(u + 1, t as int, tsi);
                    lemma_mul_is_distributive_add_other_way(tsi, u, 1);
                } else {
                    lemma_mul_inequality(t as int + 1, u, tsi);
                    lemma_mul_is_distributive_add_other_way(tsi, t as int, 1);
                }
            }
        }
        carry
    }

    /// Carries one element across the tiers after `t`: each tier is rotated
    /// left one step (its offset decremented, wrapping), which makes room at
    /// its logical slot 0 for the incoming carry and exposes its previous
    /// last element as the next carry. Whatever leaves the last tier came
    /// from a slot holding no live element and is dropped.
    fn cascade_left(&mut self, t: usize, carry: Option<T>)
        requires
            old(self).layout_ok(),
            t < old(self).t_count,
        ensures
            final(self).layout_ok(),
            final(self).t_size == old(self).t_size,
            final(self).t_count == old(self).t_count,
            final(self).t_last == old(self).t_last,
            final(self).capacity == old(self).capacity,
            final(self).len == old(self).len,
            final(self).offsets@.len() == old(self).offsets@.len(),
            final(self).scratch@ == old(self).scratch@,
            final(self).buffer@.len() == old(self).buffer@.len(),
            forall|u: int, k: int|
                0 <= u <= t as int && 0 <= k < final(self).t_size ==> #[trigger] final(self).tier_at(u, k) == old(self).tier_at(u, k),
            forall|u: int, k: int|
                t as int + 1 <= u < final(self).t_count && 1 <= k < final(self).t_size
                    ==> #[trigger] final(self).tier_at(u, k) == old(self).tier_at(u, k - 1),
            forall|u: int|
                t as int + 1 <= u < final(self).t_count ==> #[trigger] final(self).tier_at(u, 0)
                    == (if u == t as int + 1 {
                    carry
                } else {
                    old(self).tier_at(u - 1, final(self).t_size as int - 1)
                }),
    {
        let ts = self.t_size;
        let ghost carry0 = carry;
        let mut carry = carry;
        let mut i = t + 1;
        while i < self.t_count
            invariant
                old(self).layout_ok(),
                ts == old(self).t_size,
                t < old(self).t_count,
                t + 1 <= i <= self.t_count,
                self.t_size == old(self).t_size,
                self.t_count == old(self).t_count,
                self.t_last == old(self).t_last,
                self.capacity == old(self).capacity,
                self.len == old(self).len,
                self.scratch@ == old(self).scratch@,
                self.buffer@.len() == old(self).buffer@.len(),
                self.offsets@.len() == old(self).offsets@.len(),
                forall|u: int|
                    0 <= u < self.t_count && !(t + 1 <= u < i) ==> self.offsets@[u] == old(self).offsets@[u],
                forall|u: int|
                    0 <= u < self.t_count ==> #[trigger] self.offsets@[u] < self.t_size,
                forall|u: int, k: int|
                    0 <= u < self.t_count && !(t + 1 <= u < i) && 0 <= k < ts
                        ==> #[trigger] self.tier_at(u, k) == old(self).tier_at(u, k),
                forall|u: int, k: int|
                    t + 1 <= u < i && 1 <= k < ts ==> #[trigger] self.tier_at(u, k) == old(self).tier_at(u, k - 1),
                forall|u: int|
                    t + 1 <= u < i ==> #[trigger] self.tier_at(u, 0) == (if u == t + 1 {
                        carry0
                    } else {
                        old(self).tier_at(u - 1, ts as int - 1)
                    }),
                carry == (if i == t + 1 {
                    carry0
                } else {
                    old(self).tier_at(i as int - 1, ts as int - 1)
                }),
            decreases self.t_count - i,
        {
            let ghost pre = *self;
            proof {
                lemma_tier_range(i as int, self.t_count as int, ts as int);
            }
            let off = self.offsets[i];
            let newoff = if off == 0 {
                ts - 1
            } else {
                off - 1
            };
            self.offsets[i] = newoff;
            core::mem::swap(&mut self.buffer[i * ts + newoff], &mut carry);
            proof {
                let tsi = ts as int;
                let ii = i as int;
                assert(rotated_slot(tsi, off as int, tsi - 1) == newoff as int);
                assert(pre.tier_at(ii, tsi - 1) == old(self).tier_at(ii, tsi - 1)) by {
                    assert(!(t + 1 <= ii < ii));
                }
                assert forall|u: int, k: int|
                    0 <= u < self.t_count && !(t + 1 <= u < ii + 1) && 0 <= k < ts
                    implies #[trigger] self.tier_at(u, k) == old(self).tier_at(u, k) by {
                    assert(pre.tier_at(u, k) == old(self).tier_at(u, k));
                    assert(pre.offsets@[u] < ts);
                    lemma_tier_range(u, self.t_count as int, tsi);
                    if u < ii {
                        lemma_mul_inequality(u + 1, ii, tsi);
                        lemma_mul_is_distributive_add_other_way(tsi, u, 1);
                    } else {
                        lemma_mul_inequality(ii + 1, u, tsi);
                        lemma_mul_is_distributive_add_other_way(tsi, ii, 1);
                    }
                }
                assert forall|u: int, k: int|
                    t + 1 <= u < ii + 1 && 1 <= k < ts implies #[trigger] self.tier_at(u, k)
                    == old(self).tier_at(u, k - 1) by {
                    if u == ii {
                        assert(pre.tier_at(ii, k - 1) == old(self).tier_at(ii, k - 1)) by {
                            assert(!(t + 1 <= ii < ii));
                        }
                        assert(rotated_slot(tsi, newoff as int, k) == rotated_slot(
                            tsi,
                            off as int,
                            k - 1,
                        ));
                        assert(rotated_slot(tsi, newoff as int, k) != newoff as int);
                    } else {
                        assert(pre.tier_at(u, k) == old(self).tier_at(u, k - 1));
                        assert(pre.offsets@[u] < ts);
                        lemma_tier_range(u, self.t_count as int, tsi);
                        lemma_mul_inequality(u + 1, ii, tsi);
                        lemma_mul_is_distributive_add_other_way(tsi, u, 1);
                    }
                }
                assert forall|u: int|
                    t + 1 <= u < ii + 1 implies #[trigger] self.tier_at(u, 0) == (if u == t + 1 {
                    carry0
                } else {
                    old(self).tier_at(u - 1, tsi - 1)
                }) by {
                    if u == ii {
                        assert(rotated_slot(tsi, newoff as int, 0) == newoff as int);
                    } else {
                        assert(pre.tier_at(u, 0) == (if u == t + 1 {
                            carry0
                        } else {
                            old(self).tier_at(u - 1, tsi - 1)
                        }));
                        assert(pre.offsets@[u] < ts);
                        lemma_tier_range(u, self.t_count as int, tsi);
                        lemma_mul_inequality(u + 1, ii, tsi);
                        lemma_mul_is_distributive_add_other_way(tsi, u, 1);
                    }
                }
            }
            i = i + 1;
        }
    }

    /// Within the (normalized) tier `t`, takes the element at slot `sub` and
    /// closes the gap by shifting the following slots one position left; the
    /// tier's last slot becomes the propagating hole.
    fn remove_in_tier(&mut self, t: usize, sub: usize) -> (taken: Option<T>)
        requires
            old(self).layout_ok(),
            t < old(self).t_count,
            sub < old(self).t_size,
            old(self).offsets@[t as int] == 0,
        ensures
            final(self).layout_ok(),
            final(self).t_size == old(self).t_size,
            final(self).t_count == old(self).t_count,
            final(self).t_last == old(self).t_last,
            final(self).capacity == old(self).capacity,
            final(self).len == old(self).len,
            final(self).offsets@ == old(self).offsets@,
            final(self).scratch@ == old(self).scratch@,
            final(self).buffer@.len() == old(self).buffer@.len(),
            taken == old(self).tier_at(t as int, sub as int),
            forall|k: int|
                0 <= k < sub ==> #[trigger] final(self).tier_at(t as int, k) == old(self).tier_at(
                    t as int,
                    k,
                ),
            forall|k: int|
                sub <= k < final(self).t_size - 1 ==> #[trigger] final(self).tier_at(t as int, k)
                    == old(self).tier_at(t as int, k + 1),
            forall|u: int, k: int|
                0 <= u < final(self).t_count && u != t as int && 0 <= k < final(self).t_size
                    ==> #[trigger] final(self).tier_at(u, k) == old(self).tier_at(u, k),
    {
        let ts = self.t_size;
        proof {
            lemma_tier_range(t as int, self.t_count as int, ts as int);
        }
        let base = t * ts;
        let taken = replace_slot(&mut self.buffer, base + sub, None);
        proof {
            assert(rotated_slot(ts as int, 0, sub as int) == sub as int);
        }
        let mut j = sub + 1;
        while j < ts
            invariant
                old(self).layout_ok(),
                ts == old(self).t_size,
                t < old(self).t_count,
                sub < ts,
                sub + 1 <= j <= ts,
                base == t * ts,
                base + ts <= old(self).buffer@.len(),
                self.t_size == old(self).t_size,
                self.t_count == old(self).t_count,
                self.t_last == old(self).t_last,
                self.capacity == old(self).capacity,
                self.len == old(self).len,
                self.offsets@ == old(self).offsets@,
                self.scratch@ == old(self).scratch@,
                self.buffer@.len() == old(self).buffer@.len(),
                forall|m: int|
                    0 <= m < self.buffer@.len() && !(base <= m < base + ts) ==> self.buffer@[m]
                        == old(self).buffer@[m],
                forall|k: int|
                    0 <= k < sub ==> #[trigger] self.buffer@[base + k] == old(self).buffer@[base
                        + k],
                forall|k: int|
                    sub <= k < j - 1 ==> #[trigger] self.buffer@[base + k] == old(self).buffer@[base + k + 1],
                forall|k: int|
                    j <= k < ts ==> #[trigger] self.buffer@[base + k] == old(self).buffer@[base
                        + k],
            decreases ts - j,
        {
            let ghost pre = *self;
            swap_slots(&mut self.buffer, base + j - 1, base + j);
            proof {
                assert(pre.buffer@[base + j] == old(self).buffer@[base + j]);
                assert forall|k: int|
                    sub <= k < j implies #[trigger] self.buffer@[base + k] == old(self).buffer@[base + k + 1] by {
                    if k < j - 1 {
                        assert(pre.buffer@[base + k] == old(self).buffer@[base + k + 1]);
                    }
                }
                assert forall|k: int|
                    0 <= k < sub implies #[trigger] self.buffer@[base + k] == old(self).buffer@[base + k] by {
                    assert(pre.buffer@[base + k] == old(self).buffer@[base + k]);
                }
                assert forall|k: int|
                    j + 1 <= k < ts implies #[trigger] self.buffer@[base + k] == old(self).buffer@[base + k] by {
                    assert(pre.buffer@[base + k] == old(self).buffer@[base + k]);
                }
            }
            j = j + 1;
        }
        proof {
            let tsi = ts as int;
            assert forall|k: int|
                0 <= k < sub implies #[trigger] self.tier_at(t as int, k) == old(self).tier_at(
                t as int,
                k,
            ) by {
                assert(rotated_slot(tsi, 0, k) == k);
                assert(self.buffer@[base + k] == old(self).buffer@[base + k]);
            }
            assert forall|k: int|
                sub <= k < ts - 1 implies #[trigger] self.tier_at(t as int, k) == old(self).tier_at(t as int, k + 1) by {
                assert(rotated_slot(tsi, 0, k) == k);
                assert(rotated_slot(tsi, 0, k + 1) == k + 1);
                assert(self.buffer@[base + k] == old(self).buffer@[base + k + 1]);
            }
            assert forall|u: int, k: int|
                0 <= u < self.t_count && u != t as int && 0 <= k < ts
                implies #[trigger] self.tier_at(u, k) == old(self).tier_at(u, k) by {
                assert(old(self).offsets@[u] < ts);
                lemma_tier_range(u, self.t_count as int, ts as int);
                if u < t as int {
                    lemma_mul_inequality(u + 1, t as int, ts as int);
                    lemma_mul_is_distributive_add_other_way(ts as int, u, 1);
                } else {
                    lemma_mul_inequality(t as int + 1, u, ts as int);
                    lemma_mul_is_distributive_add_other_way(ts as int, t as int, 1);
                }
            }
        }
        taken
    }

    /// Propagates the hole left in the (normalized) tier `t`'s last slot
    /// forward: each following tier is rotated right one step (its offset
    /// incremented, wrapping), pulling its first logical element back into
    /// the previous tier's freed last slot. Afterwards the hole sits past the
    /// last live element.
    fn cascade_right(&mut self, t: usize)
        requires
            old(self).layout_ok(),
            t < old(self).t_count,
            old(self).offsets@[t as int] == 0,
        ensures
            final(self).layout_ok(),
            final(self).t_size == old(self).t_size,
            final(self).t_count == old(self).t_count,
            final(self).t_last == old(self).t_last,
            final(self).capacity == old(self).capacity,
            final(self).len == old(self).len,
            final(self).offsets@.len() == old(self).offsets@.len(),
            final(self).scratch@ == old(self).scratch@,
            final(self).buffer@.len() == old(self).buffer@.len(),
            forall|u: int, k: int|
                0 <= u < t as int && 0 <= k < final(self).t_size ==> #[trigger] final(self).tier_at(u, k) == old(self).tier_at(u, k),
            forall|k: int|
                0 <= k < final(self).t_size - 1 ==> #[trigger] final(self).tier_at(t as int, k)
                    == old(self).tier_at(t as int, k),
            forall|u: int, k: int|
                t as int + 1 <= u < final(self).t_count && 0 <= k < final(self).t_size - 1
                    ==> #[trigger] final(self).tier_at(u, k) == old(self).tier_at(u, k + 1),
            forall|u: int|
                t as int <= u < final(self).t_count - 1 ==> #[trigger] final(self).tier_at(
                    u,
                    final(self).t_size as int - 1,
                ) == old(self).tier_at(u + 1, 0),
    {
        let ts = self.t_size;
        proof {
            lemma_tier_range(t as int, self.t_count as int, ts as int);
        }
        let mut hole = t * ts + ts - 1;
        let mut i = t + 1;
        while i < self.t_count
            invariant
                old(self).layout_ok(),
                ts == old(self).t_size,
                t < old(self).t_count,
                t + 1 <= i <= self.t_count,
                self.t_size == old(self).t_size,
                self.t_count == old(self).t_count,
                self.t_last == old(self).t_last,
                self.capacity == old(self).capacity,
                self.len == old(self).len,
                self.scratch@ == old(self).scratch@,
                self.buffer@.len() == old(self).buffer@.len(),
                self.offsets@.len() == old(self).offsets@.len(),
                forall|u: int|
                    0 <= u < self.t_count && !(t + 1 <= u < i) ==> self.offsets@[u] == old(self).offsets@[u],
                forall|u: int|
                    0 <= u < self.t_count ==> #[trigger] self.offsets@[u] < self.t_size,
                hole as int == (i - 1) * ts + rotated_slot(
                    ts as int,
                    self.offsets@[i - 1] as int,
                    ts as int - 1,
                ),
                hole < self.buffer@.len(),
                forall|u: int, k: int|
                    0 <= u < t as int && 0 <= k < ts ==> #[trigger] self.tier_at(u, k) == old(self).tier_at(u, k),
                forall|k: int|
                    0 <= k < ts - 1 ==> #[trigger] self.tier_at(t as int, k) == old(self).tier_at(
                        t as int,
                        k,
                    ),
                forall|u: int, k: int|
                    t + 1 <= u < i && 0 <= k < ts - 1 ==> #[trigger] self.tier_at(u, k) == old(self).tier_at(u, k + 1),
                forall|u: int|
                    t <= u < i - 1 ==> #[trigger] self.tier_at(u, ts as int - 1) == old(self).tier_at(u + 1, 0),
                forall|u: int, k: int|
                    i <= u < self.t_count && 0 <= k < ts ==> #[trigger] self.tier_at(u, k) == old(self).tier_at(u, k),
            decreases self.t_count - i,
        {
            let ghost pre = *self;
            proof {
                lemma_tier_range(i as int, self.t_count as int, ts as int);
                lemma_tier_range(i as int - 1, self.t_count as int, ts as int);
                if t + 1 <= i as int - 1 {
                    lemma_mul_inequality(i as int, i as int, ts as int);
                }
                lemma_mul_is_distributive_add_other_way(ts as int, i as int - 1, 1);
            }
            let off = self.offsets[i];
            swap_slots(&mut self.buffer, hole, i * ts + off);
            let newoff = if off == ts - 1 {
                0
            } else {
                off + 1
            };
            self.offsets[i] = newoff;
            proof {
                let tsi = ts as int;
                let ii = i as int;
                assert(rotated_slot(tsi, off as int, 0) == off as int);
                assert(rotated_slot(tsi, newoff as int, tsi - 1) == off as int);
                assert(pre.tier_at(ii, 0) == old(self).tier_at(ii, 0));
                assert forall|u: int, k: int|
                    0 <= u < t as int && 0 <= k < ts
                    implies #[trigger] self.tier_at(u, k) == old(self).tier_at(u, k) by {
                    assert(pre.tier_at(u, k) == old(self).tier_at(u, k));
                    assert(pre.offsets@[u] < ts);
                    lemma_tier_range(u, self.t_count as int, tsi);
                    lemma_mul_inequality(u + 1, ii, tsi);
                    lemma_mul_is_distributive_add_other_way(tsi, u, 1);
                    lemma_mul_inequality(u + 1, ii - 1, tsi);
                }
                assert forall|k: int|
                    0 <= k < ts - 1 implies #[trigger] self.tier_at(t as int, k) == old(self).tier_at(t as int, k) by {
                    assert(pre.tier_at(t as int, k) == old(self).tier_at(t as int, k));
                    assert(pre.offsets@[t as int] < ts);
                    lemma_tier_range(t as int, self.t_count as int, tsi);
                    if t + 1 <= ii - 1 {
                        lemma_mul_inequality(t as int + 1, ii - 1, tsi);
                        lemma_mul_is_distributive_add_other_way(tsi, t as int, 1);
                    }
                    lemma_mul_inequality(t as int + 1, ii, tsi);
                    lemma_mul_is_distributive_add_other_way(tsi, t as int, 1);
                }
                assert forall|u: int, k: int|
                    t + 1 <= u < ii + 1 && 0 <= k < ts - 1
                    implies #[trigger] self.tier_at(u, k) == old(self).tier_at(u, k + 1) by {
                    if u == ii {
                        assert(pre.tier_at(ii, k + 1) == old(self).tier_at(ii, k + 1));
                        assert(rotated_slot(tsi, newoff as int, k) == rotated_slot(
                            tsi,
                            off as int,
                            k + 1,
                        ));
                        assert(rotated_slot(tsi, off as int, k + 1) != off as int);
                    } else {
                        assert(pre.tier_at(u, k) == old(self).tier_at(u, k + 1));
                        assert(pre.offsets@[u] < ts);
                        lemma_tier_range(u, self.t_count as int, tsi);
                        lemma_mul_inequality(u + 1, ii, tsi);
                        lemma_mul_is_distributive_add_other_way(tsi, u, 1);
                        if u < ii - 1 {
                            lemma_mul_inequality(u + 1, ii - 1, tsi);
                        }
                    }
                }
                assert forall|u: int|
                    t <= u < ii implies #[trigger] self.tier_at(u, ts as int - 1) == old(self).tier_at(u + 1, 0) by {
                    if u == ii - 1 {
                        assert(self.buffer@[hole as int] == pre.buffer@[ii * tsi + off]);
                        assert(self.offsets@[u] == pre.offsets@[u]);
                    } else {
                        assert(pre.tier_at(u, tsi - 1) == old(self).tier_at(u + 1, 0));
                        assert(pre.offsets@[u] < ts);
                        lemma_tier_range(u, self.t_count as int, tsi);
                        lemma_mul_inequality(u + 1, ii, tsi);
                        lemma_mul_is_distributive_add_other_way(tsi, u, 1);
                        lemma_mul_inequality(u + 1, ii - 1, tsi);
                    }
                }
                assert forall|u: int, k: int|
                    ii + 1 <= u < self.t_count && 0 <= k < ts
                    implies #[trigger] self.tier_at(u, k) == old(self).tier_at(u, k) by {
                    assert(pre.tier_at(u, k) == old(self).tier_at(u, k));
                    assert(pre.offsets@[u] < ts);
                    lemma_tier_range(u, self.t_count as int, tsi);
                    lemma_mul_inequality(ii + 1, u, tsi);
                    lemma_mul_is_distributive_add_other_way(tsi, ii, 1);
                    lemma_mul_is_distributive_add_other_way(tsi, ii - 1, 1);
                }
            }
            hole = i * ts + off;
            i = i + 1;
        }
    }

    /// Removes and returns the element at logical position `index`, shifting
    /// every later element one position left: the target tier is normalized
    /// and shifted physically, and each following tier is rotated right by
    /// one offset step while its first element is pulled back into the
    /// preceding tier, so the edit costs O(sqrt n). The last tier is retired
    /// when it empties. Fails exactly when `index >= length`.
    pub fn remove(&mut self, index: usize) -> (r: Result<T, TieredError>)
        requires
            old(self).wf(),
        ensures
            final(self).wf(),
            final(self).spec_capacity() == old(self).spec_capacity(),
            index >= old(self)@.len() ==> r == Result::<T, TieredError>::Err(
                TieredError::IndexOutOfBounds,
            ) && final(self)@ == old(self)@,
            index < old(self)@.len() ==> r is Ok && r->Ok_0 == old(self)@[index as int] && final(self)@ == old(self)@.remove(index as int) && final(self)@.len() == old(self)@.len() - 1,
    {
        if index >= self.len {
            return Err(TieredError::IndexOutOfBounds);
        }
        let ghost s0 = *self;
        let ts = self.t_size;
        proof {
            lemma_split_index(index as int, ts as int);
            lemma_tier_of_bounded(index as int, self.t_count as int, ts as int);
        }
        let t = index / ts;
        let sub = index % ts;
        self.normalize(t);
        let ghost s1 = *self;
        let taken = self.remove_in_tier(t, sub);
        let ghost s2 = *self;
        self.cascade_right(t);
        let ghost s3 = *self;
        proof {
            let tsi = ts as int;
            let ti = t as int;
            let tc = s3.t_count as int;
            let idx = index as int;
            assert(taken == s0.at(idx));
            assert(s0.at(idx) is Some);
            assert forall|q: int|
                0 <= q < tc * tsi - 1 implies #[trigger] s3.at(q) == (if q < idx {
                s0.at(q)
            } else {
                s0.at(q + 1)
            }) by {
                lemma_split_index(q, tsi);
                lemma_tier_of_bounded(q, tc, tsi);
                let u = q / tsi;
                let k = q % tsi;
                lemma_tier_range(u, tc, tsi);
                assert(s3.at(q) == s3.tier_at(u, k));
                if u < ti {
                    lemma_mul_inequality(u + 1, ti, tsi);
                    lemma_mul_is_distributive_add_other_way(tsi, u, 1);
                    assert(q < idx);
                    assert(s3.tier_at(u, k) == s2.tier_at(u, k));
                    assert(s2.tier_at(u, k) == s1.tier_at(u, k));
                    assert(s1.tier_at(u, k) == s0.tier_at(u, k));
                    lemma_flat_index(u, k, tsi);
                    assert(s0.at(q) == s0.tier_at(u, k));
                } else if u == ti && k < sub {
                    assert(q < idx);
                    assert(s3.tier_at(ti, k) == s2.tier_at(ti, k));
                    assert(s2.tier_at(ti, k) == s1.tier_at(ti, k));
                    assert(s1.tier_at(ti, k) == s0.tier_at(ti, k));
                    lemma_flat_index(ti, k, tsi);
                    assert(s0.at(q) == s0.tier_at(ti, k));
                } else if u == ti && k < tsi - 1 {
                    assert(q >= idx);
                    assert(s3.tier_at(ti, k) == s2.tier_at(ti, k));
                    assert(s2.tier_at(ti, k) == s1.tier_at(ti, k + 1));
                    assert(s1.tier_at(ti, k + 1) == s0.tier_at(ti, k + 1));
                    lemma_flat_index(ti, k + 1, tsi);
                    assert(s0.at(q + 1) == s0.tier_at(ti, k + 1));
                } else if u == ti {
                    assert(k == tsi - 1);
                    assert(q >= idx);
                    assert(ti < tc - 1) by {
                        if ti == tc - 1 {
                            lemma_mul_is_distributive_add_other_way(tsi, tc - 1, 1);
                            assert(false);
                        }
                    }
                    assert(s3.tier_at(ti, tsi - 1) == s2.tier_at(ti + 1, 0));
                    assert(s2.tier_at(ti + 1, 0) == s1.tier_at(ti + 1, 0));
                    assert(s1.tier_at(ti + 1, 0) == s0.tier_at(ti + 1, 0));
                    lemma_mul_is_distributive_add_other_way(tsi, ti, 1);
                    lemma_flat_index(ti + 1, 0, tsi);
                    assert(s0.at(q + 1) == s0.tier_at(ti + 1, 0));
                } else if k < tsi - 1 {
                    lemma_mul_inequality(ti + 1, u, tsi);
                    lemma_mul_is_distributive_add_other_way(tsi, ti, 1);
                    assert(q > idx);
                    assert(s3.tier_at(u, k) == s2.tier_at(u, k + 1));
                    assert(s2.tier_at(u, k + 1) == s1.tier_at(u, k + 1));
                    assert(s1.tier_at(u, k + 1) == s0.tier_at(u, k + 1));
                    lemma_flat_index(u, k + 1, tsi);
                    assert(s0.at(q + 1) == s0.tier_at(u, k + 1));
                } else {
                    assert(k == tsi - 1);
                    lemma_mul_inequality(ti + 1, u, tsi);
                    lemma_mul_is_distributive_add_other_way(tsi, ti, 1);
                    assert(q > idx);
                    assert(u < tc - 1) by {
                        if u == tc - 1 {
                            lemma_mul_is_distributive_add_other_way(tsi, tc - 1, 1);
                            assert(false);
                        }
                    }
                    assert(s3.tier_at(u, tsi - 1) == s2.tier_at(u + 1, 0));
                    assert(s2.tier_at(u + 1, 0) == s1.tier_at(u + 1, 0));
                    assert(s1.tier_at(u + 1, 0) == s0.tier_at(u + 1, 0));
                    lemma_mul_is_distributive_add_other_way(tsi, u, 1);
                    lemma_flat_index(u + 1, 0, tsi);
                    assert(s0.at(q + 1) == s0.tier_at(u + 1, 0));
                }
            }
        }
        self.len = self.len - 1;
        let ghost s4 = *self;
        proof {
            assert forall|q: int| 0 <= q < s4.len implies #[trigger] s4.at(q) == s3.at(q) by {
                assert(s4.phys(q) == s3.phys(q));
            }
            lemma_mul_is_distributive_add_other_way(ts as int, s4.t_count as int - 1, 1);
        }
        if self.t_count > 1 && self.len == (self.t_count - 1) * ts {
            self.offsets.pop();
            self.t_count = self.t_count - 1;
            self.t_last = self.t_last - 1;
            proof {
                let tsi = ts as int;
                let tc2 = self.t_count as int;
                lemma_mul_is_distributive_add_other_way(tsi, tc2 - 1, 1);
                assert forall|q: int|
                    0 <= q < self.len implies #[trigger] self.at(q) == s4.at(q) by {
                    lemma_split_index(q, tsi);
                    lemma_tier_of_bounded(q, tc2, tsi);
                    assert(self.offsets@[q / tsi] == s4.offsets@[q / tsi]);
                    assert(self.phys(q) == s4.phys(q));
                }
            }
        }
        proof {
            let idx = index as int;
            assert forall|q: int| 0 <= q < self.len implies #[trigger] self.at(q) == (if q < idx {
                s0.at(q)
            } else {
                s0.at(q + 1)
            }) && self.at(q) is Some by {
                assert(s3.at(q) == (if q < idx {
                    s0.at(q)
                } else {
                    s0.at(q + 1)
                }));
            }
            assert(self@ =~= old(self)@.remove(idx));
        }
        proof {
            assert(taken is Some);
        }
        Ok(taken.unwrap())
    }

    /// Appends `elem` after the last element; exactly `insert(length, elem)`.
    pub fn push(&mut self, elem: T)
        requires
            old(self).wf(),
            old(self).spec_capacity() <= usize::MAX as int / 8,
        ensures
            final(self).wf(),
            final(self)@ == old(self)@.push(elem),
            final(self)@.len() == old(self)@.len() + 1,
            old(self).spec_capacity() <= final(self).spec_capacity(),
            final(self).spec_capacity() <= old(self).spec_capacity() || final(self).spec_capacity() <= 6 * old(self)@.len(),
    {
        let n = self.len;
        let _ = self.insert(n, elem);
        proof {
            assert(old(self)@.insert(old(self)@.len() as int, elem) =~= old(self)@.push(elem));
        }
    }

    /// Removes and returns the last element, or `None` when the container is
    /// empty; emptiness is checked before any removal is attempted, so an
    /// empty container never trips a bounds error.
    pub fn pop(&mut self) -> (r: Option<T>)
        requires
            old(self).wf(),
        ensures
            final(self).wf(),
            final(self).spec_capacity() == old(self).spec_capacity(),
            old(self)@.len() == 0 ==> r is None && final(self)@ == old(self)@,
            old(self)@.len() > 0 ==> r == Some(old(self)@.last()) && final(self)@ == old(self)@.drop_last() && final(self)@.len() == old(self)@.len() - 1,
    {
        if self.len == 0 {
            return None;
        }
        let n = self.len - 1;
        let r = self.remove(n);
        match r {
            Ok(x) => {
                proof {
                    assert(old(self)@.remove(old(self)@.len() - 1) =~= old(self)@.drop_last());
                }
                Some(x)
            },
            Err(_) => None,
        }
    }

    /// Removes every element, retiring the tiers down to one; the allocated
    /// capacity is kept.
    pub fn clear(&mut self)
        requires
            old(self).wf(),
        ensures
            final(self).wf(),
            final(self)@ == Seq::<T>::empty(),
            final(self).spec_capacity() == old(self).spec_capacity(),
    {
        let cap = self.buffer.len();
        let mut i: usize = 0;
        while i < cap
            invariant
                old(self).wf(),
                i <= cap,
                cap == self.buffer@.len(),
                self.t_size == old(self).t_size,
                self.t_count == old(self).t_count,
                self.t_last == old(self).t_last,
                self.capacity == old(self).capacity,
                self.len == old(self).len,
                self.offsets@ == old(self).offsets@,
                self.scratch@ == old(self).scratch@,
            decreases cap - i,
        {
            let _ = replace_slot(&mut self.buffer, i, None);
            i = i + 1;
        }
        self.len = 0;
        self.t_count = 1;
        self.t_last = 0;
        self.offsets.clear();
        self.offsets.push(0);
        proof {
            let tsx = self.t_size as int;
            assert(tsx <= tsx * tsx) by (nonlinear_arith)
                requires 1 <= tsx;
            assert(self@ =~= Seq::<T>::empty());
        }
    }

    /// Borrows the element at logical position `index`, or `None` when the
    /// index is out of bounds.
    pub fn get(&self, index: usize) -> (r: Option<&T>)
        requires
            self.wf(),
        ensures
            index < self@.len() ==> r is Some && *(r->0) == self@[index as int],
            index >= self@.len() ==> r is None,
    {
        if index >= self.len {
            return None;
        }
        let p = self.phys_index(index);
        let slot = &self.buffer[p];
        proof {
            assert(self.at(index as int) is Some);
            assert(*slot == self.at(index as int));
        }
        match slot {
            Some(x) => Some(x),
            None => None,
        }
    }

    /// Overwrites the element at logical position `index` with `elem`; the
    /// mutable counterpart of `get`. Fails exactly when the index is out of
    /// bounds.
    pub fn set(&mut self, index: usize, elem: T) -> (r: Result<(), TieredError>)
        requires
            old(self).wf(),
        ensures
            final(self).wf(),
            final(self).spec_capacity() == old(self).spec_capacity(),
            index >= old(self)@.len() ==> r == Result::<(), TieredError>::Err(
                TieredError::IndexOutOfBounds,
            ) && final(self)@ == old(self)@,
            index < old(self)@.len() ==> r == Result::<(), TieredError>::Ok(()) && final(self)@
                == old(self)@.update(index as int, elem),
    {
        if index >= self.len {
            return Err(TieredError::IndexOutOfBounds);
        }
        let p = self.phys_index(index);
        let _ = replace_slot(&mut self.buffer, p, Some(elem));
        proof {
            let idx = index as int;
            assert forall|q: int|
                0 <= q < self.len && q != idx implies #[trigger] self.at(q) == old(self).at(
                q,
            ) by {
                old(self).lemma_phys_injective(q, idx);
                old(self).lemma_phys_bounds(q);
                assert(self.phys(q) == old(self).phys(q));
            }
            assert(self.phys(idx) == old(self).phys(idx));
            assert(self.at(idx) == Some(elem));
            assert(self@ =~= old(self)@.update(idx, elem));
        }
        Ok(())
    }
}

impl<T: Copy> VecTiered<T> {
    /// The logical contents, in positional order, as one contiguous vector:
    /// the read-only bulk view of the container, backed by the indexing rule
    /// rather than the (possibly rotated) raw buffer.
    pub fn to_vec(&self) -> (r: Vec<T>)
        requires
            self.wf(),
        ensures
            r@ == self@,
    {
        let mut out: Vec<T> = Vec::new();
        let mut i: usize = 0;
        while i < self.len
            invariant
                self.wf(),
                i <= self.len,
                out@.len() == i,
                forall|q: int| 0 <= q < i ==> out@[q] == self@[q],
            decreases self.len - i,
        {
            let x = self.get(i);
            match x {
                Some(v) => out.push(*v),
                None => (),
            }
            i = i + 1;
        }
        proof {
            assert(out@ =~= self@);
        }
        out
    }
}

} // verus!
