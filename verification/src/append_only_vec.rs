//! `AppendOnlyVec` - an append-only vector whose elements live in buckets of
//! doubling size; an element never moves once stored.
//!
//! Bucket `i` holds `16 << i` entries and starts at logical index
//! `16 * (2^i - 1)`; 28 buckets cover `16 * (2^28 - 1)` entries.

use vstd::prelude::*;
use vstd::arithmetic::power2::*;
use vstd::std_specs::bits::*;

verus! {

/// Append-only vector: element `i` is stored in bucket `bucket_of(i)` at slot
/// `slot_of(i)`, and stays there for the vector's lifetime.
pub struct AppendOnlyVec<T> {
    /// Allocated buckets, in schedule order; bucket `i` is created with room
    /// for `16 << i` elements and only ever appended to.
    buckets: Vec<Vec<T>>,
    /// Number of stored elements.
    reserved: usize,
    /// The length-changing calls made so far.
    history: Ghost<Seq<VecOp>>,
}

/// First bucket holds 16 entries.
pub const FIRST_BUCKET: usize = 16;

/// Number of buckets; together they cover `16 * (2^28 - 1)` entries.
pub const N_BUCKETS: usize = 28;

/// `floor(log2(n))`, with `floor_log2(0) == 0`.
pub open spec fn floor_log2(n: nat) -> nat
    decreases n,
{
    if n < 2 {
        0
    } else {
        1 + floor_log2(n / 2)
    }
}

/// Number of slots in bucket `b`.
pub open spec fn slots_in_bucket(b: nat) -> nat {
    16 * pow2(b)
}

/// Logical index of the first slot of bucket `b`: the sizes of buckets `0..b` summed.
pub open spec fn bucket_start(b: nat) -> nat {
    (16 * (pow2(b) - 1)) as nat
}

/// Bucket that holds logical index `i`.
pub open spec fn bucket_of(i: nat) -> nat {
    floor_log2(i / 16 + 1)
}

/// Position of logical index `i` inside its bucket.
pub open spec fn slot_of(i: nat) -> nat {
    (i - bucket_start(bucket_of(i))) as nat
}

/// Total number of slots the 28 buckets provide: `16 * (2^28 - 1)`.
pub open spec fn total_slots() -> nat {
    0xFFFF_FFF0
}

/// `2^floor_log2(n) <= n < 2^(floor_log2(n) + 1)` for positive `n`.
pub proof fn lemma_floor_log2_bounds(n: nat)
    requires
        n >= 1,
    ensures
        pow2(floor_log2(n)) <= n < pow2(floor_log2(n) + 1),
    decreases n,
{
    if n < 2 {
        lemma2_to64();
    } else {
        lemma_floor_log2_bounds(n / 2);
        lemma_pow2_unfold(floor_log2(n));
        lemma_pow2_unfold(floor_log2(n) + 1);
    }
}

proof fn lemma_pow2_increases(a: nat, b: nat)
    requires
        a <= b,
    ensures
        pow2(a) <= pow2(b),
{
    if a < b {
        lemma_pow2_strictly_increases(a, b);
    }
}

/// `63 - leading_zeros(n)` is `floor_log2(n)` for a positive 64-bit `n`.
proof fn lemma_leading_zeros_is_log2(n: u64)
    requires
        n > 0,
    ensures
        63 - u64_leading_zeros(n) == floor_log2(n as nat),
    decreases n,
{
    reveal(u64_leading_zeros);
    if n >= 2 {
        lemma_leading_zeros_is_log2(n / 2);
    } else {
        assert(u64_leading_zeros(0) == 64);
    }
}

/// Every logical index lies inside the bucket `bucket_of` names, at offset `slot_of`:
/// `bucket_start(b) <= i < bucket_start(b + 1)`, and bucket `b + 1` starts where
/// bucket `b` ends.
pub proof fn lemma_bucket_of_brackets(i: nat)
    ensures
        bucket_start(bucket_of(i)) <= i < bucket_start(bucket_of(i) + 1),
        bucket_start(bucket_of(i) + 1) == bucket_start(bucket_of(i)) + slots_in_bucket(bucket_of(i)),
        slot_of(i) < slots_in_bucket(bucket_of(i)),
{
    let m = i / 16 + 1;
    let b = bucket_of(i);
    lemma_floor_log2_bounds(m);
    lemma_pow2_unfold(b + 1);
    lemma_pow2_pos(b);
}

/// Number of slots of bucket `b` that hold elements when `n` elements are stored.
pub open spec fn bucket_fill(n: nat, b: nat) -> nat {
    if n <= bucket_start(b) {
        0
    } else if n >= bucket_start(b + 1) {
        slots_in_bucket(b)
    } else {
        (n - bucket_start(b)) as nat
    }
}

/// Bucket starts grow strictly, and bucket `b + 1` starts where bucket `b` ends.
pub proof fn lemma_bucket_start_increases(a: nat, b: nat)
    ensures
        a < b ==> bucket_start(a) < bucket_start(b),
        a <= b ==> bucket_start(a) <= bucket_start(b),
        bucket_start(a + 1) == bucket_start(a) + slots_in_bucket(a),
        slots_in_bucket(a) > 0,
{
    lemma_pow2_unfold(a + 1);
    lemma_pow2_pos(a);
    if a < b {
        lemma_pow2_strictly_increases(a, b);
    }
}

/// Logical index `i` lies in bucket `b` exactly when `b` is `bucket_of(i)`.
pub proof fn lemma_bucket_of_unique(i: nat, b: nat)
    requires
        bucket_start(b) <= i < bucket_start(b + 1),
    ensures
        bucket_of(i) == b,
        slot_of(i) == i - bucket_start(b),
{
    lemma_bucket_of_brackets(i);
    let c = bucket_of(i);
    if c < b {
        lemma_bucket_start_increases(c + 1, b);
    } else if c > b {
        lemma_bucket_start_increases(b + 1, c);
    }
}

/// An index below the start of bucket `a` lies in one of the buckets before `a`.
pub proof fn lemma_bucket_of_below(i: nat, a: nat)
    requires
        i < bucket_start(a),
    ensures
        bucket_of(i) < a,
{
    lemma_bucket_of_brackets(i);
    if bucket_of(i) >= a {
        lemma_bucket_start_increases(a, bucket_of(i));
    }
}

/// The 28 buckets provide `total_slots()` slots.
pub proof fn lemma_total_slots()
    ensures
        total_slots() == bucket_start(N_BUCKETS as nat),
{
    lemma2_to64();
}

/// Distinct logical indices occupy distinct slots: `(bucket_of(i), slot_of(i))`
/// determines `i`, so no push can land on an occupied slot.
pub proof fn law_placement_injective(i: nat, j: nat)
    ensures
        bucket_of(i) == bucket_of(j) && slot_of(i) == slot_of(j) ==> i == j,
        bucket_start(bucket_of(i)) + slot_of(i) == i,
{
    lemma_bucket_of_brackets(i);
    lemma_bucket_of_brackets(j);
}

/// Read after write: once `value` is appended at index `before.len()`, that
/// index holds `value` and every earlier index holds what it held before.
pub proof fn law_push_then_get<T>(before: Seq<T>, value: T)
    ensures
        before.push(value)[before.len() as int] == value,
        forall|i: int| 0 <= i < before.len() ==> #[trigger] before.push(value)[i] == before[i],
        before.is_prefix_of(before.push(value)),
{
    assert(before =~= before.push(value).subrange(0, before.len() as int));
}

/// A call that can change an `AppendOnlyVec`'s length.
pub ghost enum VecOp {
    /// `push`.
    Push,
    /// `push_bounded` with the given cap.
    PushBounded(nat),
}

/// The length after `op`, from length `n`.
pub open spec fn len_step(n: nat, op: VecOp) -> nat {
    match op {
        VecOp::Push => n + 1,
        VecOp::PushBounded(cap) => if n >= cap {
            n
        } else {
            n + 1
        },
    }
}

/// The length after each of `ops` in turn, from length `n`.
pub open spec fn len_after(n: nat, ops: Seq<VecOp>) -> nat
    decreases ops.len(),
{
    if ops.len() == 0 {
        n
    } else {
        len_step(len_after(n, ops.drop_last()), ops.last())
    }
}

/// How many of `ops`, run from length `n`, were bounded pushes refused at their cap.
pub open spec fn refusals(n: nat, ops: Seq<VecOp>) -> nat
    decreases ops.len(),
{
    if ops.len() == 0 {
        0
    } else {
        let m = len_after(n, ops.drop_last());
        refusals(n, ops.drop_last()) + match ops.last() {
            VecOp::PushBounded(cap) => if m >= cap {
                1nat
            } else {
                0nat
            },
            VecOp::Push => 0nat,
        }
    }
}

/// Over any history, the count never goes down, and it grows by one for
/// every `push` and every `push_bounded` that succeeded: it is the starting
/// count plus the calls made, less the bounded pushes refused at their cap.
pub proof fn law_count_history(n: nat, ops: Seq<VecOp>)
    ensures
        len_after(n, ops) >= n,
        len_after(n, ops) + refusals(n, ops) == n + ops.len(),
    decreases ops.len(),
{
    if ops.len() > 0 {
        law_count_history(n, ops.drop_last());
    }
}

/// `k` bounded pushes with cap `cap`.
pub open spec fn bounded_pushes(cap: nat, k: nat) -> Seq<VecOp> {
    Seq::new(k, |i: int| VecOp::PushBounded(cap))
}

/// The cap is honoured exactly: starting empty, `k` bounded pushes leave
/// `min(k, cap)` elements - every push below the cap succeeds and none
/// beyond it does.
pub proof fn law_bounded_pushes_reach_cap_exactly(cap: nat, k: nat)
    ensures
        len_after(0, bounded_pushes(cap, k)) == if k <= cap {
            k
        } else {
            cap
        },
    decreases k,
{
    if k > 0 {
        assert(bounded_pushes(cap, k).drop_last() =~= bounded_pushes(cap, (k - 1) as nat));
        law_bounded_pushes_reach_cap_exactly(cap, (k - 1) as nat);
    }
}

/// Running `first` and then `rest` is running `first + rest`.
pub proof fn lemma_len_after_concat(n: nat, first: Seq<VecOp>, rest: Seq<VecOp>)
    ensures
        len_after(n, first + rest) == len_after(len_after(n, first), rest),
    decreases rest.len(),
{
    if rest.len() == 0 {
        assert(first + rest =~= first);
    } else {
        assert((first + rest).drop_last() =~= first + rest.drop_last());
        lemma_len_after_concat(n, first, rest.drop_last());
    }
}

/// The count seen at a later moment is never below the count seen at an
/// earlier one: whatever calls `later` adds to the history, the length only grows.
pub proof fn law_count_never_decreases(earlier: Seq<VecOp>, later: Seq<VecOp>)
    requires
        earlier.is_prefix_of(later),
    ensures
        len_after(0, later) >= len_after(0, earlier),
{
    let rest = later.subrange(earlier.len() as int, later.len() as int);
    assert(earlier + rest =~= later);
    lemma_len_after_concat(0, earlier, rest);
    law_count_history(len_after(0, earlier), rest);
}

impl<T> AppendOnlyVec<T> {
    /// The count is what the recorded calls produce from empty: the number of
    /// `push` calls plus the `push_bounded` calls that succeeded.
    pub proof fn lemma_count_is_history(&self)
        requires
            self.wf(),
        ensures
            self@.len() == len_after(0, self.history()),
            self@.len() + refusals(0, self.history()) == self.history().len(),
    {
        law_count_history(0, self.history());
    }

    /// Number of buckets allocated so far.
    pub closed spec fn allocated_buckets(&self) -> nat {
        self.buckets@.len()
    }

    /// The calls that changed the length since the vector was made, in order.
    pub closed spec fn history(&self) -> Seq<VecOp> {
        self.history@
    }

    /// Well-formedness: the bucket layout holds, and the length is what the
    /// recorded calls produce from an empty vector.
    pub closed spec fn wf(&self) -> bool {
        &&& self.layout_wf()
        &&& self.reserved == len_after(0, self.history@)
    }

    /// The allocated buckets form a prefix of the schedule, every stored
    /// element sits in an allocated bucket, and bucket `b` holds exactly the
    /// elements whose logical index falls in its range.
    closed spec fn layout_wf(&self) -> bool {
        &&& self.buckets@.len() <= N_BUCKETS
        &&& self.reserved <= bucket_start(self.buckets@.len())
        &&& forall|b: int|
            0 <= b < self.buckets@.len() ==> #[trigger] self.buckets@[b]@.len() == bucket_fill(
                self.reserved as nat,
                b as nat,
            )
    }

    proof fn lemma_wf_locates(&self, i: nat)
        requires
            self.layout_wf(),
            i < self.reserved,
        ensures
            bucket_of(i) < self.buckets@.len(),
            slot_of(i) < self.buckets@[bucket_of(i) as int]@.len(),
    {
        lemma_bucket_of_brackets(i);
        let b = bucket_of(i);
        if b >= self.buckets@.len() {
            lemma_bucket_start_increases(self.buckets@.len(), b);
        }
        assert(self.buckets@[b as int]@.len() == bucket_fill(self.reserved as nat, b));
    }

    /// Bucket size schedule: bucket `i` holds `FIRST_BUCKET << i` entries.
    pub fn bucket_size(i: usize) -> (r: usize)
        requires
            i + 4 < usize::BITS,
        ensures
            r == slots_in_bucket(i as nat),
    {
        proof {
            lemma_pow2_adds(i as nat, 4);
            lemma2_to64();
            vstd::bits::lemma_usize_pow2_no_overflow((i + 4) as nat);
            vstd::bits::lemma_usize_shl_is_mul(16, i);
        }
        FIRST_BUCKET << i
    }

    /// Logical index -> `(bucket, slot_within_bucket)`.
    ///
    /// For logical `n`, the bucket is the `i` with
    /// `FIRST_BUCKET * (2^i - 1) <= n < FIRST_BUCKET * (2^(i+1) - 1)`,
    /// i.e. the `i` with `(n / FIRST_BUCKET) + 1` in `[2^i, 2^(i+1))`.
    pub fn locate(logical: usize) -> (r: (usize, usize))
        ensures
            r.0 == bucket_of(logical as nat),
            r.1 == slot_of(logical as nat),
            bucket_start(r.0 as nat) + r.1 == logical,
            r.1 < slots_in_bucket(r.0 as nat),
    {
        let shifted: usize = (logical / FIRST_BUCKET) + 1;
        let lz: u32 = (shifted as u64).leading_zeros();
        proof {
            lemma_leading_zeros_is_log2(shifted as u64);
            lemma_floor_log2_bounds(shifted as nat);
            lemma_bucket_of_brackets(logical as nat);
        }
        let bucket: usize = (u64::BITS - 1 - lz) as usize;
        proof {
            lemma2_to64();
            if bucket >= usize::BITS {
                lemma_pow2_increases(usize::BITS as nat, bucket as nat);
            }
            vstd::bits::lemma_usize_pow2_no_overflow(bucket as nat);
            vstd::bits::lemma_usize_shl_is_mul(1, bucket);
        }
        let bucket_start: usize = FIRST_BUCKET * ((1usize << bucket) - 1);
        let slot: usize = logical - bucket_start;
        (bucket, slot)
    }

    /// Constructs an empty vector with no allocations.
    pub fn new() -> (r: Self)
        ensures
            r.wf(),
            r@ == Seq::<T>::empty(),
            r.allocated_buckets() == 0,
            r.history() == Seq::<VecOp>::empty(),
    {
        let r: Self = AppendOnlyVec { buckets: Vec::new(), reserved: 0, history: Ghost(Seq::empty()) };
        assert(r@ =~= Seq::<T>::empty());
        r
    }

    /// Constructs an empty vector and pre-allocates buckets sufficient to
    /// hold at least `cap` entries (or all 28 buckets) without further allocation.
    pub fn with_capacity(cap: usize) -> (r: Self)
        ensures
            r.wf(),
            r@ == Seq::<T>::empty(),
            r.allocated_buckets() <= N_BUCKETS,
            bucket_start(r.allocated_buckets()) >= cap || r.allocated_buckets() == N_BUCKETS,
            r.allocated_buckets() > 0 ==> bucket_start((r.allocated_buckets() - 1) as nat) < cap,
            r.history() == Seq::<VecOp>::empty(),
    {
        let mut v: Self = Self::new();
        let mut remaining: usize = cap;
        let mut bucket_idx: usize = 0;
        proof {
            lemma2_to64();
        }
        while remaining > 0 && bucket_idx < N_BUCKETS
            invariant
                v.wf(),
                v@ == Seq::<T>::empty(),
                v.history() == Seq::<VecOp>::empty(),
                bucket_idx == v.allocated_buckets(),
                bucket_idx <= N_BUCKETS,
                remaining == if cap > bucket_start(bucket_idx as nat) {
                    cap - bucket_start(bucket_idx as nat)
                } else {
                    0
                },
                bucket_idx > 0 ==> bucket_start((bucket_idx - 1) as nat) < cap,
            decreases N_BUCKETS - bucket_idx,
        {
            v.alloc_bucket(bucket_idx);
            let size: usize = Self::bucket_size(bucket_idx);
            proof {
                lemma_bucket_start_increases(bucket_idx as nat, bucket_idx as nat);
            }
            remaining = remaining.saturating_sub(size);
            bucket_idx += 1;
        }
        v
    }

    /// Iterator yielding `(index, &T)` pairs over the stored elements, in
    /// index order.
    pub fn iter(&self) -> (r: Iter<'_, T>)
        requires
            self.wf(),
        ensures
            r.valid(),
            r.items() == self@,
            r.position() == 0,
            r.end() == self@.len(),
    {
        Iter { vec: self, idx: 0, upper: self.reserved }
    }

    /// Number of stored elements.
    pub fn count(&self) -> (r: usize)
        ensures
            r == self@.len(),
    {
        self.reserved
    }

    /// Returns `&T` at logical index `idx`, or `None` if `idx` is out of range.
    pub fn get(&self, idx: usize) -> (r: Option<&T>)
        requires
            self.wf(),
        ensures
            idx < self@.len() ==> r == Some(&self@[idx as int]),
            idx >= self@.len() ==> r is None,
    {
        if idx >= self.reserved {
            return None;
        }
        let (bucket_idx, slot): (usize, usize) = Self::locate(idx);
        proof {
            self.lemma_wf_locates(idx as nat);
        }
        Some(&self.buckets[bucket_idx][slot])
    }

    /// Indexed read of an element known to be stored; `get` is the total form.
    pub fn index(&self, idx: usize) -> (r: &T)
        requires
            self.wf(),
            idx < self@.len(),
        ensures
            *r == self@[idx as int],
    {
        let (bucket_idx, slot): (usize, usize) = Self::locate(idx);
        proof {
            self.lemma_wf_locates(idx as nat);
        }
        &self.buckets[bucket_idx][slot]
    }

    /// Allocate bucket `bucket_idx`, the next one in the schedule.
    fn alloc_bucket(&mut self, bucket_idx: usize)
        requires
            old(self).layout_wf(),
            bucket_idx == old(self).buckets@.len(),
            bucket_idx < N_BUCKETS,
        ensures
            final(self).layout_wf(),
            final(self).history == old(self).history,
            final(self).reserved == old(self).reserved,
            final(self)@ == old(self)@,
            final(self).allocated_buckets() == bucket_idx + 1,
    {
        let size: usize = Self::bucket_size(bucket_idx);
        proof {
            lemma_bucket_start_increases(bucket_idx as nat, (bucket_idx + 1) as nat);
        }
        self.buckets.push(Vec::with_capacity(size));
        assert(self.buckets@[bucket_idx as int]@.len() == bucket_fill(
            self.reserved as nat,
            bucket_idx as nat,
        ));
        assert forall|i: int| 0 <= i < self.reserved implies #[trigger] self@[i] == old(self)@[i] by {
            old(self).lemma_wf_locates(i as nat);
        }
        assert(self@ =~= old(self)@);
    }

    /// Allocate bucket `bucket_idx` if it is not allocated yet.
    fn ensure_bucket(&mut self, bucket_idx: usize)
        requires
            old(self).layout_wf(),
            bucket_idx <= old(self).buckets@.len(),
            bucket_idx < N_BUCKETS,
        ensures
            final(self).layout_wf(),
            final(self).history == old(self).history,
            final(self).reserved == old(self).reserved,
            final(self)@ == old(self)@,
            final(self).allocated_buckets() == if bucket_idx < old(self).allocated_buckets() {
                old(self).allocated_buckets()
            } else {
                (bucket_idx + 1) as nat
            },
    {
        if bucket_idx == self.buckets.len() {
            self.alloc_bucket(bucket_idx);
        }
    }

    /// Write `value` into the next free slot, allocating its bucket when needed.
    fn write_at(&mut self, idx: usize, value: T)
        requires
            old(self).layout_wf(),
            idx == old(self)@.len(),
            idx < total_slots(),
        ensures
            final(self).layout_wf(),
            final(self).history == old(self).history,
            final(self).reserved == old(self).reserved + 1,
            final(self)@ == old(self)@.push(value),
            final(self).allocated_buckets() == if bucket_of(idx as nat) < old(
                self,
            ).allocated_buckets() {
                old(self).allocated_buckets()
            } else {
                bucket_of(idx as nat) + 1
            },
    {
        let (bucket_idx, slot): (usize, usize) = Self::locate(idx);
        proof {
            lemma_bucket_of_brackets(idx as nat);
            if bucket_idx > self.buckets@.len() {
                lemma_bucket_start_increases(self.buckets@.len() as nat + 1, bucket_idx as nat);
                lemma_bucket_start_increases(self.buckets@.len() as nat, self.buckets@.len() as nat);
            }
            if bucket_idx >= N_BUCKETS {
                lemma_bucket_start_increases(N_BUCKETS as nat, bucket_idx as nat);
            }
            lemma_total_slots();
        }
        self.ensure_bucket(bucket_idx);
        let ghost pre = *self;
        assert(self.buckets@[bucket_idx as int]@.len() == slot);
        self.buckets[bucket_idx].push(value);
        self.reserved = idx + 1;
        proof {
            let n = self.buckets@.len();
            lemma_bucket_start_increases(bucket_idx as nat + 1, n as nat);
            assert forall|b: int| 0 <= b < n implies #[trigger] self.buckets@[b]@.len()
                == bucket_fill(self.reserved as nat, b as nat) by {
                assert(pre.buckets@[b]@.len() == bucket_fill(idx as nat, b as nat));
                lemma_bucket_start_increases(b as nat, b as nat);
                if b < bucket_idx {
                    lemma_bucket_start_increases(b as nat + 1, bucket_idx as nat);
                    assert(self.buckets@[b] == pre.buckets@[b]);
                } else if b > bucket_idx {
                    lemma_bucket_start_increases(bucket_idx as nat + 1, b as nat);
                    assert(self.buckets@[b] == pre.buckets@[b]);
                } else {
                    assert(self.buckets@[b]@.len() == slot + 1);
                }
            }
            assert forall|i: int| 0 <= i < idx implies #[trigger] self@[i] == old(self)@[i] by {
                pre.lemma_wf_locates(i as nat);
            }
            lemma_bucket_of_unique(idx as nat, bucket_idx as nat);
            assert(self@ =~= old(self)@.push(value));
        }
    }

    /// Append `value` and return its index.
    pub fn push(&mut self, value: T) -> (r: usize)
        requires
            old(self).wf(),
            old(self)@.len() < total_slots(),
        ensures
            final(self).wf(),
            r == old(self)@.len(),
            final(self)@ == old(self)@.push(value),
            final(self)@.len() == len_step(old(self)@.len(), VecOp::Push),
            final(self).history() == old(self).history().push(VecOp::Push),
            final(self).allocated_buckets() == if bucket_of(r as nat) < old(
                self,
            ).allocated_buckets() {
                old(self).allocated_buckets()
            } else {
                bucket_of(r as nat) + 1
            },
    {
        let idx: usize = self.reserved;
        self.write_at(idx, value);
        self.history = Ghost(old(self).history@.push(VecOp::Push));
        proof {
            assert(self.history@.drop_last() =~= old(self).history@);
        }
        idx
    }

    /// Append `value` only if the count would remain at most `max_cap`, i.e.
    /// only while fewer than `max_cap` elements are stored. Returns `None`
    /// if the cap is exhausted, leaving the vector unchanged.
    pub fn push_bounded(&mut self, value: T, max_cap: usize) -> (r: Option<usize>)
        requires
            old(self).wf(),
            old(self)@.len() < max_cap ==> old(self)@.len() < total_slots(),
        ensures
            final(self).wf(),
            old(self)@.len() >= max_cap ==> r is None && final(self)@ == old(self)@,
            old(self)@.len() < max_cap ==> r == Some(old(self)@.len() as usize) && final(self)@
                == old(self)@.push(value),
            final(self)@.len() == len_step(old(self)@.len(), VecOp::PushBounded(max_cap as nat)),
            final(self).history() == old(self).history().push(VecOp::PushBounded(max_cap as nat)),
            old(self)@.len() >= max_cap ==> final(self).allocated_buckets() == old(
                self,
            ).allocated_buckets(),
            old(self)@.len() < max_cap ==> final(self).allocated_buckets() == if bucket_of(
                old(self)@.len(),
            ) < old(self).allocated_buckets() {
                old(self).allocated_buckets()
            } else {
                bucket_of(old(self)@.len()) + 1
            },
    {
        let current: usize = self.reserved;
        if current >= max_cap {
            self.history = Ghost(old(self).history@.push(VecOp::PushBounded(max_cap as nat)));
            proof {
                assert(self.history@.drop_last() =~= old(self).history@);
            }
            return None;
        }
        self.write_at(current, value);
        self.history = Ghost(old(self).history@.push(VecOp::PushBounded(max_cap as nat)));
        proof {
            assert(self.history@.drop_last() =~= old(self).history@);
        }
        Some(current)
    }
}

impl<T> View for AppendOnlyVec<T> {
    type V = Seq<T>;

    /// The stored elements in index order; element `i` lives in bucket
    /// `bucket_of(i)` at slot `slot_of(i)`.
    closed spec fn view(&self) -> Seq<T> {
        Seq::new(
            self.reserved as nat,
            |i: int| self.buckets@[bucket_of(i as nat) as int]@[slot_of(i as nat) as int],
        )
    }
}

impl<T> Default for AppendOnlyVec<T> {
    fn default() -> (r: Self)
        ensures
            r.wf(),
            r@ == Seq::<T>::empty(),
    {
        Self::new()
    }
}

/// Iterator returned by [`AppendOnlyVec::iter`].
pub struct Iter<'a, T> {
    vec: &'a AppendOnlyVec<T>,
    idx: usize,
    /// Upper bound captured at iterator construction; the iterator never
    /// looks past this index.
    upper: usize,
}

impl<'a, T> Iter<'a, T> {
    /// The elements of the vector being walked.
    pub closed spec fn items(&self) -> Seq<T> {
        self.vec@
    }

    /// Index of the next element to be yielded.
    pub closed spec fn position(&self) -> nat {
        self.idx as nat
    }

    /// Index at which the iteration stops.
    pub closed spec fn end(&self) -> nat {
        self.upper as nat
    }

    /// The vector being walked is well formed.
    pub closed spec fn walks_wf_vec(&self) -> bool {
        self.vec.wf()
    }

    /// The iterator walks a well-formed vector and stands within its bounds.
    pub open spec fn valid(&self) -> bool {
        &&& self.walks_wf_vec()
        &&& self.position() <= self.end()
        &&& self.end() <= self.items().len()
    }

    /// Yields the next `(index, &element)` pair, or `None` once the bound
    /// captured at construction is reached.
    pub fn next(&mut self) -> (r: Option<(usize, &'a T)>)
        requires
            old(self).valid(),
        ensures
            final(self).valid(),
            final(self).items() == old(self).items(),
            final(self).end() == old(self).end(),
            old(self).position() < old(self).end() ==> r == Some(
                (old(self).position() as usize, &old(self).items()[old(self).position() as int]),
            ) && final(self).position() == old(self).position() + 1,
            old(self).position() >= old(self).end() ==> r is None && final(self).position()
                == old(self).position(),
    {
        if self.idx < self.upper {
            let i: usize = self.idx;
            self.idx = self.idx + 1;
            match self.vec.get(i) {
                Some(v) => Some((i, v)),
                None => None,
            }
        } else {
            None
        }
    }
}

} // verus!
