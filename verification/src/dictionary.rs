//! Append-only string dictionary backing categorical arrays.
//!
//! A `Dictionary<T>` maps each distinct string it has seen to a dense integer
//! code of type `T`: the first string interned gets code 0, the next novel one
//! code 1, and so on. Once a string is assigned a code the mapping is
//! permanent: entries are never reordered, replaced or removed. The number of
//! entries is capped by the code type (`u8` -> 256, `u16` -> 65 536, wider
//! types -> 1 048 576).
//!
//! Dictionaries live in a `DictionaryPool<T>`; a `Dictionary<T>` is a handle
//! on one of them. Copies of a handle share the dictionary: an update through
//! one is visible through all.

use vstd::prelude::*;
use vstd::hash_map::StringHashMap;
use crate::append_only_vec::{AppendOnlyVec, N_BUCKETS, bucket_start, total_slots, lemma_total_slots, lemma_bucket_of_below};
use crate::integer::Integer;
use crate::dictionary_spec::{intern_spec, lookup_spec, intern_all, first_occurrences, absorbs, remap_of, is_shift, lemma_intern_spec, lemma_intern_all_step, lemma_intern_all_saturated, codes_of, absorb_admits, absorbed_codes, PoolOp, pool_step, pool_after, pool_valid};
use vstd::pervasive::VecAdditionalExecFns;
use std::marker::PhantomData;

verus! {

broadcast use vstd::hash_map::group_hash_map_axioms;

/// Soft entry cap for code types wider than 16 bits.
pub const DEFAULT_WIDE_CAP: usize = 1048576;

/// Errors arising from mutating a `Dictionary<T>`.
#[derive(Clone, Copy, Debug, PartialEq, Eq, Structural)]
pub enum DictionaryError {
    /// The new cardinality would exceed the capacity of the index type `T`
    /// (e.g. 256 entries for `u8`). The dictionary is left unchanged.
    Overflow,
}

impl DictionaryError {
    /// Human-readable description of the error.
    pub fn to_string(&self) -> (r: String)
        ensures
            r@ == "dictionary cardinality would exceed the capacity of the index type"@,
    {
        match self {
            DictionaryError::Overflow => {
                "dictionary cardinality would exceed the capacity of the index type".to_owned()
            },
        }
    }
}

/// The entry cap of a dictionary with codes of type `T`: one more than the
/// largest code, but at most `DEFAULT_WIDE_CAP`.
pub open spec fn cap_of<T: Integer>() -> nat {
    if T::max_nat() + 1 > DEFAULT_WIDE_CAP {
        DEFAULT_WIDE_CAP as nat
    } else {
        T::max_nat() + 1
    }
}

/// `k` allocated buckets are the fewest that hold `cap` entries (all 28 when
/// none fewer do): the allocation `AppendOnlyVec::with_capacity(cap)` makes.
pub open spec fn sized_for(k: nat, cap: nat) -> bool {
    &&& k <= N_BUCKETS
    &&& bucket_start(k) >= cap || k == N_BUCKETS
    &&& k > 0 ==> bucket_start((k - 1) as nat) < cap
}

/// Practical entry cap: `u8 -> 256`, `u16 -> 65 536`, `u32/u64 -> 1 048 576`.
pub fn max_cap<T: Integer>() -> (r: usize)
    ensures
        r == cap_of::<T>(),
{
    let type_max: usize = T::type_max().to_usize().saturating_add(1);
    if type_max > DEFAULT_WIDE_CAP {
        DEFAULT_WIDE_CAP
    } else {
        type_max
    }
}

/// Backing storage for a `Dictionary<T>`: the code-indexed value array and
/// the reverse string-to-code index.
#[verifier::reject_recursive_types(T)]
pub struct DictionaryInner<T: Integer> {
    /// Code-indexed string array.
    pub values: AppendOnlyVec<String>,
    /// Reverse lookup from string to code.
    index: StringHashMap<T>,
}

impl<T: Integer> View for DictionaryInner<T> {
    type V = Seq<Seq<char>>;

    /// The entries, in code order.
    closed spec fn view(&self) -> Seq<Seq<char>> {
        self.values@.map_values(|s: String| s@)
    }
}

impl<T: Integer> DictionaryInner<T> {
    /// The value array is well formed, holds at most `cap_of::<T>()` entries,
    /// and the index maps exactly the stored strings to their positions.
    pub closed spec fn wf(&self) -> bool {
        &&& self.values.wf()
        &&& self.values@.len() <= cap_of::<T>()
        &&& forall|i: int|
            0 <= i < self@.len() ==> #[trigger] self.index@.contains_key(self@[i])
                && self.index@[self@[i]].as_nat() == i
        &&& forall|k: Seq<char>| #[trigger]
            self.index@.contains_key(k) ==> self.index@[k].as_nat() < self@.len()
                && self@[self.index@[k].as_nat() as int] == k
    }

    proof fn lemma_wf_distinct(&self)
        requires
            self.wf(),
        ensures
            self@.no_duplicates(),
            forall|s: Seq<char>| #[trigger] self@.contains(s) <==> self.index@.contains_key(s),
            forall|s: Seq<char>|
                #[trigger] self.index@.contains_key(s) ==> self@.index_of(s)
                    == self.index@[s].as_nat(),
    {
        assert forall|i: int, j: int|
            0 <= i < self@.len() && 0 <= j < self@.len() && i != j implies self@[i]
            != self@[j] by {
            assert(self.index@.contains_key(self@[i]));
            assert(self.index@.contains_key(self@[j]));
        }
        assert forall|s: Seq<char>| #[trigger] self@.contains(s) implies self.index@.contains_key(
            s,
        ) by {
            let i = choose|i: int| 0 <= i < self@.len() && self@[i] == s;
            assert(self.index@.contains_key(self@[i]));
        }
        assert forall|s: Seq<char>| #[trigger] self.index@.contains_key(s) implies self@.contains(
            s,
        ) && self@.index_of(s) == self.index@[s].as_nat() by {
            let c = self.index@[s].as_nat() as int;
            assert(self@[c] == s);
            assert(self@.contains(s));
            let i = self@.index_of(s);
            assert(self@[i] == s);
        }
    }

    /// Number of buckets the value array has allocated.
    pub closed spec fn allocated_buckets(&self) -> nat {
        self.values.allocated_buckets()
    }

    /// An empty dictionary with no allocations.
    fn empty() -> (r: Self)
        ensures
            r.wf(),
            r@ == Seq::<Seq<char>>::empty(),
    {
        let r: Self = DictionaryInner { values: AppendOnlyVec::new(), index: StringHashMap::new() };
        assert(r@ =~= Seq::<Seq<char>>::empty());
        r
    }

    /// Code for `s`, if present.
    fn lookup(&self, s: &str) -> (r: Option<T>)
        requires
            self.wf(),
        ensures
            r matches Some(c) ==> lookup_spec(self@, s@) == Some(c.as_nat()),
            r is None ==> lookup_spec(self@, s@) is None,
    {
        proof {
            self.lemma_wf_distinct();
        }
        match self.index.get(s) {
            Some(c) => Some(*c),
            None => None,
        }
    }

    /// Interns `value`, returning its code, or `Overflow` when it is novel and
    /// the dictionary is full.
    fn intern(&mut self, value: &str) -> (r: Result<T, DictionaryError>)
        requires
            old(self).wf(),
        ensures
            final(self).wf(),
            final(self)@ == intern_spec(old(self)@, cap_of::<T>(), value@).0,
            r matches Ok(c) ==> intern_spec(old(self)@, cap_of::<T>(), value@).1 == Some(
                c.as_nat(),
            ),
            r matches Err(e) ==> e == DictionaryError::Overflow && intern_spec(
                old(self)@,
                cap_of::<T>(),
                value@,
            ).1 is None,
            bucket_start(old(self).values.allocated_buckets()) >= cap_of::<T>()
                ==> final(self).values.allocated_buckets() == old(self).values.allocated_buckets(),
    {
        proof {
            self.lemma_wf_distinct();
            lemma_total_slots();
            if old(self).values@.len() < cap_of::<T>() && bucket_start(
                old(self).values.allocated_buckets(),
            ) >= cap_of::<T>() {
                lemma_bucket_of_below(
                    old(self).values@.len(),
                    old(self).values.allocated_buckets(),
                );
            }
        }
        match self.index.get(value) {
            Some(c) => {
                return Ok(*c);
            },
            None => {},
        }
        let cap: usize = max_cap::<T>();
        let pushed: Option<usize> = self.values.push_bounded(value.to_owned(), cap);
        match pushed {
            None => Err(DictionaryError::Overflow),
            Some(idx) => {
                let code: T = T::from_usize(idx);
                self.index.insert(value.to_owned(), code);
                proof {
                    let v = value@;
                    assert(self@ =~= old(self)@.push(v));
                    assert forall|i: int| 0 <= i < self@.len() implies #[trigger] self.index@.contains_key(self@[i])
                        && self.index@[self@[i]].as_nat() == i by {
                        if i < old(self)@.len() {
                            assert(old(self).index@.contains_key(old(self)@[i]));
                            assert(old(self)@.contains(old(self)@[i]));
                        }
                    }
                    assert forall|k: Seq<char>| #[trigger] self.index@.contains_key(k) implies self.index@[k].as_nat() < self@.len()
                        && self@[self.index@[k].as_nat() as int] == k by {
                        if k != v {
                            assert(old(self).index@.contains_key(k));
                        }
                    }
                }
                Ok(code)
            },
        }
    }
}

impl<T: Integer> DictionaryInner<T> {
    /// A fresh copy holding the same entries under the same codes.
    fn rebuilt(&self) -> (r: Self)
        requires
            self.wf(),
        ensures
            r.wf(),
            r@ == self@,
            sized_for(r.values.allocated_buckets(), cap_of::<T>()),
    {
        proof {
            self.lemma_wf_distinct();
            lemma_total_slots();
        }
        let mut fresh: Self = DictionaryInner::default();
        let mut it = self.values.iter();
        loop
            invariant
                self.wf(),
                self@.no_duplicates(),
                it.valid(),
                it.items() == self.values@,
                it.end() == self.values@.len(),
                fresh.wf(),
                fresh@ == self@.take(it.position() as int),
                sized_for(fresh.values.allocated_buckets(), cap_of::<T>()),
                total_slots() == bucket_start(N_BUCKETS as nat),
            ensures
                fresh.wf(),
                fresh@ == self@,
                sized_for(fresh.values.allocated_buckets(), cap_of::<T>()),
            decreases it.end() - it.position(),
        {
            let ghost k = it.position() as int;
            assert(self@.len() == self.values@.len());
            match it.next() {
                None => {
                    assert(k >= self.values@.len());
                    assert(k == self@.len());
                    assert(self@.take(k) =~= self@);
                    break;
                },
                Some((_, s)) => {
                    proof {
                        assert(self@[k] == s@);
                        assert(!self@.take(k).contains(s@)) by {
                            if self@.take(k).contains(s@) {
                                let j = self@.take(k).index_of(s@);
                                assert(self@[j] == self@[k]);
                            }
                        }
                        assert(self@.take(k + 1) =~= self@.take(k).push(s@));
                    }
                    let _ = fresh.intern(s.as_str());
                },
            }
        }
        fresh
    }
}

impl<T: Integer> Default for DictionaryInner<T> {
    /// Pre-allocates the value array to the code type's cap.
    fn default() -> (r: Self)
        ensures
            r.wf(),
            r@ == Seq::<Seq<char>>::empty(),
            sized_for(r.allocated_buckets(), cap_of::<T>()),
    {
        let r: Self = DictionaryInner {
            values: AppendOnlyVec::with_capacity(max_cap::<T>()),
            index: StringHashMap::new(),
        };
        assert(r@ =~= Seq::<Seq<char>>::empty());
        r
    }
}

impl<T: Integer> DictionaryInner<T> {
    /// The entries as owned strings, in code order.
    fn values(&self) -> (r: Vec<String>)
        requires
            self.wf(),
        ensures
            r@.map_values(|s: String| s@) == self@,
    {
        let n: usize = self.values.count();
        let mut out: Vec<String> = Vec::new();
        let mut i: usize = 0;
        while i < n
            invariant
                self.wf(),
                n == self@.len(),
                i <= n,
                out@.len() == i,
                forall|j: int| 0 <= j < i ==> #[trigger] out@[j]@ == self@[j],
            decreases n - i,
        {
            match self.values.get(i) {
                Some(s) => out.push(s.clone()),
                None => {},
            }
            i += 1;
        }
        proof {
            assert(out@.map_values(|s: String| s@) =~= self@);
        }
        out
    }

    /// True if `self`'s entries are a prefix of `other`'s.
    fn is_prefix_of(&self, other: &Self) -> (r: bool)
        requires
            self.wf(),
            other.wf(),
        ensures
            r == self@.is_prefix_of(other@),
    {
        let a = &self.values;
        let b = &other.values;
        if a.count() > b.count() {
            return false;
        }
        let mut it = a.iter();
        loop
            invariant
                self.wf(),
                other.wf(),
                *a == self.values,
                *b == other.values,
                it.valid(),
                it.items() == a@,
                it.end() == a@.len(),
                a@.len() <= b@.len(),
                forall|j: int| 0 <= j < it.position() ==> #[trigger] self@[j] == other@[j],
            ensures
                forall|j: int| 0 <= j < self@.len() ==> #[trigger] self@[j] == other@[j],
            decreases it.end() - it.position(),
        {
            match it.next() {
                None => break,
                Some((i, s)) => {
                    match b.get(i) {
                        Some(t) => {
                            if !t.eq(s) {
                                proof {
                                    assert(self@[i as int] != other@[i as int]);
                                    if self@.is_prefix_of(other@) {
                                        assert(other@.subrange(0, self@.len() as int)[i as int]
                                            == other@[i as int]);
                                    }
                                }
                                return false;
                            }
                        },
                        None => {
                            return false;
                        },
                    }
                },
            }
        }
        proof {
            assert(self@ =~= other@.subrange(0, self@.len() as int));
        }
        true
    }

    /// A dictionary holding the distinct `values`, in order of first occurrence.
    fn from_values(values: &Vec<String>) -> (r: Self)
        requires
            values@.len() <= cap_of::<T>(),
        ensures
            r.wf(),
            r@ == first_occurrences(values@.map_values(|s: String| s@)),
    {
        let ghost items = values@.map_values(|s: String| s@);
        let mut d: DictionaryInner<T> = DictionaryInner::default();
        let mut i: usize = 0;
        while i < values.len()
            invariant
                values@.len() <= cap_of::<T>(),
                items == values@.map_values(|s: String| s@),
                i <= values@.len(),
                d.wf(),
                d@ == first_occurrences(items.take(i as int)),
                d@.len() <= i,
            decreases values@.len() - i,
        {
            proof {
                assert(items.take(i + 1).drop_last() =~= items.take(i as int));
                d.lemma_wf_distinct();
            }
            let _ = d.intern(values[i].as_str());
            i += 1;
        }
        proof {
            assert(items.take(i as int) =~= items);
        }
        d
    }
}

/// A pool of dictionaries. A `Dictionary<T>` is a handle on one of them:
/// copies of a handle share that dictionary, so an update through one handle
/// is visible through every other handle on it.
#[verifier::reject_recursive_types(T)]
pub struct DictionaryPool<T: Integer> {
    groups: Vec<DictionaryInner<T>>,
    /// The operations applied so far.
    history: Ghost<Seq<PoolOp>>,
}

impl<T: Integer> View for DictionaryPool<T> {
    type V = Seq<Seq<Seq<char>>>;

    /// The entries of each dictionary of the pool, by handle.
    closed spec fn view(&self) -> Seq<Seq<Seq<char>>> {
        self.groups@.map_values(|g: DictionaryInner<T>| g@)
    }
}

impl<T: Integer> DictionaryPool<T> {
    /// Every dictionary of the pool is well formed, and the pool is what its
    /// recorded operations produce from an empty pool.
    pub closed spec fn wf(&self) -> bool {
        &&& self.groups_wf()
        &&& self@ == pool_after(Seq::empty(), cap_of::<T>(), self.history@)
    }

    /// Every dictionary of the pool is well formed.
    closed spec fn groups_wf(&self) -> bool {
        forall|g: int| 0 <= g < self.groups@.len() ==> #[trigger] self.groups@[g].wf()
    }

    /// The operations applied to the pool since it was made, in order.
    pub closed spec fn history(&self) -> Seq<PoolOp> {
        self.history@
    }

    /// The pool is what its recorded operations produce from an empty pool.
    pub proof fn lemma_pool_is_history(&self)
        requires
            self.wf(),
        ensures
            self@ == pool_after(Seq::empty(), cap_of::<T>(), self.history()),
    {
    }

    /// Records `op` as applied, where the groups already reflect it.
    proof fn lemma_record(&self, old_pool: Self, op: PoolOp)
        requires
            old_pool.wf(),
            self.groups_wf(),
            self.history@ == old_pool.history@.push(op),
            self@ == pool_step(old_pool@, cap_of::<T>(), op),
        ensures
            self.wf(),
    {
        assert(self.history@.drop_last() =~= old_pool.history@);
    }

    /// Number of buckets dictionary `g`'s value array has allocated.
    pub closed spec fn allocated_buckets(&self, g: int) -> nat {
        self.groups@[g].allocated_buckets()
    }

    /// Every dictionary of a well-formed pool holds distinct entries, at most
    /// `cap_of::<T>()` of them.
    pub proof fn lemma_valid(&self)
        requires
            self.wf(),
        ensures
            pool_valid(self@, cap_of::<T>()),
    {
        assert forall|g: int| 0 <= g < self@.len() implies #[trigger] self@[g].no_duplicates()
            && self@[g].len() <= cap_of::<T>() by {
            assert(self.groups@[g].wf());
            self.groups@[g].lemma_wf_distinct();
        }
    }

    /// An empty pool.
    pub fn new() -> (r: Self)
        ensures
            r.wf(),
            r@ == Seq::<Seq<Seq<char>>>::empty(),
            r.history() == Seq::<PoolOp>::empty(),
    {
        let r: Self = DictionaryPool { groups: Vec::new(), history: Ghost(Seq::empty()) };
        assert(r@ =~= Seq::<Seq<Seq<char>>>::empty());
        r
    }

    /// Adds `inner` as a new dictionary; returns its handle number.
    fn add_group(&mut self, inner: DictionaryInner<T>) -> (r: usize)
        requires
            old(self).groups_wf(),
            inner.wf(),
        ensures
            final(self).groups_wf(),
            final(self).history == old(self).history,
            r == old(self)@.len(),
            final(self)@ == old(self)@.push(inner@),
            final(self).allocated_buckets(r as int) == inner.allocated_buckets(),
    {
        let r: usize = self.groups.len();
        self.groups.push(inner);
        assert(self@ =~= old(self)@.push(inner@));
        r
    }

    /// Takes dictionary `g` out of the pool, leaving an empty one in its place.
    fn take_group(&mut self, g: usize) -> (r: DictionaryInner<T>)
        requires
            old(self).groups_wf(),
            g < old(self)@.len(),
        ensures
            final(self).groups_wf(),
            final(self).history == old(self).history,
            r.wf(),
            r@ == old(self)@[g as int],
            r.allocated_buckets() == old(self).allocated_buckets(g as int),
            final(self)@.len() == old(self)@.len(),
            forall|k: int| 0 <= k < old(self)@.len() && k != g ==> #[trigger] final(self)@[k] == old(self)@[k],
            forall|k: int|
                0 <= k < old(self)@.len() && k != g ==> #[trigger] final(self).allocated_buckets(k)
                    == old(self).allocated_buckets(k),
    {
        let mut inner: DictionaryInner<T> = DictionaryInner::empty();
        self.groups.set_and_swap(g, &mut inner);
        inner
    }

    /// Puts `inner` back as dictionary `g`.
    fn put_group(&mut self, g: usize, inner: DictionaryInner<T>)
        requires
            old(self).groups_wf(),
            inner.wf(),
            g < old(self)@.len(),
        ensures
            final(self).groups_wf(),
            final(self).history == old(self).history,
            final(self)@ == old(self)@.update(g as int, inner@),
            final(self).allocated_buckets(g as int) == inner.allocated_buckets(),
            forall|k: int|
                0 <= k < old(self)@.len() && k != g ==> #[trigger] final(self).allocated_buckets(k)
                    == old(self).allocated_buckets(k),
    {
        self.groups.set(g, inner);
        assert(self@ =~= old(self)@.update(g as int, inner@));
    }
}

impl<T: Integer> Default for DictionaryPool<T> {
    fn default() -> (r: Self)
        ensures
            r.wf(),
            r@ == Seq::<Seq<Seq<char>>>::empty(),
    {
        Self::new()
    }
}

/// Append-only string dictionary backing `CategoricalArray<T>`: a handle on
/// one dictionary of a `DictionaryPool<T>`. Copying or cloning the handle
/// shares the dictionary; every copy observes the same updates.
pub struct Dictionary<T: Integer> {
    group: usize,
    codes: PhantomData<T>,
}

impl<T: Integer> Clone for Dictionary<T> {
    /// Another handle on the same dictionary.
    fn clone(&self) -> (r: Self)
        ensures
            r == *self,
    {
        *self
    }
}

impl<T: Integer> Copy for Dictionary<T> {
}

impl<T: Integer> Dictionary<T> {
    /// Which dictionary of its pool this handle names. A handle carries no
    /// identity of the pool it was made in: it is meaningful only against
    /// that pool.
    pub closed spec fn id(&self) -> int {
        self.group as int
    }

    /// The two handles, taken in one pool, name the same dictionary.
    pub open spec fn shares(&self, other: Dictionary<T>) -> bool {
        self.id() == other.id()
    }

    /// The handle names a dictionary of the well-formed `pool` (which should
    /// be the pool it was made in).
    pub open spec fn valid_in(&self, pool: &DictionaryPool<T>) -> bool {
        pool.wf() && 0 <= self.id() < pool@.len()
    }

    /// The entries of the named dictionary, in code order.
    pub open spec fn entries(&self, pool: &DictionaryPool<T>) -> Seq<Seq<char>> {
        pool@[self.id()]
    }

    /// Empty dictionary in a fresh sharing group, its value array
    /// pre-allocated to the code type's cap.
    pub fn new(pool: &mut DictionaryPool<T>) -> (r: Self)
        requires
            old(pool).wf(),
        ensures
            final(pool).wf(),
            final(pool)@ == pool_step(old(pool)@, cap_of::<T>(), PoolOp::Create),
            final(pool).history() == old(pool).history().push(PoolOp::Create),
            r.id() == old(pool)@.len(),
            sized_for(final(pool).allocated_buckets(r.id()), cap_of::<T>()),
    {
        let inner: DictionaryInner<T> = DictionaryInner::default();
        let group: usize = pool.add_group(inner);
        proof {
            assert(inner@ =~= Seq::<Seq<char>>::empty());
        }
        pool.history = Ghost(old(pool).history@.push(PoolOp::Create));
        proof {
            pool.lemma_record(*old(pool), PoolOp::Create);
        }
        Dictionary { group, codes: PhantomData }
    }

    /// Builds a dictionary, in a fresh sharing group, from an ordered list of
    /// values: each distinct value gets a code, in order of first occurrence.
    /// The input length must not exceed the capacity of `T`.
    pub fn from_values(pool: &mut DictionaryPool<T>, values: Vec<String>) -> (r: Self)
        requires
            old(pool).wf(),
            values@.len() <= cap_of::<T>(),
        ensures
            final(pool).wf(),
            final(pool)@ == pool_step(
                old(pool)@,
                cap_of::<T>(),
                PoolOp::Build(values@.map_values(|s: String| s@)),
            ),
            final(pool).history() == old(pool).history().push(
                PoolOp::Build(values@.map_values(|s: String| s@)),
            ),
            r.id() == old(pool)@.len(),
            r.entries(final(pool)) == first_occurrences(values@.map_values(|s: String| s@)),
    {
        let inner: DictionaryInner<T> = DictionaryInner::from_values(&values);
        let group: usize = pool.add_group(inner);
        let ghost op = PoolOp::Build(values@.map_values(|s: String| s@));
        pool.history = Ghost(old(pool).history@.push(op));
        proof {
            pool.lemma_record(*old(pool), op);
        }
        Dictionary { group, codes: PhantomData }
    }

    /// Builds a dictionary from string slices, as `from_values` does.
    pub fn from_iter(pool: &mut DictionaryPool<T>, values: &[&str]) -> (r: Self)
        requires
            old(pool).wf(),
            values@.len() <= cap_of::<T>(),
        ensures
            final(pool).wf(),
            final(pool)@ == pool_step(
                old(pool)@,
                cap_of::<T>(),
                PoolOp::Build(values@.map_values(|s: &str| s@)),
            ),
            final(pool).history() == old(pool).history().push(
                PoolOp::Build(values@.map_values(|s: &str| s@)),
            ),
            r.id() == old(pool)@.len(),
            r.entries(final(pool)) == first_occurrences(values@.map_values(|s: &str| s@)),
    {
        let mut owned: Vec<String> = Vec::new();
        let mut i: usize = 0;
        while i < values.len()
            invariant
                i <= values@.len(),
                owned@.len() == i,
                forall|j: int| 0 <= j < i ==> #[trigger] owned@[j]@ == values@[j]@,
            decreases values@.len() - i,
        {
            owned.push(values[i].to_owned());
            i += 1;
        }
        proof {
            assert(owned@.map_values(|s: String| s@) =~= values@.map_values(|s: &str| s@));
        }
        Self::from_values(pool, owned)
    }

    /// True if `self` and `other`, handles made in one pool, name the same
    /// dictionary, so updates through one are visible through the other.
    pub fn shares_with(&self, other: &Self) -> (r: bool)
        ensures
            r == self.shares(*other),
    {
        self.group == other.group
    }

    /// Number of entries. The entries are distinct and there are at most
    /// `cap_of::<T>()` of them.
    pub fn len(&self, pool: &DictionaryPool<T>) -> (r: usize)
        requires
            self.valid_in(pool),
        ensures
            r == self.entries(pool).len(),
            self.entries(pool).no_duplicates(),
            self.entries(pool).len() <= cap_of::<T>(),
    {
        proof {
            pool.lemma_valid();
            assert(pool.groups@[self.id()].wf());
        }
        pool.groups[self.group].values.count()
    }

    /// True if the handle names a dictionary of `pool`.
    pub fn belongs_to(&self, pool: &DictionaryPool<T>) -> (r: bool)
        ensures
            r == (self.id() < pool@.len()),
    {
        proof {
            assert(pool@.len() == pool.groups@.len());
        }
        self.group < pool.groups.len()
    }

    /// The entry with code `code`, borrowed from the pool, or `None` if there
    /// is no such code.
    pub fn get<'a>(&self, pool: &'a DictionaryPool<T>, code: usize) -> (r: Option<&'a String>)
        requires
            self.valid_in(pool),
        ensures
            code < self.entries(pool).len() ==> (r matches Some(s) && s@ == self.entries(pool)[code as int]),
            code >= self.entries(pool).len() ==> r is None,
    {
        proof {
            assert(pool.groups@[self.id()].wf());
        }
        pool.groups[self.group].values.get(code)
    }

    /// True if empty.
    pub fn is_empty(&self, pool: &DictionaryPool<T>) -> (r: bool)
        requires
            self.valid_in(pool),
        ensures
            r == (self.entries(pool).len() == 0),
    {
        self.len(pool) == 0
    }

    /// Code for `s` if interned, otherwise `None`.
    pub fn lookup(&self, pool: &DictionaryPool<T>, s: &str) -> (r: Option<T>)
        requires
            self.valid_in(pool),
        ensures
            r matches Some(c) ==> lookup_spec(self.entries(pool), s@) == Some(c.as_nat()),
            r is None ==> lookup_spec(self.entries(pool), s@) is None,
    {
        proof {
            assert(pool.groups@[self.id()].wf());
        }
        pool.groups[self.group].lookup(s)
    }

    /// Interns `value`. Returns its existing code if present; otherwise
    /// appends it under the next code. Returns `Err(DictionaryError::Overflow)`
    /// if the new cardinality would exceed the capacity of `T`, leaving the
    /// dictionary unchanged. Every handle on the dictionary sees the update;
    /// no other dictionary of the pool changes.
    pub fn intern(&self, pool: &mut DictionaryPool<T>, value: &str) -> (r: Result<T, DictionaryError>)
        requires
            self.valid_in(old(pool)),
        ensures
            final(pool).wf(),
            final(pool)@ == pool_step(old(pool)@, cap_of::<T>(), PoolOp::Intern(self.id(), value@)),
            final(pool).history() == old(pool).history().push(PoolOp::Intern(self.id(), value@)),
            r matches Ok(c) ==> intern_spec(self.entries(old(pool)), cap_of::<T>(), value@).1 == Some(
                c.as_nat(),
            ),
            r matches Err(e) ==> e == DictionaryError::Overflow && intern_spec(
                self.entries(old(pool)),
                cap_of::<T>(),
                value@,
            ).1 is None,
            sized_for(old(pool).allocated_buckets(self.id()), cap_of::<T>()) ==> final(
                pool).allocated_buckets(self.id()) == old(pool).allocated_buckets(self.id()),
            forall|k: int|
                0 <= k < old(pool)@.len() && k != self.id() ==> #[trigger] final(pool).allocated_buckets(k)
                    == old(pool).allocated_buckets(k),
    {
        proof {
            lemma_total_slots();
        }
        let mut inner: DictionaryInner<T> = pool.take_group(self.group);
        let r: Result<T, DictionaryError> = inner.intern(value);
        let ghost mid = *pool;
        pool.history = Ghost(old(pool).history@.push(PoolOp::Intern(self.id(), value@)));
        let ghost mid2 = *pool;
        pool.put_group(self.group, inner);
        proof {
            assert forall|k: int|
                0 <= k < old(pool)@.len() && k != self.id() implies #[trigger] pool.allocated_buckets(k)
                    == old(pool).allocated_buckets(k) by {
                assert(mid2.allocated_buckets(k) == mid.allocated_buckets(k));
            }
            assert(pool@ =~= pool_step(old(pool)@, cap_of::<T>(), PoolOp::Intern(self.id(), value@)));
            pool.lemma_record(*old(pool), PoolOp::Intern(self.id(), value@));
        }
        r
    }

    /// The entries as owned strings, in code order.
    pub fn values(&self, pool: &DictionaryPool<T>) -> (r: Vec<String>)
        requires
            self.valid_in(pool),
        ensures
            r@.map_values(|s: String| s@) == self.entries(pool),
    {
        proof {
            assert(pool.groups@[self.id()].wf());
        }
        pool.groups[self.group].values()
    }

    /// True if `self`'s entries are a prefix of `other`'s: every code valid
    /// against `self` decodes to the same string in `other`.
    pub fn is_prefix_of(&self, other: &Self, pool: &DictionaryPool<T>) -> (r: bool)
        requires
            self.valid_in(pool),
            other.valid_in(pool),
        ensures
            r == self.entries(pool).is_prefix_of(other.entries(pool)),
    {
        proof {
            assert(pool.groups@[self.id()].wf());
            assert(pool.groups@[other.id()].wf());
        }
        pool.groups[self.group].is_prefix_of(&pool.groups[other.group])
    }

    /// True if the two dictionaries hold the same entries in the same order
    /// (always so for two handles on one dictionary).
    pub fn eq(&self, other: &Self, pool: &DictionaryPool<T>) -> (r: bool)
        requires
            self.valid_in(pool),
            other.valid_in(pool),
        ensures
            r == (self.entries(pool) == other.entries(pool)),
    {
        if self.group == other.group {
            return true;
        }
        let r: bool = self.len(pool) == other.len(pool) && self.is_prefix_of(other, pool);
        proof {
            if r {
                assert(other.entries(pool).subrange(0, self.entries(pool).len() as int) =~= other.entries(pool));
                assert(self.entries(pool) =~= other.entries(pool));
            }
        }
        r
    }

    /// Detach this handle from its sharing group: it names a new dictionary
    /// holding the same entries under the same codes, in fresh storage
    /// pre-allocated to the code type's cap. Future updates through it are
    /// independent of the original group.
    pub fn detach_to_owned(&mut self, pool: &mut DictionaryPool<T>)
        requires
            old(self).valid_in(old(pool)),
        ensures
            final(pool).wf(),
            final(pool)@ == pool_step(old(pool)@, cap_of::<T>(), PoolOp::Copy(old(self).id())),
            final(pool).history() == old(pool).history().push(PoolOp::Copy(old(self).id())),
            final(self).id() == old(pool)@.len(),
            sized_for(final(pool).allocated_buckets(final(self).id()), cap_of::<T>()),
    {
        proof {
            assert(pool.groups@[self.id()].wf());
        }
        let fresh: DictionaryInner<T> = pool.groups[self.group].rebuilt();
        let group: usize = pool.add_group(fresh);
        pool.history = Ghost(old(pool).history@.push(PoolOp::Copy(old(self).id())));
        proof {
            pool.lemma_record(*old(pool), PoolOp::Copy(old(self).id()));
        }
        self.group = group;
    }
}

/// Sharing is being handles on one dictionary: every handle shares with
/// itself (and so with its clones), sharing is symmetric, and two handles
/// share exactly when they name the same dictionary, whose entries they
/// then both see.
pub proof fn law_shares_is_same_dictionary<T: Integer>(
    a: Dictionary<T>,
    b: Dictionary<T>,
    pool: &DictionaryPool<T>,
)
    ensures
        a.shares(a),
        a.shares(b) == b.shares(a),
        a.shares(b) <==> a.id() == b.id(),
        a.shares(b) ==> a.entries(pool) == b.entries(pool),
{
}

/// Handles share: an update made through one handle is what every handle on
/// the same dictionary sees afterwards.
pub proof fn law_shared_handles_see_updates<T: Integer>(
    p: Seq<Seq<Seq<char>>>,
    a: Dictionary<T>,
    b: Dictionary<T>,
    s: Seq<char>,
)
    requires
        a.shares(b),
        0 <= a.id() < p.len(),
    ensures
        pool_step(p, cap_of::<T>(), PoolOp::Intern(a.id(), s))[b.id()] == intern_spec(
            p[b.id()],
            cap_of::<T>(),
            s,
        ).0,
{
}

/// A detached handle names a dictionary of its own: updates through it
/// leave every other dictionary, the original group included, unchanged.
pub proof fn law_detached_handles_are_independent(
    p: Seq<Seq<Seq<char>>>,
    cap: nat,
    g: int,
    s: Seq<char>,
    k: int,
)
    requires
        0 <= g < p.len(),
        0 <= k < p.len(),
    ensures
        ({
            let q = pool_step(p, cap, PoolOp::Copy(g));
            &&& q[p.len() as int] == p[g]
            &&& pool_step(q, cap, PoolOp::Intern(p.len() as int, s))[k] == p[k]
        }),
{
}

/// A categorical column: one code per row, decoded through a dictionary.
#[verifier::reject_recursive_types(T)]
pub struct CategoricalArray<T: Integer> {
    /// One code per row.
    pub data: Vec<T>,
    /// The dictionary the codes decode through.
    pub dictionary: Dictionary<T>,
}

/// Absorbing `cat` into the dictionary named by `dict` indexes no code out
/// of range.
pub open spec fn absorb_precondition<T: Integer>(
    pool: Seq<Seq<Seq<char>>>,
    dict: Dictionary<T>,
    cat: CategoricalArray<T>,
) -> bool {
    absorb_admits(pool[dict.id()], cap_of::<T>(), pool[cat.dictionary.id()], codes_of(cat.data@))
}

/// What absorbing `cat` into the dictionary named by `dict` yields: the pool
/// `p2` and the column `cat2`. The dictionary interns every entry of `cat`'s
/// dictionary in order, stopping at the first overflow; on success the
/// column's codes are rewritten when some code moved and the column joins
/// `dict`'s sharing group; on overflow the column is left as it was.
pub open spec fn absorb_outcome<T: Integer>(
    p: Seq<Seq<Seq<char>>>,
    p2: Seq<Seq<Seq<char>>>,
    dict: Dictionary<T>,
    cat: CategoricalArray<T>,
    cat2: CategoricalArray<T>,
) -> bool {
    let d = p[dict.id()];
    let inc = p[cat.dictionary.id()];
    let cap = cap_of::<T>();
    &&& p2 == pool_step(p, cap, PoolOp::Absorb(dict.id(), cat.dictionary.id()))
    &&& absorbs(d, cap, inc) ==> cat2.dictionary == dict && codes_of(cat2.data@) == absorbed_codes(
        d,
        cap,
        inc,
        codes_of(cat.data@),
    )
    &&& !absorbs(d, cap, inc) ==> cat2.data@ == cat.data@ && cat2.dictionary == cat.dictionary
}

/// Why a checked absorb refused to remap a column.
#[derive(Clone, Copy, Debug, PartialEq, Eq, Structural)]
pub enum AbsorbError {
    /// Some code moved, and a code of the column lies outside its dictionary,
    /// so it has no entry to be remapped through.
    CodeOutOfRange,
}

impl<T: Integer> Dictionary<T> {
    /// Absorb `cat` into this sharing group. Interns every entry of `cat`'s
    /// current dictionary into `self`'s, remaps `cat`'s codes to the
    /// resulting codes if any code shifted, and rebinds `cat`'s dictionary to
    /// a handle on `self`'s, so the column joins the sharing group. If an
    /// entry overflows, interning stops there and `cat` is left as it was.
    pub fn absorb(&self, pool: &mut DictionaryPool<T>, cat: &mut CategoricalArray<T>)
        requires
            self.valid_in(old(pool)),
            old(cat).dictionary.valid_in(old(pool)),
            absorb_precondition(old(pool)@, *self, *old(cat)),
        ensures
            final(pool).wf(),
            absorb_outcome(old(pool)@, final(pool)@, *self, *old(cat), *final(cat)),
            final(pool).history() == old(pool).history().push(
                PoolOp::Absorb(self.id(), old(cat).dictionary.id()),
            ),
    {
        let r: Result<(), AbsorbError> = self.try_absorb(pool, cat);
    }

    /// `absorb` for any column: where a code would have to be remapped but
    /// lies outside the column's dictionary, the entries are interned as
    /// `absorb` does, the column is left as it was, and
    /// `Err(AbsorbError::CodeOutOfRange)` is returned.
    pub fn try_absorb(&self, pool: &mut DictionaryPool<T>, cat: &mut CategoricalArray<T>) -> (r: Result<(), AbsorbError>)
        requires
            self.valid_in(old(pool)),
            old(cat).dictionary.valid_in(old(pool)),
        ensures
            final(pool).wf(),
            final(pool).history() == old(pool).history().push(
                PoolOp::Absorb(self.id(), old(cat).dictionary.id()),
            ),
            absorb_precondition(old(pool)@, *self, *old(cat)) ==> r is Ok && absorb_outcome(
                old(pool)@,
                final(pool)@,
                *self,
                *old(cat),
                *final(cat),
            ),
            !absorb_precondition(old(pool)@, *self, *old(cat)) ==> r == Err::<(), AbsorbError>(
                AbsorbError::CodeOutOfRange,
            ) && final(pool)@ == pool_step(
                old(pool)@,
                cap_of::<T>(),
                PoolOp::Absorb(self.id(), old(cat).dictionary.id()),
            ) && *final(cat) == *old(cat),
    {
        proof {
            pool.lemma_valid();
            assert(pool.groups@[cat.dictionary.id()].wf());
        }
        let ghost cap = cap_of::<T>();
        let ghost inc = pool@[cat.dictionary.id()];
        let ghost d0 = pool@[self.id()];
        let ghost p0 = pool@;
        let incoming: Vec<String> = pool.groups[cat.dictionary.group].values();
        let mut inner: DictionaryInner<T> = pool.take_group(self.group);
        let mut shifted: bool = false;
        let mut remap: Vec<T> = Vec::with_capacity(incoming.len());
        let mut k: usize = 0;
        proof {
            assert(inc.take(0) =~= Seq::<Seq<char>>::empty());
            assert(d0.no_duplicates() && d0.len() <= cap);
            assert(inc.no_duplicates() && inc.len() <= cap);
        }
        while k < incoming.len()
            invariant
                *cat == *old(cat),
                p0 == old(pool)@,
                inc == p0[cat.dictionary.id()],
                d0 == p0[self.id()],
                d0.no_duplicates(),
                d0.len() <= cap,
                inc.len() <= cap,
                cap == cap_of::<T>(),
                inc.no_duplicates(),
                incoming@.map_values(|s: String| s@) == inc,
                k <= incoming@.len(),
                inner.wf(),
                inner@ == intern_all(d0, cap, inc.take(k as int)),
                inner@.no_duplicates(),
                inner@.len() <= cap,
                forall|i: int| 0 <= i < k ==> #[trigger] inner@.contains(inc[i]),
                remap@.len() == k,
                forall|i: int|
                    0 <= i < k ==> #[trigger] remap@[i].as_nat() == inner@.index_of(inc[i]),
                shifted == exists|i: int| 0 <= i < k && #[trigger] remap@[i].as_nat() != i,
                pool.groups_wf(),
                old(pool).wf(),
                pool.history == old(pool).history,
                pool@.len() == p0.len(),
                forall|g: int| 0 <= g < p0.len() && g != self.id() ==> #[trigger] pool@[g] == p0[g],
                self.id() < p0.len(),
                cat.dictionary.id() < p0.len(),
            decreases incoming@.len() - k,
        {
            let ghost before = inner@;
            proof {
                assert(incoming@[k as int]@ == inc[k as int]);
                lemma_intern_spec(before, cap, inc[k as int]);
                lemma_intern_all_step(d0, cap, inc, k as int);
            }
            let r: Result<T, DictionaryError> = inner.intern(incoming[k].as_str());
            match r {
                Err(_) => {
                    proof {
                        if k + 1 < inc.len() {
                            lemma_intern_all_saturated(d0, cap, inc, k + 1);
                        } else {
                            assert(inc.take(k + 1) =~= inc);
                        }
                        assert(!intern_all(d0, cap, inc).contains(inc[k as int]));
                    }
                    pool.put_group(self.group, inner);
                    proof {
                        assert(pool@ =~= pool_step(p0, cap, PoolOp::Absorb(self.id(), cat.dictionary.id())));
                    }
                    pool.history = Ghost(old(pool).history@.push(PoolOp::Absorb(self.id(), cat.dictionary.id())));
                    proof {
                        pool.lemma_record(*old(pool), PoolOp::Absorb(self.id(), cat.dictionary.id()));
                    }
                    return Ok(());
                },
                Ok(new_code) => {
                    let ghost old_remap = remap@;
                    let ghost old_shifted = shifted;
                    proof {
                        assert(new_code.as_nat() < inner@.len());
                    }
                    if new_code.to_usize() != k {
                        shifted = true;
                    }
                    remap.push(new_code);
                    proof {
                        assert(remap@[k as int].as_nat() == new_code.as_nat());
                        assert(forall|i: int| 0 <= i < k ==> remap@[i] == old_remap[i]);
                        if old_shifted {
                            let i = choose|i: int| 0 <= i < k && #[trigger] old_remap[i].as_nat() != i;
                            assert(remap@[i].as_nat() != i);
                        } else if shifted {
                            assert(remap@[k as int].as_nat() != k);
                        } else {
                            assert forall|i: int| 0 <= i < k + 1 implies #[trigger] remap@[i].as_nat() == i by {
                                if i < k {
                                    assert(old_remap[i].as_nat() == i);
                                }
                            }
                        }
                        assert forall|i: int| 0 <= i <= k implies #[trigger] inner@.contains(inc[i]) by {
                            if i < k {
                                assert(before.contains(inc[i]));
                            }
                        }
                        assert forall|i: int| 0 <= i <= k implies #[trigger] remap@[i].as_nat()
                            == inner@.index_of(inc[i]) by {
                            if i < k {
                                assert(before.contains(inc[i]));
                            }
                        }
                    }
                },
            }
            k += 1;
        }
        proof {
            assert(inc.take(k as int) =~= inc);
            assert(forall|i: int| 0 <= i < inc.len() ==> #[trigger] remap@[i].as_nat() == remap_of(inner@, inc)[i]);
            if shifted {
                let i = choose|i: int| 0 <= i < k && #[trigger] remap@[i].as_nat() != i;
                assert(remap_of(inner@, inc)[i] != i);
            }
            if is_shift(remap_of(inner@, inc)) {
                let i = choose|i: int| 0 <= i < remap_of(inner@, inc).len() && #[trigger] remap_of(inner@, inc)[i] != i;
                assert(remap@[i].as_nat() != i);
            }
            assert(absorbs(d0, cap, inc));
        }
        let ghost target = inner@;
        pool.put_group(self.group, inner);
        proof {
            assert(pool@ =~= pool_step(p0, cap, PoolOp::Absorb(self.id(), cat.dictionary.id())));
        }
        pool.history = Ghost(old(pool).history@.push(PoolOp::Absorb(self.id(), cat.dictionary.id())));
        proof {
            pool.lemma_record(*old(pool), PoolOp::Absorb(self.id(), cat.dictionary.id()));
        }
        if shifted {
            let n: usize = cat.data.len();
            let mut j: usize = 0;
            while j < n
                invariant
                    n == cat.data@.len(),
                    *cat == *old(cat),
                    j <= n,
                    remap@.len() == inc.len(),
                    inc.len() <= cap_of::<T>(),
                    forall|jj: int| 0 <= jj < j ==> #[trigger] old(cat).data@[jj].as_nat() < inc.len(),
                    pool.wf(),
                    p0 == old(pool)@,
                    cap == cap_of::<T>(),
                    inc == p0[cat.dictionary.id()],
                    d0 == p0[self.id()],
                    pool@ == pool_step(p0, cap, PoolOp::Absorb(self.id(), cat.dictionary.id())),
                    pool.history() == old(pool).history().push(
                        PoolOp::Absorb(self.id(), old(cat).dictionary.id()),
                    ),
                    target == intern_all(d0, cap, inc),
                    absorbs(d0, cap, inc),
                    is_shift(remap_of(target, inc)),
                decreases n - j,
            {
                if cat.data[j].to_usize() >= remap.len() {
                    proof {
                        assert(codes_of(old(cat).data@)[j as int] == old(cat).data@[j as int].as_nat());
                        assert(!absorb_admits(d0, cap, inc, codes_of(old(cat).data@)));
                    }
                    return Err(AbsorbError::CodeOutOfRange);
                }
                j += 1;
            }
            proof {
                assert forall|jj: int| 0 <= jj < old(cat).data@.len() implies #[trigger] old(
                    cat,
                ).data@[jj].as_nat() < inc.len() by {
                }
            }
            j = 0;
            let mut j: usize = 0;
            while j < n
                invariant
                    n == cat.data@.len(),
                    n == old(cat).data@.len(),
                    j <= n,
                    remap@.len() == inc.len(),
                    inc.len() <= cap_of::<T>(),
                    cat.dictionary == old(cat).dictionary,
                    forall|i: int|
                        0 <= i < inc.len() ==> #[trigger] remap@[i].as_nat() == remap_of(target, inc)[i],
                    forall|jj: int|
                        0 <= jj < n ==> #[trigger] old(cat).data@[jj].as_nat() < inc.len(),
                    forall|jj: int|
                        0 <= jj < j ==> #[trigger] cat.data@[jj].as_nat() == remap_of(target, inc)[old(
                            cat,
                        ).data@[jj].as_nat() as int],
                    forall|jj: int| j <= jj < n ==> #[trigger] cat.data@[jj] == old(cat).data@[jj],
                decreases n - j,
            {
                let code: T = cat.data[j];
                let c: usize = code.to_usize();
                proof {
                    assert(code == old(cat).data@[j as int]);
                    assert(code.as_nat() < inc.len());
                    assert(c == code.as_nat());
                }
                let new_code: T = remap[c];
                let ghost before = cat.data@;
                cat.data[j] = new_code;
                proof {
                    assert(cat.data@ == before.update(j as int, new_code));
                    assert(new_code.as_nat() == remap_of(target, inc)[c as int]);
                }
                j += 1;
            }
        }
        cat.dictionary = *self;
        proof {
            let codes = codes_of(old(cat).data@);
            assert(codes_of(cat.data@) =~= absorbed_codes(d0, cap, inc, codes));
            if shifted {
                assert forall|jj: int| 0 <= jj < codes.len() implies #[trigger] codes[jj] < inc.len() by {
                    assert(codes[jj] == old(cat).data@[jj].as_nat());
                }
            }
        }
        Ok(())
    }
}

} // verus!
