//! The mathematical model of a dictionary: an entry list of strings (each a
//! `Seq<char>`) in code order, and what each operation does to it.

use vstd::prelude::*;
use crate::integer::Integer;

verus! {

/// Code of `s` in the entry list `d`, if present.
pub open spec fn lookup_spec(d: Seq<Seq<char>>, s: Seq<char>) -> Option<nat> {
    if d.contains(s) {
        Some(d.index_of(s) as nat)
    } else {
        None
    }
}

/// Interning `s` into the entry list `d` under entry cap `cap`: the entries
/// afterwards and the code handed back (`None` for an overflow).
pub open spec fn intern_spec(d: Seq<Seq<char>>, cap: nat, s: Seq<char>) -> (Seq<Seq<char>>, Option<nat>) {
    if d.contains(s) {
        (d, Some(d.index_of(s) as nat))
    } else if d.len() < cap {
        (d.push(s), Some(d.len()))
    } else {
        (d, None)
    }
}

/// Interning each of `items` in turn into `d`.
pub open spec fn intern_all(d: Seq<Seq<char>>, cap: nat, items: Seq<Seq<char>>) -> Seq<Seq<char>>
    decreases items.len(),
{
    if items.len() == 0 {
        d
    } else {
        intern_spec(intern_all(d, cap, items.drop_last()), cap, items.last()).0
    }
}

/// The distinct strings of `items`, each at the position of its first occurrence.
pub open spec fn first_occurrences(items: Seq<Seq<char>>) -> Seq<Seq<char>>
    decreases items.len(),
{
    if items.len() == 0 {
        Seq::empty()
    } else {
        let p = first_occurrences(items.drop_last());
        if p.contains(items.last()) {
            p
        } else {
            p.push(items.last())
        }
    }
}

/// Interning all of `items` into `d` succeeds: every item ends up with a code.
pub open spec fn absorbs(d: Seq<Seq<char>>, cap: nat, items: Seq<Seq<char>>) -> bool {
    forall|i: int| 0 <= i < items.len() ==> #[trigger] intern_all(d, cap, items).contains(items[i])
}

/// The code each of `items` has in `target`.
pub open spec fn remap_of(target: Seq<Seq<char>>, items: Seq<Seq<char>>) -> Seq<nat> {
    Seq::new(items.len(), |i: int| target.index_of(items[i]) as nat)
}

/// Some code moves: position `i` is not mapped to `i`.
pub open spec fn is_shift(remap: Seq<nat>) -> bool {
    exists|i: int| 0 <= i < remap.len() && #[trigger] remap[i] != i
}

/// The numbers a sequence of codes stands for.
pub open spec fn codes_of<T: Integer>(codes: Seq<T>) -> Seq<nat> {
    codes.map_values(|c: T| c.as_nat())
}

/// Absorbing a column with entries `inc` and codes `codes` into `d` indexes no
/// code out of range: when the codes have to be rewritten, each is a valid
/// position in `inc`.
pub open spec fn absorb_admits(d: Seq<Seq<char>>, cap: nat, inc: Seq<Seq<char>>, codes: Seq<nat>) -> bool {
    absorbs(d, cap, inc) && is_shift(remap_of(intern_all(d, cap, inc), inc)) ==> forall|j: int|
        0 <= j < codes.len() ==> #[trigger] codes[j] < inc.len()
}

/// The codes of an absorbed column: rewritten through the remap when some code
/// moved, unchanged otherwise.
pub open spec fn absorbed_codes(d: Seq<Seq<char>>, cap: nat, inc: Seq<Seq<char>>, codes: Seq<nat>) -> Seq<nat> {
    let remap = remap_of(intern_all(d, cap, inc), inc);
    if is_shift(remap) {
        codes.map_values(|c: nat| remap[c as int])
    } else {
        codes
    }
}

/// In a list without duplicates, the position of an element is where it stands.
pub proof fn lemma_index_of_distinct(d: Seq<Seq<char>>, i: int)
    requires
        d.no_duplicates(),
        0 <= i < d.len(),
    ensures
        d.contains(d[i]),
        d.index_of(d[i]) == i,
{
    assert(d.contains(d[i]));
    let j = d.index_of(d[i]);
    assert(d[j] == d[i]);
}

/// What interning one string does to an entry list without duplicates.
pub proof fn lemma_intern_spec(d: Seq<Seq<char>>, cap: nat, s: Seq<char>)
    requires
        d.no_duplicates(),
    ensures
        ({
            let (d2, r) = intern_spec(d, cap, s);
            &&& d2.no_duplicates()
            &&& d.is_prefix_of(d2)
            &&& d.len() <= cap ==> d2.len() <= cap
            &&& d2.len() <= d.len() + 1
            &&& (r matches Some(c) ==> c < d2.len() && d2[c as int] == s && d2.contains(s)
                && d2.index_of(s) == c)
            &&& (r is None <==> !d.contains(s) && d.len() >= cap)
            &&& (r is None ==> d2 == d)
            &&& forall|x: Seq<char>| #[trigger] d.contains(x) ==> d2.index_of(x) == d.index_of(x)
        }),
{
    let (d2, r) = intern_spec(d, cap, s);
    if d.contains(s) {
        let i = d.index_of(s);
        assert(d[i] == s);
        lemma_index_of_distinct(d, i);
    } else if d.len() < cap {
        assert forall|i: int, j: int| 0 <= i < d2.len() && 0 <= j < d2.len() && i != j implies d2[i]
            != d2[j] by {
            if i < d.len() && j == d.len() {
                assert(d.contains(d[i]));
            }
            if j < d.len() && i == d.len() {
                assert(d.contains(d[j]));
            }
        }
        lemma_index_of_distinct(d2, d.len() as int);
        assert forall|x: Seq<char>| #[trigger] d.contains(x) implies d2.index_of(x) == d.index_of(x) by {
            let i = d.index_of(x);
            lemma_index_of_distinct(d, i);
            assert(d2[i] == x);
            lemma_index_of_distinct(d2, i);
        }
    }
    assert(d =~= d2.subrange(0, d.len() as int));
}

/// Interning the first `k + 1` items is interning the first `k`, then item `k`.
pub proof fn lemma_intern_all_step(d: Seq<Seq<char>>, cap: nat, items: Seq<Seq<char>>, k: int)
    requires
        0 <= k < items.len(),
    ensures
        intern_all(d, cap, items.take(k + 1)) == intern_spec(
            intern_all(d, cap, items.take(k)),
            cap,
            items[k],
        ).0,
{
    assert(items.take(k + 1).drop_last() =~= items.take(k));
}

/// Once interning item `k` overflows, the rest of the items leave the entries as they are.
pub proof fn lemma_intern_all_saturated(d: Seq<Seq<char>>, cap: nat, items: Seq<Seq<char>>, k: int)
    requires
        0 <= k < items.len(),
        intern_all(d, cap, items.take(k)).len() >= cap,
    ensures
        intern_all(d, cap, items) == intern_all(d, cap, items.take(k)),
    decreases items.len() - k,
{
    lemma_intern_all_step(d, cap, items, k);
    if k + 1 < items.len() {
        lemma_intern_all_saturated(d, cap, items, k + 1);
    } else {
        assert(items.take(k + 1) =~= items);
    }
}


/// Interning a string that just got a code again hands back the same code and
/// leaves the entries as they are.
pub proof fn law_intern_idempotent(d: Seq<Seq<char>>, cap: nat, s: Seq<char>)
    requires
        d.no_duplicates(),
        intern_spec(d, cap, s).1 is Some,
    ensures
        intern_spec(intern_spec(d, cap, s).0, cap, s) == intern_spec(d, cap, s),
{
    lemma_intern_spec(d, cap, s);
}

/// Interning never reorders, replaces or removes an entry: the entries before
/// are a prefix of the entries after, and every code keeps its string.
pub proof fn law_intern_append_only(d: Seq<Seq<char>>, cap: nat, s: Seq<char>)
    requires
        d.no_duplicates(),
    ensures
        d.is_prefix_of(intern_spec(d, cap, s).0),
        forall|c: int| 0 <= c < d.len() ==> #[trigger] intern_spec(d, cap, s).0[c] == d[c],
{
    lemma_intern_spec(d, cap, s);
}

/// A code handed out by interning decodes to the interned string, and a
/// lookup of that string afterwards finds that code.
pub proof fn law_intern_then_lookup(d: Seq<Seq<char>>, cap: nat, s: Seq<char>)
    requires
        d.no_duplicates(),
    ensures
        intern_spec(d, cap, s).1 matches Some(c) ==> intern_spec(d, cap, s).0[c as int] == s
            && lookup_spec(intern_spec(d, cap, s).0, s) == Some(c),
{
    lemma_intern_spec(d, cap, s);
}

/// Codes are dense and sequential: a novel string gets the next code, and
/// interning fails exactly when the string is novel and the cap is reached,
/// in which case nothing changes.
pub proof fn law_intern_dense_and_capped(d: Seq<Seq<char>>, cap: nat, s: Seq<char>)
    requires
        d.no_duplicates(),
    ensures
        !d.contains(s) && d.len() < cap ==> intern_spec(d, cap, s) == (d.push(s), Some(d.len())),
        intern_spec(d, cap, s).1 is None <==> !d.contains(s) && d.len() >= cap,
        intern_spec(d, cap, s).1 is None ==> intern_spec(d, cap, s).0 == d,
        d.len() <= cap ==> intern_spec(d, cap, s).0.len() <= cap,
        intern_spec(d, cap, s).0.no_duplicates(),
{
    lemma_intern_spec(d, cap, s);
}

/// Interning a list of strings extends the entries without touching the old ones.
pub proof fn law_intern_all_append_only(d: Seq<Seq<char>>, cap: nat, items: Seq<Seq<char>>)
    requires
        d.no_duplicates(),
    ensures
        d.is_prefix_of(intern_all(d, cap, items)),
        intern_all(d, cap, items).no_duplicates(),
        d.len() <= cap ==> intern_all(d, cap, items).len() <= cap,
    decreases items.len(),
{
    if items.len() == 0 {
        assert(d =~= d.subrange(0, d.len() as int));
    } else {
        law_intern_all_append_only(d, cap, items.drop_last());
        let p = intern_all(d, cap, items.drop_last());
        lemma_intern_spec(p, cap, items.last());
        let q = intern_all(d, cap, items);
        assert(d =~= q.subrange(0, d.len() as int)) by {
            assert forall|i: int| 0 <= i < d.len() implies d[i] == q[i] by {
                assert(p.subrange(0, d.len() as int)[i] == p[i]);
                assert(q.subrange(0, p.len() as int)[i] == q[i]);
            }
        }
    }
}

/// After a successful absorb every incoming code, passed through the remap,
/// decodes to the same string it decoded to before.
pub proof fn law_absorb_preserves_decoding(
    d: Seq<Seq<char>>,
    cap: nat,
    inc: Seq<Seq<char>>,
    c: int,
)
    requires
        absorbs(d, cap, inc),
        0 <= c < inc.len(),
    ensures
        ({
            let target = intern_all(d, cap, inc);
            let remap = remap_of(target, inc);
            &&& remap[c] < target.len()
            &&& target[remap[c] as int] == inc[c]
            &&& !is_shift(remap) ==> target[c] == inc[c]
        }),
{
    let target = intern_all(d, cap, inc);
    assert(target.contains(inc[c]));
    let i = target.index_of(inc[c]);
    assert(0 <= i < target.len() && target[i] == inc[c]);
    let remap = remap_of(target, inc);
    if !is_shift(remap) {
        assert(!(remap[c] != c));
    }
}

/// The entries built from a list of values hold each value once, hold
/// nothing else, and are no longer than the list; a list without repeats is
/// kept verbatim.
pub proof fn law_first_occurrences(items: Seq<Seq<char>>)
    ensures
        first_occurrences(items).no_duplicates(),
        first_occurrences(items).len() <= items.len(),
        forall|x: Seq<char>| #[trigger] first_occurrences(items).contains(x) <==> items.contains(x),
        items.no_duplicates() ==> first_occurrences(items) == items,
    decreases items.len(),
{
    if items.len() == 0 {
        assert(first_occurrences(items) =~= items);
    } else {
        let init = items.drop_last();
        law_first_occurrences(init);
        let p = first_occurrences(init);
        let l = items.last();
        if items.no_duplicates() {
            assert(init.no_duplicates());
            assert(!init.contains(l)) by {
                if init.contains(l) {
                    let k = choose|k: int| 0 <= k < init.len() && init[k] == l;
                    assert(items[k] == items[items.len() - 1]);
                }
            }
            assert(items =~= init.push(l));
        }
        if !p.contains(l) {
            assert forall|i: int, j: int|
                0 <= i < p.len() + 1 && 0 <= j < p.len() + 1 && i != j implies p.push(l)[i] != p.push(
                l,
            )[j] by {
                if i < p.len() && j == p.len() {
                    assert(p.contains(p[i]));
                }
                if j < p.len() && i == p.len() {
                    assert(p.contains(p[j]));
                }
            }
        }
        assert forall|x: Seq<char>| #[trigger] first_occurrences(items).contains(x) <==> items.contains(x) by {
            if items.contains(x) {
                let i = choose|i: int| 0 <= i < items.len() && items[i] == x;
                if i < init.len() {
                    assert(init[i] == x);
                    assert(init.contains(x));
                    assert(p.contains(x));
                    if !p.contains(l) {
                        let k = choose|k: int| 0 <= k < p.len() && p[k] == x;
                        assert(p.push(l)[k] == x);
                    }
                } else {
                    assert(x == l);
                    if !p.contains(l) {
                        assert(p.push(l)[p.len() as int] == x);
                    }
                }
            }
            if first_occurrences(items).contains(x) {
                if p.contains(x) {
                    let k = choose|k: int| 0 <= k < init.len() && init[k] == x;
                    assert(items[k] == x);
                } else {
                    assert(x == l);
                    assert(items[items.len() - 1] == x);
                }
            }
        }
    }
}

/// After a successful absorb every row whose code was valid decodes, through
/// the extended dictionary, to the string it decoded to before.
pub proof fn law_absorb_rows_decode_same(
    d: Seq<Seq<char>>,
    cap: nat,
    inc: Seq<Seq<char>>,
    codes: Seq<nat>,
    j: int,
)
    requires
        absorbs(d, cap, inc),
        0 <= j < codes.len(),
        codes[j] < inc.len(),
    ensures
        ({
            let target = intern_all(d, cap, inc);
            let new_codes = absorbed_codes(d, cap, inc, codes);
            &&& new_codes.len() == codes.len()
            &&& new_codes[j] < target.len()
            &&& target[new_codes[j] as int] == inc[codes[j] as int]
        }),
{
    law_absorb_preserves_decoding(d, cap, inc, codes[j] as int);
}

/// An operation on a pool of dictionaries, each dictionary an entry list
/// addressed by its position in the pool.
pub ghost enum PoolOp {
    /// A new, empty dictionary.
    Create,
    /// A new dictionary built from a list of values.
    Build(Seq<Seq<char>>),
    /// Interning a string into dictionary `g`.
    Intern(int, Seq<char>),
    /// A new dictionary holding a copy of dictionary `g`'s entries.
    Copy(int),
    /// Interning every entry of dictionary `h`, in order, into dictionary `g`.
    Absorb(int, int),
}

/// The pool of entry lists after `op`, under entry cap `cap`.
pub open spec fn pool_step(p: Seq<Seq<Seq<char>>>, cap: nat, op: PoolOp) -> Seq<Seq<Seq<char>>> {
    match op {
        PoolOp::Create => p.push(Seq::empty()),
        PoolOp::Build(items) => if items.len() <= cap {
            p.push(first_occurrences(items))
        } else {
            p
        },
        PoolOp::Intern(g, s) => if 0 <= g < p.len() {
            p.update(g, intern_spec(p[g], cap, s).0)
        } else {
            p
        },
        PoolOp::Copy(g) => if 0 <= g < p.len() {
            p.push(p[g])
        } else {
            p
        },
        PoolOp::Absorb(g, h) => if 0 <= g < p.len() && 0 <= h < p.len() {
            p.update(g, intern_all(p[g], cap, p[h]))
        } else {
            p
        },
    }
}

/// The pool after each of `ops` in turn.
pub open spec fn pool_after(p: Seq<Seq<Seq<char>>>, cap: nat, ops: Seq<PoolOp>) -> Seq<Seq<Seq<char>>>
    decreases ops.len(),
{
    if ops.len() == 0 {
        p
    } else {
        pool_step(pool_after(p, cap, ops.drop_last()), cap, ops.last())
    }
}

/// Every dictionary of the pool holds distinct entries, at most `cap` of them.
pub open spec fn pool_valid(p: Seq<Seq<Seq<char>>>, cap: nat) -> bool {
    forall|g: int| #![trigger p[g]] 0 <= g < p.len() ==> p[g].no_duplicates() && p[g].len() <= cap
}

proof fn lemma_prefix_transitive(a: Seq<Seq<char>>, b: Seq<Seq<char>>, c: Seq<Seq<char>>)
    requires
        a.is_prefix_of(b),
        b.is_prefix_of(c),
    ensures
        a.is_prefix_of(c),
{
    assert forall|i: int| 0 <= i < a.len() implies a[i] == c.subrange(0, a.len() as int)[i] by {
        assert(a[i] == b.subrange(0, a.len() as int)[i]);
        assert(b[i] == c.subrange(0, b.len() as int)[i]);
    }
    assert(a =~= c.subrange(0, a.len() as int));
}

/// One operation keeps a valid pool valid, never removes a dictionary, and
/// keeps every dictionary's entries as a prefix of its entries afterwards.
pub proof fn law_pool_step(p: Seq<Seq<Seq<char>>>, cap: nat, op: PoolOp)
    requires
        pool_valid(p, cap),
    ensures
        pool_valid(pool_step(p, cap, op), cap),
        pool_step(p, cap, op).len() >= p.len(),
        forall|g: int| 0 <= g < p.len() ==> #[trigger] p[g].is_prefix_of(pool_step(p, cap, op)[g]),
{
    let q = pool_step(p, cap, op);
    assert forall|g: int| 0 <= g < p.len() implies #[trigger] p[g].is_prefix_of(p[g]) by {
        assert(p[g] =~= p[g].subrange(0, p[g].len() as int));
    }
    match op {
        PoolOp::Create => {
            assert(q[p.len() as int] =~= Seq::<Seq<char>>::empty());
            assert(pool_valid(q, cap));
        },
        PoolOp::Build(items) => {
            law_first_occurrences(items);
            assert(pool_valid(q, cap));
        },
        PoolOp::Intern(g, s) => {
            if 0 <= g < p.len() {
                assert(p[g].no_duplicates() && p[g].len() <= cap);
                law_intern_append_only(p[g], cap, s);
                law_intern_dense_and_capped(p[g], cap, s);
                assert forall|k: int| 0 <= k < q.len() implies #[trigger] q[k].no_duplicates()
                    && q[k].len() <= cap by {
                    if k != g {
                        assert(p[k].no_duplicates() && p[k].len() <= cap);
                    }
                }
                assert(pool_valid(q, cap));
            }
        },
        PoolOp::Copy(g) => {
            if 0 <= g < p.len() {
                assert(p[g].no_duplicates() && p[g].len() <= cap);
                assert(pool_valid(q, cap));
            }
        },
        PoolOp::Absorb(g, h) => {
            if 0 <= g < p.len() && 0 <= h < p.len() {
                assert(p[g].no_duplicates() && p[g].len() <= cap);
                law_intern_all_append_only(p[g], cap, p[h]);
                assert forall|k: int| 0 <= k < q.len() implies #[trigger] q[k].no_duplicates()
                    && q[k].len() <= cap by {
                    if k != g {
                        assert(p[k].no_duplicates() && p[k].len() <= cap);
                    }
                }
                assert(pool_valid(q, cap));
            }
        },
    }
}

/// Over any history of operations, a valid pool stays valid, no dictionary
/// is removed, and whatever a dictionary held at the start is a prefix of
/// what it holds at the end: entries are never reordered, replaced or
/// removed, and no dictionary ever holds the same string twice.
pub proof fn law_pool_history(p: Seq<Seq<Seq<char>>>, cap: nat, ops: Seq<PoolOp>)
    requires
        pool_valid(p, cap),
    ensures
        pool_valid(pool_after(p, cap, ops), cap),
        pool_after(p, cap, ops).len() >= p.len(),
        forall|g: int| 0 <= g < p.len() ==> #[trigger] p[g].is_prefix_of(pool_after(p, cap, ops)[g]),
    decreases ops.len(),
{
    if ops.len() == 0 {
        assert forall|g: int| 0 <= g < p.len() implies #[trigger] p[g].is_prefix_of(p[g]) by {
            assert(p[g] =~= p[g].subrange(0, p[g].len() as int));
        }
    } else {
        law_pool_history(p, cap, ops.drop_last());
        let mid = pool_after(p, cap, ops.drop_last());
        law_pool_step(mid, cap, ops.last());
        assert forall|g: int| 0 <= g < p.len() implies #[trigger] p[g].is_prefix_of(
            pool_after(p, cap, ops)[g],
        ) by {
            lemma_prefix_transitive(p[g], mid[g], pool_after(p, cap, ops)[g]);
        }
    }
}

/// Absorbing a dictionary whose entries are already a prefix of the
/// absorbing one's (for one, absorbing a dictionary into itself) changes no
/// entry and moves no code.
pub proof fn law_absorb_prefix_is_noop(d: Seq<Seq<char>>, cap: nat, inc: Seq<Seq<char>>)
    requires
        d.no_duplicates(),
        d.len() <= cap,
        inc.is_prefix_of(d),
    ensures
        intern_all(d, cap, inc) == d,
        absorbs(d, cap, inc),
        !is_shift(remap_of(d, inc)),
    decreases inc.len(),
{
    if inc.len() > 0 {
        let init = inc.drop_last();
        assert(init.is_prefix_of(d)) by {
            assert(init =~= d.subrange(0, init.len() as int));
        }
        law_absorb_prefix_is_noop(d, cap, init);
        let l = inc.last();
        assert(d[inc.len() - 1] == l) by {
            assert(inc[inc.len() - 1] == d.subrange(0, inc.len() as int)[inc.len() - 1]);
        }
        assert(d.contains(l));
    }
    assert forall|i: int| 0 <= i < inc.len() implies #[trigger] intern_all(d, cap, inc).contains(inc[i]) by {
        assert(inc[i] == d.subrange(0, inc.len() as int)[i]);
        assert(d[i] == inc[i]);
    }
    assert forall|i: int| 0 <= i < inc.len() implies !(#[trigger] remap_of(d, inc)[i] != i) by {
        assert(inc[i] == d.subrange(0, inc.len() as int)[i]);
        lemma_index_of_distinct(d, i);
    }
}

/// The strings of `inc` that `d` does not hold, in `inc`'s order.
pub open spec fn novel(d: Seq<Seq<char>>, inc: Seq<Seq<char>>) -> Seq<Seq<char>>
    decreases inc.len(),
{
    if inc.len() == 0 {
        Seq::empty()
    } else {
        let p = novel(d, inc.drop_last());
        if d.contains(inc.last()) {
            p
        } else {
            p.push(inc.last())
        }
    }
}

proof fn lemma_novel_within(d: Seq<Seq<char>>, inc: Seq<Seq<char>>)
    ensures
        forall|x: Seq<char>| #[trigger] novel(d, inc).contains(x) ==> inc.contains(x),
    decreases inc.len(),
{
    if inc.len() > 0 {
        let init = inc.drop_last();
        lemma_novel_within(d, init);
        assert forall|x: Seq<char>| #[trigger] novel(d, inc).contains(x) implies inc.contains(x) by {
            let k = choose|k: int| 0 <= k < novel(d, inc).len() && novel(d, inc)[k] == x;
            if k < novel(d, init).len() {
                assert(novel(d, init)[k] == x);
                assert(novel(d, init).contains(x));
                let j = choose|j: int| 0 <= j < init.len() && init[j] == x;
                assert(inc[j] == x);
            } else {
                assert(inc[inc.len() - 1] == x);
            }
        }
    }
}

/// Absorbing succeeds whenever the union fits the cap: if `d` plus the
/// entries of `inc` it lacks number at most `cap`, every entry of `inc` gets
/// a code, and the entries afterwards are `d` followed by those it lacked,
/// in `inc`'s order.
pub proof fn law_absorb_succeeds_within_cap(d: Seq<Seq<char>>, cap: nat, inc: Seq<Seq<char>>)
    requires
        d.no_duplicates(),
        inc.no_duplicates(),
        d.len() + novel(d, inc).len() <= cap,
    ensures
        intern_all(d, cap, inc) == d + novel(d, inc),
        absorbs(d, cap, inc),
    decreases inc.len(),
{
    if inc.len() == 0 {
        assert(novel(d, inc) =~= Seq::<Seq<char>>::empty());
        assert(d + novel(d, inc) =~= d);
    } else {
        let init = inc.drop_last();
        let l = inc.last();
        assert(init.no_duplicates());
        assert(novel(d, init).len() <= novel(d, inc).len());
        law_absorb_succeeds_within_cap(d, cap, init);
        let mid = intern_all(d, cap, init);
        assert(mid == d + novel(d, init));
        assert(!init.contains(l)) by {
            if init.contains(l) {
                let k = choose|k: int| 0 <= k < init.len() && init[k] == l;
                assert(inc[k] == inc[inc.len() - 1]);
            }
        }
        assert(!novel(d, init).contains(l)) by {
            lemma_novel_within(d, init);
        }
        if d.contains(l) {
            let i = choose|i: int| 0 <= i < d.len() && d[i] == l;
            assert(mid[i] == l);
            assert(mid.contains(l));
            assert(intern_all(d, cap, inc) == mid);
            assert(d + novel(d, inc) =~= mid);
        } else {
            assert(!mid.contains(l)) by {
                if mid.contains(l) {
                    let k = choose|k: int| 0 <= k < mid.len() && mid[k] == l;
                    if k < d.len() {
                        assert(d[k] == l);
                    } else {
                        assert(novel(d, init)[k - d.len()] == l);
                    }
                }
            }
            assert(mid.len() < cap);
            assert(intern_all(d, cap, inc) == mid.push(l));
            assert(d + novel(d, inc) =~= mid.push(l));
        }
        let fin = intern_all(d, cap, inc);
        assert forall|i: int| 0 <= i < inc.len() implies #[trigger] fin.contains(inc[i]) by {
            if i < init.len() {
                assert(init[i] == inc[i]);
                assert(mid.contains(init[i]));
                let k = choose|k: int| 0 <= k < mid.len() && mid[k] == init[i];
                assert(fin[k] == mid[k]);
            } else {
                if d.contains(l) {
                } else {
                    assert(fin[fin.len() - 1] == l);
                }
            }
        }
    }
}

/// Running `first` and then `rest` is running `first + rest`.
pub proof fn lemma_pool_after_concat(
    p: Seq<Seq<Seq<char>>>,
    cap: nat,
    first: Seq<PoolOp>,
    rest: Seq<PoolOp>,
)
    ensures
        pool_after(p, cap, first + rest) == pool_after(pool_after(p, cap, first), cap, rest),
    decreases rest.len(),
{
    if rest.len() == 0 {
        assert(first + rest =~= first);
    } else {
        assert((first + rest).drop_last() =~= first + rest.drop_last());
        lemma_pool_after_concat(p, cap, first, rest.drop_last());
    }
}

/// Between any two moments of a pool's life (its history at the later one
/// extends its history at the earlier one), every dictionary's entries at
/// the earlier moment are a prefix of its entries at the later one, and at
/// every moment no dictionary holds a string twice or more than `cap` entries.
pub proof fn law_entries_over_time(cap: nat, earlier: Seq<PoolOp>, later: Seq<PoolOp>)
    requires
        earlier.is_prefix_of(later),
    ensures
        ({
            let a = pool_after(Seq::empty(), cap, earlier);
            let b = pool_after(Seq::empty(), cap, later);
            &&& pool_valid(b, cap)
            &&& b.len() >= a.len()
            &&& forall|g: int| 0 <= g < a.len() ==> #[trigger] a[g].is_prefix_of(b[g])
        }),
{
    let e = Seq::<Seq<Seq<char>>>::empty();
    law_pool_history(e, cap, earlier);
    let rest = later.subrange(earlier.len() as int, later.len() as int);
    assert(earlier + rest =~= later);
    lemma_pool_after_concat(e, cap, earlier, rest);
    law_pool_history(pool_after(e, cap, earlier), cap, rest);
}

/// A lookup finds only what was interned: a code it gives decodes to the
/// string looked up, and a string never interned gets no code.
pub proof fn law_lookup_finds_only_interned(d: Seq<Seq<char>>, s: Seq<char>)
    ensures
        lookup_spec(d, s) matches Some(c) ==> (c < d.len() && d[c as int] == s),
        lookup_spec(d, s) is None <==> !d.contains(s),
{
    if d.contains(s) {
        let i = d.index_of(s);
        assert(0 <= i < d.len() && d[i] == s);
    }
}

/// A repeated value changes nothing: appending a value already in the list
/// leaves the built entries as they are, and a new value is appended last.
pub proof fn law_first_occurrences_repeat_is_noop(items: Seq<Seq<char>>, x: Seq<char>)
    ensures
        items.contains(x) ==> first_occurrences(items.push(x)) == first_occurrences(items),
        !items.contains(x) ==> first_occurrences(items.push(x)) == first_occurrences(items).push(x),
{
    law_first_occurrences(items);
    assert(items.push(x).drop_last() =~= items);
    assert(items.push(x).last() == x);
}

/// Whether a column can be absorbed depends only on its codes and its own
/// dictionary: when every code is below the length of the column's
/// dictionary, absorbing is admitted, whatever the absorbing dictionary.
pub proof fn law_absorb_admits_valid_codes(
    d: Seq<Seq<char>>,
    cap: nat,
    inc: Seq<Seq<char>>,
    codes: Seq<nat>,
)
    requires
        forall|j: int| 0 <= j < codes.len() ==> #[trigger] codes[j] < inc.len(),
    ensures
        absorb_admits(d, cap, inc, codes),
{
}

} // verus!
