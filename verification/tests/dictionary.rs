use minarrow::category_dispatch::{CategoryDispatch, CategoryPools, TextArray};
use minarrow::dictionary::{max_cap, AbsorbError, CategoricalArray, Dictionary, DictionaryError, DictionaryPool};

fn strs<T: minarrow::integer::Integer>(d: &Dictionary<T>, pool: &DictionaryPool<T>) -> Vec<String> {
    d.values(pool)
}

fn owned(v: &[&str]) -> Vec<String> {
    v.iter().map(|s| s.to_string()).collect()
}

#[test]
fn empty_dictionary_starts_empty() {
    let mut pool: DictionaryPool<u32> = DictionaryPool::new();
    let d: Dictionary<u32> = Dictionary::new(&mut pool);
    assert_eq!(d.len(&pool), 0);
    assert!(d.is_empty(&pool));
    assert_eq!(d.lookup(&pool, "anything"), None);
}

#[test]
fn intern_assigns_dense_sequential_codes() {
    let mut pool: DictionaryPool<u32> = DictionaryPool::new();
    let d: Dictionary<u32> = Dictionary::new(&mut pool);
    assert_eq!(d.intern(&mut pool, "a"), Ok(0));
    assert_eq!(d.intern(&mut pool, "b"), Ok(1));
    assert_eq!(d.intern(&mut pool, "c"), Ok(2));
    assert_eq!(d.intern(&mut pool, "a"), Ok(0));
    assert_eq!(d.len(&pool), 3);
    let vals = d.values(&pool);
    let values: Vec<&str> = vals.iter().map(|s| s.as_str()).collect();
    assert_eq!(values, vec!["a", "b", "c"]);
}

#[test]
fn clones_share_state() {
    let mut pool: DictionaryPool<u32> = DictionaryPool::new();
    let d: Dictionary<u32> = Dictionary::new(&mut pool);
    let cloned = d.clone();
    assert!(d.shares_with(&cloned));
    // Update through one is visible through the other.
    assert_eq!(d.intern(&mut pool, "a"), Ok(0));
    let vals = cloned.values(&pool);
    let values: Vec<&str> = vals.iter().map(|s| s.as_str()).collect();
    assert_eq!(values, vec!["a"]);
}

#[test]
fn detach_breaks_sharing() {
    let mut pool: DictionaryPool<u32> = DictionaryPool::new();
    let a: Dictionary<u32> = Dictionary::new(&mut pool);
    let _ = a.intern(&mut pool, "x").unwrap();
    let mut b = a.clone();
    b.detach_to_owned(&mut pool);
    assert_eq!(a.values(&pool).first().map(|s| s.as_str()), Some("x"));
    assert_eq!(b.values(&pool).first().map(|s| s.as_str()), Some("x"));
    assert!(!a.shares_with(&b));
    let _ = b.intern(&mut pool, "y").unwrap();
    assert_eq!(a.len(&pool), 1);
    assert_eq!(b.len(&pool), 2);
}

#[test]
fn is_prefix_of_recognises_prefix() {
    let mut pool: DictionaryPool<u32> = DictionaryPool::new();
    let a: Dictionary<u32> = Dictionary::from_iter(&mut pool, &["x", "y"]);
    let b: Dictionary<u32> = Dictionary::from_iter(&mut pool, &["x", "y", "z"]);
    assert!(a.is_prefix_of(&b, &pool));
    assert!(!b.is_prefix_of(&a, &pool));
    let c: Dictionary<u32> = Dictionary::from_iter(&mut pool, &["x", "z"]);
    assert!(!a.is_prefix_of(&c, &pool));
}

/// Narrow-width cap is honoured exactly: 256 successful interns,
/// the 257th returns Overflow.
#[test]
fn intern_returns_overflow_at_u8_cap() {
    let mut pool: DictionaryPool<u8> = DictionaryPool::new();
    let d: Dictionary<u8> = Dictionary::new(&mut pool);
    for i in 0..256u32 {
        d.intern(&mut pool, &format!("v{i}")).unwrap();
    }
    assert_eq!(d.intern(&mut pool, "overflow"), Err(DictionaryError::Overflow));
    assert_eq!(d.len(&pool), 256);
}

// ---- further cases ----

#[test]
fn max_cap_per_width() {
    assert_eq!(max_cap::<u8>(), 256);
    assert_eq!(max_cap::<u16>(), 65_536);
    assert_eq!(max_cap::<u32>(), 1 << 20);
    assert_eq!(max_cap::<u64>(), 1 << 20);
}

#[test]
fn overflow_leaves_dictionary_unchanged_and_known_strings_still_resolve() {
    let mut pool: DictionaryPool<u8> = DictionaryPool::new();
    let d: Dictionary<u8> = Dictionary::new(&mut pool);
    for i in 0..256u32 {
        assert_eq!(d.intern(&mut pool, &format!("v{i}")), Ok(i as u8));
    }
    let before = d.values(&pool);
    assert_eq!(d.intern(&mut pool, "new"), Err(DictionaryError::Overflow));
    assert_eq!(d.values(&pool), before);
    // A string already present still gets its code at the cap.
    assert_eq!(d.intern(&mut pool, "v17"), Ok(17));
    assert_eq!(d.lookup(&pool, "new"), None);
}

#[test]
fn intern_is_idempotent_and_lookup_finds_the_code() {
    let mut pool: DictionaryPool<u16> = DictionaryPool::new();
    let d: Dictionary<u16> = Dictionary::new(&mut pool);
    let c = d.intern(&mut pool, "red").unwrap();
    let n = d.len(&pool);
    assert_eq!(d.intern(&mut pool, "red"), Ok(c));
    assert_eq!(d.len(&pool), n);
    assert_eq!(d.lookup(&pool, "red"), Some(c));
    assert_eq!(d.values(&pool)[c as usize], "red");
}

#[test]
fn intern_is_append_only_and_touches_no_other_dictionary() {
    let mut pool: DictionaryPool<u32> = DictionaryPool::new();
    let d: Dictionary<u32> = Dictionary::from_iter(&mut pool, &["p", "q"]);
    let other: Dictionary<u32> = Dictionary::from_iter(&mut pool, &["p", "q"]);
    d.intern(&mut pool, "r").unwrap();
    assert!(other.is_prefix_of(&d, &pool));
    assert_eq!(d.values(&pool), owned(&["p", "q", "r"]));
    assert_eq!(other.values(&pool), owned(&["p", "q"]));
}

#[test]
fn from_values_keeps_first_occurrences_in_order() {
    let mut pool: DictionaryPool<u32> = DictionaryPool::new();
    let d: Dictionary<u32> = Dictionary::from_values(&mut pool, owned(&["b", "a", "b", "c", "a"]));
    assert_eq!(strs(&d, &pool), owned(&["b", "a", "c"]));
    assert_eq!(d.lookup(&pool, "c"), Some(2));
}

#[test]
fn from_values_at_exactly_the_cap() {
    let mut pool: DictionaryPool<u8> = DictionaryPool::new();
    let values: Vec<String> = (0..256).map(|i| format!("s{i}")).collect();
    let d: Dictionary<u8> = Dictionary::from_values(&mut pool, values);
    assert_eq!(d.len(&pool), 256);
    assert_eq!(d.lookup(&pool, "s255"), Some(255));
}

#[test]
fn equality_compares_entries() {
    let mut pool: DictionaryPool<u32> = DictionaryPool::new();
    let a: Dictionary<u32> = Dictionary::from_iter(&mut pool, &["x", "y"]);
    let b: Dictionary<u32> = Dictionary::from_iter(&mut pool, &["x", "y"]);
    let c: Dictionary<u32> = Dictionary::from_iter(&mut pool, &["y", "x"]);
    let e: Dictionary<u32> = Dictionary::from_iter(&mut pool, &["x"]);
    assert!(a.eq(&b, &pool));
    assert!(!a.eq(&c, &pool));
    assert!(!a.eq(&e, &pool));
    assert!(a.eq(&a.clone(), &pool));
    assert!(!a.shares_with(&b));
}

#[test]
fn error_message() {
    assert_eq!(
        DictionaryError::Overflow.to_string(),
        "dictionary cardinality would exceed the capacity of the index type"
    );
}

#[test]
fn absorb_remaps_shifted_codes_and_joins_the_group() {
    let mut pool: DictionaryPool<u32> = DictionaryPool::new();
    let shared: Dictionary<u32> = Dictionary::from_iter(&mut pool, &["a", "b"]);
    let column_dict: Dictionary<u32> = Dictionary::from_iter(&mut pool, &["c", "a"]);
    let mut cat = CategoricalArray { data: vec![0, 1, 1, 0], dictionary: column_dict };
    shared.absorb(&mut pool, &mut cat);
    // "c" is new (code 2), "a" keeps code 0 in the shared dictionary.
    assert_eq!(strs(&shared, &pool), owned(&["a", "b", "c"]));
    assert_eq!(cat.data, vec![2, 0, 0, 2]);
    assert!(cat.dictionary.shares_with(&shared));
    // Law: every row decodes to the same string as before.
    let vals = cat.dictionary.values(&pool);
    let decoded: Vec<String> = cat.data.iter().map(|&c| vals[c as usize].clone()).collect();
    assert_eq!(decoded, owned(&["c", "a", "a", "c"]));
    // The column's old dictionary is untouched.
    assert_eq!(column_dict.values(&pool), owned(&["c", "a"]));
    // Later interns through the group reach the column.
    shared.intern(&mut pool, "z").unwrap();
    assert_eq!(cat.dictionary.len(&pool), 4);
}

#[test]
fn absorb_without_shift_keeps_codes() {
    let mut pool: DictionaryPool<u32> = DictionaryPool::new();
    let shared: Dictionary<u32> = Dictionary::from_iter(&mut pool, &["a", "b"]);
    let column_dict: Dictionary<u32> = Dictionary::from_iter(&mut pool, &["a", "b"]);
    let mut cat = CategoricalArray { data: vec![1, 0, 7], dictionary: column_dict };
    shared.absorb(&mut pool, &mut cat);
    // No code moved, so the data - even an out-of-range code - is left as it is.
    assert_eq!(cat.data, vec![1, 0, 7]);
    assert_eq!(shared.len(&pool), 2);
    assert!(cat.dictionary.shares_with(&shared));
}

#[test]
fn absorb_of_an_already_shared_column_changes_nothing() {
    let mut pool: DictionaryPool<u32> = DictionaryPool::new();
    let shared: Dictionary<u32> = Dictionary::from_iter(&mut pool, &["a", "b"]);
    let mut cat = CategoricalArray { data: vec![1, 0], dictionary: shared.clone() };
    shared.absorb(&mut pool, &mut cat);
    assert_eq!(cat.data, vec![1, 0]);
    assert_eq!(shared.values(&pool), owned(&["a", "b"]));
    assert!(cat.dictionary.shares_with(&shared));
}

#[test]
fn absorb_overflow_leaves_column_untouched() {
    let mut pool: DictionaryPool<u8> = DictionaryPool::new();
    let shared: Dictionary<u8> = Dictionary::new(&mut pool);
    for i in 0..255u32 {
        shared.intern(&mut pool, &format!("v{i}")).unwrap();
    }
    let column_dict: Dictionary<u8> = Dictionary::from_iter(&mut pool, &["n0", "n1", "n2"]);
    let mut cat = CategoricalArray { data: vec![0, 1, 2], dictionary: column_dict };
    shared.absorb(&mut pool, &mut cat);
    // "n0" fits (code 255); "n1" overflows and stops the absorb.
    assert_eq!(shared.len(&pool), 256);
    assert_eq!(shared.lookup(&pool, "n0"), Some(255));
    assert_eq!(shared.lookup(&pool, "n1"), None);
    assert_eq!(cat.data, vec![0, 1, 2]);
    assert!(cat.dictionary.shares_with(&column_dict));
    assert_eq!(strs(&cat.dictionary, &pool), owned(&["n0", "n1", "n2"]));
}

#[test]
fn category_dispatch_installs_and_absorbs_by_width() {
    let mut pools = CategoryPools::new();
    let d16 = Dictionary::from_iter(&mut pools.p16, &["u", "v"]);
    let col = TextArray::Categorical16(CategoricalArray { data: vec![0, 1], dictionary: d16 });
    let dispatch = CategoryDispatch::install_from(&col).unwrap();
    assert_eq!(dispatch.len(&pools), 2);
    match &dispatch {
        CategoryDispatch::U16(d) => assert!(d.shares_with(&d16)),
        _ => panic!("wrong width"),
    }
    assert!(CategoryDispatch::install_from(&TextArray::String32(vec!["s".to_string()])).is_none());

    let other_dict = Dictionary::from_iter(&mut pools.p16, &["w", "u"]);
    let mut other = TextArray::Categorical16(CategoricalArray { data: vec![0, 0, 1], dictionary: other_dict });
    dispatch.absorb(&mut pools, &mut other);
    assert_eq!(dispatch.len(&pools), 3);
    match &other {
        TextArray::Categorical16(c) => {
            assert_eq!(c.data, vec![2, 2, 0]);
            assert!(c.dictionary.shares_with(&d16));
        }
        _ => panic!("column changed kind"),
    }

    // A width mismatch is a no-op.
    let d32 = Dictionary::from_iter(&mut pools.p32, &["z"]);
    let mut wide = TextArray::Categorical32(CategoricalArray { data: vec![0], dictionary: d32 });
    dispatch.absorb(&mut pools, &mut wide);
    assert_eq!(dispatch.len(&pools), 3);
    match &wide {
        TextArray::Categorical32(c) => {
            assert_eq!(c.data, vec![0]);
            assert!(c.dictionary.shares_with(&d32));
        }
        _ => panic!("column changed kind"),
    }
}

#[test]
fn try_absorb_reports_out_of_range_code_only_when_a_remap_is_needed() {
    let mut pool: DictionaryPool<u32> = DictionaryPool::new();
    let shared: Dictionary<u32> = Dictionary::from_iter(&mut pool, &["a", "b"]);
    // Shift needed ("c" moves to code 2) and code 5 has no entry: refused,
    // after interning, with the column untouched.
    let col1: Dictionary<u32> = Dictionary::from_iter(&mut pool, &["c"]);
    let mut cat = CategoricalArray { data: vec![0, 5], dictionary: col1 };
    assert_eq!(shared.try_absorb(&mut pool, &mut cat), Err(AbsorbError::CodeOutOfRange));
    assert_eq!(cat.data, vec![0, 5]);
    assert!(cat.dictionary.shares_with(&col1));
    assert_eq!(shared.values(&pool), owned(&["a", "b", "c"]));
    // No shift: the same out-of-range code is accepted and left as it is.
    let col2: Dictionary<u32> = Dictionary::from_iter(&mut pool, &["a"]);
    let mut cat2 = CategoricalArray { data: vec![0, 5], dictionary: col2 };
    assert_eq!(shared.try_absorb(&mut pool, &mut cat2), Ok(()));
    assert_eq!(cat2.data, vec![0, 5]);
    assert!(cat2.dictionary.shares_with(&shared));
}

#[test]
fn get_borrows_one_entry() {
    let mut pool: DictionaryPool<u16> = DictionaryPool::new();
    let d: Dictionary<u16> = Dictionary::from_iter(&mut pool, &["p", "q"]);
    assert_eq!(d.get(&pool, 1).map(|s| s.as_str()), Some("q"));
    assert_eq!(d.get(&pool, 2), None);
}

#[test]
fn belongs_to_checks_the_handle_range() {
    let mut pool: DictionaryPool<u8> = DictionaryPool::new();
    let empty: DictionaryPool<u8> = DictionaryPool::new();
    let d: Dictionary<u8> = Dictionary::new(&mut pool);
    assert!(d.belongs_to(&pool));
    assert!(!d.belongs_to(&empty));
}
