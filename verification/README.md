# minarrow (verified dictionary core)

The append-only containers behind minarrow's categorical arrays, written in
Verus and proved against their contracts.

- `src/append_only_vec.rs` - `AppendOnlyVec<T>`: elements live in buckets of
  doubling size (bucket `i` holds `16 << i` entries); `locate` maps a logical
  index to its bucket and slot. Push, bounded push, indexed read and an
  in-order iterator, with the bucket layout as the type's invariant.
- `src/dictionary.rs` - `DictionaryPool<T>` holds append-only string
  dictionaries that hand out dense codes of an unsigned integer type `T`,
  capped by `T` (`u8` 256, `u16` 65 536, wider 1 048 576 entries). A
  `Dictionary<T>` is a handle on one of them: copies of a handle share the
  dictionary, and `detach_to_owned` moves a handle to a copy of its own.
  Interning, lookup, construction from a list, prefix and equality tests,
  and absorbing a categorical column (`CategoricalArray<T>`) with code
  remapping, after which the column shares the absorbing dictionary
  (`try_absorb` reports a code that cannot be remapped instead of requiring
  its absence). A pool records the operations applied to it, so the laws
  over histories apply to any two moments of a real pool.
- `src/dictionary_spec.rs` - the model the contracts speak of (entry lists of
  strings, a pool of them, and what each operation does) and the laws proved
  about it.
- `src/category_dispatch.rs` - `CategoryDispatch`, a width-erased handle on one
  column's dictionary, and `CategoryPools`, one pool per code width.
- `src/integer.rs` - the code types `u8`, `u16`, `u32`, `u64`.
- `app/` - what is not verified: a `SharedDictionary<T>` that puts a pool
  behind `Arc<Mutex<..>>` so handles intern through `&self` from any thread,
  the error type with `Display`/`Error`, and construction from a
  `vec64::Vec64`.
