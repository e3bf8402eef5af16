//! `CategoryDispatch` - a width-erased handle on one categorical column's
//! dictionary, so a parent container can hold one entry per categorical
//! column without being generic over each column's code width.

use vstd::prelude::*;
use crate::dictionary::{
    CategoricalArray, Dictionary, DictionaryPool, absorb_precondition, absorb_outcome,
};

verus! {

/// A text column: plain strings, or a categorical column at one of four code widths.
pub enum TextArray {
    String32(Vec<String>),
    Categorical8(CategoricalArray<u8>),
    Categorical16(CategoricalArray<u16>),
    Categorical32(CategoricalArray<u32>),
    Categorical64(CategoricalArray<u64>),
}

/// One dictionary pool per code width.
pub struct CategoryPools {
    pub p8: DictionaryPool<u8>,
    pub p16: DictionaryPool<u16>,
    pub p32: DictionaryPool<u32>,
    pub p64: DictionaryPool<u64>,
}

impl CategoryPools {
    /// Four empty pools.
    pub fn new() -> (r: Self)
        ensures
            r.wf(),
            r.p8@.len() == 0,
            r.p16@.len() == 0,
            r.p32@.len() == 0,
            r.p64@.len() == 0,
    {
        CategoryPools {
            p8: DictionaryPool::new(),
            p16: DictionaryPool::new(),
            p32: DictionaryPool::new(),
            p64: DictionaryPool::new(),
        }
    }

    /// All four pools are well formed.
    pub open spec fn wf(&self) -> bool {
        &&& self.p8.wf()
        &&& self.p16.wf()
        &&& self.p32.wf()
        &&& self.p64.wf()
    }
}

/// Width-erased `Dictionary`: each variant carries a handle on a column's
/// typed dictionary, in the pool of its width.
pub enum CategoryDispatch {
    U8(Dictionary<u8>),
    U16(Dictionary<u16>),
    U32(Dictionary<u32>),
    U64(Dictionary<u64>),
}

impl CategoryDispatch {
    /// The handle names a dictionary of the pool of its width.
    pub open spec fn valid_in(&self, pools: &CategoryPools) -> bool {
        match self {
            CategoryDispatch::U8(d) => d.valid_in(&pools.p8),
            CategoryDispatch::U16(d) => d.valid_in(&pools.p16),
            CategoryDispatch::U32(d) => d.valid_in(&pools.p32),
            CategoryDispatch::U64(d) => d.valid_in(&pools.p64),
        }
    }

    /// The entries of the named dictionary.
    pub open spec fn entries(&self, pools: &CategoryPools) -> Seq<Seq<char>> {
        match self {
            CategoryDispatch::U8(d) => d.entries(&pools.p8),
            CategoryDispatch::U16(d) => d.entries(&pools.p16),
            CategoryDispatch::U32(d) => d.entries(&pools.p32),
            CategoryDispatch::U64(d) => d.entries(&pools.p64),
        }
    }

    /// Absorbing `array` through this dispatch is well defined: on a width
    /// match both handles name dictionaries of the pool of that width and no
    /// code is out of range; a width mismatch asks nothing.
    pub open spec fn absorb_precondition(&self, pools: &CategoryPools, array: TextArray) -> bool {
        match (self, array) {
            (CategoryDispatch::U8(d), TextArray::Categorical8(c)) => d.valid_in(&pools.p8)
                && c.dictionary.valid_in(&pools.p8) && absorb_precondition(pools.p8@, *d, c),
            (CategoryDispatch::U16(d), TextArray::Categorical16(c)) => d.valid_in(&pools.p16)
                && c.dictionary.valid_in(&pools.p16) && absorb_precondition(pools.p16@, *d, c),
            (CategoryDispatch::U32(d), TextArray::Categorical32(c)) => d.valid_in(&pools.p32)
                && c.dictionary.valid_in(&pools.p32) && absorb_precondition(pools.p32@, *d, c),
            (CategoryDispatch::U64(d), TextArray::Categorical64(c)) => d.valid_in(&pools.p64)
                && c.dictionary.valid_in(&pools.p64) && absorb_precondition(pools.p64@, *d, c),
            _ => true,
        }
    }

    /// A dispatch holding the column's own dictionary handle (sharing it with
    /// the column), or `None` if the column is not categorical.
    pub fn install_from(array: &TextArray) -> (r: Option<Self>)
        ensures
            match array {
                TextArray::String32(_) => r is None,
                TextArray::Categorical8(c) => r == Some(CategoryDispatch::U8(c.dictionary)),
                TextArray::Categorical16(c) => r == Some(CategoryDispatch::U16(c.dictionary)),
                TextArray::Categorical32(c) => r == Some(CategoryDispatch::U32(c.dictionary)),
                TextArray::Categorical64(c) => r == Some(CategoryDispatch::U64(c.dictionary)),
            },
    {
        match array {
            TextArray::Categorical32(cat) => Some(CategoryDispatch::U32(cat.dictionary)),
            TextArray::Categorical8(cat) => Some(CategoryDispatch::U8(cat.dictionary)),
            TextArray::Categorical16(cat) => Some(CategoryDispatch::U16(cat.dictionary)),
            TextArray::Categorical64(cat) => Some(CategoryDispatch::U64(cat.dictionary)),
            _ => None,
        }
    }

    /// Absorbs `array` through this dispatch's dictionary when the code widths
    /// match (the column then joins the dispatch's sharing group); a width
    /// mismatch leaves the pools and the column unchanged.
    pub fn absorb(&self, pools: &mut CategoryPools, array: &mut TextArray)
        requires
            old(pools).wf(),
            self.absorb_precondition(old(pools), *old(array)),
        ensures
            final(pools).wf(),
            match (*self, *old(array)) {
                (CategoryDispatch::U8(d), TextArray::Categorical8(c)) => *final(array) matches TextArray::Categorical8(c2)
                    && absorb_outcome(old(pools).p8@, final(pools).p8@, d, c, c2)
                    && final(pools).p16@ == old(pools).p16@ && final(pools).p32@ == old(pools).p32@
                    && final(pools).p64@ == old(pools).p64@,
                (CategoryDispatch::U16(d), TextArray::Categorical16(c)) => *final(array) matches TextArray::Categorical16(c2)
                    && absorb_outcome(old(pools).p16@, final(pools).p16@, d, c, c2)
                    && final(pools).p8@ == old(pools).p8@ && final(pools).p32@ == old(pools).p32@
                    && final(pools).p64@ == old(pools).p64@,
                (CategoryDispatch::U32(d), TextArray::Categorical32(c)) => *final(array) matches TextArray::Categorical32(c2)
                    && absorb_outcome(old(pools).p32@, final(pools).p32@, d, c, c2)
                    && final(pools).p8@ == old(pools).p8@ && final(pools).p16@ == old(pools).p16@
                    && final(pools).p64@ == old(pools).p64@,
                (CategoryDispatch::U64(d), TextArray::Categorical64(c)) => *final(array) matches TextArray::Categorical64(c2)
                    && absorb_outcome(old(pools).p64@, final(pools).p64@, d, c, c2)
                    && final(pools).p8@ == old(pools).p8@ && final(pools).p16@ == old(pools).p16@
                    && final(pools).p32@ == old(pools).p32@,
                _ => *final(pools) == *old(pools) && *final(array) == *old(array),
            },
    {
        match self {
            CategoryDispatch::U32(d) => match array {
                TextArray::Categorical32(cat) => d.absorb(&mut pools.p32, cat),
                _ => {},
            },
            CategoryDispatch::U8(d) => match array {
                TextArray::Categorical8(cat) => d.absorb(&mut pools.p8, cat),
                _ => {},
            },
            CategoryDispatch::U16(d) => match array {
                TextArray::Categorical16(cat) => d.absorb(&mut pools.p16, cat),
                _ => {},
            },
            CategoryDispatch::U64(d) => match array {
                TextArray::Categorical64(cat) => d.absorb(&mut pools.p64, cat),
                _ => {},
            },
        }
    }

    /// Number of entries in the dispatch's dictionary.
    pub fn len(&self, pools: &CategoryPools) -> (r: usize)
        requires
            self.valid_in(pools),
        ensures
            r == self.entries(pools).len(),
    {
        match self {
            CategoryDispatch::U8(d) => d.len(&pools.p8),
            CategoryDispatch::U16(d) => d.len(&pools.p16),
            CategoryDispatch::U32(d) => d.len(&pools.p32),
            CategoryDispatch::U64(d) => d.len(&pools.p64),
        }
    }
}

} // verus!
