//! Results of matching mapping patterns: one mapping or several.
use vstd::prelude::*;
use crate::mapping::MappingBuf;

verus! {

/// A pattern that matches mappings.
pub struct MappingPattern {}

/// What a mapping pattern matched: one mapping, or several.
#[derive(Debug, Clone)]
pub enum MappingPatternResult {
    Single(MappingBuf),
    Multi(Vec<MappingBuf>),
}

impl MappingPatternResult {
    /// A result of one mapping.
    pub fn new_single(mapping: MappingBuf) -> (r: Self)
        ensures
            r == MappingPatternResult::Single(mapping),
    {
        MappingPatternResult::Single(mapping)
    }

    /// A result of several mappings.
    pub fn new_multi(mappings: Vec<MappingBuf>) -> (r: Self)
        ensures
            r == MappingPatternResult::Multi(mappings),
    {
        MappingPatternResult::Multi(mappings)
    }

    /// Whether the result is one mapping.
    pub fn is_single(&self) -> (r: bool)
        ensures
            r == (*self is Single),
    {
        match self {
            MappingPatternResult::Single(_) => true,
            MappingPatternResult::Multi(_) => false,
        }
    }

    /// Whether the result is several mappings.
    pub fn is_multi(&self) -> (r: bool)
        ensures
            r == (*self is Multi),
    {
        match self {
            MappingPatternResult::Single(_) => false,
            MappingPatternResult::Multi(_) => true,
        }
    }

    /// The one mapping, if the result is one.
    pub fn single(self) -> (r: Option<MappingBuf>)
        ensures
            match self {
                MappingPatternResult::Single(m) => r == Some(m),
                MappingPatternResult::Multi(_) => r is None,
            },
    {
        match self {
            MappingPatternResult::Single(mapping) => Some(mapping),
            MappingPatternResult::Multi(_) => None,
        }
    }

    /// The mappings, if the result is several.
    pub fn multi(self) -> (r: Option<Vec<MappingBuf>>)
        ensures
            match self {
                MappingPatternResult::Single(_) => r is None,
                MappingPatternResult::Multi(v) => r == Some(v),
            },
    {
        match self {
            MappingPatternResult::Single(_) => None,
            MappingPatternResult::Multi(mappings) => Some(mappings),
        }
    }

    /// The mappings, one mapping counting as a list of one.
    pub fn ensure_multi(self) -> (r: Vec<MappingBuf>)
        ensures
            match self {
                MappingPatternResult::Single(m) => r@ == seq![m],
                MappingPatternResult::Multi(v) => r == v,
            },
    {
        match self {
            MappingPatternResult::Single(mapping) => {
                let mut v = Vec::new();
                v.push(mapping);
                v
            },
            MappingPatternResult::Multi(mappings) => mappings,
        }
    }

    /// The one mapping; the result must be one.
    pub fn unwrap_single(self) -> (r: MappingBuf)
        requires
            self is Single,
        ensures
            self == MappingPatternResult::Single(r),
    {
        match self {
            MappingPatternResult::Single(mapping) => mapping,
            MappingPatternResult::Multi(_) => {
                proof {
                    assert(false);
                }
                unreached()
            },
        }
    }

    /// The mappings; the result must be several.
    pub fn unwrap_multi(self) -> (r: Vec<MappingBuf>)
        requires
            self is Multi,
        ensures
            self == MappingPatternResult::Multi(r),
    {
        match self {
            MappingPatternResult::Single(_) => {
                proof {
                    assert(false);
                }
                unreached()
            },
            MappingPatternResult::Multi(mappings) => mappings,
        }
    }

    /// The one mapping, or `or` when the result is several.
    pub fn unwrap_single_or(self, or: MappingBuf) -> (r: MappingBuf)
        ensures
            match self {
                MappingPatternResult::Single(m) => r == m,
                MappingPatternResult::Multi(_) => r == or,
            },
    {
        match self {
            MappingPatternResult::Single(mapping) => mapping,
            MappingPatternResult::Multi(_) => or,
        }
    }

    /// The mappings, or `or` when the result is one.
    pub fn unwrap_multi_or(self, or: Vec<MappingBuf>) -> (r: Vec<MappingBuf>)
        ensures
            match self {
                MappingPatternResult::Single(_) => r == or,
                MappingPatternResult::Multi(v) => r == v,
            },
    {
        match self {
            MappingPatternResult::Single(_) => or,
            MappingPatternResult::Multi(mappings) => mappings,
        }
    }

    /// The one mapping, or what `or` gives when the result is several.
    pub fn unwrap_single_or_else<F: FnOnce() -> MappingBuf>(self, or: F) -> (r: MappingBuf)
        requires
            self is Multi ==> call_requires(or, ()),
        ensures
            match self {
                MappingPatternResult::Single(m) => r == m,
                MappingPatternResult::Multi(_) => call_ensures(or, (), r),
            },
    {
        match self {
            MappingPatternResult::Single(mapping) => mapping,
            MappingPatternResult::Multi(_) => or(),
        }
    }

    /// The mappings, or what `or` gives when the result is one.
    pub fn unwrap_multi_or_else<F: FnOnce() -> Vec<MappingBuf>>(self, or: F) -> (r: Vec<MappingBuf>)
        requires
            self is Single ==> call_requires(or, ()),
        ensures
            match self {
                MappingPatternResult::Single(_) => call_ensures(or, (), r),
                MappingPatternResult::Multi(v) => r == v,
            },
    {
        match self {
            MappingPatternResult::Single(_) => or(),
            MappingPatternResult::Multi(mappings) => mappings,
        }
    }

    /// Number of mappings.
    pub fn len(&self) -> (r: usize)
        ensures
            match self {
                MappingPatternResult::Single(_) => r == 1,
                MappingPatternResult::Multi(v) => r == v.len(),
            },
    {
        match self {
            MappingPatternResult::Single(_) => 1,
            MappingPatternResult::Multi(mappings) => mappings.len(),
        }
    }

    /// Whether there is no mapping (only possible with several).
    pub fn is_empty(&self) -> (r: bool)
        ensures
            match self {
                MappingPatternResult::Single(_) => !r,
                MappingPatternResult::Multi(v) => r == (v.len() == 0),
            },
    {
        match self {
            MappingPatternResult::Single(_) => false,
            MappingPatternResult::Multi(mappings) => mappings.len() < 1,
        }
    }
}

} // verus!
