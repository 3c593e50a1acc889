use vstd::prelude::*;
use crate::value::Value;

verus! {

/// What to do with a key that occurs a second time in one mapping.
#[derive(Clone, Copy, Debug, PartialEq, Eq, Structural)]
pub enum DuplicateKeys {
    /// The later value takes the place of the earlier one.
    Overwrite,
    /// The input is refused.
    Reject,
}

/// The limits that a decoding keeps.
#[derive(Clone, Copy, Debug, PartialEq, Eq, Structural)]
pub struct DecodeOptions {
    /// How many lists and mappings may be open at once; `None` for no limit.
    pub max_depth: Option<usize>,
    pub duplicate_keys: DuplicateKeys,
}

impl DecodeOptions {
    /// The options for what stands inside a list or mapping: one level less is left.
    pub open spec fn inner(self) -> DecodeOptions {
        DecodeOptions {
            max_depth: match self.max_depth {
                Some(d) => Some((d - 1) as usize),
                None => None,
            },
            duplicate_keys: self.duplicate_keys,
        }
    }

    /// Whether a list or mapping may be opened.
    pub open spec fn may_nest(self) -> bool {
        self.max_depth != Some(0usize)
    }

    /// Whether the nesting of `v` is within the limit.
    pub open spec fn admits(self, v: Value) -> bool {
        match self.max_depth {
            Some(d) => v.within_depth(d as nat),
            None => true,
        }
    }

    /// The options that set no limit on the nesting and let a later value take the place
    /// of an earlier one with the same key.
    pub open spec fn lenient() -> DecodeOptions {
        DecodeOptions { max_depth: None, duplicate_keys: DuplicateKeys::Overwrite }
    }

    /// The options for what stands inside a list or mapping.
    pub fn descend(&self) -> (r: DecodeOptions)
        requires
            self.may_nest(),
        ensures
            r == self.inner(),
    {
        DecodeOptions {
            max_depth: match self.max_depth {
                Some(d) => Some(d - 1),
                None => None,
            },
            duplicate_keys: self.duplicate_keys,
        }
    }

    /// Whether a list or mapping may be opened.
    pub fn nests(&self) -> (r: bool)
        ensures
            r == self.may_nest(),
    {
        match self.max_depth {
            Some(d) => d != 0,
            None => true,
        }
    }
}

impl Default for DecodeOptions {
    fn default() -> (options: DecodeOptions)
        ensures
            options == DecodeOptions::lenient(),
    {
        DecodeOptions { max_depth: None, duplicate_keys: DuplicateKeys::Overwrite }
    }
}

} // verus!
