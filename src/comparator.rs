use vstd::prelude::*;

verus! {

/// A named notion of "identical content": it decides which paths it can
/// judge. Its name is part of the bucket key and is unique among the
/// comparators of a scan.
pub trait GroupComparator {
    /// The comparator's name.
    spec fn spec_name(&self) -> Seq<char>;

    /// Whether the comparator takes part in judging `path`.
    spec fn spec_can_analyse(&self, path: Seq<char>) -> bool;

    fn name(&self) -> (r: &'static str)
        ensures
            r@ == self.spec_name(),
    ;

    fn can_analyse(&self, path: &str) -> (r: bool)
        ensures
            r == self.spec_can_analyse(path@),
    ;
}

/// Compares raw bytes; every file is eligible.
#[derive(Debug, Clone, Copy, PartialEq, Eq)]
pub struct ExactGroupComparator {}

impl ExactGroupComparator {
    pub fn new() -> (r: Self) {
        ExactGroupComparator {  }
    }
}

impl Default for ExactGroupComparator {
    fn default() -> (r: Self) {
        Self::new()
    }
}

impl GroupComparator for ExactGroupComparator {
    open spec fn spec_name(&self) -> Seq<char> {
        "exact"@
    }

    open spec fn spec_can_analyse(&self, path: Seq<char>) -> bool {
        true
    }

    fn name(&self) -> (r: &'static str) {
        "exact"
    }

    fn can_analyse(&self, path: &str) -> (r: bool) {
        true
    }
}

/// Compares canonicalised structured content. It is the extension point
/// for comparator-defined identity and, as it stands, declines every file.
#[derive(Debug, Clone, Copy, PartialEq, Eq)]
pub struct JsonGroupComparator {}

impl JsonGroupComparator {
    pub fn new() -> (r: Self) {
        JsonGroupComparator {  }
    }
}

impl Default for JsonGroupComparator {
    fn default() -> (r: Self) {
        Self::new()
    }
}

impl GroupComparator for JsonGroupComparator {
    open spec fn spec_name(&self) -> Seq<char> {
        "json"@
    }

    open spec fn spec_can_analyse(&self, path: Seq<char>) -> bool {
        false
    }

    fn name(&self) -> (r: &'static str) {
        "json"
    }

    fn can_analyse(&self, path: &str) -> (r: bool) {
        false
    }
}

/// The registered comparators, as one closed set of variants.
#[derive(Debug, Clone, Copy, PartialEq, Eq)]
pub enum Comparator {
    Exact(ExactGroupComparator),
    Json(JsonGroupComparator),
}

impl Comparator {
    /// The position of the comparator's name in the lexicographic order of
    /// the names ("exact" before "json").
    pub open spec fn rank(self) -> nat {
        match self {
            Comparator::Exact(_) => 0,
            Comparator::Json(_) => 1,
        }
    }

    pub fn rank_of(&self) -> (r: u8)
        ensures
            r as nat == self.rank(),
    {
        match self {
            Comparator::Exact(_) => 0,
            Comparator::Json(_) => 1,
        }
    }
}

impl GroupComparator for Comparator {
    open spec fn spec_name(&self) -> Seq<char> {
        match self {
            Comparator::Exact(c) => c.spec_name(),
            Comparator::Json(c) => c.spec_name(),
        }
    }

    open spec fn spec_can_analyse(&self, path: Seq<char>) -> bool {
        match self {
            Comparator::Exact(c) => c.spec_can_analyse(path),
            Comparator::Json(c) => c.spec_can_analyse(path),
        }
    }

    fn name(&self) -> (r: &'static str) {
        match self {
            Comparator::Exact(c) => c.name(),
            Comparator::Json(c) => c.name(),
        }
    }

    fn can_analyse(&self, path: &str) -> (r: bool) {
        match self {
            Comparator::Exact(c) => c.can_analyse(path),
            Comparator::Json(c) => c.can_analyse(path),
        }
    }
}

} // verus!
