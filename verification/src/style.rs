//! The closed set of proof output styles and their two derived predicates.

use vstd::prelude::*;

verus! {

/// List of possible proof output types.
#[derive(Copy, Clone, Debug, PartialEq, Eq)]
pub enum ProofStyle {
    /// Compressed proof output (default). Label list followed by step letters.
    Compressed,
    /// Normal proof output. Uncompressed step names only.
    Normal,
    /// Packed proof output. Same as normal with backreferences.
    Packed,
    /// Explicit proof output. Normal with hypothesis names.
    Explicit,
    /// Packed and explicit proof output. Normal with hypothesis names and
    /// backreferences.
    PackedExplicit,
}

impl ProofStyle {
    /// True when this style is explicit, i.e. it shows the hypothesis label
    /// on each emitted proof step.
    pub open spec fn is_explicit(self) -> bool {
        self == ProofStyle::Explicit || self == ProofStyle::PackedExplicit
    }

    /// True when this style is packed, i.e. duplicate subtrees are referred
    /// to by backreferences instead of being inlined. (Compressed proofs are
    /// packed by this definition.)
    pub open spec fn is_packed(self) -> bool {
        self == ProofStyle::Compressed || self == ProofStyle::Packed || self
            == ProofStyle::PackedExplicit
    }

    /// Returns `true` if this is in explicit style (showing proof hypotheses labels
    /// on each step)
    pub fn explicit(self) -> (r: bool)
        ensures
            r == self.is_explicit(),
    {
        matches!(self, ProofStyle::Explicit | ProofStyle::PackedExplicit)
    }

    /// Returns `true` if this is in packed style, meaning duplicate subtrees are
    /// referred to by backreferences instead of inlined. (Compressed proofs are
    /// considered packed by this definition.)
    pub fn packed(self) -> (r: bool)
        ensures
            r == self.is_packed(),
    {
        matches!(self, ProofStyle::Compressed | ProofStyle::Packed | ProofStyle::PackedExplicit)
    }
}

} // verus!
