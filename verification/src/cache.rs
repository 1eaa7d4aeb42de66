//! Compiled-code records kept by the engine, and their mathematical views.
use vstd::prelude::*;
use crate::collections::StrMap;
use crate::value::{Val, VVal};

verus! {

/// The tier at which a compiled function runs.
#[derive(Clone, Copy, Debug, PartialEq, Eq, Structural)]
pub enum Tier {
    OPTIMIZED,
    BASELINE,
}

impl View for Tier {
    type V = Tier;

    open spec fn view(&self) -> Tier {
        *self
    }
}

/// The unspecialized compiled form of a function. `last_used` is a reading
/// of the engine's monotonic clock.
#[derive(Clone, Copy, Debug, PartialEq, Eq, Structural)]
pub struct BaselineVariant {
    pub last_used: u64,
    pub access_count: usize,
}

impl View for BaselineVariant {
    type V = BaselineVariant;

    open spec fn view(&self) -> BaselineVariant {
        *self
    }
}

/// A function compiled for its heavy loop (on-stack replacement).
pub struct CompiledOSR {
    pub id: String,
    pub last_used: u64,
    pub access_count: usize,
}

/// The view of a [`CompiledOSR`].
pub struct OsrView {
    pub id: Seq<char>,
    pub last_used: u64,
    pub access_count: usize,
}

impl View for CompiledOSR {
    type V = OsrView;

    open spec fn view(&self) -> OsrView {
        OsrView { id: self.id@, last_used: self.last_used, access_count: self.access_count }
    }
}

/// Code specialized to one call signature, with results memoized by the
/// serialized arguments.
pub struct OptimizedVariant {
    pub expected_signature: String,
    pub memo_cache: StrMap<Val>,
}

/// The view of an [`OptimizedVariant`].
#[verifier::ext_equal]
pub struct VariantView {
    pub expected_signature: Seq<char>,
    pub memo: Map<Seq<char>, VVal>,
}

impl View for OptimizedVariant {
    type V = VariantView;

    open spec fn view(&self) -> VariantView {
        VariantView { expected_signature: self.expected_signature@, memo: self.memo_cache@ }
    }
}

/// A compiled function: its tier, its specialized variants by signature and
/// its baseline form.
pub struct CompiledCodePolymorphic {
    pub id: String,
    pub tier: Tier,
    pub variants: StrMap<OptimizedVariant>,
    pub baseline: Option<BaselineVariant>,
    pub last_used: u64,
    pub access_count: usize,
}

/// The view of a [`CompiledCodePolymorphic`].
#[verifier::ext_equal]
pub struct CompiledView {
    pub id: Seq<char>,
    pub tier: Tier,
    pub variants: Map<Seq<char>, VariantView>,
    pub baseline: Option<BaselineVariant>,
    pub last_used: u64,
    pub access_count: usize,
}

impl View for CompiledCodePolymorphic {
    type V = CompiledView;

    open spec fn view(&self) -> CompiledView {
        CompiledView {
            id: self.id@,
            tier: self.tier,
            variants: self.variants@,
            baseline: self.baseline,
            last_used: self.last_used,
            access_count: self.access_count,
        }
    }
}

} // verus!
