use vstd::prelude::*;

verus! {

/// What the optimize mode does after saturation.
#[derive(Clone, Copy, PartialEq, Eq, Structural, Debug)]
pub enum OptimizeMode {
    /// Write the saturation statistics and stop.
    SaturationOnly,
    /// Diagnose whether the chain form of the start graph is reachable.
    QueryChain,
    /// Sample extractions under random costs.
    Random,
    /// Sample extractions that avoid nodes earlier samples used.
    Diverse,
    /// Sample one extraction per multi-pattern rule family.
    ArchDiverse,
    /// One verifiability-aware extraction.
    Verif,
    /// One extraction by the chosen method (greedy or ILP).
    Extract,
}

/// Which of the optimize mode's options were given.
pub struct ModeFlags {
    pub saturation_only: bool,
    pub query_chain: bool,
    pub n_random: bool,
    pub n_diverse: bool,
    pub n_arch_diverse: bool,
    pub verif_cost: bool,
}

/// The mode that the given options select. Where several are given, the
/// first in this order wins: saturation only, the chain query, random,
/// diverse and architecture-diverse sampling, verifiability-aware
/// extraction; with none of them, a plain extraction.
pub fn optimize_mode(f: &ModeFlags) -> (r: OptimizeMode)
    ensures
        (r == OptimizeMode::SaturationOnly) == f.saturation_only,
        (r == OptimizeMode::QueryChain) == (!f.saturation_only && f.query_chain),
        (r == OptimizeMode::Random) == (!f.saturation_only && !f.query_chain && f.n_random),
        (r == OptimizeMode::Diverse) == (!f.saturation_only && !f.query_chain && !f.n_random
            && f.n_diverse),
        (r == OptimizeMode::ArchDiverse) == (!f.saturation_only && !f.query_chain && !f.n_random
            && !f.n_diverse && f.n_arch_diverse),
        (r == OptimizeMode::Verif) == (!f.saturation_only && !f.query_chain && !f.n_random
            && !f.n_diverse && !f.n_arch_diverse && f.verif_cost),
        (r == OptimizeMode::Extract) == (!f.saturation_only && !f.query_chain && !f.n_random
            && !f.n_diverse && !f.n_arch_diverse && !f.verif_cost),
{
    if f.saturation_only {
        OptimizeMode::SaturationOnly
    } else if f.query_chain {
        OptimizeMode::QueryChain
    } else if f.n_random {
        OptimizeMode::Random
    } else if f.n_diverse {
        OptimizeMode::Diverse
    } else if f.n_arch_diverse {
        OptimizeMode::ArchDiverse
    } else if f.verif_cost {
        OptimizeMode::Verif
    } else {
        OptimizeMode::Extract
    }
}

} // verus!
