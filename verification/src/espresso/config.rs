//! [`EspressoConfig`]: the options of one minimiser run.
use vstd::prelude::*;

verus! {

/// Options controlling the phases of a minimisation run.
#[derive(Debug, Clone, Copy, PartialEq, Eq, Hash, Structural)]
pub struct EspressoConfig {
    /// Print debugging output.
    pub debug: bool,
    /// Print more detailed debugging output.
    pub verbose_debug: bool,
    /// Print progress through the phases.
    pub trace: bool,
    /// Print summary statistics.
    pub summary: bool,
    /// Remove essential prime implicants first.
    pub remove_essential: bool,
    /// Force the result to be irredundant.
    pub force_irredundant: bool,
    /// Unwrap the on-set first.
    pub unwrap_onset: bool,
    /// Expand only once (faster, possibly larger results).
    pub single_expand: bool,
    /// Use the stronger last-gasp heuristic.
    pub use_super_gasp: bool,
    /// Process cubes in random order.
    pub use_random_order: bool,
}

/// The default options: quiet, with essential-prime removal, irredundant forcing and on-set
/// unwrapping on and everything else off.
pub open spec fn default_config() -> EspressoConfig {
    EspressoConfig {
        debug: false,
        verbose_debug: false,
        trace: false,
        summary: false,
        remove_essential: true,
        force_irredundant: true,
        unwrap_onset: true,
        single_expand: false,
        use_super_gasp: false,
        use_random_order: false,
    }
}

impl Default for EspressoConfig {
    fn default() -> (r: EspressoConfig)
        ensures
            r == default_config(),
    {
        EspressoConfig {
            debug: false,
            verbose_debug: false,
            trace: false,
            summary: false,
            remove_essential: true,
            force_irredundant: true,
            unwrap_onset: true,
            single_expand: false,
            use_super_gasp: false,
            use_random_order: false,
        }
    }
}

impl EspressoConfig {
    /// The default options.
    pub fn new() -> (r: EspressoConfig)
        ensures
            r == default_config(),
    {
        EspressoConfig::default()
    }
}

} // verus!
