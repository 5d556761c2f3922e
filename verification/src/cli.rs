//! The options of a run.

use vstd::prelude::*;

verus! {

/// What the user can set for a run.
#[derive(Debug)]
pub struct Options {
    /// Seconds granted to each Groebner basis computation.
    pub groebner_cocoa_timeout_seconds: u32,
    /// Number of variables that a prohibition polynomial may hold before
    /// its system is given up as timed out without being submitted.
    pub max_vars_prohibition_polynomial_before_timeout: u32,
    /// Whether diagrams of the verification graph are drawn.
    pub generate_svg_diagrams: bool,
    /// Whether only the state after the last propagation step is drawn.
    pub generate_only_last_propagation_svg: bool,
}

impl Default for Options {
    fn default() -> (r: Self)
        ensures
            r.groebner_cocoa_timeout_seconds == 5,
            r.max_vars_prohibition_polynomial_before_timeout == 75,
            !r.generate_svg_diagrams,
            !r.generate_only_last_propagation_svg,
    {
        Options {
            groebner_cocoa_timeout_seconds: 5,
            max_vars_prohibition_polynomial_before_timeout: 75,
            generate_svg_diagrams: false,
            generate_only_last_propagation_svg: false,
        }
    }
}

impl Options {
    /// The options that the command line asks for. Drawing every
    /// propagation step implies drawing diagrams at all.
    pub fn from_flags(timeout: u32, max_vars: u32, svg: bool, propagation_svg: bool) -> (r:
        Options)
        ensures
            r.groebner_cocoa_timeout_seconds == timeout,
            r.max_vars_prohibition_polynomial_before_timeout == max_vars,
            r.generate_only_last_propagation_svg == !propagation_svg,
            r.generate_svg_diagrams == (propagation_svg || svg),
    {
        let generate_only_last_propagation_svg = !propagation_svg;
        let generate_svg_diagrams = !generate_only_last_propagation_svg || svg;
        Options {
            groebner_cocoa_timeout_seconds: timeout,
            max_vars_prohibition_polynomial_before_timeout: max_vars,
            generate_svg_diagrams,
            generate_only_last_propagation_svg,
        }
    }
}

} // verus!
