use vstd::prelude::*;

verus! {

/// The configuration bundle that the outside driver hands in. The renderer
/// reads only `complexity_threshold` and `short_quantifiers`; the other
/// fields steer the driver itself.
pub struct CmdArgs {
    /// Suppress the interactive prompt.
    pub silent: bool,
    /// Read several lines of input instead of one.
    pub multiline: bool,
    /// Dump the parsed tree before rendering.
    pub debug: bool,
    /// Largest complexity still rendered on a single line.
    pub complexity_threshold: u32,
    /// Glue the first argument of `forall` and `exists` to the head's line.
    pub short_quantifiers: bool,
}

impl CmdArgs {
    pub fn noisy(&self) -> (r: bool)
        ensures
            r == !self.silent,
    {
        !self.silent
    }

    pub fn multiline(&self) -> (r: bool)
        ensures
            r == self.multiline,
    {
        self.multiline
    }

    pub fn debug(&self) -> (r: bool)
        ensures
            r == self.debug,
    {
        self.debug
    }

    pub fn complexity_threshold(&self) -> (r: u32)
        ensures
            r == self.complexity_threshold,
    {
        self.complexity_threshold
    }

    pub fn short_quantifiers(&self) -> (r: bool)
        ensures
            r == self.short_quantifiers,
    {
        self.short_quantifiers
    }
}

} // verus!
