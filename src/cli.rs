use vstd::prelude::*;

verus! {

/// Which search the program runs.
#[derive(Debug, Clone, Copy, PartialEq, Eq, Structural)]
pub enum GraspVariant {
    /// Independent GRASP trials under a time budget.
    Basic,
    /// GRASP trials feeding an elite pool, then path-relinking between its members.
    StaticPR,
    /// 2-opt against swap descent, on the same kind of constructed tours.
    Benchmark,
}

impl GraspVariant {
    /// The name under which the variant is shown.
    pub fn name(&self) -> (r: &'static str)
        ensures
            *self == GraspVariant::Basic ==> r@ == "Basic"@,
            *self == GraspVariant::StaticPR ==> r@ == "StaticPR"@,
            *self == GraspVariant::Benchmark ==> r@ == "Benchmark"@,
    {
        match self {
            GraspVariant::Basic => "Basic",
            GraspVariant::StaticPR => "StaticPR",
            GraspVariant::Benchmark => "Benchmark",
        }
    }
}

/// The program's options.
pub struct Cli {
    /// Path to the instance file.
    pub instance_file: String,
    /// Time budget of the search, in seconds.
    pub time_limit: u64,
    /// The search to run.
    pub variant: GraspVariant,
    /// Capacity of the elite pool (used by `StaticPR` only).
    pub elite_size: usize,
    /// Run on the default instance with the default settings.
    pub default: bool,
}

impl Cli {
    /// When `default` is set, replaces the instance, the time budget and the variant by
    /// the defaults: `instances/bier127.tsp`, 120 seconds, `Basic`. Otherwise nothing
    /// changes.
    pub fn apply_default(&mut self)
        ensures
            final(self).default == old(self).default,
            final(self).elite_size == old(self).elite_size,
            old(self).default ==> final(self).instance_file@ == "instances/bier127.tsp"@
                && final(self).time_limit == 120 && final(self).variant == GraspVariant::Basic,
            !old(self).default ==> final(self).instance_file@ == old(self).instance_file@
                && final(self).time_limit == old(self).time_limit && final(self).variant == old(
                self,
            ).variant,
    {
        if self.default {
            self.instance_file = "instances/bier127.tsp".to_owned();
            self.time_limit = 120;
            self.variant = GraspVariant::Basic;
        }
    }
}

} // verus!
