//! Run configuration: defaults, overrides, and the checks that reject settings
//! the engine cannot run with.
use vstd::prelude::*;

verus! {

/// How the input file is read.
#[derive(PartialEq, Eq, Structural, Debug, Clone, Copy)]
pub enum InMode {
    /// Lines `name1|name2|distance`.
    DistMode,
    /// Lines `name|x|y`.
    CoordMode,
}

/// Everything a run needs to know.
#[derive(Debug)]
pub struct Config {
    pub eras: usize,
    pub generations: usize,
    /// Size of each worker's population, and of the merged one.
    pub population: usize,
    pub worker_threads: usize,
    pub in_path: String,
    /// Where to write the derived distance table; empty for nowhere.
    pub dist_path: String,
    pub in_mode: InMode,
    /// Each offspring escapes mutation with probability `1 / mutation_skip_one_in`
    /// (always, when this is 0 or 1).
    pub mutation_skip_one_in: u32,
}

/// Settings given from outside (a settings file or the command line); `None`
/// keeps what the base configuration has.
pub struct Overrides {
    pub input_path: Option<String>,
    pub dist_path: Option<String>,
    pub coord_mode: bool,
    pub worker_threads: Option<usize>,
    pub eras: Option<usize>,
    pub generations: Option<usize>,
    pub population: Option<usize>,
}

/// Why a configuration cannot be run.
#[derive(PartialEq, Eq, Structural, Debug, Clone, Copy)]
pub enum ConfigError {
    /// No input file was named.
    MissingInputPath,
    /// The population is too small for a breeding group of two.
    PopulationTooSmall,
    /// No worker would run.
    NoWorkers,
}

/// The smallest population whose better half holds two parents.
pub const MIN_POPULATION: usize = 4;

/// Relies on `num_cpus::get`, which returns at least 1.
#[verifier::external_body]
fn cpu_count() -> (r: usize)
    ensures
        r >= 1,
{
    num_cpus::get()
}

/// One worker fewer than there are processors, but at least one.
pub open spec fn default_workers(cpus: int) -> int {
    if cpus > 1 {
        cpus - 1
    } else {
        1
    }
}

/// The settings a run starts from, before any override: 100 eras of 100
/// generations over populations of 50, no input path yet, distance-file
/// input, mutation on two offspring of three, and `default_workers(cpus)`
/// workers.
pub open spec fn is_default_for(r: Config, cpus: int) -> bool {
    &&& r.eras == 100
    &&& r.generations == 100
    &&& r.population == 50
    &&& r.worker_threads as int == default_workers(cpus)
    &&& r.in_path@.len() == 0
    &&& r.dist_path@.len() == 0
    &&& r.in_mode == InMode::DistMode
    &&& r.mutation_skip_one_in == 3
}

/// The default configuration on a machine with `cpus` processors.
pub fn config_for_cpus(cpus: usize) -> (r: Config)
    requires
        cpus >= 1,
    ensures
        is_default_for(r, cpus as int),
{
    Config {
        eras: 100,
        generations: 100,
        population: 50,
        worker_threads: if cpus > 1 { cpus - 1 } else { 1 },
        in_path: String::new(),
        dist_path: String::new(),
        in_mode: InMode::DistMode,
        mutation_skip_one_in: 3,
    }
}

/// The default configuration on this machine: `config_for_cpus` of its
/// processor count, which is at least 1.
pub fn default_config() -> (r: Config)
    ensures
        exists|cpus: int| cpus >= 1 && #[trigger] is_default_for(r, cpus),
        r.worker_threads >= 1,
{
    let cpus = cpu_count();
    config_for_cpus(cpus)
}

/// Each setting of `o` that is given, or else that of `c`.
pub open spec fn overridden(c: Config, o: Overrides, r: Config) -> bool {
    &&& r.eras == (match o.eras { Some(v) => v, None => c.eras })
    &&& r.generations == (match o.generations { Some(v) => v, None => c.generations })
    &&& r.population == (match o.population { Some(v) => v, None => c.population })
    &&& r.worker_threads == (match o.worker_threads { Some(v) => v, None => c.worker_threads })
    &&& r.in_path@ == (match o.input_path { Some(v) => v@, None => c.in_path@ })
    &&& r.dist_path@ == (match o.dist_path { Some(v) => v@, None => c.dist_path@ })
    &&& r.in_mode == (if o.coord_mode { InMode::CoordMode } else { c.in_mode })
    &&& r.mutation_skip_one_in == c.mutation_skip_one_in
}

/// `base` with the settings that `args` gives put in place.
pub fn apply_overrides(base: Config, args: Overrides) -> (r: Config)
    ensures
        overridden(base, args, r),
{
    let Config { eras, generations, population, worker_threads, in_path, dist_path, in_mode, mutation_skip_one_in } = base;
    let Overrides { input_path: o_in, dist_path: o_dist, coord_mode, worker_threads: o_workers, eras: o_eras, generations: o_gens, population: o_pop } = args;
    Config {
        eras: match o_eras { Some(v) => v, None => eras },
        generations: match o_gens { Some(v) => v, None => generations },
        population: match o_pop { Some(v) => v, None => population },
        worker_threads: match o_workers { Some(v) => v, None => worker_threads },
        in_path: match o_in { Some(v) => v, None => in_path },
        dist_path: match o_dist { Some(v) => v, None => dist_path },
        in_mode: if coord_mode { InMode::CoordMode } else { in_mode },
        mutation_skip_one_in,
    }
}

/// The configuration `base` with `args` applied, if the engine can run it.
pub fn configure(base: Config, args: Overrides) -> (r: Result<Config, ConfigError>)
    ensures
        ({
            let in_len = match args.input_path { Some(v) => v@.len(), None => base.in_path@.len() };
            let pop = match args.population { Some(v) => v, None => base.population };
            let workers = match args.worker_threads { Some(v) => v, None => base.worker_threads };
            &&& (in_len == 0 <==> r == Err::<Config, ConfigError>(ConfigError::MissingInputPath))
            &&& (in_len > 0 && pop < MIN_POPULATION <==> r == Err::<Config, ConfigError>(ConfigError::PopulationTooSmall))
            &&& (in_len > 0 && pop >= MIN_POPULATION && workers == 0 <==> r == Err::<Config, ConfigError>(ConfigError::NoWorkers))
            &&& (r is Ok <==> in_len > 0 && pop >= MIN_POPULATION && workers > 0)
            &&& (r matches Ok(c) ==> overridden(base, args, c))
            &&& (r matches Ok(c) ==> c.population / 2 >= 2 && c.worker_threads >= 1)
        }),
{
    let c = apply_overrides(base, args);
    if c.in_path.as_str().is_empty() {
        Err(ConfigError::MissingInputPath)
    } else if c.population < MIN_POPULATION {
        Err(ConfigError::PopulationTooSmall)
    } else if c.worker_threads == 0 {
        Err(ConfigError::NoWorkers)
    } else {
        Ok(c)
    }
}

} // verus!
