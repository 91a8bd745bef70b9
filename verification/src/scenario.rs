//! Scenarios: what to tune and how.

use crate::config::{collected, Assignment, Config};
use crate::ils::{Approach, IlsOptions, RestartTarget};
use crate::measure::Measure;
use crate::params::{Param, ParamSpace};
use crate::text::{
    all_white, chars_of, lemma_lines_follow_one_another, lemma_trimming_takes_the_padding, lines_of, rows, same_text,
    split_lines, string_of, texts, tidy, trim, trimmed, written_lines,
};
use crate::DebugOptions;
use vstd::prelude::*;

verus! {

/// What one run of the target algorithm is judged by.
#[derive(Clone, Copy, Debug, PartialEq, Eq, Structural)]
pub enum RunObjective {
    Runtime,
    Quality,
}

/// How the values of several runs make one score.
#[derive(Clone, Copy, Debug, PartialEq, Eq, Structural)]
pub enum OverallObjective {
    Mean,
    Median,
}

/// The encoding of one.
pub const ONE_BITS: u64 = 0x3ff0_0000_0000_0000;

/// The encoding of one half.
pub const HALF_BITS: u64 = 0x3fe0_0000_0000_0000;

/// The encoding of ten.
pub const TEN_BITS: u64 = 0x4024_0000_0000_0000;

/// Full scenario description: the single source of truth for all tuning knobs.
#[derive(Clone, Debug)]
pub struct Scenario {
    /// Command used to run the target algorithm.
    pub algo: String,
    /// Path to the file that describes the parameter space.
    pub paramfile: String,
    /// Complete initial configuration.
    pub initial_config: Option<Config>,
    /// File with the complete initial configuration.
    pub initial_config_file: Option<String>,
    /// File that lists the training instances, one per line.
    pub instance_file: Option<String>,
    /// The training instances themselves.
    pub instances: Option<Vec<String>>,
    /// File that lists test instances.
    pub test_instance_file: Option<String>,
    /// Time limit of one run in seconds.
    pub cutoff_time: Measure,
    /// Wall-clock budget of the whole in seconds.
    pub tuner_timeout: Measure,
    pub run_obj: RunObjective,
    pub overall_obj: OverallObjective,
    /// `focused`, `basic` or `random`.
    pub approach: String,
    pub perturbation_strength: usize,
    pub restart_probability: Measure,
    pub restart_failures: usize,
    /// `incumbent` or `random`.
    pub restart_target: String,
    /// Steps of a restart from the incumbent; 0 means twice the perturbation strength.
    pub restart_strength: usize,
    pub random_probes: usize,
    pub acceptance_tolerance: Measure,
    pub initial_fidelity: usize,
    pub fidelity_step: usize,
    pub bound_multiplier: Measure,
    pub pruning: bool,
    pub iterative_deepening: bool,
    pub lambda_n: Measure,
    pub lambda_c: Measure,
    pub lambda_t: Measure,
    /// Worker threads; 0 means one for each core.
    pub cores: usize,
    pub num_run: u64,
    pub cache_db: String,
    /// Do without cache lookups; results are still stored.
    pub cache_disable: bool,
    pub instance_shuffle: bool,
    pub instance_shuffle_seed: u64,
    pub future_telling: bool,
    pub future_telling_checkpoint: Measure,
    /// Virtual workers; as many as worker threads if not given.
    pub future_telling_cores: Option<usize>,
    pub future_telling_tolerance: Measure,
    pub debug: bool,
    pub debug_wrapper: bool,
    pub debug_solver: bool,
    pub debug_log: Option<String>,
    pub error_log: Option<String>,
}

/// A scenario as it is given: everything but the first four has a default.
#[derive(Debug)]
pub struct ScenarioFields {
    pub algo: String,
    pub paramfile: String,
    pub cutoff_time: Measure,
    pub tuner_timeout: Measure,
    pub initial_config: Option<Config>,
    pub initial_config_file: Option<String>,
    pub instance_file: Option<String>,
    pub instances: Option<Vec<String>>,
    pub test_instance_file: Option<String>,
    pub run_obj: Option<RunObjective>,
    pub overall_obj: Option<OverallObjective>,
    pub approach: Option<String>,
    pub perturbation_strength: Option<usize>,
    pub restart_probability: Option<Measure>,
    pub restart_failures: Option<usize>,
    pub restart_target: Option<String>,
    pub restart_strength: Option<usize>,
    pub random_probes: Option<usize>,
    pub acceptance_tolerance: Option<Measure>,
    pub initial_fidelity: Option<usize>,
    pub fidelity_step: Option<usize>,
    pub bound_multiplier: Option<Measure>,
    pub pruning: Option<bool>,
    pub iterative_deepening: Option<bool>,
    pub lambda_n: Option<Measure>,
    pub lambda_c: Option<Measure>,
    pub lambda_t: Option<Measure>,
    pub cores: Option<usize>,
    pub num_run: Option<u64>,
    pub cache_db: Option<String>,
    pub cache_disable: Option<bool>,
    pub instance_shuffle: Option<bool>,
    pub instance_shuffle_seed: Option<u64>,
    pub future_telling: Option<bool>,
    pub future_telling_checkpoint: Option<Measure>,
    pub future_telling_cores: Option<usize>,
    pub future_telling_tolerance: Option<Measure>,
    pub debug: Option<bool>,
    pub debug_wrapper: Option<bool>,
    pub debug_solver: Option<bool>,
    pub debug_log: Option<String>,
    pub error_log: Option<String>,
}

/// A given value, or the default.
pub open spec fn given_or<T>(given: Option<T>, default: T) -> T {
    match given {
        Some(v) => v,
        None => default,
    }
}

/// A given text, or the default.
pub open spec fn text_or(given: Option<String>, default: Seq<char>) -> Seq<char> {
    match given {
        Some(v) => v@,
        None => default,
    }
}

/// Whether a scenario holds what was given, and the defaults of the rest.
pub open spec fn completes(f: ScenarioFields, s: Scenario) -> bool {
    &&& s.algo == f.algo
    &&& s.paramfile == f.paramfile
    &&& s.cutoff_time == f.cutoff_time
    &&& s.tuner_timeout == f.tuner_timeout
    &&& s.initial_config == f.initial_config
    &&& s.initial_config_file == f.initial_config_file
    &&& s.instance_file == f.instance_file
    &&& s.instances == f.instances
    &&& s.test_instance_file == f.test_instance_file
    &&& s.run_obj == given_or(f.run_obj, RunObjective::Runtime)
    &&& s.overall_obj == given_or(f.overall_obj, OverallObjective::Mean)
    &&& s.approach@ == text_or(f.approach, "focused"@)
    &&& s.perturbation_strength == given_or(f.perturbation_strength, 4)
    &&& s.restart_probability == given_or(f.restart_probability, Measure { bits: 0 })
    &&& s.restart_failures == given_or(f.restart_failures, 0)
    &&& s.restart_target@ == text_or(f.restart_target, "incumbent"@)
    &&& s.restart_strength == given_or(f.restart_strength, 0)
    &&& s.random_probes == given_or(f.random_probes, 0)
    &&& s.acceptance_tolerance == given_or(f.acceptance_tolerance, Measure { bits: 0 })
    &&& s.initial_fidelity == given_or(f.initial_fidelity, 1)
    &&& s.fidelity_step == given_or(f.fidelity_step, 1)
    &&& s.bound_multiplier == given_or(f.bound_multiplier, Measure { bits: TEN_BITS })
    &&& s.pruning == given_or(f.pruning, true)
    &&& s.iterative_deepening == given_or(f.iterative_deepening, false)
    &&& s.lambda_n == given_or(f.lambda_n, Measure { bits: HALF_BITS })
    &&& s.lambda_c == given_or(f.lambda_c, Measure { bits: HALF_BITS })
    &&& s.lambda_t == given_or(f.lambda_t, Measure { bits: HALF_BITS })
    &&& s.cores == given_or(f.cores, 0)
    &&& s.num_run == given_or(f.num_run, 0)
    &&& s.cache_db@ == text_or(f.cache_db, ":memory:"@)
    &&& s.cache_disable == given_or(f.cache_disable, false)
    &&& s.instance_shuffle == given_or(f.instance_shuffle, false)
    &&& s.instance_shuffle_seed == given_or(f.instance_shuffle_seed, 0)
    &&& s.future_telling == given_or(f.future_telling, false)
    &&& s.future_telling_checkpoint == given_or(f.future_telling_checkpoint, Measure { bits: ONE_BITS })
    &&& s.future_telling_cores == f.future_telling_cores
    &&& s.future_telling_tolerance == given_or(f.future_telling_tolerance, Measure { bits: 0 })
    &&& s.debug == given_or(f.debug, false)
    &&& s.debug_wrapper == given_or(f.debug_wrapper, false)
    &&& s.debug_solver == given_or(f.debug_solver, false)
    &&& s.debug_log == f.debug_log
    &&& s.error_log == f.error_log
}

fn or_text(given: Option<String>, default: &str) -> (r: String)
    ensures
        r@ == text_or(given, default@),
{
    match given {
        Some(v) => v,
        None => default.to_owned(),
    }
}

fn or_measure(given: Option<Measure>, bits: u64) -> (r: Measure)
    ensures
        r == given_or(given, Measure { bits }),
{
    match given {
        Some(v) => v,
        None => Measure { bits },
    }
}

/// Why a scenario cannot be run.
#[derive(Debug)]
pub enum ScenarioError {
    /// The approach, in lower case, is none.
    UnknownApproach(String),
    /// The restart target, in lower case, is none.
    UnknownRestartTarget(String),
    /// The restart probability is not between 0 and 1.
    RestartProbability,
    /// The acceptance tolerance is negative.
    AcceptanceTolerance,
    /// An initial configuration and a file with one are both given.
    BothInitialConfigs,
    /// The initial configuration has no value for the named parameter.
    MissingParameter(String),
    /// Neither a list of instances nor a file that lists them is given.
    NoInstanceSource,
    /// There are no instances.
    EmptyInstanceList,
}

/// What `str::to_lowercase` gives for a text.
pub uninterp spec fn lowercased(s: Seq<char>) -> Seq<char>;

/// `str::to_lowercase`. Its result is a function of the text.
#[verifier::external_body]
fn lowercase(s: &str) -> (r: String)
    ensures
        r@ == lowercased(s@),
{
    s.to_lowercase()
}

/// The approach of that name.
pub open spec fn approach_of(lowered: Seq<char>) -> Option<Approach> {
    if lowered == "basic"@ {
        Some(Approach::Basic)
    } else if lowered == "random"@ {
        Some(Approach::Random)
    } else if lowered == "focused"@ {
        Some(Approach::Focused)
    } else {
        None
    }
}

/// The restart target of that name.
pub open spec fn restart_target_of(lowered: Seq<char>) -> Option<RestartTarget> {
    if lowered == "incumbent"@ {
        Some(RestartTarget::Incumbent)
    } else if lowered == "random"@ {
        Some(RestartTarget::Random)
    } else {
        None
    }
}

/// The approach of that name in lower case.
pub fn parse_approach(lowered: &str) -> (r: Option<Approach>)
    ensures
        r == approach_of(lowered@),
{
    if same_text(lowered, "basic") {
        Some(Approach::Basic)
    } else if same_text(lowered, "random") {
        Some(Approach::Random)
    } else if same_text(lowered, "focused") {
        Some(Approach::Focused)
    } else {
        None
    }
}

/// The restart target of that name in lower case.
pub fn parse_restart_target(lowered: &str) -> (r: Option<RestartTarget>)
    ensures
        r == restart_target_of(lowered@),
{
    if same_text(lowered, "incumbent") {
        Some(RestartTarget::Incumbent)
    } else if same_text(lowered, "random") {
        Some(RestartTarget::Random)
    } else {
        None
    }
}

/// The objective of one run of that name: the quality where that is the name,
/// the runtime otherwise.
pub open spec fn run_obj_of(lowered: Seq<char>) -> RunObjective {
    if lowered == "quality"@ {
        RunObjective::Quality
    } else {
        RunObjective::Runtime
    }
}

/// The objective over several runs of that name: the median where that is the
/// name, the mean otherwise.
pub open spec fn overall_obj_of(lowered: Seq<char>) -> OverallObjective {
    if lowered == "median"@ {
        OverallObjective::Median
    } else {
        OverallObjective::Mean
    }
}

/// The objective of one run of that name in lower case.
pub fn parse_run_obj(lowered: &str) -> (r: RunObjective)
    ensures
        r == run_obj_of(lowered@),
{
    if same_text(lowered, "quality") {
        RunObjective::Quality
    } else {
        RunObjective::Runtime
    }
}

/// The objective over several runs of that name in lower case.
pub fn parse_overall_obj(lowered: &str) -> (r: OverallObjective)
    ensures
        r == overall_obj_of(lowered@),
{
    if same_text(lowered, "median") {
        OverallObjective::Median
    } else {
        OverallObjective::Mean
    }
}

/// The objective of one run of that name, in whatever case.
pub fn run_obj_named(name: &str) -> (r: RunObjective)
    ensures
        r == run_obj_of(lowercased(name@)),
{
    parse_run_obj(lowercase(name).as_str())
}

/// The objective over several runs of that name, in whatever case.
pub fn overall_obj_named(name: &str) -> (r: OverallObjective)
    ensures
        r == overall_obj_of(lowercased(name@)),
{
    parse_overall_obj(lowercase(name).as_str())
}

/// Where the training instances come from.
#[derive(Debug)]
pub enum InstanceSource<'a> {
    /// They are listed in the scenario.
    Inline(&'a Vec<String>),
    /// They are listed in this file.
    File(&'a String),
    /// They are not given.
    Nowhere,
}

/// Where the initial configuration comes from.
#[derive(Debug)]
pub enum InitialSource<'a> {
    /// It stands in the scenario.
    Inline(&'a Config),
    /// It stands in this file.
    File(&'a String),
    /// It consists of the defaults of the parameters.
    Defaults,
}

/// Whether a line of an instance list names an instance.
pub open spec fn names_instance(line: Seq<char>) -> bool {
    line.len() > 0 && line[0] != '#'
}

/// The instances that a text lists: one path per line; blank lines and lines
/// that begin with `#` do not count.
pub open spec fn listed_instances(text: Seq<char>) -> Seq<Seq<char>> {
    lines_of(text).map_values(|l: Seq<char>| trimmed(l)).filter(|l: Seq<char>| names_instance(l))
}

/// A list of instances, unless it is empty.
pub fn nonempty_instances(paths: Vec<String>) -> (r: Result<Vec<String>, ScenarioError>)
    ensures
        if paths@.len() == 0 {
            r matches Err(ScenarioError::EmptyInstanceList)
        } else {
            r == Ok::<Vec<String>, ScenarioError>(paths)
        },
{
    if paths.len() == 0 {
        Err(ScenarioError::EmptyInstanceList)
    } else {
        Ok(paths)
    }
}

/// The name of the first parameter among the first `n` that `m` has no value for.
pub open spec fn first_missing(params: Seq<Param>, m: Assignment, n: nat) -> Option<Seq<char>>
    decreases n,
{
    if n == 0 {
        None
    } else {
        match first_missing(params, m, (n - 1) as nat) {
            Some(name) => Some(name),
            None => if m.contains_key(params[n - 1].name@) {
                None
            } else {
                Some(params[n - 1].name@)
            },
        }
    }
}

/// The instances that a text lists are those of its lines, in order: a line names
/// the instance that stands in it between white characters, unless it holds nothing
/// else or that begins with `#`.
pub proof fn lemma_instances_come_line_by_line(a: Seq<char>, path: Seq<char>, b: Seq<char>, rest: Seq<char>)
    requires
        all_white(a),
        all_white(b),
        path.len() == 0 || tidy(path),
        !(a + path + b).contains('\n'),
        (a + path + b).len() == 0 || (a + path + b).last() != '\r',
    ensures
        path.len() > 0 && path[0] != '#' ==> listed_instances((a + path + b) + seq!['\n'] + rest) == seq![path]
            + listed_instances(rest),
        path.len() == 0 || path[0] == '#' ==> listed_instances((a + path + b) + seq!['\n'] + rest)
            == listed_instances(rest),
{
    let line = a + path + b;
    let f = |l: Seq<char>| trimmed(l);
    let keep = |l: Seq<char>| names_instance(l);
    lemma_lines_follow_one_another(line, rest);
    lemma_trimming_takes_the_padding(a, path, b);
    let all = (seq![line] + lines_of(rest)).map_values(f);
    assert(all =~= seq![path] + lines_of(rest).map_values(f));
    Seq::filter_distributes_over_add(seq![path], lines_of(rest).map_values(f), keep);
    assert(seq![path].drop_last() =~= Seq::empty());
    reveal_with_fuel(Seq::filter, 2);
    assert(seq![path].filter(keep) =~= if names_instance(path) {
        seq![path]
    } else {
        Seq::empty()
    });
    assert(Seq::<Seq<char>>::empty() + listed_instances(rest) =~= listed_instances(rest));
}

/// Paths written one to a line are read as they are, in order.
pub proof fn lemma_instances_read_back(paths: Seq<Seq<char>>)
    requires
        forall|i: int|
            0 <= i < paths.len() ==> tidy(#[trigger] paths[i]) && paths[i][0] != '#' && !paths[i].contains(
                '\n',
            ),
    ensures
        listed_instances(written_lines(paths)) == paths,
    decreases paths.len(),
{
    if paths.len() == 0 {
        lemma_lines_follow_one_another(Seq::empty(), Seq::empty());
        assert(lines_of(Seq::empty()).map_values(|l: Seq<char>| trimmed(l)) =~= Seq::empty());
        assert(listed_instances(written_lines(paths)) =~= paths);
    } else {
        let rest = paths.skip(1);
        assert forall|i: int| 0 <= i < rest.len() implies tidy(#[trigger] rest[i]) && rest[i][0] != '#'
            && !rest[i].contains('\n') by {
            assert(rest[i] == paths[i + 1]);
        }
        lemma_instances_read_back(rest);
        let none = Seq::<char>::empty();
        assert(tidy(paths[0]));
        assert(none + paths[0] + none =~= paths[0]);
        lemma_instances_come_line_by_line(none, paths[0], none, written_lines(rest));
        assert(seq![paths[0]] + rest =~= paths);
    }
}

/// The first parameter that a configuration has no value for is the one that is
/// missing.
pub proof fn lemma_first_without_a_value_is_missing(params: Seq<Param>, m: Assignment, n: nat, i: int)
    requires
        0 <= i < n <= params.len(),
        !m.contains_key(params[i].name@),
        forall|j: int| 0 <= j < i ==> m.contains_key((#[trigger] params[j]).name@),
    ensures
        first_missing(params, m, n) == Some(params[i].name@),
    decreases n,
{
    if i < n - 1 {
        lemma_first_without_a_value_is_missing(params, m, (n - 1) as nat, i);
    } else {
        lemma_nothing_is_missing_so_far(params, m, i as nat);
    }
}

proof fn lemma_nothing_is_missing_so_far(params: Seq<Param>, m: Assignment, n: nat)
    requires
        n <= params.len(),
        forall|j: int| 0 <= j < n ==> m.contains_key((#[trigger] params[j]).name@),
    ensures
        first_missing(params, m, n) is None,
    decreases n,
{
    if n > 0 {
        lemma_nothing_is_missing_so_far(params, m, (n - 1) as nat);
        assert(m.contains_key(params[n - 1].name@));
    }
}

/// Whatever is given for a scenario is what it holds.
pub proof fn lemma_given_values_are_kept(f: ScenarioFields, s: Scenario)
    requires
        completes(f, s),
    ensures
        s.algo@ == f.algo@,
        s.paramfile@ == f.paramfile@,
        s.cutoff_time == f.cutoff_time,
        s.tuner_timeout == f.tuner_timeout,
        s.initial_config == f.initial_config,
        s.initial_config_file == f.initial_config_file,
        s.instance_file == f.instance_file,
        s.instances == f.instances,
        s.test_instance_file == f.test_instance_file,
        s.future_telling_cores == f.future_telling_cores,
        s.debug_log == f.debug_log,
        s.error_log == f.error_log,
        f.run_obj matches Some(v) ==> s.run_obj == v,
        f.overall_obj matches Some(v) ==> s.overall_obj == v,
        f.approach matches Some(v) ==> s.approach@ == v@,
        f.perturbation_strength matches Some(v) ==> s.perturbation_strength == v,
        f.restart_probability matches Some(v) ==> s.restart_probability == v,
        f.restart_failures matches Some(v) ==> s.restart_failures == v,
        f.restart_target matches Some(v) ==> s.restart_target@ == v@,
        f.restart_strength matches Some(v) ==> s.restart_strength == v,
        f.random_probes matches Some(v) ==> s.random_probes == v,
        f.acceptance_tolerance matches Some(v) ==> s.acceptance_tolerance == v,
        f.initial_fidelity matches Some(v) ==> s.initial_fidelity == v,
        f.fidelity_step matches Some(v) ==> s.fidelity_step == v,
        f.bound_multiplier matches Some(v) ==> s.bound_multiplier == v,
        f.pruning matches Some(v) ==> s.pruning == v,
        f.iterative_deepening matches Some(v) ==> s.iterative_deepening == v,
        f.lambda_n matches Some(v) ==> s.lambda_n == v,
        f.lambda_c matches Some(v) ==> s.lambda_c == v,
        f.lambda_t matches Some(v) ==> s.lambda_t == v,
        f.cores matches Some(v) ==> s.cores == v,
        f.num_run matches Some(v) ==> s.num_run == v,
        f.cache_db matches Some(v) ==> s.cache_db@ == v@,
        f.cache_disable matches Some(v) ==> s.cache_disable == v,
        f.instance_shuffle matches Some(v) ==> s.instance_shuffle == v,
        f.instance_shuffle_seed matches Some(v) ==> s.instance_shuffle_seed == v,
        f.future_telling matches Some(v) ==> s.future_telling == v,
        f.future_telling_checkpoint matches Some(v) ==> s.future_telling_checkpoint == v,
        f.future_telling_tolerance matches Some(v) ==> s.future_telling_tolerance == v,
        f.debug matches Some(v) ==> s.debug == v,
        f.debug_wrapper matches Some(v) ==> s.debug_wrapper == v,
        f.debug_solver matches Some(v) ==> s.debug_solver == v,
{
}

/// What is not given for a scenario is as the tuner does by itself: a focused
/// search by mean runtime, pruning at ten times the incumbent, a perturbation of
/// four steps, one instance more at a time from the first on, and everything else
/// off.
pub proof fn lemma_defaults_of_a_scenario(f: ScenarioFields, s: Scenario)
    requires
        completes(f, s),
    ensures
        f.run_obj is None ==> s.run_obj == RunObjective::Runtime,
        f.overall_obj is None ==> s.overall_obj == OverallObjective::Mean,
        f.approach is None ==> approach_of(s.approach@) == Some(Approach::Focused),
        f.perturbation_strength is None ==> s.perturbation_strength == 4,
        f.restart_probability is None ==> s.restart_probability.bits == 0,
        f.restart_failures is None ==> s.restart_failures == 0,
        f.restart_target is None ==> restart_target_of(s.restart_target@) == Some(RestartTarget::Incumbent),
        f.restart_strength is None ==> s.resolved_strength() == 2 * s.perturbation_strength,
        f.random_probes is None ==> s.random_probes == 0,
        f.acceptance_tolerance is None ==> s.acceptance_tolerance.bits == 0,
        f.initial_fidelity is None ==> s.initial_fidelity == 1,
        f.fidelity_step is None ==> s.fidelity_step == 1,
        f.bound_multiplier is None ==> s.bound_multiplier.bits == 0x4024_0000_0000_0000,
        f.pruning is None ==> s.pruning,
        f.iterative_deepening is None ==> !s.iterative_deepening,
        f.lambda_n is None ==> s.lambda_n.bits == 0x3fe0_0000_0000_0000,
        f.lambda_c is None ==> s.lambda_c.bits == 0x3fe0_0000_0000_0000,
        f.lambda_t is None ==> s.lambda_t.bits == 0x3fe0_0000_0000_0000,
        f.cores is None ==> s.cores == 0,
        f.num_run is None ==> s.num_run == 0,
        f.cache_db is None ==> s.cache_db@ == ":memory:"@,
        f.cache_disable is None ==> !s.cache_disable,
        f.instance_shuffle is None ==> !s.instance_shuffle,
        f.instance_shuffle_seed is None ==> s.instance_shuffle_seed == 0,
        f.future_telling is None ==> !s.future_telling,
        f.future_telling_checkpoint is None ==> s.future_telling_checkpoint.bits == 0x3ff0_0000_0000_0000,
        f.future_telling_tolerance is None ==> s.future_telling_tolerance.bits == 0,
        f.debug is None ==> !s.debug,
        f.debug_wrapper is None ==> !s.debug_wrapper,
        f.debug_solver is None ==> !s.debug_solver,
{
    reveal_strlit("focused");
    reveal_strlit("basic");
    reveal_strlit("random");
    assert("focused"@ != "basic"@) by {
        assert("focused"@[0] != "basic"@[0]);
    }
    assert("focused"@ != "random"@) by {
        assert("focused"@[0] != "random"@[0]);
    }
}

/// The names that are understood, and what they mean; no other name is.
pub proof fn lemma_names_mean_what_they_say(lowered: Seq<char>)
    ensures
        approach_of("focused"@) == Some(Approach::Focused),
        approach_of("basic"@) == Some(Approach::Basic),
        approach_of("random"@) == Some(Approach::Random),
        approach_of(lowered) is Some ==> lowered == "focused"@ || lowered == "basic"@ || lowered == "random"@,
        restart_target_of("incumbent"@) == Some(RestartTarget::Incumbent),
        restart_target_of("random"@) == Some(RestartTarget::Random),
        restart_target_of(lowered) is Some ==> lowered == "incumbent"@ || lowered == "random"@,
        run_obj_of(lowered) == RunObjective::Quality <==> lowered == "quality"@,
        overall_obj_of(lowered) == OverallObjective::Median <==> lowered == "median"@,
{
    reveal_strlit("focused");
    reveal_strlit("basic");
    reveal_strlit("random");
    reveal_strlit("incumbent");
    assert("focused"@[0] == 'f' && "basic"@[0] == 'b' && "random"@[0] == 'r' && "incumbent"@[0] == 'i');
}

/// The settings of a search are the settings of its scenario, each under its own
/// name. A restart that is given no strength has twice that of a perturbation, and
/// as many virtual workers as there are workers are taken where none are given.
pub proof fn lemma_settings_are_those_of_the_scenario(
    s: &Scenario,
    n_workers: usize,
    debug: DebugOptions,
    approach: Approach,
    target: RestartTarget,
    o: IlsOptions,
)
    requires
        describes(s, n_workers, debug, approach, target, o),
    ensures
        o.approach == approach && o.restart_target == target && o.n_workers == n_workers && o.debug == debug,
        o.perturbation_strength == s.perturbation_strength && o.restart_failures == s.restart_failures,
        o.restart_probability == s.restart_probability && o.acceptance_tolerance == s.acceptance_tolerance,
        s.restart_strength != 0 ==> o.restart_strength == s.restart_strength,
        s.restart_strength == 0 ==> o.restart_strength == s.perturbation_strength + s.perturbation_strength,
        o.random_probes == s.random_probes && o.initial_fidelity == s.initial_fidelity,
        o.fidelity_step == s.fidelity_step && o.bound_multiplier == s.bound_multiplier,
        o.pruning == s.pruning && o.tuner_timeout == s.tuner_timeout,
        o.run_obj == s.run_obj && o.overall_obj == s.overall_obj,
        o.instance_shuffle == s.instance_shuffle && o.instance_shuffle_seed == s.instance_shuffle_seed,
        o.future_telling == s.future_telling && o.future_telling_checkpoint == s.future_telling_checkpoint,
        o.future_telling_tolerance == s.future_telling_tolerance && o.cache_disable == s.cache_disable,
        s.future_telling_cores matches Some(n) ==> o.future_telling_cores == n,
        s.future_telling_cores is None ==> o.future_telling_cores == n_workers,
{
}

impl Scenario {
    /// A restart probability is in range exactly if it is a number that is neither
    /// less than zero nor greater than one.
    pub proof fn lemma_probability_is_between_zero_and_one(&self)
        ensures
            self.probability_in_range() <==> !self.restart_probability.nan()
                && !self.restart_probability.below(Measure { bits: 0 }) && !(Measure {
                bits: 0x3ff0_0000_0000_0000,
            }).below(self.restart_probability),
    {
    }

    /// The search starts from the configuration of the scenario, or that of the
    /// file, or the defaults.
    pub proof fn lemma_start_is_the_given_one(&self, space: &ParamSpace, from_file: Option<Config>)
        ensures
            self.initial_config matches Some(c) ==> self.initial_of(space, from_file) == c@,
            self.initial_config is None && self.initial_config_file is Some && from_file is Some
                ==> self.initial_of(space, from_file) == from_file->Some_0@,
            self.initial_config is None && self.initial_config_file is None ==> self.initial_of(space, from_file)
                == collected(space.default_pairs()),
    {
    }
}

/// The instances that a text lists.
pub fn parse_instances(text: &str) -> (r: Vec<String>)
    ensures
        texts(r@) == listed_instances(text@),
{
    let lines = split_lines(&chars_of(text));
    let ghost all = lines_of(text@).map_values(|l: Seq<char>| trimmed(l));
    let ghost keep = |l: Seq<char>| names_instance(l);
    let mut out: Vec<String> = Vec::new();
    assert(all.take(0).filter(keep) =~= Seq::empty());
    for i in 0..lines.len()
        invariant
            rows(lines@) == lines_of(text@),
            all == lines_of(text@).map_values(|l: Seq<char>| trimmed(l)),
            keep == (|l: Seq<char>| names_instance(l)),
            texts(out@) == all.take(i as int).filter(keep),
    {
        let ghost prev = texts(out@);
        let line = trim(&lines[i]);
        proof {
            assert(rows(lines@)[i as int] == lines@[i as int]@);
            assert(all.take(i + 1) =~= all.take(i as int).push(line@));
            all.take(i as int).lemma_filter_push(line@, keep);
        }
        if line.len() > 0 && line[0] != '#' {
            out.push(string_of(&line));
            assert(texts(out@) =~= prev.push(line@));
        }
    }
    assert(all.take(all.len() as int) =~= all);
    out
}

/// The number of worker threads.
pub open spec fn workers(cores: usize, available: Option<usize>) -> usize {
    if cores != 0 {
        cores
    } else {
        given_or(available, 4)
    }
}

/// As many workers are taken as are asked for; if none are, as many as there are
/// cores, or four where that is not known.
pub proof fn lemma_workers_are_as_asked_for(cores: usize, available: usize)
    ensures
        cores > 0 ==> workers(cores, Some(available)) == cores && workers(cores, None) == cores,
        workers(0, Some(available)) == available,
        workers(0, None) == 4,
{
}

/// The number of worker threads: as given, or one for each core if that is 0.
/// Without a known number of cores that is 4.
pub fn worker_count(cores: usize, available: Option<usize>) -> (n: usize)
    ensures
        n == workers(cores, available),
        n == if cores != 0 {
            cores
        } else {
            given_or(available, 4)
        },
{
    if cores != 0 {
        return cores;
    }
    match available {
        Some(n) => n,
        None => 4,
    }
}

impl ParamSpace {
    /// Whether `config` has a value for every parameter; if not, the name of the
    /// first without one.
    pub fn validate_config(&self, config: &Config) -> (r: Result<(), ScenarioError>)
        ensures
            match first_missing(self.params@, config@, self.params@.len()) {
                Some(name) => r matches Err(ScenarioError::MissingParameter(n)) && n@ == name,
                None => r is Ok,
            },
    {
        for i in 0..self.params.len()
            invariant
                first_missing(self.params@, config@, i as nat) is None,
        {
            if config.get(self.params[i].name.as_str()).is_none() {
                proof {
                    lemma_first_missing_sticks(self.params@, config@, (i + 1) as nat, self.params@.len());
                }
                return Err(ScenarioError::MissingParameter(self.params[i].name.clone()));
            }
        }
        Ok(())
    }
}

proof fn lemma_first_missing_sticks(params: Seq<Param>, m: Assignment, k: nat, n: nat)
    requires
        k <= n,
        first_missing(params, m, k) is Some,
    ensures
        first_missing(params, m, n) == first_missing(params, m, k),
    decreases n,
{
    if k < n {
        lemma_first_missing_sticks(params, m, k, (n - 1) as nat);
    }
}

/// Nothing is missing exactly if every parameter has a value.
pub proof fn lemma_nothing_missing(params: Seq<Param>, m: Assignment, n: nat)
    requires
        n <= params.len(),
    ensures
        first_missing(params, m, n) is None <==> forall|i: int|
            0 <= i < n ==> m.contains_key((#[trigger] params[i]).name@),
    decreases n,
{
    if n > 0 {
        lemma_nothing_missing(params, m, (n - 1) as nat);
        assert(params[n - 1].name@ == params[n - 1].name@);
    }
}

/// The default configuration of a space has a value for every parameter.
pub proof fn lemma_defaults_are_complete(space: &ParamSpace)
    ensures
        first_missing(space.params@, collected(space.default_pairs()), space.params@.len()) is None,
{
    let l = space.default_pairs();
    lemma_collected_has_names(l);
    assert forall|i: int| 0 <= i < space.params@.len() implies collected(l).contains_key(
        (#[trigger] space.params@[i]).name@,
    ) by {
        assert(l[i].0 == space.params@[i].name@);
    }
    lemma_nothing_missing(space.params@, collected(l), space.params@.len());
}

proof fn lemma_collected_has_names(l: Seq<(Seq<char>, Seq<char>)>)
    ensures
        forall|i: int| 0 <= i < l.len() ==> collected(l).contains_key((#[trigger] l[i]).0),
    decreases l.len(),
{
    if l.len() > 0 {
        let d = l.drop_last();
        lemma_collected_has_names(d);
        assert forall|i: int| 0 <= i < l.len() implies collected(l).contains_key((#[trigger] l[i]).0) by {
            if i < d.len() {
                assert(d[i] == l[i]);
            }
        }
    }
}

/// Whether the settings of a search are those that a scenario describes.
pub open spec fn describes(
    s: &Scenario,
    n_workers: usize,
    debug: DebugOptions,
    approach: Approach,
    target: RestartTarget,
    o: IlsOptions,
) -> bool {
    &&& o.approach == approach
    &&& o.n_workers == n_workers
    &&& o.perturbation_strength == s.perturbation_strength
    &&& o.restart_probability == s.restart_probability
    &&& o.restart_failures == s.restart_failures
    &&& o.restart_target == target
    &&& o.restart_strength == s.resolved_strength()
    &&& o.acceptance_tolerance == s.acceptance_tolerance
    &&& o.random_probes == s.random_probes
    &&& o.initial_fidelity == s.initial_fidelity
    &&& o.fidelity_step == s.fidelity_step
    &&& o.bound_multiplier == s.bound_multiplier
    &&& o.pruning == s.pruning
    &&& o.tuner_timeout == s.tuner_timeout
    &&& o.run_obj == s.run_obj
    &&& o.overall_obj == s.overall_obj
    &&& o.instance_shuffle == s.instance_shuffle
    &&& o.instance_shuffle_seed == s.instance_shuffle_seed
    &&& o.future_telling == s.future_telling
    &&& o.future_telling_checkpoint == s.future_telling_checkpoint
    &&& o.future_telling_cores == given_or(s.future_telling_cores, n_workers)
    &&& o.future_telling_tolerance == s.future_telling_tolerance
    &&& o.cache_disable == s.cache_disable
    &&& o.debug == debug
}

impl Scenario {
    /// The scenario with what was given and the defaults of the rest.
    pub fn complete(f: ScenarioFields) -> (s: Scenario)
        ensures
            completes(f, s),
    {
        Scenario {
            algo: f.algo,
            paramfile: f.paramfile,
            initial_config: f.initial_config,
            initial_config_file: f.initial_config_file,
            instance_file: f.instance_file,
            instances: f.instances,
            test_instance_file: f.test_instance_file,
            cutoff_time: f.cutoff_time,
            tuner_timeout: f.tuner_timeout,
            run_obj: match f.run_obj {
                Some(v) => v,
                None => RunObjective::Runtime,
            },
            overall_obj: match f.overall_obj {
                Some(v) => v,
                None => OverallObjective::Mean,
            },
            approach: or_text(f.approach, "focused"),
            perturbation_strength: f.perturbation_strength.unwrap_or(4),
            restart_probability: or_measure(f.restart_probability, 0),
            restart_failures: f.restart_failures.unwrap_or(0),
            restart_target: or_text(f.restart_target, "incumbent"),
            restart_strength: f.restart_strength.unwrap_or(0),
            random_probes: f.random_probes.unwrap_or(0),
            acceptance_tolerance: or_measure(f.acceptance_tolerance, 0),
            initial_fidelity: f.initial_fidelity.unwrap_or(1),
            fidelity_step: f.fidelity_step.unwrap_or(1),
            bound_multiplier: or_measure(f.bound_multiplier, TEN_BITS),
            pruning: f.pruning.unwrap_or(true),
            iterative_deepening: f.iterative_deepening.unwrap_or(false),
            lambda_n: or_measure(f.lambda_n, HALF_BITS),
            lambda_c: or_measure(f.lambda_c, HALF_BITS),
            lambda_t: or_measure(f.lambda_t, HALF_BITS),
            cores: f.cores.unwrap_or(0),
            num_run: f.num_run.unwrap_or(0),
            cache_db: or_text(f.cache_db, ":memory:"),
            cache_disable: f.cache_disable.unwrap_or(false),
            instance_shuffle: f.instance_shuffle.unwrap_or(false),
            instance_shuffle_seed: f.instance_shuffle_seed.unwrap_or(0),
            future_telling: f.future_telling.unwrap_or(false),
            future_telling_checkpoint: or_measure(f.future_telling_checkpoint, ONE_BITS),
            future_telling_cores: f.future_telling_cores,
            future_telling_tolerance: or_measure(f.future_telling_tolerance, 0),
            debug: f.debug.unwrap_or(false),
            debug_wrapper: f.debug_wrapper.unwrap_or(false),
            debug_solver: f.debug_solver.unwrap_or(false),
            debug_log: f.debug_log,
            error_log: f.error_log,
        }
    }

    /// Steps of a restart from the incumbent, with 0 resolved.
    pub open spec fn resolved_strength(&self) -> int {
        if self.restart_strength == 0 {
            2 * self.perturbation_strength
        } else {
            self.restart_strength as int
        }
    }

    /// Steps of a restart from the incumbent: as given, or twice the
    /// perturbation strength if that is 0.
    pub fn restart_steps(&self) -> (r: usize)
        requires
            self.resolved_strength() <= usize::MAX,
        ensures
            r == self.resolved_strength(),
    {
        if self.restart_strength == 0 {
            2 * self.perturbation_strength
        } else {
            self.restart_strength
        }
    }

    /// Whether the restart probability lies between 0 and 1.
    pub open spec fn probability_in_range(&self) -> bool {
        (Measure { bits: 0 }).at_most(self.restart_probability) && self.restart_probability.at_most(
            Measure { bits: ONE_BITS },
        )
    }

    /// Whether a search can be run with the given approach and restart target, in
    /// lower case.
    pub open spec fn is_runnable(&self, approach: Seq<char>, target: Seq<char>) -> bool {
        &&& approach_of(approach) is Some
        &&& restart_target_of(target) is Some
        &&& self.probability_in_range()
        &&& (Measure { bits: 0 }).at_most(self.acceptance_tolerance)
    }

    /// A scenario is refused exactly for a name that is not understood, for a
    /// restart probability that is no number between zero and one, and for a
    /// tolerance that is less than zero or no number.
    pub proof fn lemma_refused_exactly_for_a_reason(&self, approach: Seq<char>, target: Seq<char>)
        ensures
            self.is_runnable(approach, target) <==> {
                &&& approach == "focused"@ || approach == "basic"@ || approach == "random"@
                &&& target == "incumbent"@ || target == "random"@
                &&& !self.restart_probability.nan()
                &&& !self.restart_probability.below(Measure { bits: 0 })
                &&& !(Measure { bits: 0x3ff0_0000_0000_0000 }).below(self.restart_probability)
                &&& !self.acceptance_tolerance.nan()
                &&& !self.acceptance_tolerance.below(Measure { bits: 0 })
            },
    {
        lemma_names_mean_what_they_say(approach);
        lemma_names_mean_what_they_say(target);
        self.lemma_probability_is_between_zero_and_one();
    }

    /// The settings of a search, with approach and restart target in lower case.
    pub fn options_with(
        &self,
        approach: &str,
        target: &str,
        n_workers: usize,
        debug: DebugOptions,
    ) -> (r: Result<IlsOptions, ScenarioError>)
        requires
            self.resolved_strength() <= usize::MAX,
        ensures
            r is Ok <==> self.is_runnable(approach@, target@),
            match (approach_of(approach@), restart_target_of(target@)) {
                (None, _) => r matches Err(ScenarioError::UnknownApproach(a)) && a@ == approach@,
                (_, None) => r matches Err(ScenarioError::UnknownRestartTarget(t)) && t@ == target@,
                (Some(a), Some(t)) => {
                    if !self.probability_in_range() {
                        r matches Err(ScenarioError::RestartProbability)
                    } else if !(Measure { bits: 0 }).at_most(self.acceptance_tolerance) {
                        r matches Err(ScenarioError::AcceptanceTolerance)
                    } else {
                        r matches Ok(o) && describes(self, n_workers, debug, a, t, o)
                    }
                },
            },
    {
        let approach = match parse_approach(approach) {
            Some(a) => a,
            None => return Err(ScenarioError::UnknownApproach(approach.to_owned())),
        };
        let restart_target = match parse_restart_target(target) {
            Some(t) => t,
            None => return Err(ScenarioError::UnknownRestartTarget(target.to_owned())),
        };
        if !(Measure::zero().le(self.restart_probability) && self.restart_probability.le(
            Measure { bits: ONE_BITS },
        )) {
            return Err(ScenarioError::RestartProbability);
        }
        if !Measure::zero().le(self.acceptance_tolerance) {
            return Err(ScenarioError::AcceptanceTolerance);
        }
        Ok(
            IlsOptions {
                approach,
                n_workers,
                perturbation_strength: self.perturbation_strength,
                restart_probability: self.restart_probability,
                restart_failures: self.restart_failures,
                restart_target,
                restart_strength: self.restart_steps(),
                acceptance_tolerance: self.acceptance_tolerance,
                random_probes: self.random_probes,
                initial_fidelity: self.initial_fidelity,
                fidelity_step: self.fidelity_step,
                bound_multiplier: self.bound_multiplier,
                pruning: self.pruning,
                tuner_timeout: self.tuner_timeout,
                run_obj: self.run_obj,
                overall_obj: self.overall_obj,
                instance_shuffle: self.instance_shuffle,
                instance_shuffle_seed: self.instance_shuffle_seed,
                future_telling: self.future_telling,
                future_telling_checkpoint: self.future_telling_checkpoint,
                future_telling_cores: match self.future_telling_cores {
                    Some(n) => n,
                    None => n_workers,
                },
                future_telling_tolerance: self.future_telling_tolerance,
                cache_disable: self.cache_disable,
                debug,
            },
        )
    }

    /// Build the settings of the search that this scenario describes. Approach
    /// and restart target may be written in either case.
    pub fn ils_options(&self, n_workers: usize, debug: DebugOptions) -> (r: Result<IlsOptions, ScenarioError>)
        requires
            self.resolved_strength() <= usize::MAX,
        ensures
            r is Ok <==> self.is_runnable(lowercased(self.approach@), lowercased(self.restart_target@)),
            ({
                let approach = lowercased(self.approach@);
                let target = lowercased(self.restart_target@);
                match (approach_of(approach), restart_target_of(target)) {
                    (None, _) => r matches Err(ScenarioError::UnknownApproach(a)) && a@ == approach,
                    (_, None) => r matches Err(ScenarioError::UnknownRestartTarget(t)) && t@ == target,
                    (Some(a), Some(t)) => {
                        if !self.probability_in_range() {
                            r matches Err(ScenarioError::RestartProbability)
                        } else if !(Measure { bits: 0 }).at_most(self.acceptance_tolerance) {
                            r matches Err(ScenarioError::AcceptanceTolerance)
                        } else {
                            r matches Ok(o) && describes(self, n_workers, debug, a, t, o)
                        }
                    },
                }
            }),
    {
        let approach = lowercase(self.approach.as_str());
        let target = lowercase(self.restart_target.as_str());
        self.options_with(approach.as_str(), target.as_str(), n_workers, debug)
    }

    /// Where the training instances come from: the list in the scenario if there
    /// is one, else the file.
    pub fn instance_source(&self) -> (r: InstanceSource<'_>)
        ensures
            match r {
                InstanceSource::Inline(list) => self.instances == Some(*list),
                InstanceSource::File(path) => self.instances is None && self.instance_file == Some(*path),
                InstanceSource::Nowhere => self.instances is None && self.instance_file is None,
            },
    {
        if let Some(list) = &self.instances {
            return InstanceSource::Inline(list);
        }
        match &self.instance_file {
            Some(path) => InstanceSource::File(path),
            None => InstanceSource::Nowhere,
        }
    }

    /// The instances of a scenario whose instance file, if it has one, holds the
    /// given text; nothing if it names none.
    pub open spec fn resolved_paths(&self, file_text: Seq<char>) -> Option<Seq<Seq<char>>> {
        match (self.instances, self.instance_file) {
            (Some(list), _) => Some(texts(list@)),
            (None, Some(_)) => Some(listed_instances(file_text)),
            (None, None) => None,
        }
    }

    /// A list of instances goes before a file, whatever that holds; a file is read
    /// where there is no list.
    pub proof fn lemma_list_goes_before_the_file(&self, file_text: Seq<char>, other: Seq<char>)
        ensures
            self.instances matches Some(list) ==> self.resolved_paths(file_text) == Some(texts(list@))
                && self.resolved_paths(other) == self.resolved_paths(file_text),
            self.instances is None && self.instance_file is Some ==> self.resolved_paths(file_text) == Some(
                listed_instances(file_text),
            ),
            self.instances is None && self.instance_file is None ==> self.resolved_paths(file_text) is None,
    {
    }

    /// Resolve the instance list from either `instances` or `instance_file`.
    /// `file_text` holds what stands in the file if the scenario names one and has
    /// no list.
    pub fn instance_paths(&self, file_text: Option<&str>) -> (r: Result<Vec<String>, ScenarioError>)
        requires
            self.instances is None && self.instance_file is Some ==> file_text is Some,
        ensures
            match (self.instances, self.instance_file) {
                (Some(list), _) => r matches Ok(paths) && texts(paths@) == texts(list@),
                (None, Some(_)) => r matches Ok(paths) && texts(paths@) == listed_instances(file_text->0@),
                (None, None) => r matches Err(ScenarioError::NoInstanceSource),
            },
            match r {
                Ok(paths) => self.resolved_paths(file_text->0@) == Some(texts(paths@)),
                Err(_) => self.resolved_paths(file_text->0@) is None,
            },
    {
        match self.instance_source() {
            InstanceSource::Inline(list) => {
                let mut paths: Vec<String> = Vec::new();
                for i in 0..list.len()
                    invariant
                        texts(paths@) == texts(list@).take(i as int),
                {
                    let ghost prev = texts(paths@);
                    paths.push(list[i].clone());
                    assert(texts(paths@) =~= prev.push(list@[i as int]@));
                    assert(texts(paths@) =~= texts(list@).take(i + 1));
                }
                assert(texts(list@).take(list@.len() as int) =~= texts(list@));
                Ok(paths)
            },
            InstanceSource::File(_) => match file_text {
                Some(text) => Ok(parse_instances(text)),
                None => Ok(Vec::new()),
            },
            InstanceSource::Nowhere => Err(ScenarioError::NoInstanceSource),
        }
    }

    /// Human-readable label for the instance source.
    pub fn instance_source_label(&self) -> (r: String)
        ensures
            r@ == if self.instances is Some {
                "<inline list>"@
            } else {
                text_or(self.instance_file, "<none>"@)
            },
    {
        match self.instance_source() {
            InstanceSource::Inline(_) => "<inline list>".to_owned(),
            InstanceSource::File(path) => path.clone(),
            InstanceSource::Nowhere => "<none>".to_owned(),
        }
    }

    /// Where the initial configuration comes from; it may be given in one way only.
    pub fn initial_source(&self) -> (r: Result<InitialSource<'_>, ScenarioError>)
        ensures
            match r {
                Ok(InitialSource::Inline(c)) => self.initial_config == Some(*c)
                    && self.initial_config_file is None,
                Ok(InitialSource::File(path)) => self.initial_config is None && self.initial_config_file
                    == Some(*path),
                Ok(InitialSource::Defaults) => self.initial_config is None
                    && self.initial_config_file is None,
                Err(e) => e is BothInitialConfigs && self.initial_config is Some
                    && self.initial_config_file is Some,
            },
    {
        match (&self.initial_config, &self.initial_config_file) {
            (Some(_), Some(_)) => Err(ScenarioError::BothInitialConfigs),
            (Some(c), None) => Ok(InitialSource::Inline(c)),
            (None, Some(path)) => Ok(InitialSource::File(path)),
            (None, None) => Ok(InitialSource::Defaults),
        }
    }

    /// The initial configuration, of which `from_file` is what the file holds if
    /// the scenario names one.
    pub open spec fn initial_of(&self, space: &ParamSpace, from_file: Option<Config>) -> Assignment {
        match self.initial_config {
            Some(c) => c@,
            None => if self.initial_config_file is Some {
                from_file->Some_0@
            } else {
                collected(space.default_pairs())
            },
        }
    }

    /// Resolve and validate the starting configuration of the search.
    ///
    /// An explicit configuration must contain every parameter. If none is
    /// given, the defaults of the parameters are taken. `from_file` holds what
    /// stands in the file if the scenario names one.
    pub fn resolve_initial_config(&self, space: &ParamSpace, from_file: Option<Config>) -> (r: Result<
        Config,
        ScenarioError,
    >)
        requires
            self.initial_config_file is Some && self.initial_config is None ==> from_file is Some,
        ensures
            if self.initial_config is Some && self.initial_config_file is Some {
                r matches Err(ScenarioError::BothInitialConfigs)
            } else {
                let m = self.initial_of(space, from_file);
                match first_missing(space.params@, m, space.params@.len()) {
                    Some(name) => r matches Err(ScenarioError::MissingParameter(n)) && n@ == name,
                    None => r matches Ok(c) && c@ == m,
                }
            },
    {
        let config = match self.initial_source() {
            Err(e) => return Err(e),
            Ok(InitialSource::Inline(c)) => c.clone(),
            Ok(InitialSource::File(_)) => match from_file {
                Some(c) => c,
                None => space.default_config(),
            },
            Ok(InitialSource::Defaults) => space.default_config(),
        };
        match space.validate_config(&config) {
            Err(e) => Err(e),
            Ok(_) => Ok(config),
        }
    }
}

} // verus!
