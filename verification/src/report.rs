//! The report of a scenario at the start of a run.

use crate::scenario::{text_or, OverallObjective, RunObjective, Scenario};
use crate::text::{decimal, push_decimal, push_text, texts};
use vstd::prelude::*;

verus! {

/// How the numbers of a scenario are written.
#[derive(Debug)]
pub struct ScenarioNumbers {
    pub cutoff_time: String,
    pub tuner_timeout: String,
    pub restart_probability: String,
    pub acceptance_tolerance: String,
}

/// The line that begins and ends the report.
pub open spec fn rule_text() -> Seq<char> {
    "------------------------------------------------------------"@
}

/// The name of an objective of one run.
pub open spec fn run_obj_text(o: RunObjective) -> Seq<char> {
    match o {
        RunObjective::Runtime => "runtime"@,
        RunObjective::Quality => "quality"@,
    }
}

/// The name of an objective over several runs.
pub open spec fn overall_obj_text(o: OverallObjective) -> Seq<char> {
    match o {
        OverallObjective::Mean => "mean"@,
        OverallObjective::Median => "median"@,
    }
}

/// The lines of the report.
pub open spec fn scenario_report(
    s: &Scenario,
    numbers: &ScenarioNumbers,
    n_instances: nat,
    n_workers: nat,
) -> Seq<Seq<char>> {
    let source = if s.instances is Some {
        "<inline list>"@
    } else {
        text_or(s.instance_file, "<none>"@)
    };
    seq![
        rule_text(),
        "algo:       "@ + s.algo@,
        "paramfile:  "@ + s.paramfile@,
        "instances:  "@ + source + " ("@ + decimal(n_instances) + " loaded)"@,
        "test:       "@ + text_or(s.test_instance_file, "-"@),
        "cutoff:     "@ + numbers.cutoff_time@ + "s"@,
        "timeout:    "@ + numbers.tuner_timeout@ + "s"@,
        "objective:  "@ + run_obj_text(s.run_obj) + " / "@ + overall_obj_text(s.overall_obj),
        "approach:   "@ + s.approach@,
        "fidelity:   initial="@ + decimal(s.initial_fidelity as nat) + " step="@ + decimal(
            s.fidelity_step as nat,
        ),
        "perturb:    strength="@ + decimal(s.perturbation_strength as nat) + " restart_strength="@
            + decimal(s.resolved_strength() as nat),
        "restart:    p="@ + numbers.restart_probability@ + " failures="@ + decimal(
            s.restart_failures as nat,
        ) + " target="@ + s.restart_target@ + " tolerance="@ + numbers.acceptance_tolerance@ + " probes="@
            + decimal(s.random_probes as nat),
        "workers:    "@ + decimal(n_workers),
        rule_text(),
    ]
}

fn labelled(label: &str, text: &str) -> (r: String)
    ensures
        r@ == label@ + text@,
{
    let mut out = label.to_owned();
    push_text(&mut out, text);
    out
}

/// The lines of the report of a scenario, where `numbers` holds how its numbers
/// are written.
pub fn scenario_lines(s: &Scenario, numbers: &ScenarioNumbers, n_instances: usize, n_workers: usize) -> (r: Vec<String>)
    requires
        s.resolved_strength() <= usize::MAX,
    ensures
        texts(r@) == scenario_report(s, numbers, n_instances as nat, n_workers as nat),
{
    let mut instances = labelled("instances:  ", s.instance_source_label().as_str());
    push_text(&mut instances, " (");
    push_decimal(&mut instances, n_instances as u64);
    push_text(&mut instances, " loaded)");
    let test = match &s.test_instance_file {
        Some(path) => labelled("test:       ", path.as_str()),
        None => labelled("test:       ", "-"),
    };
    let mut cutoff = labelled("cutoff:     ", numbers.cutoff_time.as_str());
    push_text(&mut cutoff, "s");
    let mut timeout = labelled("timeout:    ", numbers.tuner_timeout.as_str());
    push_text(&mut timeout, "s");
    let mut objective = match s.run_obj {
        RunObjective::Runtime => labelled("objective:  ", "runtime"),
        RunObjective::Quality => labelled("objective:  ", "quality"),
    };
    push_text(&mut objective, " / ");
    match s.overall_obj {
        OverallObjective::Mean => push_text(&mut objective, "mean"),
        OverallObjective::Median => push_text(&mut objective, "median"),
    }
    let mut fidelity = "fidelity:   initial=".to_owned();
    push_decimal(&mut fidelity, s.initial_fidelity as u64);
    push_text(&mut fidelity, " step=");
    push_decimal(&mut fidelity, s.fidelity_step as u64);
    let mut perturb = "perturb:    strength=".to_owned();
    push_decimal(&mut perturb, s.perturbation_strength as u64);
    push_text(&mut perturb, " restart_strength=");
    push_decimal(&mut perturb, s.restart_steps() as u64);
    let mut restart = labelled("restart:    p=", numbers.restart_probability.as_str());
    push_text(&mut restart, " failures=");
    push_decimal(&mut restart, s.restart_failures as u64);
    push_text(&mut restart, " target=");
    push_text(&mut restart, s.restart_target.as_str());
    push_text(&mut restart, " tolerance=");
    push_text(&mut restart, numbers.acceptance_tolerance.as_str());
    push_text(&mut restart, " probes=");
    push_decimal(&mut restart, s.random_probes as u64);
    let mut workers = "workers:    ".to_owned();
    push_decimal(&mut workers, n_workers as u64);
    let rule = "------------------------------------------------------------";
    let mut out: Vec<String> = Vec::new();
    out.push(rule.to_owned());
    out.push(labelled("algo:       ", s.algo.as_str()));
    out.push(labelled("paramfile:  ", s.paramfile.as_str()));
    out.push(instances);
    out.push(test);
    out.push(cutoff);
    out.push(timeout);
    out.push(objective);
    out.push(labelled("approach:   ", s.approach.as_str()));
    out.push(fidelity);
    out.push(perturb);
    out.push(restart);
    out.push(workers);
    out.push(rule.to_owned());
    assert(texts(out@) =~= scenario_report(s, numbers, n_instances as nat, n_workers as nat));
    out
}

/// The report tells each setting under its own label: the scenario's own texts and
/// numbers, and `<none>` or `-` for what is not given.
pub proof fn lemma_report_tells_every_setting(
    s: &Scenario,
    numbers: &ScenarioNumbers,
    n_instances: nat,
    n_workers: nat,
)
    ensures
        ({
            let r = scenario_report(s, numbers, n_instances, n_workers);
            let loaded = " ("@ + decimal(n_instances) + " loaded)"@;
            &&& r.len() == 14
            &&& r[1] == "algo:       "@ + s.algo@
            &&& r[2] == "paramfile:  "@ + s.paramfile@
            &&& s.instances is Some ==> r[3] == "instances:  "@ + ("<inline list>"@ + loaded)
            &&& s.instances is None && s.instance_file is Some ==> r[3] == "instances:  "@ + (s.instance_file->Some_0@
                + loaded)
            &&& s.instances is None && s.instance_file is None ==> r[3] == "instances:  "@ + ("<none>"@ + loaded)
            &&& s.test_instance_file is None ==> r[4] == "test:       "@ + "-"@
            &&& s.test_instance_file matches Some(f) ==> r[4] == "test:       "@ + f@
            &&& r[5] == "cutoff:     "@ + (numbers.cutoff_time@ + "s"@)
            &&& r[6] == "timeout:    "@ + (numbers.tuner_timeout@ + "s"@)
            &&& s.run_obj == RunObjective::Runtime && s.overall_obj == OverallObjective::Mean ==> r[7]
                == "objective:  "@ + ("runtime"@ + " / "@ + "mean"@)
            &&& s.run_obj == RunObjective::Quality && s.overall_obj == OverallObjective::Mean ==> r[7]
                == "objective:  "@ + ("quality"@ + " / "@ + "mean"@)
            &&& s.run_obj == RunObjective::Runtime && s.overall_obj == OverallObjective::Median ==> r[7]
                == "objective:  "@ + ("runtime"@ + " / "@ + "median"@)
            &&& s.run_obj == RunObjective::Quality && s.overall_obj == OverallObjective::Median ==> r[7]
                == "objective:  "@ + ("quality"@ + " / "@ + "median"@)
            &&& r[8] == "approach:   "@ + s.approach@
            &&& r[9] == "fidelity:   initial="@ + (decimal(s.initial_fidelity as nat) + " step="@ + decimal(
                s.fidelity_step as nat,
            ))
            &&& r[10] == "perturb:    strength="@ + (decimal(s.perturbation_strength as nat)
                + " restart_strength="@ + decimal(s.resolved_strength() as nat))
            &&& r[11] == "restart:    p="@ + (numbers.restart_probability@ + " failures="@ + decimal(
                s.restart_failures as nat,
            ) + " target="@ + s.restart_target@ + " tolerance="@ + numbers.acceptance_tolerance@ + " probes="@
                + decimal(s.random_probes as nat))
            &&& r[12] == "workers:    "@ + decimal(n_workers)
            &&& r[0] == r[13]
        }),
{
    let r = scenario_report(s, numbers, n_instances, n_workers);
    let loaded = " ("@ + decimal(n_instances) + " loaded)"@;
    let source = if s.instances is Some {
        "<inline list>"@
    } else {
        text_or(s.instance_file, "<none>"@)
    };
    assert(r[3] =~= "instances:  "@ + (source + loaded));
    assert(r[5] =~= "cutoff:     "@ + (numbers.cutoff_time@ + "s"@));
    assert(r[6] =~= "timeout:    "@ + (numbers.tuner_timeout@ + "s"@));
    assert(r[7] =~= "objective:  "@ + (run_obj_text(s.run_obj) + " / "@ + overall_obj_text(s.overall_obj)));
    assert(r[9] =~= "fidelity:   initial="@ + (decimal(s.initial_fidelity as nat) + " step="@ + decimal(
        s.fidelity_step as nat,
    )));
    assert(r[10] =~= "perturb:    strength="@ + (decimal(s.perturbation_strength as nat) + " restart_strength="@
        + decimal(s.resolved_strength() as nat)));
    assert(r[11] =~= "restart:    p="@ + (numbers.restart_probability@ + " failures="@ + decimal(
        s.restart_failures as nat,
    ) + " target="@ + s.restart_target@ + " tolerance="@ + numbers.acceptance_tolerance@ + " probes="@ + decimal(
        s.random_probes as nat,
    )));
}

} // verus!
