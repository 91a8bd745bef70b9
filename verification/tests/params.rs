use ramparils::config::Config;
use ramparils::param_file::ParamError;
use ramparils::params::ParamSpace;

const SAPS: &str = "\
alpha {1.01, 1.066, 1.126, 1.189, 1.256, 1.326, 1.4} [1.189] #comment
rho {0, 0.17, 0.333, 0.5, 0.666, 0.83, 1} [0.5]
ps {0, 0.033, 0.066, 0.1, 0.133, 0.166, 0.2} [0.1]
wp {0, 0.01, 0.02, 0.03, 0.04, 0.05, 0.06} [0.03]
";

const WITH_COND_AND_FORBIDDEN: &str = "\
mode {fast, slow} [fast]
thresh {1, 2, 3} [2] | mode in {slow}
{mode=fast, thresh=1}
";

fn parse(text: &str) -> ParamSpace {
    ParamSpace::checked_from_text(text).unwrap().unwrap()
}

fn cfg(pairs: &[(&str, &str)]) -> Config {
    let list: Vec<(String, String)> = pairs.iter().map(|(k, v)| (k.to_string(), v.to_string())).collect();
    Config::from_pairs(&list)
}

fn value(config: &Config, name: &str) -> String {
    config.get(name).unwrap().clone()
}

#[test]
fn saps_params() {
    let space = parse(SAPS);
    assert_eq!(space.params.len(), 4);
    let alpha = &space.params[0];
    assert_eq!(alpha.name, "alpha");
    assert_eq!(alpha.domain.len(), 7);
    assert_eq!(alpha.default, "1.189");
    assert!(alpha.condition.is_none());
    assert!(space.forbidden.is_empty());
}

#[test]
fn conditional_param() {
    let space = parse(WITH_COND_AND_FORBIDDEN);
    let thresh = space.params.iter().find(|p| p.name == "thresh").unwrap();
    let cond = thresh.condition.as_ref().unwrap();
    assert_eq!(cond.parent, "mode");
    assert_eq!(cond.allowed_values, vec!["slow"]);
}

#[test]
fn forbidden_combo() {
    let space = parse(WITH_COND_AND_FORBIDDEN);
    assert_eq!(space.forbidden.len(), 1);
    assert_eq!(
        space.forbidden[0],
        vec![("mode".to_string(), "fast".to_string()), ("thresh".to_string(), "1".to_string())]
    );
}

#[test]
fn active_params_conditional() {
    let space = parse(WITH_COND_AND_FORBIDDEN);
    let mut config = cfg(&[("mode", "fast"), ("thresh", "2")]);
    // thresh is only active when mode=slow
    let active = space.active_params(&config);
    assert_eq!(active.len(), 1);
    assert_eq!(active[0].name, "mode");

    config.insert("mode".to_string(), "slow".to_string());
    let active = space.active_params(&config);
    assert_eq!(active.len(), 2);
}

#[test]
fn is_forbidden_check() {
    let space = parse(WITH_COND_AND_FORBIDDEN);
    assert!(space.is_forbidden(&cfg(&[("mode", "fast"), ("thresh", "1")])));
    assert!(!space.is_forbidden(&cfg(&[("mode", "slow"), ("thresh", "1")])));
}

#[test]
fn default_config() {
    let space = parse(SAPS);
    let config = space.default_config();
    assert_eq!(value(&config, "alpha"), "1.189");
    assert_eq!(value(&config, "rho"), "0.5");
}

#[test]
fn default_outside_the_domain_is_an_error() {
    match ParamSpace::from_text("# heading\n\nx {1, 2} [3]\n") {
        Err(ParamError::DefaultNotInDomain { line, default, domain, name }) => {
            assert_eq!(line, 3);
            assert_eq!(default, "3");
            assert_eq!(domain, vec!["1", "2"]);
            assert_eq!(name, "x");
        }
        other => panic!("unexpected: {other:?}"),
    }
}

#[test]
fn malformed_condition_is_an_error() {
    match ParamSpace::from_text("x {1, 2} [1]\ny {a} [a] | x = 1\n") {
        Err(ParamError::MalformedCondition { line, condition }) => {
            assert_eq!(line, 2);
            assert_eq!(condition, "x = 1");
        }
        other => panic!("unexpected: {other:?}"),
    }
    assert!(matches!(
        ParamSpace::from_text("y {a} [a] | x in { , }"),
        Err(ParamError::MalformedCondition { line: 1, .. })
    ));
}

#[test]
fn misordered_delimiters_are_recognised() {
    for text in ["} a {", "x }{ [1]", "x {1} ] [1"] {
        assert!(ParamSpace::checked_from_text(text).is_none());
    }
    assert!(ParamSpace::checked_from_text("x {1} [1]").unwrap().is_ok());
    // What follows a line with an error is not read.
    assert!(ParamSpace::checked_from_text("x {1} [2]\n} a {").unwrap().is_err());
}

#[test]
fn misordered_braces_make_no_condition() {
    assert!(matches!(
        ParamSpace::checked_from_text("y {1} [1]\nx {1} [1] | y in }{"),
        Some(Err(ParamError::MalformedCondition { line: 2, condition })) if condition == "y in }{"
    ));
    // On a line of its own it is ignored.
    let space = parse("p {1} [1]\np | x in }{\n");
    assert_eq!(space.params.len(), 1);
    assert!(space.params[0].condition.is_none());
    let space = parse("p | x in }{");
    assert!(space.params.is_empty() && space.forbidden.is_empty());
}

#[test]
fn standalone_condition_applies_to_the_first_parameter_of_that_name() {
    let space = parse("x {1, 2} [1]\ny {a, b} [a]\ny {c} [c]\ny | x in {2}\nz | x in {2}\n");
    assert_eq!(space.params.len(), 3);
    assert!(space.params[0].condition.is_none());
    assert_eq!(space.params[1].condition.as_ref().unwrap().parent, "x");
    assert!(space.params[2].condition.is_none());
}

#[test]
fn lines_that_say_nothing_are_skipped() {
    let space = parse("\r\n# x {1} [1]\nno braces here\n{}\n{=1}\n{a}\n {1} [1]\nx {1,, 2 ,} [1]\r\n");
    assert_eq!(space.params.len(), 1);
    assert_eq!(space.params[0].domain, vec!["1", "2"]);
    assert!(space.forbidden.is_empty());
}

#[test]
fn forbidden_value_may_hold_an_equals_sign() {
    let space = parse("{ a = b=c , d = }");
    assert_eq!(
        space.forbidden[0],
        vec![("a".to_string(), "b=c".to_string()), ("d".to_string(), "".to_string())]
    );
}

#[test]
fn activity_is_transitive() {
    let space = parse("a {0, 1} [0]\nb {0, 1} [0] | a in {1}\nc {0, 1} [0] | b in {1}\n");
    let on = cfg(&[("a", "1"), ("b", "1"), ("c", "0")]);
    assert_eq!(space.active_params(&on).len(), 3);
    let off = cfg(&[("a", "0"), ("b", "1"), ("c", "0")]);
    let names: Vec<&str> = space.active_params(&off).iter().map(|p| p.name.as_str()).collect();
    assert_eq!(names, vec!["a"]);
}

#[test]
fn mutual_conditions_sustain_each_other() {
    let space = parse("a {0, 1} [0] | b in {1}\nb {0, 1} [0] | a in {1}\n");
    assert_eq!(space.active_params(&cfg(&[("a", "1"), ("b", "1")])).len(), 2);
    assert_eq!(space.active_params(&cfg(&[("a", "1"), ("b", "0")])).len(), 0);
}

#[test]
fn projecting_twice_is_projecting_once() {
    let space = parse(WITH_COND_AND_FORBIDDEN);
    let config = cfg(&[("mode", "fast"), ("thresh", "1"), ("other", "x")]);
    let once = space.active_config(&config);
    assert_eq!(once, cfg(&[("mode", "fast")]));
    assert_eq!(space.active_config(&once), once);
    assert!(space.is_legal(&config));
}

#[test]
fn an_empty_combination_forbids_everything() {
    let mut space = ParamSpace::default();
    assert!(!space.is_forbidden(&Config::new()));
    space.forbidden.push(Vec::new());
    assert!(space.is_forbidden(&Config::new()));
}

#[test]
fn a_parameter_without_values_is_noticed() {
    let mut space = parse(SAPS);
    assert!(space.is_inhabited());
    space.params[2].domain.clear();
    assert!(!space.is_inhabited());
}

#[test]
fn configurations_keep_their_pairs_sorted() {
    let config = cfg(&[("b", "2"), ("a", "1"), ("b", "3")]);
    assert_eq!(config.len(), 2);
    assert_eq!(
        config.pairs(),
        &vec![("a".to_string(), "1".to_string()), ("b".to_string(), "3".to_string())]
    );
    assert!(config.same(&cfg(&[("a", "1"), ("b", "3")])));
    assert!(!config.same(&cfg(&[("a", "1"), ("b", "2")])));
    assert!(!config.same(&cfg(&[("a", "1")])));
    assert_eq!(config.clone(), config);
    assert!(config.get("c").is_none());
}
