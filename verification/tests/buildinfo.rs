use jjs_commons::buildinfo::{BuildEnv, BuildInfo};

#[test]
fn facts_are_those_of_the_environment() {
    let env = BuildEnv { verify_full: None, date: Some("2020-07-01"), commit: None };
    assert!(BuildInfo::is_acceptable(env));
    let info = BuildInfo::get(env);
    assert_eq!(info.build_date, Some("2020-07-01"));
    assert_eq!(info.git_revision, None);
}

#[test]
fn all_facts_can_be_asked_for() {
    let mut env = BuildEnv { verify_full: Some("1"), date: Some("2020-07-01"), commit: None };
    assert!(!BuildInfo::is_acceptable(env));
    assert_eq!(BuildInfo::do_get(env).git_revision, None);
    env.commit = Some("c0ffee");
    assert!(BuildInfo::is_acceptable(env));
    assert_eq!(BuildInfo::get(env).git_revision, Some("c0ffee"));
    env.date = None;
    assert!(!BuildInfo::is_acceptable(env));
}
