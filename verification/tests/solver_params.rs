// Tests for solver status and typed solver parameters.

use optmodel::solver::{SolverParam, SolverParams, SolverStatus};

#[test]
fn status_names() {
    assert_eq!(SolverStatus::Solved.as_str(), "solved");
    assert_eq!(SolverStatus::Unknown.as_str(), "unknown");
    assert_eq!(SolverStatus::Error.as_str(), "error");
}

fn store() -> SolverParams {
    let mut ps = SolverParams::new();
    ps.define(String::from("iterations"), SolverParam::IntParam(100));
    ps.define(
        String::from("tolerance"),
        SolverParam::FloatParam(1e-8f64.to_bits()),
    );
    ps.define(
        String::from("method"),
        SolverParam::StrParam(String::from("dual")),
    );
    ps
}

#[test]
fn get_param_finds_values() {
    let ps = store();
    match ps.get_param("iterations") {
        Some(SolverParam::IntParam(v)) => assert_eq!(*v, 100),
        _ => panic!("expected an integer parameter"),
    }
    match ps.get_param("tolerance") {
        Some(SolverParam::FloatParam(bits)) => assert_eq!(f64::from_bits(*bits), 1e-8),
        _ => panic!("expected a float parameter"),
    }
    assert!(ps.get_param("absent").is_none());
}

#[test]
fn set_param_replaces_matching_kind() {
    let mut ps = store();
    ps.set_param("iterations", SolverParam::IntParam(250)).unwrap();
    match ps.get_param("iterations") {
        Some(SolverParam::IntParam(v)) => assert_eq!(*v, 250),
        _ => panic!("expected an integer parameter"),
    }
    ps.set_param("method", SolverParam::StrParam(String::from("primal")))
        .unwrap();
    match ps.get_param("method") {
        Some(SolverParam::StrParam(s)) => assert_eq!(s, "primal"),
        _ => panic!("expected a string parameter"),
    }
}

#[test]
fn set_param_unknown_name() {
    let mut ps = store();
    let e = ps
        .set_param("absent", SolverParam::IntParam(1))
        .unwrap_err();
    assert_eq!(e.as_str(), "unknown parameter");
}

#[test]
fn set_param_kind_mismatch() {
    let mut ps = store();
    let e = ps
        .set_param("iterations", SolverParam::StrParam(String::from("ten")))
        .unwrap_err();
    assert_eq!(e.as_str(), "invalid parameter type");
    // the stored value is untouched
    match ps.get_param("iterations") {
        Some(SolverParam::IntParam(v)) => assert_eq!(*v, 100),
        _ => panic!("expected an integer parameter"),
    }
}
