use weavelang::engine::{execute_drift, execute_metaweave, execute_resolve, execute_tension};
use weavelang::model::{FieldModel, ParamSet};
use weavelang::parser::{literal_micros, parse_weave, SyntaxErrorKind, WeaveLangParser};
use weavelang::sat_add;
use weavelang::source::weave_source;
use weavelang::state::WeaveLang;

fn field_value(m: &FieldModel, field: &str, param: &str) -> Option<i64> {
    m.get_params(field).and_then(|ps| ps.get(param))
}

fn single_field(name: &str, params: &[(&str, i64)]) -> FieldModel {
    let mut m = FieldModel::new();
    let mut ps = ParamSet::new();
    for (p, v) in params {
        ps.set(p, *v);
    }
    m.insert_field(name, ps);
    m
}

fn agents_named(names: &[&str]) -> FieldModel {
    let mut m = FieldModel::new();
    for n in names {
        m.insert_field(n, ParamSet::new());
    }
    m
}

#[test]
fn parse_simple_field() {
    let m = parse_weave("foo { bar = 1.5 }").unwrap();
    assert_eq!(field_value(&m, "foo", "bar"), Some(1_500_000));
}

#[test]
fn parse_through_parser_type() {
    let m = WeaveLangParser::parse("foo { bar = 2 }").unwrap();
    assert_eq!(field_value(&m, "foo", "bar"), Some(2_000_000));
}

#[test]
fn parse_empty_source() {
    let m = parse_weave("").unwrap();
    assert_eq!(m.num_fields(), 0);
}

#[test]
fn parse_whitespace_only() {
    let m = parse_weave("  \n\t  ").unwrap();
    assert_eq!(m.num_fields(), 0);
}

#[test]
fn parse_several_fields_and_params() {
    let src = "alpha { x = 1.0 y = -2.25 }\nbeta { z = 3 }";
    let m = parse_weave(src).unwrap();
    assert_eq!(field_value(&m, "alpha", "x"), Some(1_000_000));
    assert_eq!(field_value(&m, "alpha", "y"), Some(-2_250_000));
    assert_eq!(field_value(&m, "beta", "z"), Some(3_000_000));
}

#[test]
fn lenient_literal_defaults_to_zero() {
    let m = parse_weave("foo { bar = notanumber }").unwrap();
    assert_eq!(field_value(&m, "foo", "bar"), Some(0));
}

#[test]
fn syntax_error_on_missing_close() {
    let r = parse_weave("foo { bar = 1.0");
    let err = r.err().expect("a missing close delimiter must be fatal");
    assert_eq!(err.kind, SyntaxErrorKind::UnexpectedEnd);
}

#[test]
fn syntax_error_positions_and_kinds() {
    assert_eq!(
        parse_weave("1 { }").unwrap_err().kind,
        SyntaxErrorKind::ExpectedFieldName
    );
    assert_eq!(
        parse_weave("a 1").unwrap_err().kind,
        SyntaxErrorKind::ExpectedOpenBrace
    );
    assert_eq!(
        parse_weave("a { = 1 }").unwrap_err().kind,
        SyntaxErrorKind::ExpectedParamOrClose
    );
    assert_eq!(
        parse_weave("a { b 1 }").unwrap_err().kind,
        SyntaxErrorKind::ExpectedEquals
    );
    assert_eq!(
        parse_weave("a { b = }").unwrap_err().kind,
        SyntaxErrorKind::ExpectedValue
    );
}

#[test]
fn syntax_error_describe_is_readable() {
    let err = parse_weave("foo { bar = 1.0").unwrap_err();
    assert_eq!(err.describe(), "the text ended inside a field block");
    assert_eq!(err.pos, 15);
}

#[test]
fn field_overwrite_replaces_parameters() {
    let m = parse_weave("a { x = 1 } a { y = 2 }").unwrap();
    assert_eq!(field_value(&m, "a", "x"), None);
    assert_eq!(field_value(&m, "a", "y"), Some(2_000_000));
}

#[test]
fn duplicate_param_last_write_wins() {
    let m = parse_weave("a { x = 1 x = 2 }").unwrap();
    assert_eq!(field_value(&m, "a", "x"), Some(2_000_000));
}

#[test]
fn literal_forms() {
    assert_eq!(literal_micros("1.5"), 1_500_000);
    assert_eq!(literal_micros("3"), 3_000_000);
    assert_eq!(literal_micros("-2.25"), -2_250_000);
    assert_eq!(literal_micros("0.000001"), 1);
    assert_eq!(literal_micros("-0.000001"), -1);
    assert_eq!(literal_micros("0.1234567"), 123_456);
    assert_eq!(literal_micros("007"), 7_000_000);
}

#[test]
fn malformed_literals_default_to_zero() {
    assert_eq!(literal_micros(""), 0);
    assert_eq!(literal_micros("-"), 0);
    assert_eq!(literal_micros(".5"), 0);
    assert_eq!(literal_micros("5."), 0);
    assert_eq!(literal_micros("1.2.3"), 0);
    assert_eq!(literal_micros("+1.0"), 0);
    assert_eq!(literal_micros("12ab"), 0);
    assert_eq!(literal_micros("99999999999999999999"), 0);
}

#[test]
fn tension_formula() {
    let fields = single_field("generalist", &[("coherence_target", 400_000)]);
    let sensors = {
        let mut s = ParamSet::new();
        s.set("coherence", 900_000);
        s
    };
    assert_eq!(execute_tension(&fields, &sensors).unwrap(), 500_000);
}

#[test]
fn tension_defaults() {
    let fields = single_field("generalist", &[]);
    let sensors = ParamSet::new();
    assert_eq!(execute_tension(&fields, &sensors).unwrap(), 500_000);
}

#[test]
fn tension_missing_generalist_is_typed_error() {
    let fields = single_field("other", &[("coherence_target", 400_000)]);
    let sensors = ParamSet::new();
    let err = execute_tension(&fields, &sensors).err().expect("must fail");
    assert_eq!(err.field, "generalist");
}

#[test]
fn drift_increments_target() {
    let mut fields = single_field("generalist", &[("coherence_target", 400_000)]);
    let agents = agents_named(&["generalist"]);
    let history: Vec<i64> = Vec::new();
    execute_drift(&mut fields, &agents, &history, 500_000);
    // 0.5 * 0.01 = 0.005
    assert_eq!(
        field_value(&fields, "generalist", "coherence_target"),
        Some(405_000)
    );
}

#[test]
fn resolve_decrements_target() {
    let mut fields = single_field("generalist", &[("coherence_target", 400_000)]);
    let agents = agents_named(&["generalist"]);
    execute_resolve(&mut fields, &agents, 500_000);
    // 0.5 * 0.005 = 0.0025
    assert_eq!(
        field_value(&fields, "generalist", "coherence_target"),
        Some(397_500)
    );
}

#[test]
fn drift_falls_back_to_physics_constant() {
    let mut fields = single_field("lab", &[("physics_constant", 100_000)]);
    let agents = agents_named(&["lab"]);
    let history: Vec<i64> = Vec::new();
    execute_drift(&mut fields, &agents, &history, 200_000);
    assert_eq!(
        field_value(&fields, "lab", "physics_constant"),
        Some(102_000)
    );
}

#[test]
fn drift_resolve_symmetry_on_values() {
    let before = 400_000;
    let tension = 123_400;
    let mut drifted = single_field("f", &[("coherence_target", before)]);
    let mut resolved = single_field("f", &[("coherence_target", before)]);
    let agents = agents_named(&["f"]);
    let history: Vec<i64> = Vec::new();
    execute_drift(&mut drifted, &agents, &history, tension);
    execute_resolve(&mut resolved, &agents, tension);
    let up = field_value(&drifted, "f", "coherence_target").unwrap() - before;
    let down = before - field_value(&resolved, "f", "coherence_target").unwrap();
    assert_eq!(up, 2 * down);
    assert!(up > 0);
}

#[test]
fn drift_priority_prefers_coherence_target() {
    let mut fields = single_field(
        "f",
        &[("coherence_target", 100_000), ("physics_constant", 900_000)],
    );
    let agents = agents_named(&["f"]);
    let history: Vec<i64> = Vec::new();
    execute_drift(&mut fields, &agents, &history, 200_000);
    assert_eq!(field_value(&fields, "f", "coherence_target"), Some(102_000));
    assert_eq!(field_value(&fields, "f", "physics_constant"), Some(900_000));
}

#[test]
fn drift_skips_agents_without_field() {
    let mut fields = single_field("f", &[("coherence_target", 100_000)]);
    let agents = agents_named(&["ghost"]);
    let history: Vec<i64> = Vec::new();
    execute_drift(&mut fields, &agents, &history, 200_000);
    assert_eq!(field_value(&fields, "f", "coherence_target"), Some(100_000));
}

#[test]
fn drift_skips_field_without_target_parameter() {
    let mut fields = single_field("f", &[("unrelated", 1)]);
    let agents = agents_named(&["f"]);
    let history: Vec<i64> = Vec::new();
    execute_drift(&mut fields, &agents, &history, 200_000);
    assert_eq!(field_value(&fields, "f", "unrelated"), Some(1));
}

#[test]
fn metaweave_gated_off_leaves_model_alone() {
    let mut fields = single_field("quantum_expert", &[]);
    let mut sensors = ParamSet::new();
    sensors.set("gravity_sensor", 0);
    assert!(execute_metaweave(&mut fields, &sensors).is_ok());
    assert_eq!(field_value(&fields, "quantum_expert", "gravity"), None);
}

#[test]
fn metaweave_sets_gravity_when_sensed() {
    let mut fields = single_field("quantum_expert", &[]);
    let mut sensors = ParamSet::new();
    sensors.set("gravity_sensor", 1_000_000);
    assert!(execute_metaweave(&mut fields, &sensors).is_ok());
    assert_eq!(
        field_value(&fields, "quantum_expert", "gravity"),
        Some(9_810_000)
    );
}

#[test]
fn metaweave_missing_field_is_typed_error() {
    let mut fields = single_field("other", &[]);
    let mut sensors = ParamSet::new();
    sensors.set("gravity_sensor", 1);
    let err = execute_metaweave(&mut fields, &sensors)
        .err()
        .expect("must fail");
    assert_eq!(err.field, "quantum_expert");
    assert_eq!(field_value(&fields, "other", "gravity"), None);
}

#[test]
fn metaweave_without_sensor_entry_is_gated_off() {
    let mut fields = single_field("quantum_expert", &[]);
    let sensors = ParamSet::new();
    assert!(execute_metaweave(&mut fields, &sensors).is_ok());
    assert_eq!(field_value(&fields, "quantum_expert", "gravity"), None);
}

#[test]
fn source_round_trip() {
    let mut m = FieldModel::new();
    let mut a = ParamSet::new();
    a.set("coherence_target", 400_000);
    a.set("physics_constant", -2_250_000);
    m.insert_field("generalist", a);
    let mut b = ParamSet::new();
    b.set("gravity", 9_810_000);
    m.insert_field("quantum_expert", b);

    let text = weave_source(&m);
    let back = parse_weave(&text).unwrap();
    assert_eq!(back.num_fields(), 2);
    assert_eq!(
        field_value(&back, "generalist", "coherence_target"),
        Some(400_000)
    );
    assert_eq!(
        field_value(&back, "generalist", "physics_constant"),
        Some(-2_250_000)
    );
    assert_eq!(
        field_value(&back, "quantum_expert", "gravity"),
        Some(9_810_000)
    );
}

#[test]
fn source_exact_text() {
    let m = single_field("foo", &[("bar", 1_500_000)]);
    assert_eq!(weave_source(&m), "foo { bar = 1.500000 } ");
}

#[test]
fn state_session_tracks_history() {
    let mut s = WeaveLang::new();
    s.load_weave("generalist { coherence_target = 0.4 }")
        .unwrap();
    let mut sensors = ParamSet::new();
    sensors.set("coherence", 900_000);
    let t1 = s.execute_tension(&sensors).unwrap();
    assert_eq!(t1, 500_000);
    assert_eq!(s.history_len(), 1);
    assert_eq!(s.history_at(0), 500_000);
    let t2 = s.execute_tension(&sensors).unwrap();
    assert_eq!(t2, 500_000);
    assert_eq!(s.history_len(), 2);
}

#[test]
fn state_failed_load_keeps_previous_model() {
    let mut s = WeaveLang::new();
    s.load_weave("generalist { coherence_target = 0.4 }")
        .unwrap();
    assert!(s.load_weave("broken {").is_err());
    assert_eq!(
        field_value(s.fields(), "generalist", "coherence_target"),
        Some(400_000)
    );
    assert_eq!(s.history_len(), 0);
}

#[test]
fn state_drift_and_resolve_update_model() {
    let mut s = WeaveLang::new();
    s.load_weave("generalist { coherence_target = 0.4 }")
        .unwrap();
    let agents = agents_named(&["generalist"]);
    s.execute_drift(&agents, 500_000);
    assert_eq!(
        field_value(s.fields(), "generalist", "coherence_target"),
        Some(405_000)
    );
    s.execute_resolve(&agents, 500_000);
    assert_eq!(
        field_value(s.fields(), "generalist", "coherence_target"),
        Some(402_500)
    );
}

#[test]
fn saturating_addition_clamps() {
    assert_eq!(sat_add(i64::MAX, 1), i64::MAX);
    assert_eq!(sat_add(i64::MIN, -1), i64::MIN);
    assert_eq!(sat_add(2, 3), 5);
}

#[test]
fn drift_saturates_at_the_top() {
    let mut fields = single_field("f", &[("coherence_target", i64::MAX - 1)]);
    let agents = agents_named(&["f"]);
    let history: Vec<i64> = Vec::new();
    execute_drift(&mut fields, &agents, &history, 1_000_000);
    assert_eq!(field_value(&fields, "f", "coherence_target"), Some(i64::MAX));
}
