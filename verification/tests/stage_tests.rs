use brepper::stage::{parse_stage, resolve_verbosity, viz_active, Stage, Units};

#[test]
fn stage_at_least() {
    let s = Stage(2, 3);
    assert!(s.at_least(1, 1));
    assert!(s.at_least(2, 1));
    assert!(s.at_least(2, 3));
    assert!(!s.at_least(2, 4));
    assert!(!s.at_least(3, 1));

    // Stage(2, 0) means all of stage 2 = (2, 6)
    let s2 = Stage(2, 0);
    assert!(s2.at_least(2, 6));
    assert!(!s2.at_least(3, 1));
}

#[test]
fn stage_zero_minor_normalizes_to_last_sub_stage() {
    assert_eq!(Stage(1, 0).normalized(), (1, 3));
    assert_eq!(Stage(2, 0).normalized(), (2, 6));
    assert_eq!(Stage(3, 0).normalized(), (3, 6));
    assert_eq!(Stage(4, 0).normalized(), (4, 1));
    assert_eq!(Stage(2, 3).normalized(), (2, 3));
}

#[test]
fn stage_normalized_is_idempotent_on_examples() {
    for major in 1..=4u8 {
        let (m, s) = Stage(major, 0).normalized();
        assert_eq!(Stage(m, s).normalized(), (m, s));
    }
}

#[test]
fn stage_default_is_last_stage() {
    let s = Stage::default();
    assert_eq!(s, Stage(4, 1));
    assert!(s.at_least(4, 1));
}

#[test]
fn parse_stage_sub_stage() {
    assert_eq!(parse_stage("2.3"), Ok(Stage(2, 3)));
    assert_eq!(parse_stage("1.1"), Ok(Stage(1, 1)));
    assert_eq!(parse_stage("4.1"), Ok(Stage(4, 1)));
}

#[test]
fn parse_stage_whole_stage() {
    assert_eq!(parse_stage("2"), Ok(Stage(2, 0)));
    assert_eq!(parse_stage("4"), Ok(Stage(4, 0)));
}

#[test]
fn parse_stage_out_of_range_sub_stage() {
    assert_eq!(parse_stage("2.7"), Err("invalid stage: 2.7 (valid: 1.1–4.1)".to_string()));
    assert_eq!(parse_stage("4.2"), Err("invalid stage: 4.2 (valid: 1.1–4.1)".to_string()));
    assert_eq!(parse_stage("0.1"), Err("invalid stage: 0.1 (valid: 1.1–4.1)".to_string()));
}

#[test]
fn parse_stage_out_of_range_stage() {
    assert_eq!(parse_stage("5"), Err("invalid stage: 5 (valid: 1–4)".to_string()));
    assert_eq!(parse_stage("0"), Err("invalid stage: 0 (valid: 1–4)".to_string()));
}

#[test]
fn parse_stage_not_a_number() {
    assert_eq!(parse_stage("x"), Err("invalid stage: x".to_string()));
    assert_eq!(parse_stage("2.x"), Err("invalid stage: 2.x".to_string()));
    assert_eq!(parse_stage(""), Err("invalid stage: ".to_string()));
    assert_eq!(parse_stage("256"), Err("invalid stage: 256".to_string()));
}

#[test]
fn parse_stage_accepts_plus_sign_like_integer_parsing() {
    assert_eq!(parse_stage("+1.1"), Ok(Stage(1, 1)));
    assert_eq!(parse_stage("+3"), Ok(Stage(3, 0)));
}

#[test]
fn units_names() {
    assert_eq!(Units::Mm.name(), "mm");
    assert_eq!(Units::Cm.name(), "cm");
    assert_eq!(Units::M.name(), "m");
    assert_eq!(Units::In.name(), "in");
    assert_eq!(Units::Ft.name(), "ft");
    assert_eq!(Units::Um.name(), "μm");
    assert_eq!(Units::default(), Units::Mm);
}

#[test]
fn verbosity_takes_larger_form() {
    assert_eq!(resolve_verbosity(None, 0), 0);
    assert_eq!(resolve_verbosity(None, 2), 2);
    assert_eq!(resolve_verbosity(Some(3), 1), 3);
    assert_eq!(resolve_verbosity(Some(1), 4), 4);
}

#[test]
fn viz_active_matches_normalized_stage() {
    let stages = vec![Stage(2, 0), Stage(3, 1)];
    assert!(viz_active(&stages, 2, 6));
    assert!(viz_active(&stages, 3, 1));
    assert!(!viz_active(&stages, 2, 1));
    assert!(!viz_active(&Vec::new(), 1, 1));
}

#[test]
fn last_sub_stage_of_each_stage() {
    assert_eq!(Stage::last_minor(1), 3);
    assert_eq!(Stage::last_minor(2), 6);
    assert_eq!(Stage::last_minor(3), 6);
    assert_eq!(Stage::last_minor(4), 1);
    assert_eq!(Stage::last_minor(9), 0);
}
