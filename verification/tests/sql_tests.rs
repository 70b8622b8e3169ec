use xclogger::filter::{FilterConfig, NumberRange, PatternMode, StringPattern};
use xclogger::sql::{build_number_range_condition, build_string_condition, get_params, SqlParam};

fn empty_config() -> FilterConfig {
    FilterConfig {
        label: None,
        role: None,
        file: None,
        function: None,
        level: None,
        time: None,
        process_id: None,
        thread_id: None,
        line: None,
        messages: None,
    }
}

#[test]
fn string_condition_forms() {
    let eq = build_string_condition(
        "label",
        &StringPattern {
            mode: PatternMode::Equal,
            value: "x".to_string(),
        },
    );
    assert_eq!(eq.0, "label = ?");
    assert_eq!(eq.1, SqlParam::Text("x".to_string()));

    let contain = build_string_condition(
        "label",
        &StringPattern {
            mode: PatternMode::Contain,
            value: "x".to_string(),
        },
    );
    assert_eq!(contain.0, "label LIKE ?");
    assert_eq!(contain.1, SqlParam::Text("%x%".to_string()));

    let start = build_string_condition(
        "role",
        &StringPattern {
            mode: PatternMode::Start,
            value: "ab".to_string(),
        },
    );
    assert_eq!(start.0, "role LIKE ?");
    assert_eq!(start.1, SqlParam::Text("ab%".to_string()));

    let end = build_string_condition(
        "file",
        &StringPattern {
            mode: PatternMode::End,
            value: ".rs".to_string(),
        },
    );
    assert_eq!(end.0, "file LIKE ?");
    assert_eq!(end.1, SqlParam::Text("%.rs".to_string()));
}

#[test]
fn number_range_condition_forms() {
    let both = build_number_range_condition(
        "level",
        &NumberRange {
            min: Some(1),
            max: Some(5),
        },
    );
    assert_eq!(both.0, "level >= ? AND level <= ?");
    assert_eq!(both.1, Some(1));
    assert_eq!(both.2, Some(5));

    let min_only = build_number_range_condition(
        "time",
        &NumberRange {
            min: Some(10),
            max: None,
        },
    );
    assert_eq!(min_only.0, "time >= ?");
    assert_eq!(min_only.1, Some(10));
    assert_eq!(min_only.2, None);

    let max_only = build_number_range_condition(
        "line",
        &NumberRange {
            min: None,
            max: Some(7),
        },
    );
    assert_eq!(max_only.0, "line <= ?");

    let neither = build_number_range_condition(
        "level",
        &NumberRange {
            min: None,
            max: None,
        },
    );
    assert_eq!(neither.0, "1=1");
    assert_eq!(neither.1, None);
    assert_eq!(neither.2, None);
}

#[test]
fn where_clause_of_empty_filter_is_empty() {
    let (clause, params) = get_params(&empty_config());
    assert_eq!(clause, "");
    assert!(params.is_empty());
}

#[test]
fn where_clause_conjoins_present_slots() {
    let mut cfg = empty_config();
    cfg.label = Some(StringPattern {
        mode: PatternMode::Start,
        value: "data1".to_string(),
    });
    let (clause, params) = get_params(&cfg);
    assert_eq!(clause, "WHERE label LIKE ?");
    assert_eq!(params, vec![SqlParam::Text("data1%".to_string())]);

    let mut cfg2 = empty_config();
    cfg2.role = Some(StringPattern {
        mode: PatternMode::Equal,
        value: "app".to_string(),
    });
    cfg2.level = Some(NumberRange {
        min: Some(2),
        max: Some(4),
    });
    cfg2.line = Some(NumberRange {
        min: None,
        max: None,
    });
    let (clause2, params2) = get_params(&cfg2);
    assert_eq!(clause2, "WHERE role = ? AND level >= ? AND level <= ? AND 1=1");
    assert_eq!(
        params2,
        vec![
            SqlParam::Text("app".to_string()),
            SqlParam::Int(2),
            SqlParam::Int(4),
        ]
    );
}
