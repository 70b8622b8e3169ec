use xclogger::codec::MessageData;
use xclogger::db::{Config, MessageDB, DB};
use xclogger::filter::{FilterConfig, MessageField, NumberRange, PatternMode, StringPattern};
use xclogger::store::{DistinctValues, LogStore, StoreError};

fn record(role: &str, label: &str, level: i32) -> MessageData {
    MessageData {
        role: role.to_string(),
        label: label.to_string(),
        file: "main.rs".to_string(),
        function: "main".to_string(),
        time: 1000,
        process_id: 7,
        thread_id: 1,
        line: 10,
        level,
        messages: vec!["msg".to_string()],
    }
}

fn empty_filter() -> FilterConfig {
    FilterConfig {
        label: None,
        role: None,
        file: None,
        function: None,
        level: None,
        time: None,
        process_id: None,
        thread_id: None,
        line: None,
        messages: None,
    }
}

#[test]
fn test() {
    let mut db = LogStore::new();
    db.connect("xclogger.db").unwrap();
    let config = FilterConfig {
        label: Some(StringPattern {
            mode: PatternMode::Start,
            value: "data1".to_string(),
        }),
        role: None,
        file: None,
        function: None,
        level: None,
        time: None,
        process_id: None,
        thread_id: None,
        line: None,
        messages: None,
    };
    let order_by = MessageField::Id;
    let limit = 100;
    let offset = 0;
    println!("{:?}", db.filter_messages_count(&config));
    println!(
        "{:?}",
        db.filter_messages(&config, &order_by, &limit, &offset, false)
    );
}

#[test]
fn get_distinct() {
    let mut db = LogStore::new();
    db.connect("xclogger.db").unwrap();
    let labels = db.get_distinct(&MessageField::Label).unwrap();
    println!("{:?}", labels);
    let files = db.get_distinct(&MessageField::File).unwrap();
    println!("{:?}", files);
    let roles = db.get_distinct(&MessageField::Role).unwrap();
    println!("{:?}", roles);
    let process_ids = db.get_distinct(&MessageField::ProcessId).unwrap();
    println!("{:?}", process_ids);
    let thread_ids = db.get_distinct(&MessageField::ThreadId).unwrap();
    println!("{:?}", thread_ids);
}

#[test]
fn operations_fail_before_connect() {
    let mut db = LogStore::new();
    assert!(!db.is_connected());
    assert_eq!(db.get_message_count(), Err(StoreError::NotConnected));
    assert_eq!(
        db.insert_message(&record("a", "l", 1)),
        Err(StoreError::NotConnected)
    );
    assert_eq!(
        db.filter_messages_count(&empty_filter()),
        Err(StoreError::NotConnected)
    );
    assert_eq!(
        db.delete_messages(&empty_filter()),
        Err(StoreError::NotConnected)
    );
    assert_eq!(db.get_config("version"), Err(StoreError::NotConnected));
    db.connect("xclogger.db").unwrap();
    assert!(db.is_connected());
    assert_eq!(db.get_message_count(), Ok(0));
}

#[test]
fn insert_assigns_increasing_ids() {
    let mut db = LogStore::new();
    db.connect("db").unwrap();
    assert_eq!(db.insert_message(&record("a", "l1", 1)), Ok(1));
    assert_eq!(db.insert_message(&record("b", "l2", 2)), Ok(2));
    assert_eq!(db.insert_message(&record("c", "l3", 3)), Ok(3));
    assert_eq!(db.get_message_count(), Ok(3));
}

#[test]
fn insert_then_fetch_orders_by_id() {
    let mut db = LogStore::new();
    db.connect("db").unwrap();
    db.insert_message(&record("a", "first", 1)).unwrap();
    db.insert_message(&record("b", "second", 2)).unwrap();
    let id = db.insert_message(&record("c", "last", 3)).unwrap();
    let asc = db.get_messages(-1, 0, false).unwrap();
    assert_eq!(asc.len(), 3);
    assert_eq!(asc[asc.len() - 1].id, id);
    assert_eq!(asc[asc.len() - 1].label, "last");
    let desc = db.get_messages(-1, 0, true).unwrap();
    assert_eq!(desc[0].id, id);
    assert_eq!(desc[0].label, "last");
}

#[test]
fn pagination_limits_and_offsets() {
    let mut db = LogStore::new();
    db.connect("db").unwrap();
    for i in 0..5 {
        db.insert_message(&record("r", &format!("l{}", i), i)).unwrap();
    }
    let page = db.get_messages(2, 1, false).unwrap();
    assert_eq!(page.len(), 2);
    assert_eq!(page[0].id, 2);
    assert_eq!(page[1].id, 3);
    assert_eq!(db.get_messages(0, 0, false).unwrap().len(), 0);
    assert_eq!(db.get_messages(-1, 3, false).unwrap().len(), 2);
    assert_eq!(db.get_messages(10, 0, false).unwrap().len(), 5);
    assert_eq!(db.get_messages(-1, 99, false).unwrap().len(), 0);
}

#[test]
fn empty_filter_matches_full_table() {
    let mut db = LogStore::new();
    db.connect("db").unwrap();
    for i in 0..4 {
        db.insert_message(&record("r", "l", i)).unwrap();
    }
    let total = db.get_message_count().unwrap();
    assert_eq!(db.filter_messages_count(&empty_filter()).unwrap(), total);
    let fetched = db
        .filter_messages(&empty_filter(), &MessageField::Id, &-1, &0, false)
        .unwrap();
    assert_eq!(fetched.len(), total);
}

#[test]
fn string_patterns_match_as_specified() {
    let mut db = LogStore::new();
    db.connect("db").unwrap();
    db.insert_message(&record("a", "error-1", 1)).unwrap();
    db.insert_message(&record("b", "warning", 2)).unwrap();

    let mut contain = empty_filter();
    contain.label = Some(StringPattern {
        mode: PatternMode::Contain,
        value: "err".to_string(),
    });
    let hits = db
        .filter_messages(&contain, &MessageField::Id, &-1, &0, false)
        .unwrap();
    assert_eq!(hits.len(), 1);
    assert_eq!(hits[0].label, "error-1");

    let mut start = empty_filter();
    start.label = Some(StringPattern {
        mode: PatternMode::Start,
        value: "error".to_string(),
    });
    assert_eq!(db.filter_messages_count(&start).unwrap(), 1);

    let mut start_miss = empty_filter();
    start_miss.label = Some(StringPattern {
        mode: PatternMode::Start,
        value: "rror".to_string(),
    });
    assert_eq!(db.filter_messages_count(&start_miss).unwrap(), 0);

    let mut end = empty_filter();
    end.label = Some(StringPattern {
        mode: PatternMode::End,
        value: "-1".to_string(),
    });
    let end_hits = db
        .filter_messages(&end, &MessageField::Id, &-1, &0, false)
        .unwrap();
    assert_eq!(end_hits.len(), 1);
    assert_eq!(end_hits[0].label, "error-1");

    let mut eq = empty_filter();
    eq.label = Some(StringPattern {
        mode: PatternMode::Equal,
        value: "warning".to_string(),
    });
    let eq_hits = db
        .filter_messages(&eq, &MessageField::Id, &-1, &0, false)
        .unwrap();
    assert_eq!(eq_hits.len(), 1);
    assert_eq!(eq_hits[0].label, "warning");
}

#[test]
fn min_only_range_is_a_lower_bound() {
    let mut db = LogStore::new();
    db.connect("db").unwrap();
    for level in [1, 2, 3, 4, 5] {
        db.insert_message(&record("r", "l", level)).unwrap();
    }
    let mut cfg = empty_filter();
    cfg.level = Some(NumberRange {
        min: Some(3),
        max: None,
    });
    let hits = db
        .filter_messages(&cfg, &MessageField::Level, &-1, &0, false)
        .unwrap();
    assert_eq!(hits.len(), 3);
    for h in &hits {
        assert!(h.level >= 3);
    }
    assert_eq!(db.filter_messages_count(&cfg).unwrap(), 3);
}

#[test]
fn range_with_both_bounds() {
    let mut db = LogStore::new();
    db.connect("db").unwrap();
    for level in [1, 2, 3, 4, 5] {
        db.insert_message(&record("r", "l", level)).unwrap();
    }
    let mut cfg = empty_filter();
    cfg.level = Some(NumberRange {
        min: Some(2),
        max: Some(4),
    });
    assert_eq!(db.filter_messages_count(&cfg).unwrap(), 3);
}

#[test]
fn filter_orders_by_named_column() {
    let mut db = LogStore::new();
    db.connect("db").unwrap();
    db.insert_message(&record("charlie", "l", 3)).unwrap();
    db.insert_message(&record("alpha", "l", 1)).unwrap();
    db.insert_message(&record("bravo", "l", 2)).unwrap();
    let by_role = db
        .filter_messages(&empty_filter(), &MessageField::Role, &-1, &0, false)
        .unwrap();
    let roles: Vec<&str> = by_role.iter().map(|m| m.role.as_str()).collect();
    assert_eq!(roles, vec!["alpha", "bravo", "charlie"]);
    let by_role_desc = db
        .filter_messages(&empty_filter(), &MessageField::Role, &-1, &0, true)
        .unwrap();
    let roles_desc: Vec<&str> = by_role_desc.iter().map(|m| m.role.as_str()).collect();
    assert_eq!(roles_desc, vec!["charlie", "bravo", "alpha"]);
    let by_level = db
        .filter_messages(&empty_filter(), &MessageField::Level, &-1, &0, false)
        .unwrap();
    assert_eq!(by_level[0].level, 1);
    assert_eq!(by_level[2].level, 3);
}

#[test]
fn messages_pattern_searches_joined_text() {
    let mut db = LogStore::new();
    db.connect("db").unwrap();
    let mut r = record("r", "l", 1);
    r.messages = vec!["alpha line".to_string(), "beta line".to_string()];
    db.insert_message(&r).unwrap();
    let mut cfg = empty_filter();
    cfg.messages = Some(StringPattern {
        mode: PatternMode::Contain,
        value: "beta".to_string(),
    });
    assert_eq!(db.filter_messages_count(&cfg).unwrap(), 1);
    let mut miss = empty_filter();
    miss.messages = Some(StringPattern {
        mode: PatternMode::Contain,
        value: "gamma".to_string(),
    });
    assert_eq!(db.filter_messages_count(&miss).unwrap(), 0);
}

#[test]
fn distinct_roles_sorted_unique() {
    let mut db = LogStore::new();
    db.connect("db").unwrap();
    for role in ["a", "b", "a", "c"] {
        db.insert_message(&record(role, "l", 1)).unwrap();
    }
    let distinct = db.get_distinct(&MessageField::Role).unwrap();
    assert_eq!(
        distinct,
        DistinctValues::Text(vec!["a".to_string(), "b".to_string(), "c".to_string()])
    );
}

#[test]
fn distinct_levels_sorted_unique() {
    let mut db = LogStore::new();
    db.connect("db").unwrap();
    for level in [5, 1, 5, 3] {
        db.insert_message(&record("r", "l", level)).unwrap();
    }
    assert_eq!(
        db.get_distinct(&MessageField::Level).unwrap(),
        DistinctValues::Signed(vec![1, 3, 5])
    );
    assert_eq!(
        db.get_distinct(&MessageField::Id).unwrap(),
        DistinctValues::Unsigned(vec![1, 2, 3, 4])
    );
}

#[test]
fn delete_matching_none_changes_nothing() {
    let mut db = LogStore::new();
    db.connect("db").unwrap();
    for i in 0..3 {
        db.insert_message(&record("r", "keep", i)).unwrap();
    }
    let mut cfg = empty_filter();
    cfg.label = Some(StringPattern {
        mode: PatternMode::Equal,
        value: "absent".to_string(),
    });
    assert_eq!(db.delete_messages(&cfg).unwrap(), 0);
    assert_eq!(db.get_message_count(), Ok(3));
}

#[test]
fn delete_with_empty_filter_empties_table() {
    let mut db = LogStore::new();
    db.connect("db").unwrap();
    for i in 0..4 {
        db.insert_message(&record("r", "l", i)).unwrap();
    }
    let prior = db.get_message_count().unwrap();
    assert_eq!(db.delete_messages(&empty_filter()).unwrap(), prior);
    assert_eq!(db.get_message_count(), Ok(0));
}

#[test]
fn delete_matching_subset() {
    let mut db = LogStore::new();
    db.connect("db").unwrap();
    db.insert_message(&record("a", "error-1", 1)).unwrap();
    db.insert_message(&record("b", "warning", 2)).unwrap();
    db.insert_message(&record("c", "error-2", 3)).unwrap();
    let mut cfg = empty_filter();
    cfg.label = Some(StringPattern {
        mode: PatternMode::Start,
        value: "error".to_string(),
    });
    assert_eq!(db.delete_messages(&cfg).unwrap(), 2);
    let rest = db.get_messages(-1, 0, false).unwrap();
    assert_eq!(rest.len(), 1);
    assert_eq!(rest[0].label, "warning");
}

#[test]
fn config_table_round_trip() {
    let mut db = LogStore::new();
    db.connect("db").unwrap();
    assert_eq!(db.get_config("version").unwrap(), Some("1.0.0".to_string()));
    db.set_config("endpoint", "tcp://127.0.0.1:5555").unwrap();
    assert_eq!(
        db.get_config("endpoint").unwrap(),
        Some("tcp://127.0.0.1:5555".to_string())
    );
    db.set_config("endpoint", "tcp://0.0.0.0:6000").unwrap();
    assert_eq!(
        db.get_config("endpoint").unwrap(),
        Some("tcp://0.0.0.0:6000".to_string())
    );
    assert_eq!(db.get_config("missing").unwrap(), None);
    let all = db.get_all_configs().unwrap();
    assert_eq!(
        all,
        vec![
            ("endpoint".to_string(), "tcp://0.0.0.0:6000".to_string()),
            ("version".to_string(), "1.0.0".to_string()),
        ]
    );
}

fn count_via_trait<T: MessageDB>(db: &T) -> usize {
    db.get_message_count().unwrap()
}

fn version_via_trait<T: Config>(db: &T) -> Option<String> {
    db.get_config("version").unwrap()
}

#[test]
fn store_implements_db_traits() {
    let mut db = LogStore::new();
    DB::connect(&mut db, "xclogger.db").unwrap();
    assert!(DB::is_connected(&db));
    MessageDB::insert_message(&mut db, &record("a", "l", 1)).unwrap();
    assert_eq!(count_via_trait(&db), 1);
    assert_eq!(version_via_trait(&db), Some("1.0.0".to_string()));
}

#[test]
fn connect_is_idempotent() {
    let mut db = LogStore::new();
    db.connect("db").unwrap();
    db.insert_message(&record("r", "l", 1)).unwrap();
    db.set_config("version", "2.0.0").unwrap();
    db.connect("db").unwrap();
    assert_eq!(db.get_message_count(), Ok(1));
    assert_eq!(db.get_config("version").unwrap(), Some("2.0.0".to_string()));
}
