use toml_rs::datetime::{create_timezone_from_offset, to_offset};
use toml_rs::decode::{check_parsed_float, toml_to_python, DecodeError};
use toml_rs::document::{build_document, python_to_toml, validate_inline_paths};
use toml_rs::encode::{python_to_toml_value, EncodeError};
use toml_rs::guard::{Limit, RecursionGuard, RECURSION_LIMIT};
use toml_rs::model::{
    Date, Datetime, DocItem, DocValue, HostTime, HostValue, Offset, Time, TomlValue, TzInfo,
};

type Handler = fn(u64) -> Result<HostValue, String>;

fn s(x: &str) -> HostValue {
    HostValue::Str(x.to_string())
}

fn map(entries: Vec<(&str, HostValue)>) -> HostValue {
    HostValue::Mapping(entries.into_iter().map(|(k, v)| (s(k), v)).collect())
}

fn same_host(a: &HostValue, b: &HostValue) -> bool {
    match (a, b) {
        (HostValue::Str(x), HostValue::Str(y)) => x == y,
        (HostValue::Bool(x), HostValue::Bool(y)) => x == y,
        (HostValue::Int(x), HostValue::Int(y)) => x == y,
        (HostValue::Float(x), HostValue::Float(y)) => x == y,
        (HostValue::Sequence(x), HostValue::Sequence(y)) => {
            x.len() == y.len() && x.iter().zip(y.iter()).all(|(p, q)| same_host(p, q))
        }
        (HostValue::Mapping(x), HostValue::Mapping(y)) => {
            x.len() == y.len()
                && x.iter().zip(y.iter()).all(|(p, q)| same_host(&p.0, &q.0) && same_host(&p.1, &q.1))
        }
        (HostValue::DateTime(d1, t1, z1), HostValue::DateTime(d2, t2, z2)) => {
            d1 == d2 && t1 == t2 && z1 == z2
        }
        (HostValue::Date(x), HostValue::Date(y)) => x == y,
        (HostValue::Time(x), HostValue::Time(y)) => x == y,
        (HostValue::Other(x), HostValue::Other(y)) => x == y,
        _ => false,
    }
}

fn nested_sequences(containers: usize) -> HostValue {
    let mut v = HostValue::Int(1);
    for _ in 0..containers {
        v = HostValue::Sequence(vec![v]);
    }
    v
}

fn nested_alternating(containers: usize) -> HostValue {
    let mut v = HostValue::Int(1);
    for i in 0..containers {
        v = if i % 2 == 0 { HostValue::Sequence(vec![v]) } else { map(vec![("k", v)]) };
    }
    v
}

fn nested_arrays(containers: usize) -> TomlValue {
    let mut v = TomlValue::Integer(1);
    for i in 0..containers {
        v = if i % 2 == 0 {
            TomlValue::Array(vec![v])
        } else {
            TomlValue::Table(vec![("k".to_string(), v)])
        };
    }
    v
}

#[test]
fn round_trip_plain_values() {
    let v = map(vec![
        ("title", s("TOML")),
        ("n", HostValue::Int(-42)),
        ("ok", HostValue::Bool(true)),
        ("pi", HostValue::Float(3.5f64.to_bits())),
        ("list", HostValue::Sequence(vec![HostValue::Int(1), s("two"), HostValue::Sequence(vec![])])),
        ("inner", map(vec![("x", HostValue::Int(7)), ("empty", HostValue::Mapping(vec![]))])),
    ]);
    let t = python_to_toml_value(&v).unwrap();
    let back = toml_to_python::<Handler>(&t, None).unwrap();
    assert!(same_host(&v, &back));
}

#[test]
fn encode_keeps_key_order_and_values() {
    let v = map(vec![("b", HostValue::Int(2)), ("a", HostValue::Bool(false))]);
    match python_to_toml_value(&v).unwrap() {
        TomlValue::Table(t) => {
            assert_eq!(t.len(), 2);
            assert_eq!(t[0].0, "b");
            assert!(matches!(t[0].1, TomlValue::Integer(2)));
            assert_eq!(t[1].0, "a");
            assert!(matches!(t[1].1, TomlValue::Boolean(false)));
        }
        other => panic!("expected a table, got {:?}", other),
    }
}

#[test]
fn recursion_bound_encode() {
    assert!(python_to_toml_value(&nested_alternating(RECURSION_LIMIT)).is_ok());
    assert!(matches!(
        python_to_toml_value(&nested_alternating(RECURSION_LIMIT + 1)),
        Err(EncodeError::RecursionExceeded)
    ));
    assert!(matches!(
        python_to_toml_value(&nested_sequences(RECURSION_LIMIT + 1)),
        Err(EncodeError::RecursionExceeded)
    ));
}

#[test]
fn recursion_bound_decode() {
    assert!(toml_to_python::<Handler>(&nested_arrays(RECURSION_LIMIT), None).is_ok());
    assert!(matches!(
        toml_to_python::<Handler>(&nested_arrays(RECURSION_LIMIT + 1), None),
        Err(DecodeError::RecursionExceeded)
    ));
}

#[test]
fn recursion_bound_document() {
    assert!(python_to_toml(&nested_alternating(RECURSION_LIMIT), None).is_ok());
    assert!(matches!(
        python_to_toml(&nested_alternating(RECURSION_LIMIT + 1), None),
        Err(EncodeError::RecursionExceeded)
    ));
}

#[test]
fn empty_containers_bypass_guard() {
    let mut v = HostValue::Sequence(vec![]);
    for _ in 0..RECURSION_LIMIT {
        v = HostValue::Sequence(vec![v]);
    }
    assert!(python_to_toml_value(&v).is_ok());
}

#[test]
fn non_string_key_names_its_type() {
    let v = HostValue::Mapping(vec![(s("a"), HostValue::Int(1)), (HostValue::Int(3), HostValue::Int(2))]);
    match python_to_toml_value(&v) {
        Err(EncodeError::NonStringKey(name)) => assert_eq!(name, "int"),
        other => panic!("unexpected {:?}", other),
    }
    match python_to_toml(&v, None) {
        Err(EncodeError::NonStringKey(name)) => assert_eq!(name, "int"),
        other => panic!("unexpected {:?}", other),
    }
    match &v {
        HostValue::Mapping(m) => assert_eq!(m.len(), 2),
        _ => unreachable!(),
    }
}

#[test]
fn unsupported_value_names_its_type() {
    let v = map(vec![("x", HostValue::Other("set".to_string()))]);
    match python_to_toml_value(&v) {
        Err(EncodeError::Unsupported(name)) => assert_eq!(name, "set"),
        other => panic!("unexpected {:?}", other),
    }
    match python_to_toml(&v, None) {
        Err(EncodeError::Unsupported(name)) => assert_eq!(name, "set"),
        other => panic!("unexpected {:?}", other),
    }
}

fn date() -> Date {
    Date { year: 1979, month: 5, day: 27 }
}

fn time() -> Time {
    Time { hour: 7, minute: 32, second: 0, nanosecond: 999_999_999 }
}

fn host_time() -> HostTime {
    HostTime { hour: 7, minute: 32, second: 0, microsecond: 999_999 }
}

#[test]
fn datetime_combinations() {
    let aware = TomlValue::Datetime(Datetime { date: Some(date()), time: Some(time()), offset: Some(Offset::Z) });
    match toml_to_python::<Handler>(&aware, None).unwrap() {
        HostValue::DateTime(d, t, z) => {
            assert_eq!(d, date());
            assert_eq!(t, host_time());
            assert_eq!(z, Some(TzInfo::Utc));
        }
        other => panic!("unexpected {:?}", other),
    }
    let naive = TomlValue::Datetime(Datetime { date: Some(date()), time: Some(time()), offset: None });
    assert!(matches!(toml_to_python::<Handler>(&naive, None).unwrap(), HostValue::DateTime(_, _, None)));
    let only_date = TomlValue::Datetime(Datetime { date: Some(date()), time: None, offset: None });
    assert!(matches!(toml_to_python::<Handler>(&only_date, None).unwrap(), HostValue::Date(d) if d == date()));
    let only_time = TomlValue::Datetime(Datetime { date: None, time: Some(time()), offset: None });
    assert!(matches!(toml_to_python::<Handler>(&only_time, None).unwrap(), HostValue::Time(t) if t == host_time()));
    let bad = TomlValue::Datetime(Datetime { date: None, time: Some(time()), offset: Some(Offset::Z) });
    assert!(matches!(toml_to_python::<Handler>(&bad, None), Err(DecodeError::InvalidDatetimeFormat)));
}

#[test]
fn negative_offset_uses_floor_division() {
    assert_eq!(create_timezone_from_offset(Offset::Custom { minutes: -90 }), TzInfo::Fixed { days: -1, seconds: 81_000 });
    assert_eq!(create_timezone_from_offset(Offset::Custom { minutes: 330 }), TzInfo::Fixed { days: 0, seconds: 19_800 });
    assert_eq!(create_timezone_from_offset(Offset::Z), TzInfo::Utc);
}

#[test]
fn offset_truncates_to_minutes() {
    assert_eq!(to_offset(TzInfo::Fixed { days: 0, seconds: 3_659 }), Some(Offset::Custom { minutes: 60 }));
    assert_eq!(to_offset(TzInfo::Fixed { days: -1, seconds: 81_000 }), Some(Offset::Custom { minutes: -90 }));
    assert_eq!(to_offset(TzInfo::Fixed { days: 0, seconds: 0 }), Some(Offset::Custom { minutes: 0 }));
    assert_eq!(to_offset(TzInfo::Utc), Some(Offset::Z));
}

#[test]
fn datetime_round_trip() {
    let v = HostValue::DateTime(date(), host_time(), Some(TzInfo::Fixed { days: -1, seconds: 81_000 }));
    let t = python_to_toml_value(&v).unwrap();
    match &t {
        TomlValue::Datetime(d) => {
            assert_eq!(d.offset, Some(Offset::Custom { minutes: -90 }));
            assert_eq!(d.time.unwrap().nanosecond, 999_999_000);
        }
        other => panic!("unexpected {:?}", other),
    }
    let back = toml_to_python::<Handler>(&t, None).unwrap();
    assert!(same_host(&v, &back));
}

#[test]
fn float_handler_scalar_is_used() {
    let t = TomlValue::Table(vec![("x".to_string(), TomlValue::Float(1.5f64.to_bits()))]);
    let handler = |bits: u64| -> Result<HostValue, String> {
        assert_eq!(f64::from_bits(bits), 1.5);
        Ok(s("1.5"))
    };
    match toml_to_python(&t, Some(&handler)).unwrap() {
        HostValue::Mapping(m) => assert!(same_host(&m[0].1, &s("1.5"))),
        other => panic!("unexpected {:?}", other),
    }
}

#[test]
fn float_handler_composite_is_rejected() {
    let t = TomlValue::Array(vec![TomlValue::Float(2.0f64.to_bits())]);
    let handler = |_bits: u64| -> Result<HostValue, String> { Ok(HostValue::Mapping(vec![])) };
    assert!(matches!(toml_to_python(&t, Some(&handler)), Err(DecodeError::ParseFloatReturnedComposite)));
    let listing = |_bits: u64| -> Result<HostValue, String> { Ok(HostValue::Sequence(vec![])) };
    assert!(matches!(toml_to_python(&t, Some(&listing)), Err(DecodeError::ParseFloatReturnedComposite)));
}

#[test]
fn float_handler_failure_propagates() {
    let t = TomlValue::Float(2.0f64.to_bits());
    let failing = |_bits: u64| -> Result<HostValue, String> { Err("boom".to_string()) };
    match toml_to_python(&t, Some(&failing)) {
        Err(DecodeError::FloatHandlerFailed(m)) => assert_eq!(m, "boom"),
        other => panic!("unexpected {:?}", other),
    }
}

#[test]
fn check_parsed_float_filters_composites() {
    assert!(matches!(check_parsed_float(HostValue::Sequence(vec![])), Err(DecodeError::ParseFloatReturnedComposite)));
    assert!(matches!(check_parsed_float(HostValue::Int(3)), Ok(HostValue::Int(3))));
}

#[test]
fn float_without_handler_keeps_bits() {
    let bits = 0.1f64.to_bits();
    assert!(matches!(toml_to_python::<Handler>(&TomlValue::Float(bits), None), Ok(HostValue::Float(b)) if b == bits));
}

fn abc() -> HostValue {
    map(vec![("a", map(vec![("b", map(vec![("c", HostValue::Int(1))]))]))])
}

#[test]
fn inline_table_placement() {
    let inline = vec!["a.b".to_string()];
    let doc = build_document(&abc(), Some(&inline)).unwrap();
    match doc {
        DocItem::Table(root) => {
            assert_eq!(root[0].0, "a");
            match &root[0].1 {
                DocItem::Table(a) => {
                    assert_eq!(a[0].0, "b");
                    match &a[0].1 {
                        DocItem::Value(DocValue::InlineTable(b)) => {
                            assert_eq!(b[0].0, "c");
                            assert!(matches!(b[0].1, DocValue::Integer(1)));
                        }
                        other => panic!("b should be inline, got {:?}", other),
                    }
                }
                other => panic!("a should be a block table, got {:?}", other),
            }
        }
        other => panic!("unexpected {:?}", other),
    }
}

#[test]
fn inline_path_not_found() {
    let inline = vec!["z".to_string()];
    match build_document(&abc(), Some(&inline)) {
        Err(EncodeError::PathNotFound(p)) => assert_eq!(p, "z"),
        other => panic!("unexpected {:?}", other),
    }
}

#[test]
fn inline_table_cannot_hold_block_table() {
    let inline = vec!["a".to_string()];
    assert!(matches!(build_document(&abc(), Some(&inline)), Err(EncodeError::InlineTableContent)));
}

#[test]
fn inline_path_not_a_table() {
    let inline = vec!["a.b.c".to_string()];
    match build_document(&abc(), Some(&inline)) {
        Err(EncodeError::PathNotTable(p)) => assert_eq!(p, "a.b.c"),
        other => panic!("unexpected {:?}", other),
    }
}

#[test]
fn array_demotes_block_tables() {
    let v = map(vec![("items", HostValue::Sequence(vec![map(vec![("k", map(vec![("n", HostValue::Int(5))]))])]))]);
    let doc = build_document(&v, None).unwrap();
    match doc {
        DocItem::Table(root) => match &root[0].1 {
            DocItem::Value(DocValue::Array(items)) => match &items[0] {
                DocValue::InlineTable(t) => {
                    assert_eq!(t[0].0, "k");
                    assert!(matches!(&t[0].1, DocValue::InlineTable(inner) if inner.len() == 1));
                }
                other => panic!("unexpected {:?}", other),
            },
            other => panic!("unexpected {:?}", other),
        },
        other => panic!("unexpected {:?}", other),
    }
}

#[test]
fn non_table_root_gives_empty_document() {
    let doc = build_document(&HostValue::Sequence(vec![HostValue::Int(1)]), None).unwrap();
    assert!(matches!(doc, DocItem::Table(t) if t.is_empty()));
}

#[test]
fn validate_walks_inline_tables() {
    let inline = vec!["a.b".to_string()];
    let doc = build_document(&abc(), Some(&inline)).unwrap();
    let deeper = vec!["a.b.c".to_string(), "a".to_string()];
    assert!(matches!(validate_inline_paths(&doc, &deeper), Err(EncodeError::PathNotTable(_))));
    let fine = vec!["a".to_string(), "a.b".to_string()];
    assert!(validate_inline_paths(&doc, &fine).is_ok());
}

#[test]
fn guard_enter_and_exit() {
    let mut g = RecursionGuard::default();
    assert_eq!(g.current, 0);
    assert_eq!(g.limit.0, 999);
    for _ in 0..RECURSION_LIMIT {
        assert!(g.enter().is_ok());
    }
    assert!(g.enter().is_err());
    assert_eq!(g.current, RECURSION_LIMIT);
    g.exit();
    assert_eq!(g.current, RECURSION_LIMIT - 1);
    assert!(Limit(3).value_limit(2));
    assert!(!Limit(3).value_limit(3));
}

#[test]
fn handler_not_called_without_floats() {
    let t = TomlValue::Table(vec![
        ("a".to_string(), TomlValue::Array(vec![TomlValue::Integer(1), TomlValue::String("s".to_string())])),
        ("b".to_string(), TomlValue::Boolean(true)),
    ]);
    let failing = |_bits: u64| -> Result<HostValue, String> { Err("never".to_string()) };
    let decoded = toml_to_python(&t, Some(&failing)).unwrap();
    let plain = toml_to_python::<Handler>(&t, None).unwrap();
    assert!(same_host(&decoded, &plain));
}

#[test]
fn handler_scalars_decode_lists_and_tables() {
    let t = TomlValue::Table(vec![(
        "xs".to_string(),
        TomlValue::Array(vec![TomlValue::Float(1.0f64.to_bits()), TomlValue::Float(2.0f64.to_bits())]),
    )]);
    let handler = |bits: u64| -> Result<HostValue, String> { Ok(HostValue::Int(f64::from_bits(bits) as i64)) };
    let decoded = toml_to_python(&t, Some(&handler)).unwrap();
    let expected = map(vec![("xs", HostValue::Sequence(vec![HostValue::Int(1), HostValue::Int(2)]))]);
    assert!(same_host(&decoded, &expected));
}

#[test]
fn handler_with_too_deep_nesting_reports_recursion() {
    let handler = |_bits: u64| -> Result<HostValue, String> { Ok(HostValue::Int(0)) };
    assert!(matches!(
        toml_to_python(&nested_arrays(RECURSION_LIMIT + 1), Some(&handler)),
        Err(DecodeError::RecursionExceeded)
    ));
}

#[test]
fn document_encoder_names_non_string_key_without_inline_set() {
    let v = HostValue::Mapping(vec![(HostValue::Int(1), s("x"))]);
    match build_document(&v, None) {
        Err(EncodeError::NonStringKey(name)) => assert_eq!(name, "int"),
        other => panic!("unexpected {:?}", other),
    }
}
