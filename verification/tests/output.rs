use serde_json::Value;
use tidemark::output::{paginate, resolve_format, select_fields, Format};

fn obj(pairs: &[(&str, i64)]) -> Value {
    let mut m = serde_json::Map::new();
    for (k, v) in pairs {
        m.insert((*k).to_string(), Value::from(*v));
    }
    Value::Object(m)
}

/// Applies a field selection to one JSON object, the way the command line does.
fn project(v: &Value, fields: &[String]) -> Value {
    let map = match v {
        Value::Object(m) => m,
        other => return other.clone(),
    };
    let keys: Vec<String> = map.keys().cloned().collect();
    let sel = select_fields(&keys, &fields.to_vec());
    let mut out = serde_json::Map::new();
    for i in sel {
        out.insert(keys[i].clone(), map[&keys[i]].clone());
    }
    Value::Object(out)
}

#[test]
fn json_when_piped_table_when_tty() {
    assert_eq!(resolve_format(None, false), Format::Json);
    assert_eq!(resolve_format(None, true), Format::Table);
    assert_eq!(resolve_format(Some(Format::Json), true), Format::Json);
}

#[test]
fn explicit_table_wins_when_piped() {
    assert_eq!(resolve_format(Some(Format::Table), false), Format::Table);
}

#[test]
fn paginate_offset_and_limit() {
    let items: Vec<Value> = (0..5).map(|i| obj(&[("n", i)])).collect();
    let (page, total) = paginate(items, 1, Some(2));
    assert_eq!(total, 5);
    assert_eq!(page, vec![obj(&[("n", 1)]), obj(&[("n", 2)])]);
}

#[test]
fn paginate_without_limit_takes_the_rest() {
    let (page, total) = paginate(vec![10, 11, 12, 13], 2, None);
    assert_eq!(total, 4);
    assert_eq!(page, vec![12, 13]);
}

#[test]
fn paginate_past_the_end_is_empty() {
    let (page, total) = paginate(vec![1, 2, 3], 7, Some(2));
    assert_eq!(total, 3);
    assert!(page.is_empty());
    let (page, total) = paginate(vec![1, 2, 3], 0, Some(0));
    assert_eq!(total, 3);
    assert!(page.is_empty());
}

#[test]
fn select_fields_keeps_only_requested() {
    let items = vec![obj(&[("a", 1), ("b", 2), ("c", 3)])];
    let fields: Vec<String> = vec!["a".into(), "c".into()];
    let got: Vec<Value> = items.iter().map(|v| project(v, &fields)).collect();
    assert_eq!(got, vec![obj(&[("a", 1), ("c", 3)])]);
}

#[test]
fn empty_fields_is_noop() {
    let items = vec![obj(&[("a", 1)])];
    let got: Vec<Value> = items.iter().map(|v| project(v, &[])).collect();
    assert_eq!(got, items);
}

#[test]
fn select_fields_follows_request_order_and_skips_missing() {
    let keys: Vec<String> = vec!["a".into(), "b".into(), "c".into()];
    let fields: Vec<String> = vec!["c".into(), "zzz".into(), "a".into(), "c".into()];
    assert_eq!(select_fields(&keys, &fields), vec![2, 0, 2]);
    assert_eq!(select_fields(&keys, &Vec::new()), vec![0, 1, 2]);
}
