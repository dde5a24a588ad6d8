use bw_sanitize::{
    analyze_merge_candidates, apply_recommended_merges, AnalyzeOptions, JsonNumber, JsonValue,
    MergeApplyOptions,
};
use serde_json::Value;

fn to_json(v: &Value) -> JsonValue {
    match v {
        Value::Null => JsonValue::Null,
        Value::Bool(b) => JsonValue::Bool(*b),
        Value::Number(n) => {
            if let Some(u) = n.as_u64() {
                JsonValue::Number(JsonNumber::PosInt(u))
            } else if let Some(i) = n.as_i64() {
                JsonValue::Number(JsonNumber::NegInt(i))
            } else {
                let f = n.as_f64().unwrap();
                JsonValue::Number(JsonNumber::Float(f.to_bits(), n.to_string()))
            }
        }
        Value::String(s) => JsonValue::String(s.clone()),
        Value::Array(xs) => JsonValue::Array(xs.iter().map(to_json).collect()),
        Value::Object(m) => {
            JsonValue::Object(m.iter().map(|(k, v)| (k.clone(), to_json(v))).collect())
        }
    }
}

fn from_json(v: &JsonValue) -> Value {
    match v {
        JsonValue::Null => Value::Null,
        JsonValue::Bool(b) => Value::Bool(*b),
        JsonValue::Number(JsonNumber::PosInt(u)) => Value::from(*u),
        JsonValue::Number(JsonNumber::NegInt(i)) => Value::from(*i),
        JsonValue::Number(JsonNumber::Float(bits, _)) => Value::from(f64::from_bits(*bits)),
        JsonValue::String(s) => Value::String(s.clone()),
        JsonValue::Array(xs) => Value::Array(xs.iter().map(from_json).collect()),
        JsonValue::Object(ms) => {
            let mut m = serde_json::Map::new();
            for (k, v) in ms {
                m.insert(k.clone(), from_json(v));
            }
            Value::Object(m)
        }
    }
}

#[test]
fn skips_manual_uri_group_when_one_matched_item_differs() {
    let mut value = export(vec![
        login_item("A", "http://192.168.1.2:5000/", "u1", "p1"),
        login_item("B", "http://192.168.1.3:5000/", "u1", "p1"),
        login_item("C", "http://192.168.1.4:5000/", "u1", "p2"),
    ]);
    let before = from_json(&value);

    let report = apply_recommended_merges(
        &mut value,
        MergeApplyOptions {
            manual_uri_groups: vec![vec![
                "http://192.168.1.2:5000/".to_owned(),
                "http://192.168.1.3:5000/".to_owned(),
                "http://192.168.1.4:5000/".to_owned(),
            ]],
        },
    );

    assert_eq!(report.manual_groups_matched, 0);
    assert_eq!(report.manual_groups_unmatched, 1);
    assert_eq!(report.merged_groups, 0);
    assert_eq!(from_json(&value), before);
}

fn login_item(name: &str, uri: &str, username: &str, password: &str) -> Value {
    let mut login = serde_json::Map::new();
    login.insert("username".to_owned(), Value::String(username.to_owned()));
    login.insert("password".to_owned(), Value::String(password.to_owned()));
    let mut uri_entry = serde_json::Map::new();
    uri_entry.insert("uri".to_owned(), Value::String(uri.to_owned()));
    login.insert("uris".to_owned(), Value::Array(vec![Value::Object(uri_entry)]));
    let mut item = serde_json::Map::new();
    item.insert("type".to_owned(), Value::from(1));
    item.insert("name".to_owned(), Value::String(name.to_owned()));
    item.insert("login".to_owned(), Value::Object(login));
    Value::Object(item)
}

fn export(items: Vec<Value>) -> JsonValue {
    let mut root = serde_json::Map::new();
    root.insert("items".to_owned(), Value::Array(items));
    to_json(&Value::Object(root))
}

#[test]
fn reports_exact_host_merge_candidate() {
    let value = export(vec![
        login_item("A", "https://example.com", "u1", "p1"),
        login_item("B", "http://www.example.com/login", "u1", "p1"),
    ]);

    let analysis = analyze_merge_candidates(&value, AnalyzeOptions::default());

    assert_eq!(analysis.high_confidence_merge_candidates.len(), 1);
    assert_eq!(analysis.high_confidence_merge_candidates[0].items.len(), 2);
    assert!(analysis.review_groups.is_empty());
}

#[test]
fn relates_same_brand_across_domains_and_android_package() {
    let value = export(vec![
        login_item("Apple", "https://apple.com", "u1", "p1"),
        login_item("Apple ID", "https://appleid.apple.com", "u1", "p1"),
        login_item("Apple CN", "https://apple.com.cn", "u1", "p1"),
        login_item("App", "android://fingerprint@com.apple.android", "u1", "p1"),
    ]);

    let analysis = analyze_merge_candidates(&value, AnalyzeOptions::default());

    assert_eq!(analysis.high_confidence_merge_candidates.len(), 1);
    assert_eq!(analysis.high_confidence_merge_candidates[0].items.len(), 4);
}

#[test]
fn keeps_unrelated_same_credentials_in_review() {
    let value = export(vec![
        login_item("A", "https://example.com", "u1", "p1"),
        login_item("B", "https://unrelated.test", "u1", "p1"),
    ]);

    let analysis = analyze_merge_candidates(&value, AnalyzeOptions::default());

    assert!(analysis.high_confidence_merge_candidates.is_empty());
    assert_eq!(analysis.review_groups.len(), 1);
}

#[test]
fn reports_same_account_site_different_passwords() {
    let value = export(vec![
        login_item("A", "https://account.example.com", "u1", "p1"),
        login_item("B", "https://example.com", "u1", "p2"),
    ]);

    let analysis = analyze_merge_candidates(&value, AnalyzeOptions::default());

    assert_eq!(analysis.same_account_site_different_passwords.len(), 1);
    assert_eq!(
        analysis.same_account_site_different_passwords[0]
            .password_variants
            .len(),
        2
    );
}

#[test]
fn relates_self_hosted_private_and_public_when_service_tokens_match() {
    let value = export(vec![
        login_item("Immich", "https://immich.example.net", "u1", "p1"),
        login_item("Immich", "http://100.104.90.58:2283", "u1", "p1"),
    ]);

    let analysis = analyze_merge_candidates(&value, AnalyzeOptions::default());

    assert_eq!(analysis.high_confidence_merge_candidates.len(), 1);
}

#[test]
fn does_not_merge_same_ip_with_different_ports_without_service_evidence() {
    let value = export(vec![
        login_item("One", "http://100.104.90.58:2283", "u1", "p1"),
        login_item("Two", "http://100.104.90.58:3010", "u1", "p1"),
    ]);

    let analysis = analyze_merge_candidates(&value, AnalyzeOptions::default());

    assert!(analysis.high_confidence_merge_candidates.is_empty());
    assert_eq!(analysis.review_groups.len(), 1);
}

#[test]
fn applies_recommended_merge_preserving_item_and_field_order() {
    let mut value = export(vec![
        login_item("Example", "https://example.com", "u1", "p1"),
        login_item("Other", "https://other.example.com", "u1", "p1"),
        login_item("Keep", "https://keep.example", "u2", "p2"),
    ]);

    let report = apply_recommended_merges(&mut value, MergeApplyOptions::default());
    let value = from_json(&value);
    let items = value["items"].as_array().unwrap();
    let first_item_keys = items[0]
        .as_object()
        .unwrap()
        .keys()
        .cloned()
        .collect::<Vec<_>>();
    let expected_uris: Value = serde_json::from_str(
        r#"[{ "uri": "https://example.com" }, { "uri": "https://other.example.com" }]"#,
    )
    .unwrap();

    assert_eq!(report.merged_groups, 1);
    assert_eq!(report.removed_items, 1);
    assert_eq!(items.len(), 2);
    assert_eq!(items[0]["name"], "Example");
    assert_eq!(items[1]["name"], "Keep");
    assert_eq!(first_item_keys, vec!["type", "name", "login"]);
    assert_eq!(items[0]["login"]["uris"], expected_uris);
}

#[test]
fn applies_manual_uri_group_when_credentials_match() {
    let mut value = export(vec![
        login_item("Lan", "http://192.168.31.87:5000/", "u1", "p1"),
        login_item("Tailnet", "http://100.104.90.58:5000/", "u1", "p1"),
    ]);

    let report = apply_recommended_merges(
        &mut value,
        MergeApplyOptions {
            manual_uri_groups: vec![vec![
                "http://192.168.31.87:5000/".to_owned(),
                "http://100.104.90.58:5000/".to_owned(),
            ]],
        },
    );

    assert_eq!(report.manual_groups_matched, 1);
    assert_eq!(report.merged_groups, 1);
    assert_eq!(from_json(&value)["items"].as_array().unwrap().len(), 1);
}

#[test]
fn skips_manual_uri_group_when_passwords_differ() {
    let mut value = export(vec![
        login_item("Lan", "http://192.168.31.87:5000/", "u1", "p1"),
        login_item("Tailnet", "http://100.104.90.58:5000/", "u1", "p2"),
    ]);

    let report = apply_recommended_merges(
        &mut value,
        MergeApplyOptions {
            manual_uri_groups: vec![vec![
                "http://192.168.31.87:5000/".to_owned(),
                "http://100.104.90.58:5000/".to_owned(),
            ]],
        },
    );

    assert_eq!(report.manual_groups_unmatched, 1);
    assert_eq!(report.merged_groups, 0);
    assert_eq!(from_json(&value)["items"].as_array().unwrap().len(), 2);
}
