use bw_sanitize::{
    analysis_to_markdown, analyze_merge_candidates, apply_recommended_merges, check_mapping_version,
    is_blank, parse_manual_groups, sanitize_json, AnalyzeOptions, JsonNumber, JsonValue, MappingError,
    MappingFile, MergeApplyOptions,
};
use serde_json::Value;

fn to_json(v: &Value) -> JsonValue {
    match v {
        Value::Null => JsonValue::Null,
        Value::Bool(b) => JsonValue::Bool(*b),
        Value::Number(n) => {
            if let Some(u) = n.as_u64() {
                JsonValue::Number(JsonNumber::PosInt(u))
            } else if let Some(i) = n.as_i64() {
                JsonValue::Number(JsonNumber::NegInt(i))
            } else {
                let f = n.as_f64().unwrap();
                JsonValue::Number(JsonNumber::Float(f.to_bits(), n.to_string()))
            }
        }
        Value::String(s) => JsonValue::String(s.clone()),
        Value::Array(xs) => JsonValue::Array(xs.iter().map(to_json).collect()),
        Value::Object(m) => {
            JsonValue::Object(m.iter().map(|(k, v)| (k.clone(), to_json(v))).collect())
        }
    }
}

fn from_json(v: &JsonValue) -> Value {
    match v {
        JsonValue::Null => Value::Null,
        JsonValue::Bool(b) => Value::Bool(*b),
        JsonValue::Number(JsonNumber::PosInt(u)) => Value::from(*u),
        JsonValue::Number(JsonNumber::NegInt(i)) => Value::from(*i),
        JsonValue::Number(JsonNumber::Float(bits, _)) => Value::from(f64::from_bits(*bits)),
        JsonValue::String(s) => Value::String(s.clone()),
        JsonValue::Array(xs) => Value::Array(xs.iter().map(from_json).collect()),
        JsonValue::Object(ms) => {
            let mut m = serde_json::Map::new();
            for (k, v) in ms {
                m.insert(k.clone(), from_json(v));
            }
            Value::Object(m)
        }
    }
}

fn parse(text: &str) -> JsonValue {
    to_json(&serde_json::from_str::<Value>(text).unwrap())
}

fn login_item(name: &str, uri: &str, username: &str, password: &str) -> String {
    format!(
        r#"{{"type":1,"name":{},"login":{{"username":"{}","password":"{}","uris":[{{"uri":"{}"}}]}}}}"#,
        serde_json::to_string(name).unwrap(),
        username,
        password,
        uri
    )
}

fn export(items: &[String]) -> JsonValue {
    parse(&format!(r#"{{"items":[{}]}}"#, items.join(",")))
}

#[test]
fn candidate_reports_hashes_ids_reasons_and_counts() {
    let value = export(&[
        login_item("A", "https://example.com", "u1", "p1"),
        login_item("B", "http://www.example.com/login", "u1", "p1"),
    ]);
    let analysis = analyze_merge_candidates(&value, AnalyzeOptions::default());
    let c = &analysis.high_confidence_merge_candidates[0];

    assert_eq!(c.id, "merge-001");
    assert_eq!(c.account_hash, "4d241a193e7d");
    assert_eq!(c.credential_hash, "80450833cc21");
    assert_eq!(c.service, "example.com");
    assert_eq!(c.reason, "same normalized host or app package");
    assert_eq!(c.items[0].item_index, 0);
    assert_eq!(c.items[0].name, "A");
    assert_eq!(c.items[0].hosts, vec!["example.com".to_owned()]);
    assert_eq!(c.items[1].item_index, 1);
    assert_eq!(c.items[1].uris, vec!["http://www.example.com/login".to_owned()]);

    let s = &analysis.summary;
    assert_eq!(s.total_items, 2);
    assert_eq!(s.login_items, 2);
    assert_eq!(s.login_items_with_username_password, 2);
    assert_eq!(s.duplicate_credential_groups, 1);
    assert_eq!(s.duplicate_credential_items, 2);
    assert_eq!(s.high_confidence_merge_groups, 1);
    assert_eq!(s.high_confidence_merge_items, 2);
    assert_eq!(s.password_conflict_groups, 0);
    assert_eq!(s.review_groups, 0);
}

#[test]
fn conflict_lists_password_variants_in_password_order() {
    let value = export(&[
        login_item("A", "https://account.example.com", "u1", "p1"),
        login_item("B", "https://example.com", "u1", "p2"),
    ]);
    let analysis = analyze_merge_candidates(&value, AnalyzeOptions::default());
    let c = &analysis.same_account_site_different_passwords[0];

    assert_eq!(c.id, "conflict-001");
    assert_eq!(c.account_hash, "4d241a193e7d");
    assert_eq!(c.service, "example.com");
    assert_eq!(c.reason, "same registered domain");
    assert_eq!(c.password_variants[0].password_hash, "78d9e719575d");
    assert_eq!(c.password_variants[1].password_hash, "78d7e719575c");
    assert_eq!(c.password_variants[0].items[0].name, "A");
    assert_eq!(c.password_variants[1].items[0].name, "B");
    assert_eq!(analysis.summary.password_conflict_groups, 1);
}

#[test]
fn review_group_summarizes_at_most_five_domains() {
    let value = export(&[
        login_item("A", "https://a.com", "u1", "p1"),
        login_item("B", "https://b.com", "u1", "p1"),
        login_item("C", "https://c.com", "u1", "p1"),
        login_item("D", "https://d.com", "u1", "p1"),
        login_item("E", "https://e.com", "u1", "p1"),
        login_item("F", "https://f.com", "u1", "p1"),
        login_item("G", "https://g.com", "u1", "p1"),
    ]);
    let analysis = analyze_merge_candidates(&value, AnalyzeOptions::default());
    let g = &analysis.review_groups[0];

    assert_eq!(g.id, "review-001");
    assert_eq!(g.account_hash, "4d241a193e7d");
    assert_eq!(g.credential_hash, "80450833cc21");
    assert_eq!(g.service_summary, "a.com, b.com, c.com, d.com, e.com, +2 more");
    assert_eq!(
        g.reason,
        "same account/password appears in services that were not confidently related"
    );
    assert_eq!(g.items.len(), 7);
}

#[test]
fn review_groups_left_out_when_not_asked_for() {
    let value = export(&[
        login_item("A", "https://example.com", "u1", "p1"),
        login_item("B", "https://unrelated.test", "u1", "p1"),
    ]);
    let analysis = analyze_merge_candidates(
        &value,
        AnalyzeOptions {
            include_review_groups: false,
        },
    );

    assert!(analysis.review_groups.is_empty());
    assert_eq!(analysis.summary.review_groups, 0);
    assert_eq!(analysis.summary.duplicate_credential_groups, 1);
}

#[test]
fn markdown_report_escapes_pipes_and_line_breaks() {
    let value = export(&[
        login_item("A|B\nC", "https://example.com", "u1", "p1"),
        login_item("D", "https://example.com/x", "u1", "p1"),
    ]);
    let analysis = analyze_merge_candidates(&value, AnalyzeOptions::default());
    let markdown = analysis_to_markdown(&analysis);

    assert!(markdown.starts_with("# Bitwarden merge analysis report\n\n"));
    assert!(markdown.contains("- Total items: 2\n"));
    assert!(markdown.contains("- Reused credential groups: 1 groups, 2 items\n"));
    assert!(markdown.contains("### merge-001: example.com\n\n"));
    assert!(markdown.contains("- account_hash: `4d241a193e7d`\n- credential_hash: `80450833cc21`\n"));
    assert!(markdown.contains("| 0 | A\\|B C | example.com | https://example.com |\n"));
    assert!(markdown.contains("No same-account same-site password conflicts found.\n\n"));
    assert!(markdown.ends_with("No review-only groups found.\n"));
}

#[test]
fn merge_keeps_displaced_values_as_fields() {
    let mut value = parse(
        r#"{"items":[
            {"type":1,"name":"Example","notes":"n1","customKey":7,"meta":{"a":"x"},
             "login":{"username":"u1","password":"p1","totp":"t1","uris":[{"uri":"https://example.com"}]},
             "passwordHistory":[{"password":"old"}]},
            {"type":1,"name":"Other","notes":"n2","favorite":true,"customKey":-3,"meta":{"a":"q\"t"},
             "login":{"username":"u1","password":"p1","totp":"t2","uris":[{"uri":"https://example.com/login"}]},
             "passwordHistory":[{"password":"old"},{"password":"older"}]}
        ]}"#,
    );

    let report = apply_recommended_merges(&mut value, MergeApplyOptions::default());
    let value = from_json(&value);
    let items = value["items"].as_array().unwrap();
    let keys = items[0].as_object().unwrap().keys().cloned().collect::<Vec<_>>();
    let expected_fields: Value = serde_json::from_str(
        r#"[
            {"name":"merged item #1 login.totp","value":"t2","type":0},
            {"name":"merged item #1 notes","value":"n2","type":0},
            {"name":"merged item #1 customKey","value":"-3","type":0},
            {"name":"merged item #1 meta","value":"{\"a\":\"q\\\"t\"}","type":0}
        ]"#,
    )
    .unwrap();
    let expected_history: Value =
        serde_json::from_str(r#"[{"password":"old"},{"password":"older"}]"#).unwrap();

    assert_eq!(report.merged_groups, 1);
    assert_eq!(report.removed_items, 1);
    assert_eq!(report.appended_login_uris, 1);
    assert_eq!(report.appended_fields, 4);
    assert_eq!(report.preserved_scalar_values_as_fields, 4);
    assert_eq!(report.appended_password_history_entries, 1);
    assert_eq!(items.len(), 1);
    assert_eq!(
        keys,
        vec![
            "type",
            "name",
            "notes",
            "customKey",
            "meta",
            "login",
            "passwordHistory",
            "fields",
            "favorite"
        ]
    );
    assert_eq!(items[0]["fields"], expected_fields);
    assert_eq!(items[0]["passwordHistory"], expected_history);
    assert_eq!(items[0]["favorite"], Value::Bool(true));
    assert_eq!(items[0]["notes"], "n1");
    assert_eq!(items[0]["login"]["totp"], "t1");
    assert_eq!(items[0]["login"]["uris"].as_array().unwrap().len(), 2);
}

#[test]
fn merge_without_candidates_leaves_export_as_it_is() {
    let text = format!(
        r#"{{"items":[{},{}]}}"#,
        login_item("A", "https://example.com", "u1", "p1"),
        login_item("B", "https://example.com", "u2", "p2")
    );
    let mut value = parse(&text);
    let report = apply_recommended_merges(&mut value, MergeApplyOptions::default());

    assert_eq!(report.merged_groups, 0);
    assert_eq!(report.removed_items, 0);
    assert_eq!(from_json(&value), serde_json::from_str::<Value>(&text).unwrap());
}

#[test]
fn mapping_files_of_white_space_are_empty() {
    assert!(is_blank(b""));
    assert!(is_blank(b" \n\t\r\x0c"));
    assert!(!is_blank(b" {}"));
    assert!(!is_blank(b"\x0b"));
}

#[test]
fn mapping_versions_other_than_one_are_refused() {
    let accepted = check_mapping_version(MappingFile::from_pairs(1, Vec::new()));
    assert!(accepted.is_ok());

    match check_mapping_version(MappingFile::from_pairs(2, Vec::new())) {
        Err(MappingError::UnsupportedVersion(v)) => assert_eq!(v, 2),
        Ok(_) => panic!("version 2 was accepted"),
    }
}

#[test]
fn mapping_from_pairs_sorts_and_keeps_last_value() {
    let mapping = MappingFile::from_pairs(
        1,
        vec![
            ("b".to_owned(), "2".to_owned()),
            ("a".to_owned(), "1".to_owned()),
            ("b".to_owned(), "3".to_owned()),
        ],
    );

    assert_eq!(
        mapping.entries,
        vec![
            ("a".to_owned(), "1".to_owned()),
            ("b".to_owned(), "3".to_owned())
        ]
    );
}

#[test]
fn manual_groups_are_trimmed_and_need_two_uris() {
    let groups = parse_manual_groups(&vec![
        " a , b ,".to_owned(),
        "c".to_owned(),
        "d,,e".to_owned(),
    ]);

    assert_eq!(
        groups,
        vec![
            vec!["a".to_owned(), "b".to_owned()],
            vec!["d".to_owned(), "e".to_owned()]
        ]
    );
}

#[test]
fn tokens_are_numbered_from_one_with_six_digits() {
    let mut value = parse(r#"{"items":[{"login":{"password":"x","username":"y"}},{"notes":"x"}]}"#);
    let (mapping, report) = sanitize_json(&mut value, MappingFile::default());
    let value = from_json(&value);

    assert_eq!(value["items"][0]["login"]["password"], "__BW_MAP_000001__");
    assert_eq!(value["items"][0]["login"]["username"], "__BW_MAP_000002__");
    assert_eq!(value["items"][1]["notes"], "__BW_MAP_000001__");
    assert_eq!(report.replaced_values, 3);
    assert_eq!(report.total_mappings, 2);
    assert_eq!(
        mapping.entries,
        vec![
            ("__BW_MAP_000001__".to_owned(), "x".to_owned()),
            ("__BW_MAP_000002__".to_owned(), "y".to_owned())
        ]
    );
}

#[test]
fn candidates_are_listed_by_service_and_numbered_in_that_order() {
    let value = export(&[
        login_item("B1", "https://b.com", "u2", "p2"),
        login_item("A1", "https://a.com", "u1", "p1"),
        login_item("B2", "https://b.com/x", "u2", "p2"),
        login_item("A2", "https://a.com/y", "u1", "p1"),
    ]);
    let analysis = analyze_merge_candidates(&value, AnalyzeOptions::default());
    let cands = &analysis.high_confidence_merge_candidates;

    assert_eq!(cands.len(), 2);
    assert_eq!(cands[0].id, "merge-001");
    assert_eq!(cands[0].service, "a.com");
    assert_eq!(cands[0].items[0].item_index, 1);
    assert_eq!(cands[1].id, "merge-002");
    assert_eq!(cands[1].service, "b.com");
    assert_eq!(cands[1].items[0].item_index, 0);
    assert_eq!(analysis.summary.high_confidence_merge_items, 4);
}

#[test]
fn review_groups_change_nothing_else() {
    let value = export(&[
        login_item("A", "https://example.com", "u1", "p1"),
        login_item("B", "http://www.example.com/login", "u1", "p1"),
        login_item("C", "https://unrelated.test", "u1", "p1"),
        login_item("D", "https://account.example.com", "u2", "p1"),
        login_item("E", "https://example.com", "u2", "p2"),
    ]);
    let with = analyze_merge_candidates(&value, AnalyzeOptions { include_review_groups: true });
    let without = analyze_merge_candidates(&value, AnalyzeOptions { include_review_groups: false });

    assert_eq!(with.review_groups.len(), 1);
    assert_eq!(with.summary.review_groups, 1);
    assert!(without.review_groups.is_empty());
    assert_eq!(without.summary.review_groups, 0);
    assert_eq!(format!("{:?}", without.high_confidence_merge_candidates), format!("{:?}", with.high_confidence_merge_candidates));
    assert_eq!(
        format!("{:?}", without.same_account_site_different_passwords),
        format!("{:?}", with.same_account_site_different_passwords)
    );
    let mut summary = with.summary.clone();
    summary.review_groups = 0;
    assert_eq!(format!("{:?}", without.summary), format!("{:?}", summary));
}

#[test]
fn review_group_lists_every_item_of_a_partly_covered_credential() {
    let value = export(&[
        login_item("A", "https://example.com", "u1", "p1"),
        login_item("B", "http://www.example.com/login", "u1", "p1"),
        login_item("C", "https://unrelated.test", "u1", "p1"),
        login_item("D", "https://other.test", "u2", "p2"),
        login_item("E", "https://another.test", "u2", "p2"),
        login_item("F", "https://shop.test", "u3", "p3"),
        login_item("G", "http://www.shop.test", "u3", "p3"),
    ]);
    let analysis = analyze_merge_candidates(&value, AnalyzeOptions::default());

    assert_eq!(analysis.high_confidence_merge_candidates.len(), 2);
    assert_eq!(analysis.review_groups.len(), 2);
    let sizes: Vec<usize> = analysis.review_groups.iter().map(|g| g.items.len()).collect();
    let mut names: Vec<Vec<String>> = analysis
        .review_groups
        .iter()
        .map(|g| g.items.iter().map(|i| i.name.clone()).collect())
        .collect();
    names.sort();
    assert!(sizes.contains(&3));
    assert!(sizes.contains(&2));
    assert_eq!(names, vec![vec!["A".to_owned(), "B".to_owned(), "C".to_owned()], vec!["D".to_owned(), "E".to_owned()]]);
}
