use bw_sanitize::{restore_json, sanitize_json, JsonNumber, JsonValue, MappingFile};
use serde_json::Value;

fn to_json(v: &Value) -> JsonValue {
    match v {
        Value::Null => JsonValue::Null,
        Value::Bool(b) => JsonValue::Bool(*b),
        Value::Number(n) => {
            if let Some(u) = n.as_u64() {
                JsonValue::Number(JsonNumber::PosInt(u))
            } else if let Some(i) = n.as_i64() {
                JsonValue::Number(JsonNumber::NegInt(i))
            } else {
                let f = n.as_f64().unwrap();
                JsonValue::Number(JsonNumber::Float(f.to_bits(), n.to_string()))
            }
        }
        Value::String(s) => JsonValue::String(s.clone()),
        Value::Array(xs) => JsonValue::Array(xs.iter().map(to_json).collect()),
        Value::Object(m) => {
            JsonValue::Object(m.iter().map(|(k, v)| (k.clone(), to_json(v))).collect())
        }
    }
}

fn from_json(v: &JsonValue) -> Value {
    match v {
        JsonValue::Null => Value::Null,
        JsonValue::Bool(b) => Value::Bool(*b),
        JsonValue::Number(JsonNumber::PosInt(u)) => Value::from(*u),
        JsonValue::Number(JsonNumber::NegInt(i)) => Value::from(*i),
        JsonValue::Number(JsonNumber::Float(bits, _)) => Value::from(f64::from_bits(*bits)),
        JsonValue::String(s) => Value::String(s.clone()),
        JsonValue::Array(xs) => Value::Array(xs.iter().map(from_json).collect()),
        JsonValue::Object(ms) => {
            let mut m = serde_json::Map::new();
            for (k, v) in ms {
                m.insert(k.clone(), from_json(v));
            }
            Value::Object(m)
        }
    }
}

fn parse(text: &str) -> JsonValue {
    to_json(&serde_json::from_str::<Value>(text).unwrap())
}

fn sanitize(value: &mut JsonValue, mapping: MappingFile) -> (MappingFile, bw_sanitize::SanitizeReport) {
    sanitize_json(value, mapping)
}

#[test]
fn masks_repeated_sensitive_values_with_same_token() {
    let mut value = parse(
        r#"{
            "items": [
                {
                    "name": "Bank",
                    "login": {
                        "username": "same-secret",
                        "password": "same-secret",
                        "uris": [{ "uri": "https://example.com" }]
                    },
                    "fields": [
                        { "name": "pin", "value": "same-secret", "type": 1 }
                    ]
                }
            ]
        }"#,
    );

    let (mapping, report) = sanitize(&mut value, MappingFile::default());
    let value = from_json(&value);

    assert_eq!(report.replaced_values, 3);
    assert_eq!(mapping.entries.len(), 1);
    assert_eq!(
        value["items"][0]["login"]["username"],
        value["items"][0]["login"]["password"]
    );
    assert_eq!(
        value["items"][0]["login"]["password"],
        value["items"][0]["fields"][0]["value"]
    );
}

#[test]
fn preserves_selected_dedupe_fields() {
    let text = r#"{
        "folders": [{ "id": "folder-id", "name": "Finance" }],
        "items": [
            {
                "id": "item-id",
                "folderId": "folder-id",
                "name": "Credit card",
                "revisionDate": "2026-05-20T00:00:00Z",
                "login": {
                    "username": "private-user",
                    "password": "private-password",
                    "uris": [{ "uri": "https://bank.example" }]
                },
                "card": {
                    "cardholderName": "Private Name",
                    "brand": "Visa",
                    "number": "4111111111111111",
                    "expMonth": "01",
                    "expYear": "2030",
                    "code": "123"
                },
                "fields": [{ "name": "answer", "value": "secret answer" }]
            }
        ]
    }"#;
    let mut value = parse(text);
    let original: Value = serde_json::from_str(text).unwrap();
    let (mapping, _) = sanitize(&mut value, MappingFile::default());
    let value = from_json(&value);

    assert_eq!(value["folders"][0]["name"], original["folders"][0]["name"]);
    assert_eq!(value["items"][0]["id"], original["items"][0]["id"]);
    assert_eq!(value["items"][0]["folderId"], original["items"][0]["folderId"]);
    assert_eq!(value["items"][0]["name"], original["items"][0]["name"]);
    assert_eq!(value["items"][0]["revisionDate"], original["items"][0]["revisionDate"]);
    assert_eq!(
        value["items"][0]["login"]["uris"][0]["uri"],
        original["items"][0]["login"]["uris"][0]["uri"]
    );
    assert_eq!(value["items"][0]["card"]["number"], original["items"][0]["card"]["number"]);
    assert_eq!(
        value["items"][0]["fields"][0]["name"],
        original["items"][0]["fields"][0]["name"]
    );

    assert_ne!(
        value["items"][0]["login"]["username"],
        original["items"][0]["login"]["username"]
    );
    assert_ne!(
        value["items"][0]["card"]["cardholderName"],
        original["items"][0]["card"]["cardholderName"]
    );
    assert_ne!(value["items"][0]["card"]["code"], original["items"][0]["card"]["code"]);
    assert_eq!(mapping.entries.len(), 8);
}

#[test]
fn masks_secure_notes_identity_passkeys_and_ssh_strings() {
    let text = r#"{
        "items": [
            {
                "type": 2,
                "name": "Secure note",
                "notes": "private note",
                "secureNote": { "type": 0 }
            },
            {
                "type": 4,
                "name": "Identity",
                "identity": {
                    "firstName": "Ada",
                    "lastName": "Lovelace",
                    "email": "ada@example.com"
                }
            },
            {
                "type": 1,
                "name": "Login with passkey",
                "login": {
                    "fido2Credentials": [
                        {
                            "credentialId": "credential",
                            "keyValue": "key",
                            "rpId": "example.com",
                            "userName": "user"
                        }
                    ]
                }
            },
            {
                "type": 5,
                "name": "SSH key",
                "sshKey": {
                    "privateKey": "private",
                    "publicKey": "public",
                    "fingerprint": "fingerprint"
                }
            }
        ]
    }"#;
    let mut value = parse(text);
    let original: Value = serde_json::from_str(text).unwrap();
    let (_, report) = sanitize(&mut value, MappingFile::default());
    let value = from_json(&value);

    assert_eq!(report.replaced_values, 11);
    assert_ne!(value["items"][0]["notes"], original["items"][0]["notes"]);
    assert_ne!(
        value["items"][1]["identity"]["email"],
        original["items"][1]["identity"]["email"]
    );
    assert_ne!(
        value["items"][2]["login"]["fido2Credentials"][0]["keyValue"],
        original["items"][2]["login"]["fido2Credentials"][0]["keyValue"]
    );
    assert_ne!(
        value["items"][3]["sshKey"]["privateKey"],
        original["items"][3]["sshKey"]["privateKey"]
    );
}

#[test]
fn restore_round_trips_sanitized_json() {
    let text = r#"{
        "folders": [{ "id": "folder-id", "name": "Finance" }],
        "items": [
            {
                "id": "item-id",
                "type": 1,
                "name": "Email",
                "notes": "private note",
                "login": {
                    "username": "ada",
                    "password": "password",
                    "totp": "otpauth://totp/secret",
                    "uris": [{ "uri": "https://mail.example" }]
                },
                "passwordHistory": [
                    { "lastUsedDate": "2026-05-20T00:00:00Z", "password": "old-password" }
                ],
                "fields": [{ "name": "recovery", "value": "blue" }]
            }
        ]
    }"#;
    let original: Value = serde_json::from_str(text).unwrap();
    let mut sanitized = parse(text);
    let (mapping, sanitize_report) = sanitize(&mut sanitized, MappingFile::default());

    assert_eq!(sanitize_report.replaced_values, 6);
    assert_ne!(from_json(&sanitized), original);

    let restore_report = restore_json(&mut sanitized, &mapping);

    assert_eq!(restore_report.restored_values, 6);
    assert_eq!(from_json(&sanitized), original);
}

#[test]
fn reuses_existing_mapping_tokens() {
    let mut first = parse(r#"{ "items": [{ "name": "One", "login": { "password": "shared" } }] }"#);
    let (mapping, _) = sanitize(&mut first, MappingFile::default());
    let first_token = from_json(&first)["items"][0]["login"]["password"].clone();

    let mut second = parse(r#"{ "items": [{ "name": "Two", "notes": "shared" }] }"#);
    let (mapping, report) = sanitize(&mut second, mapping);

    assert_eq!(report.total_mappings, 1);
    assert_eq!(from_json(&second)["items"][0]["notes"], first_token);
    assert_eq!(mapping.entries.len(), 1);
}

#[test]
fn restores_as_many_values_as_were_replaced() {
    let text = r#"{"folders":[{"name":"Work"}],"items":[{"name":"Mail","login":{"username":"me","password":"pw","uris":[{"uri":"https://mail.example"}]},"notes":"pw"}]}"#;
    let original: Value = serde_json::from_str(text).unwrap();
    let mut value = parse(text);
    let (mapping, sanitize_report) = sanitize(&mut value, MappingFile::default());
    let restore_report = restore_json(&mut value, &mapping);

    assert_eq!(sanitize_report.replaced_values, 3);
    assert_eq!(restore_report.restored_values, sanitize_report.replaced_values);
    assert_eq!(from_json(&value), original);
}

#[test]
fn mapping_stays_one_to_one_across_sanitizations() {
    let mut first = parse(r#"{"items":[{"login":{"username":"alice","password":"one"}}]}"#);
    let (m1, _) = sanitize(&mut first, MappingFile::default());
    let mut second = parse(r#"{"items":[{"login":{"username":"bob","password":"one"}},{"notes":"alice"}]}"#);
    let (m2, _) = sanitize(&mut second, m1.clone());

    for pair in &m1.entries {
        assert!(m2.entries.contains(pair));
    }
    let mut originals: Vec<&String> = m2.entries.iter().map(|(_, v)| v).collect();
    originals.sort();
    originals.dedup();
    assert_eq!(originals.len(), m2.entries.len());
    assert_eq!(m2.entries.len(), 3);

    let first = from_json(&first);
    let second = from_json(&second);
    assert_eq!(second["items"][0]["login"]["password"], first["items"][0]["login"]["password"]);
    assert_eq!(second["items"][1]["notes"], first["items"][0]["login"]["username"]);
    assert_ne!(second["items"][0]["login"]["username"], first["items"][0]["login"]["username"]);
}
