use omega_drive::settings::{json_from_value, merge_grouped_defaults, settings_from_text, JsonValue};

fn s(text: &str) -> String {
    text.to_string()
}

fn num(text: &str) -> JsonValue {
    JsonValue::Number(s(text))
}

fn obj(entries: Vec<(&str, JsonValue)>) -> JsonValue {
    JsonValue::Object(entries.into_iter().map(|(k, v)| (s(k), v)).collect())
}

fn get<'a>(v: &'a JsonValue, key: &str) -> Option<&'a JsonValue> {
    match v {
        JsonValue::Object(entries) => entries.iter().find(|(k, _)| k == key).map(|(_, v)| v),
        _ => None,
    }
}

#[test]
fn missing_keys_are_filled_from_defaults() {
    let raw = obj(vec![]);
    let defaults = obj(vec![("download", obj(vec![("http_timeout_s", num("30"))]))]);
    let merged = merge_grouped_defaults(raw, &defaults);
    assert_eq!(merged, defaults);
}

#[test]
fn user_values_win_at_every_level() {
    let raw = obj(vec![
        ("download", obj(vec![("http_timeout_s", num("90"))])),
        ("theme", JsonValue::Str(s("dark"))),
    ]);
    let defaults = obj(vec![
        ("download", obj(vec![("http_timeout_s", num("30")), ("retries", num("3"))])),
        ("theme", JsonValue::Str(s("light"))),
        ("logging", obj(vec![("level", JsonValue::Str(s("info")))])),
    ]);
    let merged = merge_grouped_defaults(raw, &defaults);
    let download = get(&merged, "download").unwrap();
    assert_eq!(get(download, "http_timeout_s"), Some(&num("90")));
    assert_eq!(get(download, "retries"), Some(&num("3")));
    assert_eq!(get(&merged, "theme"), Some(&JsonValue::Str(s("dark"))));
    assert_eq!(
        get(&merged, "logging"),
        Some(&obj(vec![("level", JsonValue::Str(s("info")))]))
    );
}

#[test]
fn three_levels_of_nesting_are_filled() {
    let raw = obj(vec![(
        "providers",
        obj(vec![("telegram", obj(vec![("limits", obj(vec![]))]))]),
    )]);
    let defaults = obj(vec![(
        "providers",
        obj(vec![(
            "telegram",
            obj(vec![("limits", obj(vec![("file_limit_mb", num("2000"))]))]),
        )]),
    )]);
    let merged = merge_grouped_defaults(raw, &defaults);
    let limits = get(get(get(&merged, "providers").unwrap(), "telegram").unwrap(), "limits").unwrap();
    assert_eq!(get(limits, "file_limit_mb"), Some(&num("2000")));
}

#[test]
fn mismatched_types_leave_the_user_value_alone() {
    let raw = obj(vec![("upload", num("5"))]);
    let defaults = obj(vec![("upload", obj(vec![("chunk_mb", num("8"))]))]);
    let merged = merge_grouped_defaults(raw, &defaults);
    assert_eq!(get(&merged, "upload"), Some(&num("5")));

    let raw_leaf = JsonValue::Bool(true);
    assert_eq!(merge_grouped_defaults(raw_leaf, &defaults), JsonValue::Bool(true));

    let raw_obj = obj(vec![("a", JsonValue::Null)]);
    let merged = merge_grouped_defaults(raw_obj, &JsonValue::Array(vec![]));
    assert_eq!(merged, obj(vec![("a", JsonValue::Null)]));
}

#[test]
fn user_keys_keep_their_places() {
    let raw = obj(vec![("b", num("1")), ("a", num("2"))]);
    let defaults = obj(vec![("c", num("3")), ("a", num("9"))]);
    let merged = merge_grouped_defaults(raw, &defaults);
    assert_eq!(merged, obj(vec![("b", num("1")), ("a", num("2")), ("c", num("3"))]));
}

#[test]
fn settings_text_is_parsed_and_filled() {
    let defaults = obj(vec![("player", obj(vec![("volume", num("80")), ("muted", JsonValue::Bool(false))]))]);
    let merged = settings_from_text(Some(r#"{"player":{"volume":35},"theme":"dark"}"#), &defaults);
    let expected = obj(vec![
        ("player", obj(vec![("volume", num("35")), ("muted", JsonValue::Bool(false))])),
        ("theme", JsonValue::Str(s("dark"))),
    ]);
    assert_eq!(merged, expected);
}

#[test]
fn unreadable_settings_text_gives_the_defaults() {
    let defaults = obj(vec![("lang", JsonValue::Str(s("en")))]);
    assert_eq!(settings_from_text(Some("{not json"), &defaults), obj(vec![("lang", JsonValue::Str(s("en")))]));
    assert_eq!(settings_from_text(None, &defaults), obj(vec![("lang", JsonValue::Str(s("en")))]));
    assert_eq!(settings_from_text(Some(""), &defaults), obj(vec![("lang", JsonValue::Str(s("en")))]));
}

#[test]
fn settings_text_that_is_not_an_object_is_kept() {
    let defaults = obj(vec![("lang", JsonValue::Str(s("en")))]);
    assert_eq!(settings_from_text(Some("[1, 2.5, null]"), &defaults),
        JsonValue::Array(vec![num("1"), num("2.5"), JsonValue::Null]));
    assert_eq!(settings_from_text(Some("true"), &defaults), JsonValue::Bool(true));
}

#[test]
fn serde_values_convert_level_by_level() {
    let v: serde_json::Value = serde_json::from_str(r#"{"b":[1,"x",{"c":null}],"a":-7}"#).unwrap();
    let expected = obj(vec![
        ("a", num("-7")),
        ("b", JsonValue::Array(vec![num("1"), JsonValue::Str(s("x")), obj(vec![("c", JsonValue::Null)])])),
    ]);
    assert_eq!(json_from_value(&v), expected);
}
