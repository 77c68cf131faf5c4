use skill_tracker::json::{parse_entries, serialize_entries, SkillEntry};
use skill_tracker::store::{add_skill, get_list_of_skills, vector_contain_ignore_case, StoreError};

const ONE_JSON_ENTRY: &str = "[{\"name\":\"json\",\"total_time_spent\":0}]";

#[test]
fn check_read_json_file() {
    let list_of_test_names: Vec<String> = get_list_of_skills(ONE_JSON_ENTRY).unwrap();
    assert!(list_of_test_names.contains(&"json".to_string()));
}

#[test]
fn check_add_skill_function() {
    let skill_to_add = "bevy";
    let res = add_skill(ONE_JSON_ENTRY, skill_to_add);

    let new_text = res.unwrap();
    let data: Vec<SkillEntry> = parse_entries(&new_text).unwrap();

    assert!(data
        .into_iter()
        .any(|x| x.name.eq_ignore_ascii_case(skill_to_add)));
}

#[test]
fn load_empty_text_gives_empty_list() {
    assert_eq!(get_list_of_skills("").unwrap(), Vec::<String>::new());
}

#[test]
fn load_whitespace_text_gives_empty_list() {
    assert_eq!(get_list_of_skills(" \t\r\n  \n").unwrap(), Vec::<String>::new());
}

#[test]
fn adds_then_load_returns_names_in_insertion_order() {
    let t1 = add_skill("", "alpha").unwrap();
    let t2 = add_skill(&t1, "Beta").unwrap();
    let t3 = add_skill(&t2, "gamma").unwrap();
    let names = get_list_of_skills(&t3).unwrap();
    assert_eq!(names, vec!["alpha".to_string(), "Beta".to_string(), "gamma".to_string()]);
}

#[test]
fn add_is_case_insensitive_dedup() {
    let t1 = add_skill("", "Rust").unwrap();
    let t2 = add_skill(&t1, "rust").unwrap();
    let entries = parse_entries(&t2).unwrap();
    assert_eq!(entries.len(), 1);
    assert_eq!(entries[0].name, "Rust");
    assert_eq!(entries[0].total_time_spent, 0);
}

#[test]
fn serialized_text_matches_expected_format() {
    let t = add_skill("", "json").unwrap();
    assert_eq!(t, ONE_JSON_ENTRY);
}

#[test]
fn malformed_text_is_a_parse_error() {
    assert_eq!(get_list_of_skills("not json").unwrap_err(), StoreError::Parse);
    assert_eq!(add_skill("[", "x").unwrap_err(), StoreError::Parse);
    assert_eq!(get_list_of_skills("[{\"name\":\"a\"}]").unwrap_err(), StoreError::Parse);
    assert_eq!(get_list_of_skills("[{\"name\":\"a\",\"total_time_spent\":-1}]").unwrap_err(), StoreError::Parse);
}

#[test]
fn numbers_with_leading_zeros_are_rejected() {
    assert!(get_list_of_skills("[{\"name\":\"a\",\"total_time_spent\":01}]").is_err());
}

#[test]
fn numbers_too_large_for_the_entry_are_rejected() {
    let text = "[{\"name\":\"a\",\"total_time_spent\":99999999999999999999999999}]";
    assert!(get_list_of_skills(text).is_err());
}

#[test]
fn add_keeps_existing_entries_and_times() {
    let text = "[{\"name\":\"json\",\"total_time_spent\":42}]";
    let t2 = add_skill(text, "bevy").unwrap();
    let entries = parse_entries(&t2).unwrap();
    assert_eq!(entries.len(), 2);
    assert_eq!(entries[0].name, "json");
    assert_eq!(entries[0].total_time_spent, 42);
    assert_eq!(entries[1].name, "bevy");
    assert_eq!(entries[1].total_time_spent, 0);
}

#[test]
fn escaped_names_survive_a_round_trip() {
    let name = "a\"b\\c\nd\te";
    let t = add_skill("", name).unwrap();
    let entries = parse_entries(&t).unwrap();
    assert_eq!(entries.len(), 1);
    assert_eq!(entries[0].name, name);
}

#[test]
fn serialized_text_is_real_json() {
    let name = "quote\" back\\slash control\u{0001} accents é";
    let t = add_skill("", name).unwrap();
    let value: serde_json::Value = serde_json::from_str(&t).unwrap();
    assert_eq!(value[0]["name"].as_str().unwrap(), name);
    assert_eq!(value[0]["total_time_spent"].as_u64().unwrap(), 0);
}

#[test]
fn parser_accepts_json_written_by_others() {
    let mut entry = serde_json::Map::new();
    entry.insert("total_time_spent".to_string(), serde_json::Value::from(7u64));
    entry.insert("name".to_string(), serde_json::Value::from("weird \u{00e9} name\n"));
    let text = serde_json::to_string_pretty(&serde_json::Value::Array(vec![
        serde_json::Value::Object(entry),
    ]))
    .unwrap();
    let entries = parse_entries(&text).unwrap();
    assert_eq!(entries.len(), 1);
    assert_eq!(entries[0].name, "weird \u{00e9} name\n");
    assert_eq!(entries[0].total_time_spent, 7);
}

#[test]
fn parser_accepts_spaced_json_and_unicode_escapes() {
    let text = " [ { \"name\" : \"\\u0041\\u00e9\" , \"total_time_spent\" : 12 } ] ";
    let entries = parse_entries(text).unwrap();
    assert_eq!(entries.len(), 1);
    assert_eq!(entries[0].name, "Aé");
    assert_eq!(entries[0].total_time_spent, 12);
}

#[test]
fn parser_rejects_lone_surrogate_escapes() {
    let text = "[{\"name\":\"\\ud800\",\"total_time_spent\":0}]";
    assert!(parse_entries(text).is_none());
}

#[test]
fn serializer_and_parser_agree_on_empty_store() {
    let empty: Vec<SkillEntry> = Vec::new();
    let t = serialize_entries(&empty);
    assert_eq!(t, "[]");
    assert_eq!(parse_entries("[]").unwrap().len(), 0);
    assert_eq!(parse_entries(" [ ] ").unwrap().len(), 0);
}

#[test]
fn membership_check_ignores_case_beyond_ascii() {
    assert!(vector_contain_ignore_case(vec!["Rust".to_string()], "rust"));
    assert!(vector_contain_ignore_case(vec!["École".to_string()], "école"));
    assert!(!vector_contain_ignore_case(vec!["Rust".to_string()], "go"));
    assert!(!vector_contain_ignore_case(Vec::new(), "rust"));
}
