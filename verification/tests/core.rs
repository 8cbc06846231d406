use dep_complete::cache::TomlData;
use dep_complete::cache::{build_data, parse_lines, split_lines_exec, now};
use dep_complete::engine::{completion, get_char_index_from_position};
use dep_complete::resolver::{find_group, get_line, resolve, ContextKind};
use dep_complete::text::normalize;

fn sample_files() -> Vec<String> {
    vec![
        "[\"Serde\",[\"1.0.0\",\"0.9.0\"]]\n[\"serde_json\",[\"1.0.1\"]]\n".to_string(),
        "[\"tokio\",[\"1.40.0\",\"1.39.0\"]]\n[\"empty-crate\",[]]\n".to_string(),
    ]
}

fn sample_data() -> TomlData {
    TomlData::new(&sample_files())
}

#[test]
fn normalize_strips_and_lowercases() {
    assert_eq!(normalize("Serde_JSON-x"), "serdejsonx");
    assert_eq!(normalize("a-b_c"), "abc");
    assert_eq!(normalize(""), "");
}

#[test]
fn normalize_is_idempotent() {
    for s in ["Serde_JSON-x", "already", "-_-", "MiXeD-Case_Name", ""] {
        let once = normalize(s);
        let twice = normalize(&once);
        assert_eq!(once, twice);
    }
}

#[test]
fn search_returns_only_matching_prefixes() {
    let data = sample_data();
    let res = data.search("ser");
    assert_eq!(res.len(), 2);
    for (name, _) in &res {
        assert!(normalize(name).starts_with("ser"));
    }
}

#[test]
fn search_pairs_name_with_first_version() {
    let data = sample_data();
    let res = data.search("tok");
    assert_eq!(res, vec![("tokio".to_string(), "1.40.0".to_string())]);
}

#[test]
fn search_skips_records_without_versions() {
    let data = sample_data();
    let res = data.search("empty");
    assert!(res.is_empty());
}

#[test]
fn search_normalizes_the_query() {
    let data = sample_data();
    let res = data.search("SERDE-J");
    assert_eq!(res.len(), 1);
    assert_eq!(res[0].0, "serde_json");
}

#[test]
fn search_orders_exact_match_first_then_lexicographic() {
    let data = sample_data();
    let res = data.search("serde");
    let names: Vec<&str> = res.iter().map(|p| p.0.as_str()).collect();
    assert_eq!(names, vec!["serde", "serde_json"]);
}

#[test]
fn search_empty_query_lists_everything_with_versions() {
    let data = sample_data();
    let res = data.search("");
    let names: Vec<&str> = res.iter().map(|p| p.0.as_str()).collect();
    assert_eq!(names, vec!["serde", "tokio", "serde_json"]);
}

#[test]
fn get_versions_is_case_insensitive() {
    let data = sample_data();
    assert_eq!(
        data.get_versions("SERDE"),
        Some(vec!["1.0.0".to_string(), "0.9.0".to_string()])
    );
    assert_eq!(data.get_versions("Serde"), data.get_versions("serde"));
}

#[test]
fn get_versions_absent_name_is_none() {
    let data = sample_data();
    assert_eq!(data.get_versions("does-not-exist"), None);
}

#[test]
fn build_data_skips_a_file_with_a_bad_line_but_keeps_others() {
    let files = vec![
        "[\"good\",[\"1.0.0\"]]\n".to_string(),
        "[\"lost\",[\"1.0.0\"]]\nnot json\n".to_string(),
        "[\"kept\",[\"2.0.0\"]]\n".to_string(),
    ];
    let data = TomlData::new(&files);
    assert!(data.get_versions("good").is_some());
    assert!(data.get_versions("kept").is_some());
    assert!(data.get_versions("lost").is_none());
}

#[test]
fn build_data_later_file_wins() {
    let files = vec![
        "[\"dup\",[\"1.0.0\"]]\n".to_string(),
        "[\"DUP\",[\"2.0.0\"]]\n".to_string(),
    ];
    let data = TomlData::new(&files);
    assert_eq!(data.get_versions("dup"), Some(vec!["2.0.0".to_string()]));
}

#[test]
fn parse_lines_decodes_real_json() {
    let lines = split_lines_exec("[\"Name-X\",[\"0.1.0\"]]\n");
    let recs = parse_lines(&lines).expect("well-formed file");
    assert_eq!(recs.len(), 1);
    assert_eq!(recs[0].name, "name-x");
    assert_eq!(recs[0].search_key, "namex");
    assert_eq!(recs[0].versions, vec!["0.1.0".to_string()]);
}

#[test]
fn parse_lines_rejects_a_bad_record() {
    let lines = split_lines_exec("[\"ok\",[\"1\"]]\n{\"not\":\"a pair\"}\n");
    assert!(parse_lines(&lines).is_none());
}

#[test]
fn locate_section_inside_dependency_table() {
    let text = "[dependencies]\nserde = \"1\"";
    assert_eq!(find_group(text, 20), Some("dependencies".to_string()));
    assert_eq!(find_group(text, text.chars().count()), Some("dependencies".to_string()));
}

#[test]
fn locate_section_none_without_header() {
    assert_eq!(find_group("serde = \"1\"", 5), None);
    assert_eq!(find_group("", 0), None);
    // header without a terminating line break is malformed
    assert_eq!(find_group("[dependencies]", 14), None);
}

#[test]
fn get_line_splits_at_the_cursor() {
    assert_eq!(get_line("ab\ncd", 1), ("a".to_string(), "b".to_string()));
    assert_eq!(get_line("ab\ncd", 4), ("c".to_string(), "d".to_string()));
}

#[test]
fn get_line_edge_cases() {
    assert_eq!(get_line("", 3), (String::new(), String::new()));
    assert_eq!(get_line("ab\ncd", 0), (String::new(), "ab".to_string()));
    // offset exactly on the line break
    assert_eq!(get_line("ab\ncd", 2), ("ab".to_string(), String::new()));
    // offset at or past the end of the text
    assert_eq!(get_line("ab\ncd", 5), ("cd".to_string(), String::new()));
    assert_eq!(get_line("ab\ncd", 99), ("cd".to_string(), String::new()));
}

#[test]
fn char_index_counts_characters_not_bytes() {
    assert_eq!(get_char_index_from_position("ab\ncd", 1, 1), 4);
    assert_eq!(get_char_index_from_position("äö\ncd", 1, 1), 4);
    assert_eq!(get_char_index_from_position("ab", 5, 7), 2);
}

#[test]
fn context_version_detail_with_name_and_prefix() {
    let text = "[dependencies]\nserde = \"1.0";
    let ctx = resolve(text, text.chars().count());
    match ctx.kind {
        ContextKind::VersionDetail { name, prefix, append_quote } => {
            assert_eq!(name, "serde");
            assert_eq!(prefix, "1.0");
            assert!(append_quote);
        }
        _ => panic!("expected a version-detail context"),
    }
}

#[test]
fn context_package_name_with_typed_prefix() {
    let text = "[dependencies]\nser";
    let ctx = resolve(text, text.chars().count());
    match ctx.kind {
        ContextKind::PackageName { prefix } => assert_eq!(prefix, "ser"),
        _ => panic!("expected a package-name context"),
    }
}

#[test]
fn context_inline_table_is_unsupported() {
    let text = "[dependencies]\nserde = { ver";
    let ctx = resolve(text, text.chars().count());
    assert!(matches!(ctx.kind, ContextKind::Unsupported));
}

#[test]
fn context_outside_dependency_table() {
    let text = "[package]\nname = \"x";
    let ctx = resolve(text, text.chars().count());
    assert!(matches!(ctx.kind, ContextKind::Outside));
}

#[test]
fn completion_package_name_inserts_declaration() {
    let data = sample_data();
    let text = "[dependencies]\ntok";
    let res = completion("/p/Cargo.toml", text, 1, 3, &data);
    assert_eq!(res.len(), 1);
    assert_eq!(res[0].label, "tokio");
    assert_eq!(res[0].insert_text, Some("tokio = \"1.40.0\"".to_string()));
}

#[test]
fn completion_version_appends_quote_when_missing() {
    let data = sample_data();
    let text = "[dependencies]\nserde = \"1.0";
    let res = completion("/p/Cargo.toml", text, 1, 12, &data);
    assert_eq!(res.len(), 1);
    assert_eq!(res[0].label, "1.0.0");
    assert_eq!(res[0].insert_text, Some("1.0.0\"".to_string()));
}

#[test]
fn completion_version_omits_quote_when_present() {
    let data = sample_data();
    let text = "[dependencies]\nserde = \"1.0\"";
    let res = completion("/p/Cargo.toml", text, 1, 12, &data);
    assert_eq!(res.len(), 1);
    assert_eq!(res[0].label, "1.0.0");
    assert_eq!(res[0].insert_text, None);
}

#[test]
fn completion_unknown_package_version_is_empty() {
    let data = sample_data();
    let text = "[dependencies]\nnosuch = \"1";
    let res = completion("/p/Cargo.toml", text, 1, 11, &data);
    assert!(res.is_empty());
}

#[test]
fn completion_non_manifest_file_is_empty() {
    let data = sample_data();
    let text = "[dependencies]\nser";
    assert!(completion("/p/src/lib.rs", text, 1, 3, &data).is_empty());
    assert!(completion("/p/Cargo.lock", text, 0, 0, &data).is_empty());
}

#[test]
fn refresh_cycle_flags_and_monotone_timestamp() {
    let mut data = TomlData::new(&sample_files());
    assert!(!data.updating);
    assert_eq!(data.last_checked, 0);
    assert!(data.need_update(1000));
    data.begin_update();
    assert!(data.updating);
    assert!(!data.need_update(1000));
    data.finish_update(None, 500);
    assert!(!data.updating);
    assert_eq!(data.last_checked, 500);
    // a second cycle whose clock ran backwards never lowers the stamp
    data.begin_update();
    data.finish_update(None, 400);
    assert_eq!(data.last_checked, 500);
    assert!(!data.need_update(700));
    assert!(data.need_update(801));
}

#[test]
fn refresh_swaps_snapshot_only_with_new_data() {
    let mut data = TomlData::new(&sample_files());
    data.begin_update();
    data.finish_update(None, 10);
    assert!(data.get_versions("serde").is_some());
    let new_files = vec!["[\"other\",[\"3.0.0\"]]\n".to_string()];
    data.begin_update();
    data.finish_update(Some(build_data(&new_files)), 20);
    assert!(data.get_versions("serde").is_none());
    assert_eq!(data.get_versions("other"), Some(vec!["3.0.0".to_string()]));
}

#[test]
fn now_is_after_the_epoch() {
    assert!(now() > 0);
}
