use swuc::changelog::{diff, render_long, render_short, ChangelogGenerator, PackageInfo};
use swuc::decode::{decode_response, DecodeError, Json, ResponseShape};
use swuc::store::VersionStore;
use swuc::tick::process_server_response;

fn pkg(name: &str, version: &str, sources: &[&str]) -> PackageInfo {
    PackageInfo {
        name: name.to_string(),
        version: version.to_string(),
        sources: sources.iter().map(|s| s.to_string()).collect(),
    }
}

fn store_of(pairs: &[(&str, &str)]) -> VersionStore {
    let mut s = VersionStore::new();
    for (n, v) in pairs {
        s.put(n, v);
    }
    s
}

fn s(x: &str) -> String {
    x.to_string()
}

fn descriptor(name: &str, version: &str, sources: &[&str]) -> Json {
    Json::Object(vec![
        (s("name"), Json::Str(s(name))),
        (s("version"), Json::Str(s(version))),
        (s("sources"), Json::Array(sources.iter().map(|x| Json::Str(s(x))).collect())),
    ])
}

#[test]
fn diff_reports_changed_version() {
    let store = store_of(&[("nginx", "1.27.3")]);
    let (entries, updated) = diff(&vec![pkg("nginx", "1.27.4", &["https://nginx.org"])], &store);
    assert_eq!(entries.len(), 1);
    assert_eq!(entries[0].name, "nginx");
    assert_eq!(entries[0].old_version.as_deref(), Some("1.27.3"));
    assert_eq!(entries[0].new_version, "1.27.4");
    assert_eq!(entries[0].sources, vec![s("https://nginx.org")]);
    assert_eq!(updated.entries, vec![(s("nginx"), s("1.27.4"))]);
}

#[test]
fn unknown_version_changes_nothing() {
    let store = store_of(&[("nginx", "1.27.3")]);
    let (entries, updated) = diff(&vec![pkg("nginx", "Unknown", &[])], &store);
    assert!(entries.is_empty());
    assert_eq!(updated.get("nginx").as_deref(), Some("1.27.3"));
    let empty = VersionStore::new();
    let (entries, updated) = diff(&vec![pkg("curl", "Unknown", &[])], &empty);
    assert!(entries.is_empty());
    assert_eq!(updated.get("curl"), None);
}

#[test]
fn absent_name_gets_entry_with_empty_old() {
    let store = VersionStore::new();
    let (entries, updated) = diff(&vec![pkg("rustlang", "1.45.2", &[])], &store);
    assert_eq!(entries.len(), 1);
    assert_eq!(entries[0].old_version, None);
    assert_eq!(render_short(&entries), "rustlang  -> 1.45.2\n");
    assert_eq!(updated.get("rustlang").as_deref(), Some("1.45.2"));
}

#[test]
fn unchanged_version_refreshes_without_entry() {
    let store = store_of(&[("nginx", "1.27.4")]);
    let (entries, updated) = diff(&vec![pkg("nginx", "1.27.4", &[])], &store);
    assert!(entries.is_empty());
    assert_eq!(updated.get("nginx").as_deref(), Some("1.27.4"));
}

#[test]
fn second_diff_with_own_store_is_empty() {
    let store = store_of(&[("nginx", "1.27.3"), ("old", "1")]);
    let ps = vec![
        pkg("nginx", "1.27.4", &["a"]),
        pkg("rustlang", "1.45.2", &[]),
        pkg("zlib", "Unknown", &[]),
    ];
    let (first, updated) = diff(&ps, &store);
    assert_eq!(first.len(), 2);
    let (second, again) = diff(&ps, &updated);
    assert!(second.is_empty());
    assert_eq!(again.save(), updated.save());
    assert_eq!(updated.get("old").as_deref(), Some("1"));
}

#[test]
fn no_changes_means_no_long_report_files() {
    let mut g = ChangelogGenerator::new();
    let store = store_of(&[("nginx", "1.27.4")]);
    let doc = Json::Array(vec![descriptor("nginx", "1.27.4", &["x"])]);
    let updated = g.parse_response(&doc, &store, false).unwrap();
    assert_eq!(g.short_report(), "No changes\n");
    assert_eq!(g.full_report(), "");
    assert!(g.report_files("10-00_01-01-2025").is_empty());
    assert_eq!(g.dated_report("2025-01-01 10:00:00"), None);
    assert_eq!(updated.get("nginx").as_deref(), Some("1.27.4"));
}

#[test]
fn long_report_lists_sources() {
    let store = VersionStore::new();
    let (entries, _) = diff(&vec![pkg("nginx", "1.27.4", &["https://nginx.org", "https://a.b"])], &store);
    assert_eq!(
        render_long(&entries),
        "nginx  -> 1.27.4\n| - Sources:\n    | - https://nginx.org\n    | - https://a.b\n\n"
    );
}

#[test]
fn report_files_are_latest_and_dated() {
    let mut g = ChangelogGenerator::new();
    let doc = Json::Array(vec![descriptor("nginx", "1.27.4", &["u"])]);
    g.parse_response(&doc, &VersionStore::new(), false).unwrap();
    let files = g.report_files("09-30_02-03-2025");
    assert_eq!(files.len(), 2);
    assert_eq!(files[0].0, "latest.txt");
    assert_eq!(files[1].0, "report_09-30_02-03-2025.txt");
    assert_eq!(files[0].1, g.full_report());
    assert_eq!(files[1].1, g.full_report());
    assert_eq!(
        g.dated_report("2025-03-02 09:30:00"),
        Some(format!("Update report generated at 2025-03-02 09:30:00\n\n{}", g.full_report()))
    );
}

#[test]
fn end_to_end_short_report_and_store() {
    let names = swuc::request::load_package_list("nginx\nrustlang\n");
    assert_eq!(names, vec![s("nginx"), s("rustlang")]);
    let text = store_of(&[("nginx", "1.27.3")]).save();
    let store = VersionStore::load(&text).unwrap();
    let doc = Json::Array(vec![
        descriptor("nginx", "1.27.4", &["https://nginx.org"]),
        descriptor("rustlang", "1.45.2", &["https://rust-lang.org"]),
    ]);
    let (g, updated) = process_server_response(&doc, &store, false).unwrap();
    let lines: Vec<&str> = g.short_report().lines().collect();
    assert_eq!(lines, vec!["nginx 1.27.3 -> 1.27.4", "rustlang  -> 1.45.2"]);
    let reloaded = VersionStore::load(&updated.save()).unwrap();
    assert_eq!(reloaded.get("nginx").as_deref(), Some("1.27.4"));
    assert_eq!(reloaded.get("rustlang").as_deref(), Some("1.45.2"));
    assert_eq!(reloaded.entries.len(), 2);
}

#[test]
fn decode_accepts_legacy_shape() {
    let doc = Json::Object(vec![
        (s("status"), Json::Str(s("success"))),
        (s("software"), Json::Array(vec![descriptor("nginx", "1.0", &[])])),
    ]);
    let (shape, ps) = decode_response(&doc).unwrap();
    assert_eq!(shape, ResponseShape::Legacy);
    assert_eq!(ps.len(), 1);
    assert_eq!(ps[0].name, "nginx");
    let (shape, _) = decode_response(&Json::Array(vec![])).unwrap();
    assert_eq!(shape, ResponseShape::Canonical);
    let store = VersionStore::new();
    assert_eq!(process_server_response(&doc, &store, false).err(), Some(DecodeError::LegacyShape));
    let (g, updated) = process_server_response(&doc, &store, true).unwrap();
    assert_eq!(g.entries().len(), 1);
    assert_eq!(updated.get("nginx").as_deref(), Some("1.0"));
}

#[test]
fn decode_rejects_whole_batch() {
    let bad_name = Json::Object(vec![
        (s("name"), Json::Str(s(""))),
        (s("version"), Json::Str(s("1"))),
        (s("sources"), Json::Array(vec![])),
    ]);
    let doc = Json::Array(vec![descriptor("ok", "1", &[]), bad_name]);
    assert_eq!(decode_response(&doc).err(), Some(DecodeError::BadName));
    let no_version = Json::Object(vec![(s("name"), Json::Str(s("a"))), (s("sources"), Json::Array(vec![]))]);
    assert_eq!(decode_response(&Json::Array(vec![no_version])).err(), Some(DecodeError::BadVersion));
    let bad_sources = Json::Object(vec![
        (s("name"), Json::Str(s("a"))),
        (s("version"), Json::Str(s("1"))),
        (s("sources"), Json::Array(vec![Json::Number(s("3"))])),
    ]);
    assert_eq!(decode_response(&Json::Array(vec![bad_sources])).err(), Some(DecodeError::BadSources));
    assert_eq!(decode_response(&Json::Array(vec![Json::Null])).err(), Some(DecodeError::NotAnObject));
    assert_eq!(decode_response(&Json::Bool(true)).err(), Some(DecodeError::UnexpectedShape));
    let mut g = ChangelogGenerator::new();
    assert!(g.parse_response(&Json::Null, &VersionStore::new(), true).is_err());
    assert_eq!(g.short_report(), "No changes\n");
}
