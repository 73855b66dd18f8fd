use swuc::store::{StoreError, VersionStore};

#[test]
fn store_round_trip_many_names() {
    let mut s = VersionStore::new();
    for i in 0..120u32 {
        let name = match i % 4 {
            0 => format!("pkg-{}", i),
            1 => format!("пакет{}", i),
            2 => format!("軟件{}", i),
            _ => format!("naïve café {}", i),
        };
        s.put(&name, &format!("{}.{}.{}: beta ü", i, i * 7, i % 3));
    }
    let text = s.save();
    let back = VersionStore::load(&text).unwrap();
    assert_eq!(back.entries, s.entries);
    assert_eq!(back.entries.len(), 120);
}

#[test]
fn store_file_format() {
    let mut s = VersionStore::new();
    s.put("nginx", "1.27.3");
    s.put("curl", "8.0");
    s.put("nginx", "1.27.4");
    assert_eq!(s.save(), "nginx: 1.27.4\ncurl: 8.0\n");
    assert_eq!(s.get("curl").as_deref(), Some("8.0"));
    assert_eq!(s.get("zlib"), None);
}

#[test]
fn store_load_empty_and_corrupt() {
    assert!(VersionStore::load("").unwrap().entries.is_empty());
    assert_eq!(VersionStore::load("nginx 1.0\n").err(), Some(StoreError::Corrupt));
    let s = VersionStore::load("a: 1\na: 2\n").unwrap();
    assert_eq!(s.get("a").as_deref(), Some("2"));
    assert_eq!(s.entries.len(), 1);
}

#[test]
fn store_round_trip_awkward_names() {
    let mut s = VersionStore::new();
    s.put("a: b", "1");
    s.put("line\nbreak", "2\n3");
    s.put("back\\slash:", "c:\\d");
    s.put("", "");
    let text = s.save();
    assert_eq!(text.lines().count(), 4);
    let back = VersionStore::load(&text).unwrap();
    assert_eq!(back.entries, s.entries);
    assert_eq!(back.get("a: b").as_deref(), Some("1"));
}

#[test]
fn store_load_bad_escape() {
    assert_eq!(VersionStore::load("a\\x: 1\n").err(), Some(StoreError::Corrupt));
    assert_eq!(VersionStore::load("a: 1\\\n").err(), Some(StoreError::Corrupt));
    assert_eq!(VersionStore::load("a\\cb: 1\\n2\n").unwrap().get("a:b").as_deref(), Some("1\n2"));
}
