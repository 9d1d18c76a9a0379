use mod_installer::InstallData;
use mod_installer::InstallDatas;

fn record(version: &str, paths: &[&str]) -> InstallData {
    InstallData {
        version: version.to_string(),
        structure: paths.iter().map(|p| p.to_string()).collect(),
    }
}

fn ledger(entries: &[(&str, &str)]) -> InstallDatas {
    let mut l = InstallDatas::empty();
    for (name, version) in entries {
        l.insert(name.to_string(), record(version, &["a.dll"]));
    }
    l
}

#[test]
fn empty_ledger_has_no_records() {
    let l = InstallDatas::empty();
    assert_eq!(l.len(), 0);
    assert!(l.get(&"anything".to_string()).is_none());
}

#[test]
fn default_is_empty() {
    let l = InstallDatas::default();
    assert_eq!(l.len(), 0);
}

#[test]
fn insert_then_get() {
    let mut l = InstallDatas::empty();
    l.insert("mod-a".to_string(), record("1.0", &["a.dll", "b.dll"]));
    let d = l.get(&"mod-a".to_string()).unwrap();
    assert_eq!(d.version, "1.0");
    assert_eq!(d.structure, vec!["a.dll".to_string(), "b.dll".to_string()]);
    assert_eq!(l.len(), 1);
}

#[test]
fn insert_replaces_record_of_same_name() {
    let mut l = InstallDatas::empty();
    l.insert("mod-a".to_string(), record("1.0", &["a.dll"]));
    l.insert("mod-a".to_string(), record("2.0", &["c.dll"]));
    assert_eq!(l.len(), 1);
    assert_eq!(l.get(&"mod-a".to_string()).unwrap().version, "2.0");
}

#[test]
fn merge_with_empty_is_identity() {
    let a = ledger(&[("x", "1"), ("y", "2")]);
    let e = InstallDatas::empty();
    let left = a.merge(&e);
    assert_eq!(left.len(), 2);
    assert_eq!(left.get(&"x".to_string()).unwrap().version, "1");
    assert_eq!(left.get(&"y".to_string()).unwrap().version, "2");
    let right = e.merge(&a);
    assert_eq!(right.len(), 2);
    assert_eq!(right.get(&"x".to_string()).unwrap().version, "1");
    assert_eq!(right.get(&"y".to_string()).unwrap().version, "2");
}

#[test]
fn merge_prefers_right_on_shared_keys() {
    let a = ledger(&[("x", "1"), ("y", "2")]);
    let b = ledger(&[("y", "9"), ("z", "3")]);
    let m = a.merge(&b);
    assert_eq!(m.len(), 3);
    assert_eq!(m.get(&"y".to_string()).unwrap().version, "9");
}

#[test]
fn merge_keeps_left_only_keys() {
    let a = ledger(&[("x", "1"), ("y", "2")]);
    let b = ledger(&[("y", "9")]);
    let m = a.merge(&b);
    assert_eq!(m.get(&"x".to_string()).unwrap().version, "1");
    assert!(m.get(&"z".to_string()).is_none());
}

#[test]
fn merge_leaves_inputs_untouched() {
    let a = ledger(&[("x", "1")]);
    let b = ledger(&[("x", "9")]);
    let _ = a.merge(&b);
    assert_eq!(a.get(&"x".to_string()).unwrap().version, "1");
    assert_eq!(b.get(&"x".to_string()).unwrap().version, "9");
}
