use mod_installer::InstallData;
use mod_installer::InstallDatas;
use mod_installer::InstallError;
use mod_installer::InstallEvent;
use mod_installer::ModInfo;
use mod_installer::install_mods;
use mod_installer::plan_installs;

fn mod_info(name: &str, version: &str, deps: Option<&[&str]>) -> ModInfo {
    ModInfo {
        name: name.to_string(),
        author: "someone".to_string(),
        version: version.to_string(),
        download_url: format!("https://example.invalid/{}.zip", name),
        git_path: None,
        group: "Gameplay".to_string(),
        dependencies: deps.map(|d| d.iter().map(|n| n.to_string()).collect()),
        install_location: None,
        beta: false,
    }
}

fn plan_names(plan: &[ModInfo]) -> Vec<String> {
    plan.iter().map(|m| m.name.clone()).collect()
}

#[test]
fn plan_orders_dependency_before_dependent() {
    let a = mod_info("A", "1.0", Some(&["B"]));
    let b = mod_info("B", "1.0", Some(&[]));
    let catalog = vec![a.clone(), b.clone()];
    let request = vec![a];
    let ledger = InstallDatas::empty();
    let plan = plan_installs(&catalog, &request, &ledger, false);
    assert_eq!(plan_names(&plan), vec!["B".to_string(), "A".to_string()]);
}

#[test]
fn plan_skips_dependencies_when_disabled() {
    let a = mod_info("A", "1.0", Some(&["B"]));
    let b = mod_info("B", "1.0", Some(&[]));
    let catalog = vec![a.clone(), b];
    let request = vec![a];
    let ledger = InstallDatas::empty();
    let plan = plan_installs(&catalog, &request, &ledger, true);
    assert_eq!(plan_names(&plan), vec!["A".to_string()]);
}

#[test]
fn plan_drops_unknown_dependency_names() {
    let a = mod_info("A", "1.0", Some(&["ghost"]));
    let catalog = vec![a.clone()];
    let request = vec![a];
    let ledger = InstallDatas::empty();
    let plan = plan_installs(&catalog, &request, &ledger, false);
    assert_eq!(plan_names(&plan), vec!["A".to_string()]);
}

#[test]
fn plan_skips_fresh_dependencies() {
    let a = mod_info("A", "1.0", Some(&["B"]));
    let b = mod_info("B", "2.0", Some(&[]));
    let catalog = vec![a.clone(), b.clone()];
    let request = vec![a];
    let mut ledger = InstallDatas::empty();
    ledger.insert(
        "B".to_string(),
        InstallData { version: "2.0".to_string(), structure: vec![] },
    );
    let plan = plan_installs(&catalog, &request, &ledger, false);
    assert_eq!(plan_names(&plan), vec!["A".to_string()]);
}

#[test]
fn plan_survives_dependency_cycles() {
    let a = mod_info("A", "1.0", Some(&["B"]));
    let b = mod_info("B", "1.0", Some(&["A"]));
    let catalog = vec![a.clone(), b.clone()];
    let request = vec![a];
    let ledger = InstallDatas::empty();
    let plan = plan_installs(&catalog, &request, &ledger, false);
    assert_eq!(plan_names(&plan), vec!["B".to_string(), "A".to_string()]);
}

#[test]
fn plan_follows_transitive_dependencies() {
    let a = mod_info("A", "1.0", Some(&["B"]));
    let b = mod_info("B", "1.0", Some(&["C"]));
    let c = mod_info("C", "1.0", None);
    let catalog = vec![a.clone(), b, c];
    let request = vec![a];
    let ledger = InstallDatas::empty();
    let plan = plan_installs(&catalog, &request, &ledger, false);
    assert_eq!(
        plan_names(&plan),
        vec!["C".to_string(), "B".to_string(), "A".to_string()]
    );
}

#[test]
fn resolving_an_up_to_date_request_is_a_no_op() {
    let a = mod_info("A", "1.0", Some(&["B"]));
    let b = mod_info("B", "1.0", Some(&[]));
    let catalog = vec![a.clone(), b.clone()];
    let request = vec![a, b];
    let mut ledger = InstallDatas::empty();
    ledger.insert(
        "A".to_string(),
        InstallData { version: "1.0".to_string(), structure: vec!["a.dll".to_string()] },
    );
    ledger.insert(
        "B".to_string(),
        InstallData { version: "1.0".to_string(), structure: vec!["b.dll".to_string()] },
    );
    let mut events: Vec<InstallEvent> = Vec::new();
    let out = install_mods(&catalog, &request, "/tmp/root", &mut events, &ledger, false)
        .expect("nothing to install, so the resolver must succeed");
    assert!(events.is_empty());
    assert_eq!(out.len(), ledger.len());
    for name in ["A", "B"] {
        let got = out.get(&name.to_string()).unwrap();
        let want = ledger.get(&name.to_string()).unwrap();
        assert_eq!(got.version, want.version);
        assert_eq!(got.structure, want.structure);
    }
}

#[test]
fn failing_fetch_aborts_the_batch() {
    let mut a = mod_info("A", "1.0", None);
    a.download_url = "unsupported-scheme://nowhere/archive.zip".to_string();
    let catalog = vec![a.clone()];
    let request = vec![a];
    let ledger = InstallDatas::empty();
    let mut events: Vec<InstallEvent> = Vec::new();
    let r = install_mods(&catalog, &request, "/tmp/root", &mut events, &ledger, false);
    assert!(matches!(r, Err(InstallError::Fetch)));
    assert_eq!(events.len(), 1);
    assert_eq!(events[0].name, "A");
}

#[test]
fn bytes_that_are_no_archive_are_a_format_error() {
    let mut a = mod_info("A", "1.0", None);
    a.download_url = "file:///proc/self/cmdline".to_string();
    let catalog = vec![a.clone()];
    let request = vec![a];
    let ledger = InstallDatas::empty();
    let mut events: Vec<InstallEvent> = Vec::new();
    let r = install_mods(&catalog, &request, "/tmp/root", &mut events, &ledger, false);
    assert!(matches!(r, Err(InstallError::Format)));
}

#[test]
fn empty_request_resolves_to_the_same_ledger() {
    let catalog = vec![mod_info("A", "1.0", None)];
    let request: Vec<ModInfo> = Vec::new();
    let mut ledger = InstallDatas::empty();
    ledger.insert(
        "A".to_string(),
        InstallData { version: "0.9".to_string(), structure: vec![] },
    );
    let mut events: Vec<InstallEvent> = Vec::new();
    let out = install_mods(&catalog, &request, "/tmp/root", &mut events, &ledger, true).unwrap();
    assert!(events.is_empty());
    assert_eq!(out.len(), 1);
    assert_eq!(out.get(&"A".to_string()).unwrap().version, "0.9");
}

#[test]
fn plan_treats_version_change_as_stale() {
    let a = mod_info("A", "2.0", None);
    let catalog = vec![a.clone()];
    let request = vec![a];
    let mut ledger = InstallDatas::empty();
    ledger.insert(
        "A".to_string(),
        InstallData { version: "1.0".to_string(), structure: vec![] },
    );
    let plan = plan_installs(&catalog, &request, &ledger, false);
    assert_eq!(plan_names(&plan), vec!["A".to_string()]);
}
