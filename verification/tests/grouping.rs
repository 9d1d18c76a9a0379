use mod_installer::Group;
use mod_installer::InstallError;
use mod_installer::ModInfo;
use mod_installer::grouped;

fn mod_in_group(name: &str, group: &str) -> ModInfo {
    ModInfo {
        name: name.to_string(),
        author: "someone".to_string(),
        version: "1.0".to_string(),
        download_url: format!("https://example.invalid/{}.zip", name),
        git_path: None,
        group: group.to_string(),
        dependencies: None,
        install_location: None,
        beta: false,
    }
}

fn group(rank: u8, name: &str) -> Group {
    Group { rank, name: name.to_string() }
}

#[test]
fn buckets_are_ordered_by_rank() {
    let groups = vec![group(2, "beta"), group(1, "stable")];
    let infos = vec![
        mod_in_group("m1", "beta"),
        mod_in_group("m2", "stable"),
        mod_in_group("m3", "beta"),
    ];
    let bs = grouped(groups, infos).unwrap();
    assert_eq!(bs.len(), 2);
    assert_eq!(bs[0].group.name, "stable");
    assert_eq!(bs[0].group.rank, 1);
    assert_eq!(bs[1].group.name, "beta");
    assert_eq!(bs[1].group.rank, 2);
}

#[test]
fn every_component_lands_in_exactly_one_bucket() {
    let groups = vec![group(2, "beta"), group(1, "stable")];
    let infos = vec![
        mod_in_group("m1", "beta"),
        mod_in_group("m2", "stable"),
        mod_in_group("m3", "beta"),
    ];
    let bs = grouped(groups, infos).unwrap();
    let stable: Vec<&str> = bs[0].mods.iter().map(|m| m.name.as_str()).collect();
    let beta: Vec<&str> = bs[1].mods.iter().map(|m| m.name.as_str()).collect();
    assert_eq!(stable, vec!["m2"]);
    assert_eq!(beta, vec!["m1", "m3"]);
    let total: usize = bs.iter().map(|b| b.mods.len()).sum();
    assert_eq!(total, 3);
}

#[test]
fn unknown_group_is_a_reference_error() {
    let groups = vec![group(1, "stable")];
    let infos = vec![mod_in_group("m1", "stable"), mod_in_group("m2", "nightly")];
    let r = grouped(groups, infos);
    match r {
        Err(InstallError::Reference(name)) => assert_eq!(name, "nightly"),
        _ => panic!("expected a reference error for the unknown group"),
    }
}

#[test]
fn empty_input_groups_to_nothing() {
    let bs = grouped(vec![group(1, "stable")], Vec::new()).unwrap();
    assert!(bs.is_empty());
}

#[test]
fn equal_ranks_keep_first_mention_order() {
    let groups = vec![group(1, "b"), group(1, "a")];
    let infos = vec![mod_in_group("m1", "b"), mod_in_group("m2", "a")];
    let bs = grouped(groups, infos).unwrap();
    assert_eq!(bs[0].group.name, "b");
    assert_eq!(bs[1].group.name, "a");
}

#[test]
fn extreme_ranks_sort_correctly() {
    let groups = vec![group(255, "last"), group(0, "first")];
    let infos = vec![mod_in_group("m1", "last"), mod_in_group("m2", "first")];
    let bs = grouped(groups, infos).unwrap();
    assert_eq!(bs[0].group.name, "first");
    assert_eq!(bs[1].group.name, "last");
}
