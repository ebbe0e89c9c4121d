use pink_lady::descriptor::MetricType;
use pink_lady::directory::{
    get_registry, is_descriptor_path, BuildDefect, Directory, Loaded, SourceFile,
};
use pink_lady::number::FloatLiteral;
use pink_lady::registry::{Entry, Registry};
use pink_lady::scripts::ScraperScript;

fn file(path: &str, contents: &str) -> SourceFile {
    SourceFile { path: path.to_string(), contents: Some(contents.to_string()) }
}

fn unreadable(path: &str) -> SourceFile {
    SourceFile { path: path.to_string(), contents: None }
}

fn entry(label: &str, description: &str, script: &str, metric_type: MetricType, fallback: &str) -> Entry {
    Entry {
        label: label.to_string(),
        description: description.to_string(),
        collector: ScraperScript {
            script: script.to_string(),
            metric_type,
            failure_value: FloatLiteral::parse(fallback).unwrap(),
        },
    }
}

fn entries(registry: &Registry) -> Vec<Entry> {
    let mut found = Vec::new();
    let mut i = 0;
    while i < registry.len() {
        found.push(registry.entry(i).clone());
        i += 1;
    }
    found
}

fn sorted(mut found: Vec<Entry>) -> Vec<Entry> {
    found.sort_by(|a, b| a.label.cmp(&b.label));
    found
}

const LOAD: &str = "#!/bin/sh\n#label=load\n#description=System load\n#type=gauge\n#null=-1\nuptime\n";
const DISK: &str = "#!/bin/sh\n#label=disk\n#description=Disk use\n#type=counter\n#null=0\ndf\n";
const BROKEN: &str = "#!/bin/sh\n#label=broken\n#null=oops\n";

#[test]
fn a_probe_script_ends_in_prom() {
    for (path, expected) in [
        ("/probes/load.prom", true),
        ("load.prom", true),
        (".prom", true),
        ("a.b.prom", true),
        ("/probes/load.prom.bak", false),
        ("/probes/load.PROM", false),
        ("/probes/load.pro", false),
        ("/probes/prom", false),
        ("/probes/load.prom ", false),
        ("", false),
        ("prom", false),
    ] {
        assert_eq!(is_descriptor_path(path), expected, "{:?}", path);
        assert_eq!(is_descriptor_path(path), path.ends_with(".prom"), "{:?}", path);
    }
}

#[test]
fn two_scripts_and_one_other_file_make_two_entries() {
    let directory = Directory::Listed(vec![
        file("/probes/load.prom", LOAD),
        file("/probes/README", "#label=readme\n#null=oops\n"),
        file("/probes/disk.prom", DISK),
    ]);
    let loaded = get_registry("node", &directory).unwrap();
    assert_eq!(loaded.loaded, 2);
    assert_eq!(loaded.shadowed(), 0);
    assert_eq!(loaded.registry.prefix(), "node");
    assert_eq!(
        entries(&loaded.registry),
        vec![
            entry("load", "System load", "/probes/load.prom", MetricType::Gauge, "-1"),
            entry("disk", "Disk use", "/probes/disk.prom", MetricType::Counter, "0"),
        ]
    );
}

#[test]
fn a_file_that_is_no_script_need_not_be_readable() {
    let directory = Directory::Listed(vec![unreadable("/probes/core"), file("/probes/load.prom", LOAD)]);
    let loaded = get_registry("node", &directory).unwrap();
    assert_eq!(loaded.registry.len(), 1);
    assert_eq!(loaded.loaded, 1);
}

#[test]
fn an_empty_directory_makes_an_empty_registry() {
    let loaded = get_registry("node", &Directory::Listed(vec![])).unwrap();
    assert_eq!(loaded, Loaded { registry: Registry::with_prefix("node".to_string()), loaded: 0 });
}

#[test]
fn a_directory_that_cannot_be_listed_makes_no_registry() {
    assert_eq!(get_registry("node", &Directory::Unreadable), Err(BuildDefect::DirectoryUnreadable));
}

#[test]
fn a_script_that_cannot_be_read_fails_the_directory() {
    let directory = Directory::Listed(vec![
        file("/probes/load.prom", LOAD),
        unreadable("/probes/disk.prom"),
    ]);
    assert_eq!(get_registry("node", &directory), Err(BuildDefect::FileUnreadable { file: 1 }));
}

#[test]
fn a_malformed_descriptor_fails_the_directory() {
    let directory = Directory::Listed(vec![
        file("/probes/load.prom", LOAD),
        file("/probes/notes.txt", "plain"),
        file("/probes/broken.prom", BROKEN),
        file("/probes/disk.prom", DISK),
    ]);
    assert_eq!(
        get_registry("node", &directory),
        Err(BuildDefect::DescriptorMalformed { file: 2, line: 2 })
    );
}

#[test]
fn the_first_defect_is_the_one_named() {
    let directory = Directory::Listed(vec![
        file("/probes/broken.prom", BROKEN),
        unreadable("/probes/disk.prom"),
    ]);
    assert_eq!(
        get_registry("node", &directory),
        Err(BuildDefect::DescriptorMalformed { file: 0, line: 2 })
    );
    let directory = Directory::Listed(vec![
        unreadable("/probes/disk.prom"),
        file("/probes/broken.prom", BROKEN),
    ]);
    assert_eq!(get_registry("node", &directory), Err(BuildDefect::FileUnreadable { file: 0 }));
}

#[test]
fn a_script_without_label_is_registered_under_the_empty_label() {
    let directory = Directory::Listed(vec![file("/probes/x.prom", "#!/bin/sh\necho 1\n")]);
    let loaded = get_registry("node", &directory).unwrap();
    assert_eq!(
        entries(&loaded.registry),
        vec![entry("", "", "/probes/x.prom", MetricType::Unknown, "NaN")]
    );
}

#[test]
fn of_two_scripts_with_one_label_the_later_is_served_and_the_count_tells() {
    let directory = Directory::Listed(vec![
        file("/probes/a.prom", LOAD),
        file("/probes/disk.prom", DISK),
        file("/probes/b.prom", LOAD),
    ]);
    let loaded = get_registry("node", &directory).unwrap();
    assert_eq!(loaded.loaded, 3);
    assert_eq!(loaded.shadowed(), 1);
    assert_eq!(
        entries(&loaded.registry),
        vec![
            entry("load", "System load", "/probes/b.prom", MetricType::Gauge, "-1"),
            entry("disk", "Disk use", "/probes/disk.prom", MetricType::Counter, "0"),
        ]
    );
}

#[test]
fn building_twice_gives_the_same_registry() {
    let directory = Directory::Listed(vec![
        file("/probes/load.prom", LOAD),
        file("/probes/README", "notes"),
        file("/probes/disk.prom", DISK),
    ]);
    let first = get_registry("node", &directory).unwrap();
    let second = get_registry("node", &directory).unwrap();
    assert_eq!(first, second);
}

#[test]
fn the_order_of_the_listing_changes_no_entry() {
    let forward = Directory::Listed(vec![
        file("/probes/load.prom", LOAD),
        file("/probes/README", "notes"),
        file("/probes/disk.prom", DISK),
    ]);
    let backward = Directory::Listed(vec![
        file("/probes/disk.prom", DISK),
        file("/probes/load.prom", LOAD),
        file("/probes/README", "notes"),
    ]);
    let first = get_registry("node", &forward).unwrap();
    let second = get_registry("node", &backward).unwrap();
    assert_eq!(sorted(entries(&first.registry)), sorted(entries(&second.registry)));
    assert_eq!(first.registry.prefix(), second.registry.prefix());
}

#[test]
fn the_order_of_the_listing_changes_no_failure() {
    let forward = Directory::Listed(vec![file("/probes/load.prom", LOAD), file("/probes/b.prom", BROKEN)]);
    let backward = Directory::Listed(vec![file("/probes/b.prom", BROKEN), file("/probes/load.prom", LOAD)]);
    assert!(get_registry("node", &forward).is_err());
    assert!(get_registry("node", &backward).is_err());
}
