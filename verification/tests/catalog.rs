use pgvm::catalog::compute_meta;
use pgvm::catalog::is_meta_key;
use pgvm::catalog::sort_descending;
use pgvm::catalog::Db;
use pgvm::catalog::ProgramState;
use pgvm::data::Version;
use pgvm::online::decode_name;

fn archive(key: &str) -> Version {
    decode_name(key, 50_000_000).unwrap()
}

fn archives(keys: &[&str]) -> Vec<Version> {
    keys.iter().map(|k| archive(k)).collect()
}

fn shown(found: &[Version]) -> Vec<String> {
    found.iter().map(|v| v.to_string()).collect()
}

const KEYS: [&str; 8] = [
    "go1.18.linux-amd64.tar.gz",
    "go1.19.linux-amd64.tar.gz",
    "go1.19.linux-arm64.tar.gz",
    "go1.19.windows-amd64.zip",
    "go1.19.darwin-amd64.tar.gz",
    "go1.19rc1.linux-amd64.tar.gz",
    "go1.19beta1.linux-amd64.tar.gz",
    "go1.20.1.linux-386.tar.gz",
];

const RANKED: [&str; 8] = [
    "go1.20.1.linux-386",
    "go1.19.windows-amd64",
    "go1.19.linux-arm64",
    "go1.19.linux-amd64",
    "go1.19.darwin-amd64",
    "go1.19rc1.linux-amd64",
    "go1.19beta1.linux-amd64",
    "go1.18.linux-amd64",
];

#[test]
fn store_then_query_gives_the_releases_back() {
    let mut db = Db::new();
    db.store(archives(&KEYS));
    assert_eq!(shown(&db.get_versions(None, None)), RANKED);
}

#[test]
fn query_does_not_depend_on_input_order() {
    let mut rotated = KEYS.to_vec();
    for _ in 0..KEYS.len() {
        rotated.rotate_left(3);
        let mut db = Db::new();
        db.store(archives(&rotated));
        assert_eq!(shown(&db.get_versions(None, None)), RANKED);
        let mut reversed = rotated.clone();
        reversed.reverse();
        let mut db = Db::new();
        db.store(archives(&reversed));
        assert_eq!(shown(&db.get_versions(None, None)), RANKED);
    }
}

#[test]
fn releases_given_twice_are_stored_once() {
    let mut twice = KEYS.to_vec();
    twice.extend_from_slice(&KEYS);
    let mut db = Db::new();
    db.store(archives(&twice));
    assert_eq!(shown(&db.get_versions(None, None)), RANKED);
}

#[test]
fn of_two_releases_with_one_key_the_first_given_stays() {
    // archives for one target in two formats share the display text
    let mut db = Db::new();
    db.store(archives(&["go1.19.linux-amd64.tar.gz", "go1.19.linux-amd64.zip"]));
    let found = db.get_versions(None, None);
    assert_eq!(found.len(), 1);
    assert_eq!(found[0].name, "go1.19.linux-amd64.tar.gz");
    let mut db = Db::new();
    db.store(archives(&["go1.19.linux-amd64.zip", "go1.19.linux-amd64.tar.gz"]));
    let found = db.get_versions(None, None);
    assert_eq!(found.len(), 1);
    assert_eq!(found[0].name, "go1.19.linux-amd64.zip");
}

#[test]
fn filters_are_substrings_of_the_display_text() {
    let mut db = Db::new();
    db.store(archives(&KEYS));
    assert_eq!(
        shown(&db.get_versions(Some("amd64"), None)),
        vec![
            "go1.19.windows-amd64",
            "go1.19.linux-amd64",
            "go1.19.darwin-amd64",
            "go1.19rc1.linux-amd64",
            "go1.19beta1.linux-amd64",
            "go1.18.linux-amd64",
        ]
    );
    assert_eq!(
        shown(&db.get_versions(Some("linux"), Some("amd64"))),
        vec![
            "go1.19.linux-amd64",
            "go1.19rc1.linux-amd64",
            "go1.19beta1.linux-amd64",
            "go1.18.linux-amd64",
        ]
    );
    // a filter is no field: "64" finds amd64 and arm64 alike
    assert_eq!(db.get_versions(Some("64"), None).len(), 7);
    assert_eq!(db.get_versions(None, Some("64")).len(), 7);
    // an architecture given as the os filter finds the same records
    assert_eq!(
        shown(&db.get_versions(Some("arm64"), None)),
        shown(&db.get_versions(None, Some("arm64")))
    );
    // a filter may match the numbers, or run across fields
    assert_eq!(shown(&db.get_versions(Some("1.20"), None)), vec!["go1.20.1.linux-386"]);
    assert_eq!(shown(&db.get_versions(Some("x-3"), None)), vec!["go1.20.1.linux-386"]);
    assert_eq!(db.get_versions(Some("go"), Some("")).len(), 8);
    assert!(db.get_versions(Some("plan9"), None).is_empty());
    assert!(db.get_versions(Some("linux"), Some("riscv")).is_empty());
    assert!(db.get_versions(Some("LINUX"), None).is_empty());
}

#[test]
fn amd64_inside_another_field_matches() {
    let mut odd = archive("go1.19.linux-arm.tar.gz");
    odd.os = "amd64ish".to_string();
    odd.arch = "arm".to_string();
    let mut db = Db::new();
    db.store(vec![odd, archive("go1.19.linux-arm.tar.gz")]);
    assert_eq!(shown(&db.get_versions(Some("amd64"), None)), vec!["go1.19.amd64ish-arm"]);
}

#[test]
fn storing_again_leaves_only_the_second_list() {
    let mut db = Db::new();
    db.store(archives(&KEYS));
    db.store(archives(&["go1.21.linux-amd64.tar.gz", "go1.21.plan9-386.tar.gz"]));
    assert_eq!(
        shown(&db.get_versions(None, None)),
        vec!["go1.21.plan9-386", "go1.21.linux-amd64"]
    );
    assert!(db.version("go1.19.linux-amd64").is_none());
    let mut os = db.os();
    os.sort();
    assert_eq!(os, vec!["linux", "plan9"]);
    let mut arch = db.arch();
    arch.sort();
    assert_eq!(arch, vec!["386", "amd64"]);
    assert_eq!(db.short_versions(), vec!["1.21"]);
    db.store(Vec::new());
    assert!(db.get_versions(None, None).is_empty());
    assert!(db.os().is_empty());
    assert!(db.arch().is_empty());
    assert!(db.short_versions().is_empty());
}

#[test]
fn every_record_is_found_by_its_display_text() {
    let mut db = Db::new();
    db.store(archives(&KEYS));
    for key in KEYS {
        let v = archive(key);
        let found = db.version(&v.to_string()).unwrap();
        assert_eq!(found.name, key);
        assert_eq!(found.sha256, format!("{}.sha256", key));
        assert_eq!(found.size, 50_000_000);
    }
    assert!(db.version("go1.19.linux-amd6").is_none());
    assert!(db.version("go1.19.linux-amd64.tar.gz").is_none());
    assert!(db.version("").is_none());
    assert!(Db::new().version("go1.19.linux-amd64").is_none());
}

#[test]
fn indexes_of_the_catalog() {
    let mut db = Db::new();
    db.store(archives(&KEYS));
    let mut os = db.os();
    os.sort();
    assert_eq!(os, vec!["darwin", "linux", "windows"]);
    let mut arch = db.arch();
    arch.sort();
    assert_eq!(arch, vec!["386", "amd64", "arm64"]);
    assert_eq!(db.short_versions(), vec!["1.20.1", "1.19", "1.19rc1", "1.19beta1", "1.18"]);
}

#[test]
fn program_state_is_kept_through_a_store() {
    let mut db = Db::new();
    assert!(!db.program_state().has_versions);
    db.store_program_state(&ProgramState { has_versions: true });
    assert!(db.program_state().has_versions);
    db.store(archives(&KEYS));
    assert!(db.program_state().has_versions);
    assert_eq!(db.get_versions(None, None).len(), 8);
    db.store_program_state(&ProgramState { has_versions: false });
    assert!(!db.program_state().has_versions);
    assert_eq!(db.get_versions(None, None).len(), 8);
}

#[test]
fn restored_catalog_answers_as_the_stored_one() {
    let mut db = Db::new();
    db.store(archives(&KEYS));
    let copy = Db::restore(
        db.get_versions(None, None),
        db.os(),
        db.arch(),
        db.short_versions(),
        ProgramState { has_versions: true },
    );
    assert_eq!(shown(&copy.get_versions(None, None)), RANKED);
    assert_eq!(copy.os(), db.os());
    assert_eq!(copy.arch(), db.arch());
    assert_eq!(copy.short_versions(), db.short_versions());
    assert!(copy.program_state().has_versions);
    assert!(copy.version("go1.18.linux-amd64").is_some());
    let odd = Db::restore(
        Vec::new(),
        vec!["linux".to_string(), "linux".to_string(), "darwin".to_string()],
        vec!["arm".to_string()],
        vec!["1.2".to_string(), "1.2".to_string()],
        ProgramState { has_versions: false },
    );
    assert_eq!(odd.os(), vec!["linux", "darwin"]);
    assert_eq!(odd.arch(), vec!["arm"]);
    assert_eq!(odd.short_versions(), vec!["1.2", "1.2"]);
}

#[test]
fn sorting_puts_later_equals_first() {
    let sorted = sort_descending(&archives(&[
        "go1.18.linux-amd64.tar.gz",
        "go1.19.a-x.tar.gz",
        "go1.19.b-x.tar.gz",
        "go1.20.linux-amd64.tar.gz",
        "go1.19.c-x.tar.gz",
    ]));
    assert_eq!(
        shown(&sorted),
        vec!["go1.20.linux-amd64", "go1.19.c-x", "go1.19.b-x", "go1.19.a-x", "go1.18.linux-amd64"]
    );
    assert!(sort_descending(&Vec::new()).is_empty());
}

#[test]
fn derived_indexes_of_a_list() {
    let list = archives(&[
        "go1.19.linux-amd64.tar.gz",
        "go1.19.darwin-amd64.tar.gz",
        "go1.18.linux-arm64.tar.gz",
        "go1.19.linux-386.tar.gz",
    ]);
    let (os, arch, short) = compute_meta(&list);
    assert_eq!(os, vec!["linux", "darwin"]);
    assert_eq!(arch, vec!["amd64", "arm64", "386"]);
    assert_eq!(short, vec!["1.19", "1.18", "1.19"]);
    let (os, arch, short) = compute_meta(&Vec::new());
    assert!(os.is_empty() && arch.is_empty() && short.is_empty());
}

#[test]
fn empty_catalog() {
    let db = Db::new();
    assert!(db.get_versions(None, None).is_empty());
    assert!(db.get_versions(Some("linux"), Some("amd64")).is_empty());
    assert!(db.os().is_empty());
    assert!(!db.program_state().has_versions);
}

#[test]
fn reserved_keys() {
    assert_eq!(pgvm::catalog::VERSION_TREE, "version");
    for key in [pgvm::catalog::META_OS, pgvm::catalog::META_ARCH, pgvm::catalog::META_VERSIONS] {
        assert!(is_meta_key(key));
    }
    assert!(is_meta_key("meta_os") && is_meta_key("meta_arch") && is_meta_key("meta_versions"));
    for key in ["", "meta", "meta_os ", "meta_version", "go1.19.linux-amd64", "META_OS"] {
        assert!(!is_meta_key(key), "{}", key);
    }
    for key in KEYS {
        assert!(!is_meta_key(&archive(key).to_string()));
    }
}
