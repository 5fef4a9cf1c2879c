use pgvm::cli::list;
use pgvm::cli::needs_update;
use pgvm::cli::resolve;
use pgvm::cli::take_selected;
use pgvm::cli::Choice;
use pgvm::cli::Cli;
use pgvm::cli::Commands;
use pgvm::cli::DownloadPlan;
use pgvm::cli::Install;
use pgvm::cli::List;
use pgvm::cli::Place;
use pgvm::cli::ShowMode;
use pgvm::cli::VERSIONS_DIR;
use pgvm::catalog::Db;
use pgvm::catalog::ProgramState;
use pgvm::config::Config;
use pgvm::errors::Error;
use pgvm::errors::Reason;
use pgvm::install::exits_line_or_install;
use pgvm::install::install;
use pgvm::install::staging_name;
use pgvm::install::InstallAction;
use pgvm::install::InstallEvent;
use pgvm::install::Outcome;
use pgvm::online::decode_name;
use std::path::PathBuf;

fn filled() -> Db {
    let mut db = Db::new();
    db.store(vec![
        decode_name("go1.18.linux-amd64.tar.gz", 1).unwrap(),
        decode_name("go1.19.linux-amd64.tar.gz", 2).unwrap(),
        decode_name("go1.19.windows-386.zip", 3).unwrap(),
    ]);
    db
}

#[test]
fn test_exits_line_or_install() {
    let lines = vec!["line 1".to_string(), "line 2".to_string()];
    assert!(exits_line_or_install(&lines, "line 2"));
    assert!(exits_line_or_install(&lines, "line 1"));
    assert!(!exits_line_or_install(&lines, "line 3"));
    assert!(!exits_line_or_install(&lines, "line"));
    assert!(!exits_line_or_install(&lines, "line 2 "));
    assert!(!exits_line_or_install(&Vec::new(), "line 2"));
    assert!(!exits_line_or_install(&lines, ""));
}

#[test]
fn staging_entry_is_a_sibling_with_bak() {
    assert_eq!(staging_name("go1.19"), "go1.19.bak");
    assert_eq!(staging_name("go1.19.linux-amd64"), "go1.19.linux-amd64.bak");
    assert_eq!(staging_name(""), ".bak");
}

#[test]
fn installation_runs_extract_then_rename() {
    let staging = match install(InstallEvent::Start { file_name: Some("go1.19".to_string()) }) {
        InstallAction::Extract { staging } => staging,
        _ => panic!("the archive is unpacked first"),
    };
    assert_eq!(staging, "go1.19.bak");
    let staging = match install(InstallEvent::Extracted { staging, outcome: Outcome::Done }) {
        InstallAction::Rename { staging } => staging,
        _ => panic!("the staging entry is renamed next"),
    };
    assert_eq!(staging, "go1.19.bak");
    assert!(matches!(
        install(InstallEvent::Renamed { outcome: Outcome::Done }),
        InstallAction::Finish
    ));
}

#[test]
fn destination_without_a_name_is_refused() {
    match install(InstallEvent::Start { file_name: None }) {
        InstallAction::Abort(e) => {
            assert_eq!(e.kind, Reason::InvalidInstallPath);
            assert_eq!(e.msg, "无效的安装路径");
        }
        _ => panic!("nothing is unpacked"),
    }
}

#[test]
fn failed_extraction_never_leads_to_a_rename() {
    let event = InstallEvent::Extracted {
        staging: "go1.19.bak".to_string(),
        outcome: Outcome::Failed("truncated archive".to_string()),
    };
    match install(event) {
        InstallAction::Abort(e) => {
            assert_eq!(e.kind, Reason::UncompressFailed);
            assert_eq!(e.msg, "truncated archive");
        }
        _ => panic!("the destination is left alone"),
    }
}

#[test]
fn failed_rename_is_a_failed_file_operation() {
    let event = InstallEvent::Renamed { outcome: Outcome::Failed("cross-device link".to_string()) };
    match install(event) {
        InstallAction::Abort(e) => {
            assert_eq!(e.kind, Reason::IoOperationFailed);
            assert_eq!(e.msg, "cross-device link");
        }
        _ => panic!("the installation has failed"),
    }
}

#[test]
fn list_command_lines() {
    let db = filled();
    let lines = list(&db, &List { os: None, arch: None, mode: ShowMode::Version });
    assert_eq!(lines, vec!["go1.19.windows-386", "go1.19.linux-amd64", "go1.18.linux-amd64"]);
    let lines = list(
        &db,
        &List { os: Some("linux".to_string()), arch: Some("amd64".to_string()), mode: ShowMode::Version },
    );
    assert_eq!(lines, vec!["go1.19.linux-amd64", "go1.18.linux-amd64"]);
    let mut lines = list(&db, &List { os: Some("ignored".to_string()), arch: None, mode: ShowMode::Os });
    lines.sort();
    assert_eq!(lines, vec!["linux", "windows"]);
    let mut lines = list(&db, &List { os: None, arch: None, mode: ShowMode::Arch });
    lines.sort();
    assert_eq!(lines, vec!["386", "amd64"]);
    assert_eq!(ShowMode::default(), ShowMode::Version);
}

#[test]
fn install_command_finds_its_release() {
    let db = filled();
    match resolve(&db, &Install { version: Some("go1.19.linux-amd64".to_string()) }) {
        Choice::Chosen(v) => assert_eq!(v.name, "go1.19.linux-amd64.tar.gz"),
        _ => panic!("the catalog holds the release"),
    }
    assert!(matches!(
        resolve(&db, &Install { version: Some("go1.19".to_string()) }),
        Choice::Unknown
    ));
    match resolve(&db, &Install { version: None }) {
        Choice::Ask(all) => {
            assert_eq!(all.len(), 3);
            assert_eq!(all[0].to_string(), "go1.19.windows-386");
            let picked = take_selected(all, 1).unwrap();
            assert_eq!(picked.to_string(), "go1.19.linux-amd64");
        }
        _ => panic!("the user is asked"),
    }
    assert!(take_selected(db.get_versions(None, None), 3).is_none());
    assert!(take_selected(Vec::new(), 0).is_none());
    assert_eq!(VERSIONS_DIR, "_pgvm_versions");
}

#[test]
fn catalog_is_filled_when_asked_or_empty() {
    assert!(needs_update(true, &ProgramState { has_versions: true }));
    assert!(needs_update(true, &ProgramState { has_versions: false }));
    assert!(needs_update(false, &ProgramState { has_versions: false }));
    assert!(!needs_update(false, &ProgramState { has_versions: true }));
}

#[test]
fn download_plans() {
    assert_eq!(
        pgvm::cli::open_version(Place::Missing, false).unwrap(),
        DownloadPlan { create_directory: true, fetch: true }
    );
    assert_eq!(
        pgvm::cli::open_version(Place::Directory, false).unwrap(),
        DownloadPlan { create_directory: false, fetch: true }
    );
    assert_eq!(
        pgvm::cli::open_version(Place::Directory, true).unwrap(),
        DownloadPlan { create_directory: false, fetch: false }
    );
    let err = pgvm::cli::open_version(Place::Other, true).unwrap_err();
    assert_eq!(err.kind, Reason::InvalidDownloadPath);
    assert_eq!(err.msg, "无效的下载路径");
}

#[test]
fn command_line_values() {
    let cli = Cli {
        update: false,
        database_path: PathBuf::from("/d"),
        download_path: PathBuf::from("/l"),
        install_path: PathBuf::from("/i"),
        command: Some(Commands::Install(Install { version: None })),
    };
    assert!(needs_update(cli.update, &ProgramState { has_versions: false }));
    assert!(matches!(cli.command, Some(Commands::Install(_))));
}

#[test]
fn default_settings() {
    let config = Config::default();
    assert_eq!(config.data, "data.db");
    assert_eq!(config.installation_dir, PathBuf::from("/usr/local/share/go_vers"));
}

#[test]
fn failures_and_their_descriptions() {
    let all = [
        (Reason::InvalidXml, "无效的xml格式"),
        (Reason::ConnectionFailed, "网络链接错误"),
        (Reason::OpenDatabaseFailed, "打开数据库失败"),
        (Reason::InvalidResource, "无效的资源"),
        (Reason::Hashinconformity, "hash不一致"),
        (Reason::IoOperationFailed, "io操作失败"),
        (Reason::UncompressFailed, "解压失败"),
        (Reason::InvalidInstallPath, "无效的安装路径"),
        (Reason::InvalidDownloadPath, "无效的下载路径"),
    ];
    for (kind, text) in all {
        assert_eq!(kind.to_string(), text);
        assert_eq!(kind.description(), text);
        let e = Error::of_kind(kind);
        assert_eq!(e.kind, kind);
        assert_eq!(e.to_string(), text);
    }
    let e = Error::new(Reason::ConnectionFailed, "timed out");
    assert_eq!(e.kind, Reason::ConnectionFailed);
    assert_eq!(e.msg, "timed out");
    assert_eq!(e.to_string(), "timed out");
}
