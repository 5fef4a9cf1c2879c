//! The commands of the program and what they ask of the catalog.

use std::path::PathBuf;
use vstd::prelude::*;

use crate::catalog::Db;
use crate::catalog::ProgramState;
use crate::catalog::lookup;
use crate::catalog::query;
use crate::catalog::filter_text;
use crate::catalog::texts;
use crate::data::Version;
use crate::data::VersionView;
use crate::data::display_text;
use crate::data::views;
use crate::errors::Error;
use crate::errors::Reason;

verus! {

/// A path of the file system, `std::path::PathBuf`. Nothing inside it is
/// visible here.
#[verifier::external_type_specification]
#[verifier::external_body]
pub struct ExPathBuf(std::path::PathBuf);

/// What the program was asked to do.
#[derive(Debug)]
pub struct Cli {
    /// Fill the catalog from the remote listing even if it was filled
    /// before.
    pub update: bool,
    /// Where the catalog is kept.
    pub database_path: PathBuf,
    /// Where downloaded archives are kept.
    pub download_path: PathBuf,
    /// Where releases are installed.
    pub install_path: PathBuf,
    pub command: Option<Commands>,
}

#[derive(Debug)]
pub enum Commands {
    /// Show what the catalog holds.
    List(List),
    /// Install a release.
    Install(Install),
}

#[derive(Debug)]
pub struct List {
    /// Only releases whose display text holds this.
    pub os: Option<String>,
    /// Only releases whose display text holds this.
    pub arch: Option<String>,
    /// What to show.
    pub mode: ShowMode,
}

#[derive(Debug, Copy, Clone, Ord, PartialOrd, Eq, PartialEq, Default, Structural)]
pub enum ShowMode {
    #[default]
    Version,
    Os,
    Arch,
}

#[derive(Debug)]
pub struct Install {
    /// The display text of the release to install; asked for if absent.
    pub version: Option<String>,
}

/// The name of the directory, below the install path, that holds one
/// directory for each installed release.
pub const VERSIONS_DIR: &'static str = "_pgvm_versions";

/// The view of an optional string.
pub open spec fn optional_text(t: Option<String>) -> Option<Seq<char>> {
    match t {
        Some(s) => Some(s@),
        None => None,
    }
}

/// The display texts of the releases, in their order.
pub open spec fn display_of(s: Seq<VersionView>) -> Seq<Seq<char>> {
    s.map_values(|v: VersionView| display_text(v))
}

/// Whether the catalog has to be filled from the remote listing before it
/// is used: when that is asked for, or when it was never filled.
pub fn needs_update(update: bool, state: &ProgramState) -> (r: bool)
    ensures
        r == (update || !state.has_versions),
{
    update || !state.has_versions
}

fn option_str(t: &Option<String>) -> (r: Option<&str>)
    ensures
        filter_text(r) == optional_text(*t),
{
    match t {
        Some(s) => Some(s.as_str()),
        None => None,
    }
}

/// The lines that the `list` command shows: in mode `Version` the display
/// texts of the releases that pass the filters, from the highest rank to the
/// lowest; in mode `Os` the operating systems of the catalog; in mode `Arch`
/// its architectures.
pub fn list(db: &Db, opt: &List) -> (lines: Vec<String>)
    ensures
        texts(lines@) == match opt.mode {
            ShowMode::Version => display_of(
                query(db@.records, optional_text(opt.os), optional_text(opt.arch)),
            ),
            ShowMode::Os => db@.os,
            ShowMode::Arch => db@.arch,
        },
{
    match opt.mode {
        ShowMode::Version => {
            let found = db.get_versions(option_str(&opt.os), option_str(&opt.arch));
            let mut lines: Vec<String> = Vec::new();
            let mut i: usize = 0;
            while i < found.len()
                invariant
                    i <= found.len(),
                    texts(lines@) == display_of(views(found@)).take(i as int),
                decreases found.len() - i,
            {
                let ghost before = texts(lines@);
                let line = found[i].to_string();
                lines.push(line);
                assert(texts(lines@) =~= before.push(display_text(found@[i as int]@)));
                assert(texts(lines@) =~= display_of(views(found@)).take(i + 1));
                i += 1;
            }
            assert(display_of(views(found@)).take(found.len() as int) =~= display_of(
                views(found@),
            ));
            lines
        },
        ShowMode::Os => db.os(),
        ShowMode::Arch => db.arch(),
    }
}

/// How the release to install is found.
pub enum Choice {
    /// The catalog holds the release that was named.
    Chosen(Version),
    /// The catalog holds no release of the name that was given.
    Unknown,
    /// No release was named: the user is to pick one of these, which are all
    /// the releases of the catalog from the highest rank to the lowest.
    Ask(Vec<Version>),
}

/// Finds the release that the `install` command is about: the record whose
/// display text is the name that was given, or, where none was given, the
/// list to pick from.
pub fn resolve(db: &Db, opt: &Install) -> (r: Choice)
    ensures
        match opt.version {
            Some(name) => match lookup(db@.records, name@) {
                Some(v) => r matches Choice::Chosen(c) && c@ == v,
                None => r is Unknown,
            },
            None => r matches Choice::Ask(all) && views(all@) == query(db@.records, None, None),
        },
{
    match &opt.version {
        Some(name) => match db.version(name.as_str()) {
            Some(v) => Choice::Chosen(v),
            None => Choice::Unknown,
        },
        None => Choice::Ask(db.get_versions(None, None)),
    }
}

/// Takes the release with the given index out of the list that the user
/// picked from.
pub fn take_selected(versions: Vec<Version>, index: usize) -> (r: Option<Version>)
    ensures
        index < versions@.len() ==> r == Some(versions@[index as int]),
        index >= versions@.len() ==> r is None,
{
    let mut versions = versions;
    if index < versions.len() {
        Some(versions.remove(index))
    } else {
        None
    }
}

/// What is found at the place where downloads are kept.
#[derive(Debug, Copy, Clone, Eq, PartialEq, Structural)]
pub enum Place {
    /// Nothing is there.
    Missing,
    /// A directory is there.
    Directory,
    /// Something else is there.
    Other,
}

/// What to do before an archive is fetched into the download directory.
#[derive(Debug, Copy, Clone, Eq, PartialEq, Structural)]
pub struct DownloadPlan {
    /// The download directory has to be made first.
    pub create_directory: bool,
    /// The archive has to be fetched; otherwise the file that is there is
    /// used as it is.
    pub fetch: bool,
}

/// Plans the download of an archive: a download directory that is missing
/// is made, one that is no directory is an error, and an archive that is
/// already there is used again and not fetched.
pub fn open_version(place: Place, archive_present: bool) -> (r: Result<DownloadPlan, Error>)
    ensures
        place == Place::Other ==> (r matches Err(e) && e.kind == Reason::InvalidDownloadPath),
        place == Place::Missing ==> (r matches Ok(p) && p.create_directory && p.fetch),
        place == Place::Directory ==> (r matches Ok(p) && !p.create_directory && p.fetch
            == !archive_present),
{
    match place {
        Place::Other => Err(Error::of_kind(Reason::InvalidDownloadPath)),
        Place::Missing => Ok(DownloadPlan { create_directory: true, fetch: true }),
        Place::Directory => Ok(DownloadPlan { create_directory: false, fetch: !archive_present }),
    }
}

} // verus!
