//! Installing an archive: the steps, their order, and what each failure
//! means. The steps themselves (unpacking, renaming) are carried out by the
//! caller; this module decides which step comes next.

use vstd::prelude::*;

use crate::errors::Error;
use crate::errors::Reason;
use crate::text::push_str;
use crate::text::string_of;

verus! {

/// The name of the staging entry for a destination whose final component is
/// `name`: the name followed by `.bak`.
pub open spec fn staging_text(name: Seq<char>) -> Seq<char> {
    name + seq!['.', 'b', 'a', 'k']
}

/// The name of the staging entry, a sibling of the destination, into which
/// the archive is unpacked before it takes the destination's place.
pub fn staging_name(name: &str) -> (r: String)
    ensures
        r@ == staging_text(name@),
{
    let mut out: Vec<char> = Vec::new();
    push_str(&mut out, name);
    out.push('.');
    out.push('b');
    out.push('a');
    out.push('k');
    assert(out@ =~= staging_text(name@));
    string_of(&out)
}

/// How a step of the installation ended: well, or with the message of its
/// failure.
pub enum Outcome {
    Done,
    Failed(String),
}

/// What has happened so far.
pub enum InstallEvent {
    /// Nothing yet. `file_name` is the final component of the destination,
    /// if it has one.
    Start { file_name: Option<String> },
    /// The archive was unpacked into the staging entry, or could not be.
    Extracted { staging: String, outcome: Outcome },
    /// The staging entry was renamed to the destination, or could not be.
    Renamed { outcome: Outcome },
}

/// What is to happen next.
pub enum InstallAction {
    /// Unpack the archive into the sibling of the destination with this
    /// name, keeping the ownership that the archive records.
    Extract { staging: String },
    /// Rename the sibling with this name to the destination, in one step.
    Rename { staging: String },
    /// The installation is complete.
    Finish,
    /// The installation has failed. The destination was not touched.
    Abort(Error),
}

/// Decides the next step of an installation. The archive is unpacked into a
/// staging entry beside the destination, and only an archive that was
/// unpacked completely is renamed to the destination, so that the
/// destination never holds a part of an archive.
///
/// A destination without a final component is an invalid install path; an
/// archive that cannot be unpacked is an extraction failure; a rename that
/// fails is a failed file operation. The two latter carry the message of
/// the step that failed.
pub fn install(event: InstallEvent) -> (action: InstallAction)
    ensures
        match event {
            InstallEvent::Start { file_name: None } => action matches InstallAction::Abort(e)
                && e.kind == Reason::InvalidInstallPath && e.msg@
                == Reason::InvalidInstallPath.description()@,
            InstallEvent::Start { file_name: Some(name) } => action matches InstallAction::Extract {
                staging,
            } && staging@ == staging_text(name@),
            InstallEvent::Extracted { staging, outcome: Outcome::Done } => action
                matches InstallAction::Rename { staging: s } && s@ == staging@,
            InstallEvent::Extracted { staging, outcome: Outcome::Failed(msg) } => action
                matches InstallAction::Abort(e) && e.kind == Reason::UncompressFailed && e.msg@
                == msg@,
            InstallEvent::Renamed { outcome: Outcome::Done } => action is Finish,
            InstallEvent::Renamed { outcome: Outcome::Failed(msg) } => action
                matches InstallAction::Abort(e) && e.kind == Reason::IoOperationFailed && e.msg@
                == msg@,
        },
{
    match event {
        InstallEvent::Start { file_name } => match file_name {
            Some(name) => InstallAction::Extract { staging: staging_name(name.as_str()) },
            None => InstallAction::Abort(Error::of_kind(Reason::InvalidInstallPath)),
        },
        InstallEvent::Extracted { staging, outcome } => match outcome {
            Outcome::Done => InstallAction::Rename { staging },
            Outcome::Failed(msg) => InstallAction::Abort(
                Error { kind: Reason::UncompressFailed, msg },
            ),
        },
        InstallEvent::Renamed { outcome } => match outcome {
            Outcome::Done => InstallAction::Finish,
            Outcome::Failed(msg) => InstallAction::Abort(
                Error { kind: Reason::IoOperationFailed, msg },
            ),
        },
    }
}

/// Whether one of the lines is the given line. A line that is missing from
/// a file is appended to it; one that is there is not written again.
pub fn exits_line_or_install(lines: &Vec<String>, line: &str) -> (found: bool)
    ensures
        found == exists|i: int| 0 <= i < lines@.len() && (#[trigger] lines@[i])@ == line@,
{
    let mut i: usize = 0;
    while i < lines.len()
        invariant
            i <= lines.len(),
            forall|k: int| 0 <= k < i ==> (#[trigger] lines@[k])@ != line@,
        decreases lines.len() - i,
    {
        let same = crate::text::same_chars(
            &crate::text::chars_of(lines[i].as_str()),
            &crate::text::chars_of(line),
        );
        if same {
            return true;
        }
        i += 1;
    }
    false
}

} // verus!
