//! Where the program keeps its files, and what it finds there.
use vstd::prelude::*;
use vstd::string::*;

use crate::assign::snapshot_views;
use crate::error::Error;
use crate::list::{lemma_sorted_by_map, sort_by, sorted_by};
use crate::model::{Snapshot, SnapshotModel};
use crate::number::{decimal, decimal_text};
use crate::path::{below, join_path};
use crate::ui::{box_of, box_width, print_error};

verus! {

/// The directories and files of the program.
#[derive(Debug, Clone)]
pub struct App {
    /// The home directory.
    pub home: String,
    /// Where the snapshots stand.
    pub snapshots_dir: String,
    /// Where the states and logs of watchers stand.
    pub watchers_dir: String,
    /// The script that captures the terminals.
    pub capture_script: String,
}

/// The view of an `App`.
pub struct AppModel {
    pub home: Seq<char>,
    pub snapshots_dir: Seq<char>,
    pub watchers_dir: Seq<char>,
    pub capture_script: Seq<char>,
}

impl View for App {
    type V = AppModel;

    open spec fn view(&self) -> AppModel {
        AppModel {
            home: self.home@,
            snapshots_dir: self.snapshots_dir@,
            watchers_dir: self.watchers_dir@,
            capture_script: self.capture_script@,
        }
    }
}

/// Where everything is kept: in the directory that is given, else in one below the
/// home directory.
pub open spec fn state_root(home: Seq<char>, state_dir: Option<Seq<char>>) -> Seq<char> {
    match state_dir {
        Some(directory) => directory,
        None => below(home, ".local/state/ghostty-rz"@),
    }
}

/// Where the script that captures the terminals stands: in the directory that is
/// given; else where the program is installed, if it is there; else in the source
/// tree.
pub open spec fn script_path(
    script_dir: Option<Seq<char>>,
    installed: Option<Seq<char>>,
    source_root: Seq<char>,
) -> Seq<char> {
    match script_dir {
        Some(directory) => below(directory, "snapshot-capture.applescript"@),
        None => match installed {
            Some(path) => path,
            None => below(source_root, "libexec/snapshot-capture.applescript"@),
        },
    }
}

/// The text that a string holds, where there is one.
pub open spec fn text_in(text: Option<&str>) -> Option<Seq<char>> {
    match text {
        Some(text) => Some(text@),
        None => None,
    }
}

/// Where the script stands below the directory in which the program is installed.
pub fn installed_script(prefix: &str) -> (r: String)
    ensures
        r@ == below(prefix@, "libexec/snapshot-capture.applescript"@),
{
    join_path(prefix, "libexec/snapshot-capture.applescript")
}

/// Where the script that captures the terminals stands; `installed` is its place
/// where the program is installed, if it is there.
pub fn capture_script_path(
    script_dir: Option<&str>,
    installed: Option<&str>,
    source_root: &str,
) -> (r: String)
    ensures
        r@ == script_path(text_in(script_dir), text_in(installed), source_root@),
{
    match script_dir {
        Some(directory) => join_path(directory, "snapshot-capture.applescript"),
        None => match installed {
            Some(path) => path.to_owned(),
            None => installed_script(source_root),
        },
    }
}

impl App {
    /// The program with its home directory, and its state in the directory that is
    /// given or below the home directory.
    pub fn from_env(home: Option<&str>, state_dir: Option<&str>, capture_script: &str) -> (r:
        Result<App, Error>)
        ensures
            match r {
                Ok(app) => home is Some && app@ == (AppModel {
                    home: home->0@,
                    snapshots_dir: below(
                        state_root(home->0@, text_in(state_dir)),
                        "snapshots"@,
                    ),
                    watchers_dir: below(state_root(home->0@, text_in(state_dir)), "watchers"@),
                    capture_script: capture_script@,
                }),
                Err(e) => home is None && e@ == "HOME is not set"@,
            },
    {
        let home = match home {
            Some(home) => home,
            None => return Err(Error::from_text("HOME is not set")),
        };
        let root = match state_dir {
            Some(directory) => directory.to_owned(),
            None => join_path(home, ".local/state/ghostty-rz"),
        };
        Ok(
            App {
                home: home.to_owned(),
                snapshots_dir: join_path(root.as_str(), "snapshots"),
                watchers_dir: join_path(root.as_str(), "watchers"),
                capture_script: capture_script.to_owned(),
            },
        )
    }

    /// What is printed for a failure.
    pub fn print_error(error: &Error, is_terminal: bool, columns: Option<u16>) -> (r: String)
        ensures
            r@ == box_of("ERROR"@, seq![error@], box_width(is_terminal, columns) as nat),
    {
        print_error(error, is_terminal, columns)
    }
}

// ---------------------------------------------------------------------------
// The file that terminals wait for
// ---------------------------------------------------------------------------
/// The file that the terminals of a restored workspace wait for.
pub open spec fn ready_file_of(pid: u32, random: Seq<char>) -> Seq<char> {
    "/tmp/ghostty-rz-"@ + decimal(pid as nat) + "-"@ + random + ".ready"@
}

/// The file that the terminals of a restored workspace wait for.
pub fn ready_file(pid: u32, random: &str) -> (r: String)
    ensures
        r@ == ready_file_of(pid, random@),
{
    let mut r = "/tmp/ghostty-rz-".to_owned();
    r.append(decimal_text(pid as u64).as_str());
    r.append("-");
    r.append(random);
    r.append(".ready");
    r
}

// ---------------------------------------------------------------------------
// Earlier snapshots
// ---------------------------------------------------------------------------
/// A snapshot with the time at which its file was changed, where that is known.
pub struct Dated {
    /// Nanoseconds since the start of 1970.
    pub modified: Option<i128>,
    pub snapshot: Snapshot,
}

/// The view of a `Dated`.
pub struct DatedModel {
    pub modified: Option<i128>,
    pub snapshot: SnapshotModel,
}

impl View for Dated {
    type V = DatedModel;

    open spec fn view(&self) -> DatedModel {
        DatedModel { modified: self.modified, snapshot: self.snapshot@ }
    }
}

/// The dated snapshots that a list holds.
pub open spec fn dated_views(v: Seq<Dated>) -> Seq<DatedModel> {
    v.map_values(|d: Dated| d@)
}

/// Orders snapshots by their times; one without a time comes first.
pub open spec fn by_change() -> spec_fn(DatedModel, DatedModel) -> bool {
    |a: DatedModel, b: DatedModel|
        match (a.modified, b.modified) {
            (Some(x), Some(y)) => x < y,
            (None, Some(_)) => true,
            _ => false,
        }
}

/// The snapshots, the one changed last first.
pub open spec fn latest_first(s: Seq<DatedModel>) -> Seq<SnapshotModel> {
    sorted_by(s, by_change()).reverse().map_values(|d: DatedModel| d.snapshot)
}

/// Whether `a` was changed before `b`.
fn changed_before(a: &Dated, b: &Dated) -> (r: bool)
    ensures
        r == by_change()(a@, b@),
{
    match (a.modified, b.modified) {
        (Some(x), Some(y)) => x < y,
        (None, Some(_)) => true,
        _ => false,
    }
}

/// The snapshots, the one changed last first.
pub fn history(snapshots: Vec<Dated>) -> (r: Vec<Snapshot>)
    ensures
        snapshot_views(r@) == latest_first(dated_views(snapshots@)),
{
    let ghost fine = |a: Dated, b: Dated| by_change()(a@, b@);
    let ghost f = |d: Dated| d@;
    let is_before = |a: &Dated, b: &Dated| -> (r: bool)
        ensures
            r == by_change()(a@, b@),
    { changed_before(a, b) };
    let ghost given = snapshots@;
    let mut ordered = sort_by(snapshots, is_before, Ghost(fine));
    proof {
        lemma_sorted_by_map(given, f, fine, by_change());
    }
    let ghost all = ordered@;
    let ghost model = sorted_by(dated_views(given), by_change());
    let ghost wanted = latest_first(dated_views(given));
    let mut r: Vec<Snapshot> = Vec::new();
    let ghost mut done: int = 0;
    assert(all.take(all.len() as int) == all);
    while ordered.len() > 0
        invariant
            0 <= done <= all.len(),
            dated_views(all) == model,
            wanted == model.reverse().map_values(|d: DatedModel| d.snapshot),
            ordered@ == all.take(all.len() - done),
            snapshot_views(r@) == wanted.take(done),
        decreases ordered@.len(),
    {
        let ghost before = r@;
        let place: usize = ordered.len() - 1;
        let last = ordered.remove(place);
        proof {
            assert(last == all[all.len() - 1 - done]);
            assert(model[all.len() - 1 - done] == last@);
            assert(wanted[done] == last@.snapshot);
        }
        r.push(last.snapshot);
        proof {
            assert(snapshot_views(r@) =~= snapshot_views(before).push(
                wanted[done],
            ));
            assert(wanted.take(done + 1) =~= wanted.take(done).push(wanted[done]));
            done = done + 1;
        }
    }
    assert(wanted.take(done) == wanted);
    r
}

} // verus!
