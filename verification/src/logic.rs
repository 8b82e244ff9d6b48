//! What to do with one file, and what a whole run adds up to.

use vstd::prelude::*;
use vstd::multiset::Multiset;
use crate::stats::StatsMap;
use crate::path::{
    extension, file_name, is_plain_name, join, lemma_file_name_is_plain, lemma_join_adds_component,
    name_extension, path_destination, path_extension, path_file_name, path_join, paths_equal,
    same_path,
};
use crate::text::{lowercase, lowercase_of, text_of};

verus! {

/// What the caller has to do with one file.
#[derive(Debug, PartialEq, Eq)]
pub enum Step {
    /// Leave the file alone: it has no extension, or it is where it belongs.
    Skip,
    /// Dry run: announce that the file would move to `dest`, and touch nothing.
    Preview { tag: String, dest: String },
    /// Make sure that the folder `dir` exists, creating what is missing on the
    /// way to it, then rename the file to `dest`.
    Move { tag: String, dir: String, dest: String },
}

/// A step as plain text.
pub enum Plan {
    Skip,
    Preview { tag: Seq<char>, dest: Seq<char> },
    Move { tag: Seq<char>, dir: Seq<char>, dest: Seq<char> },
}

impl View for Step {
    type V = Plan;

    open spec fn view(&self) -> Plan {
        match self {
            Step::Skip => Plan::Skip,
            Step::Preview { tag, dest } => Plan::Preview { tag: tag@, dest: dest@ },
            Step::Move { tag, dir, dest } => Plan::Move { tag: tag@, dir: dir@, dest: dest@ },
        }
    }
}

/// How carrying out a step ended.
#[derive(Debug, Clone, Copy, PartialEq, Eq)]
pub enum Outcome {
    /// The step was carried out.
    Done,
    /// The destination folder could not be created; the file stayed.
    DirectoryFailed,
    /// The file could not be renamed; it stayed.
    RenameFailed,
}

/// The step for `file` once its extension tag is known: the file belongs at
/// `root/tag/name`, and stays where it is if that is where it is already.
pub open spec fn placement(
    file: Seq<char>,
    root: Seq<char>,
    tag: Seq<char>,
    dry_run: bool,
) -> Plan {
    match path_file_name(file) {
        None => Plan::Skip,
        Some(name) => {
            let dir = path_join(root, tag);
            let dest = path_join(dir, name);
            if paths_equal(dest, file) {
                Plan::Skip
            } else if dry_run {
                Plan::Preview { tag, dest }
            } else {
                Plan::Move { tag, dir, dest }
            }
        },
    }
}

/// The step for `file`: none without an extension, else its placement under
/// the lowercase form of the extension.
pub open spec fn organized(file: Seq<char>, root: Seq<char>, dry_run: bool) -> Plan {
    match path_extension(file) {
        None => Plan::Skip,
        Some(ext) => placement(file, root, lowercase_of(ext), dry_run),
    }
}

/// The tag under which a step counts in the summary: that of a preview or a
/// move that was carried out, and none otherwise.
pub open spec fn counted(plan: Plan, outcome: Outcome) -> Option<Seq<char>> {
    match plan {
        Plan::Skip => None,
        Plan::Preview { tag, dest } => if outcome is Done { Some(tag) } else { None },
        Plan::Move { tag, dir, dest } => if outcome is Done { Some(tag) } else { None },
    }
}

/// Decides what to do with the file at `file_path` whose extension tag is `tag`.
///
/// The file belongs at `root/tag/name`, where `name` is its file name. It is
/// skipped where it has no file name or is at that place already; else the step
/// is a preview in a dry run and a move otherwise.
pub fn place(file_path: &str, root: &str, tag: String, dry_run: bool) -> (step: Step)
    ensures
        step@ == placement(file_path@, root@, tag@, dry_run),
{
    match file_name(file_path) {
        None => Step::Skip,
        Some(name) => {
            let dir = join(root, tag.as_str());
            let dest = join(dir.as_str(), name.as_str());
            if same_path(dest.as_str(), file_path) {
                Step::Skip
            } else if dry_run {
                Step::Preview { tag, dest }
            } else {
                Step::Move { tag, dir, dest }
            }
        },
    }
}

/// Decides what to do with the file at `file_path` when organising `root`.
///
/// A file without an extension is skipped. Otherwise its tag is the lowercase
/// form of the extension and the step is that of [`place`] under it. A file that
/// is already at its destination is skipped.
pub fn organize_file(file_path: &str, root: &str, dry_run: bool) -> (step: Step)
    ensures
        step@ == organized(file_path@, root@, dry_run),
        path_extension(file_path@) is None ==> step is Skip,
        path_extension(file_path@) is Some && paths_equal(
            path_destination(
                root@,
                lowercase_of(path_extension(file_path@)->0),
                path_file_name(file_path@)->0,
            ),
            file_path@,
        ) ==> step is Skip,
        dry_run ==> !(step is Move),
        !dry_run ==> !(step is Preview),
{
    match extension(file_path) {
        None => Step::Skip,
        Some(ext) => {
            let tag = lowercase(ext.as_str());
            place(file_path, root, tag, dry_run)
        },
    }
}

impl Step {
    /// The tag under which this step counts in the summary, given how it
    /// ended: the tag of a preview or move that was carried out, and `None` for
    /// a skipped file or a failed move.
    pub fn counted_tag(&self, outcome: Outcome) -> (tag: Option<String>)
        ensures
            text_of(tag) == counted(self@, outcome),
    {
        match outcome {
            Outcome::Done => match self {
                Step::Skip => None,
                Step::Preview { tag, dest } => Some(tag.clone()),
                Step::Move { tag, dir, dest } => Some(tag.clone()),
            },
            Outcome::DirectoryFailed => None,
            Outcome::RenameFailed => None,
        }
    }
}

/// What the caller found at the root path before the run.
#[derive(Debug, Clone, Copy, PartialEq, Eq)]
pub enum RootKind {
    /// A directory that can be read.
    Directory,
    /// Something that is not a directory.
    NotADirectory,
    /// Nothing, or nothing that could be looked at.
    Inaccessible,
}

/// Why a run cannot start.
#[derive(Debug, Clone, Copy, PartialEq, Eq)]
pub enum SetupError {
    /// The root is there but is not a directory.
    RootNotADirectory,
    /// The root does not exist or cannot be looked at.
    RootInaccessible,
}

/// Decides whether a run can start: only on a root that is a directory.
/// Anything else ends the run at once, before any file is looked for.
pub fn check_root(found: RootKind) -> (go: Result<(), SetupError>)
    ensures
        found is Directory <==> go is Ok,
        found is NotADirectory <==> go == Err::<(), SetupError>(SetupError::RootNotADirectory),
        found is Inaccessible <==> go == Err::<(), SetupError>(SetupError::RootInaccessible),
{
    match found {
        RootKind::Directory => Ok(()),
        RootKind::NotADirectory => Err(SetupError::RootNotADirectory),
        RootKind::Inaccessible => Err(SetupError::RootInaccessible),
    }
}

/// One file of a run: where it was found, and how its step ended.
#[derive(Debug)]
pub struct FileReport {
    pub path: String,
    pub outcome: Outcome,
}

/// The summary of a run: the bag of the tags under which its files count,
/// one for each file whose step names a tag and was carried out.
pub open spec fn summary(reports: Seq<FileReport>, root: Seq<char>, dry_run: bool) -> Multiset<
    Seq<char>,
>
    decreases reports.len(),
{
    if reports.len() == 0 {
        Multiset::empty()
    } else {
        let before = summary(reports.drop_last(), root, dry_run);
        let last = reports.last();
        match counted(organized(last.path@, root, dry_run), last.outcome) {
            Some(tag) => before.insert(tag),
            None => before,
        }
    }
}

/// Sums up a run over the files found under `root`.
///
/// Each report names a file and says how its step, the one that
/// [`organize_file`] gives for it, ended. A file counts once under its tag if
/// the step was a preview or a move and was carried out, and not at all
/// otherwise; what happened to one file changes nothing for another.
pub fn process_directory(reports: &Vec<FileReport>, root: &str, dry_run: bool) -> (stats:
    StatsMap)
    ensures
        stats@ == summary(reports@, root@, dry_run),
        forall|tag: Seq<char>| stats@.count(tag) == counted_under(reports@, root@, tag),
        stats@.len() == counted_files(reports@, root@),
        stats@.len() <= reports@.len(),
{
    proof {
        lemma_summary_counts_each_file_once(reports@, root@, dry_run);
        assert forall|tag: Seq<char>|
            summary(reports@, root@, dry_run).count(tag) == counted_under(reports@, root@, tag) by {
            lemma_summary_counts_by_tag(reports@, root@, dry_run, tag);
        }
    }
    let mut stats = StatsMap::new();
    let mut i: usize = 0;
    proof {
        broadcast use vstd::multiset::group_multiset_axioms;
    }
    while i < reports.len()
        invariant
            i <= reports@.len(),
            stats@ == summary(reports@.take(i as int), root@, dry_run),
            stats@.len() <= i,
        decreases reports@.len() - i,
    {
        let report = &reports[i];
        let step = organize_file(report.path.as_str(), root, dry_run);
        proof {
            broadcast use vstd::multiset::group_multiset_axioms;
            assert(reports@.take(i + 1).drop_last() == reports@.take(i as int));
        }
        match step.counted_tag(report.outcome) {
            Some(tag) => {
                stats = stats.record(tag);
            },
            None => {},
        }
        i += 1;
    }
    proof {
        assert(reports@.take(i as int) == reports@);
    }
    stats
}

/// The destination that a plan names, if it names one.
pub open spec fn plan_dest(plan: Plan) -> Option<Seq<char>> {
    match plan {
        Plan::Skip => None,
        Plan::Preview { tag, dest } => Some(dest),
        Plan::Move { tag, dir, dest } => Some(dest),
    }
}

/// The tag that a plan names, if it names one.
pub open spec fn plan_tag(plan: Plan) -> Option<Seq<char>> {
    match plan {
        Plan::Skip => None,
        Plan::Preview { tag, dest } => Some(tag),
        Plan::Move { tag, dir, dest } => Some(tag),
    }
}

/// Whether the file has to move: it has an extension and is not yet where it
/// belongs under `root`.
pub open spec fn eligible(file: Seq<char>, root: Seq<char>) -> bool {
    plan_dest(organized(file, root, false)) is Some
}

/// The moves that a run over `files` plans, as pairs of source and
/// destination.
pub open spec fn planned_moves(files: Seq<Seq<char>>, root: Seq<char>, dry_run: bool) -> Set<
    (Seq<char>, Seq<char>),
> {
    Set::new(
        |pair: (Seq<char>, Seq<char>)|
            exists|i: int|
                0 <= i < files.len() && #[trigger] files[i] == pair.0 && plan_dest(
                    organized(files[i], root, dry_run),
                ) == Some(pair.1),
    )
}

/// Where the file of a report is once its step of a run that moves files has
/// ended: at its destination if it was moved, and where it was otherwise.
pub open spec fn resting_place(report: FileReport, root: Seq<char>) -> Seq<char> {
    match organized(report.path@, root, false) {
        Plan::Move { tag, dir, dest } => if report.outcome is Done {
            dest
        } else {
            report.path@
        },
        _ => report.path@,
    }
}

/// How many files of a run count in its summary: those that had to move and
/// whose step was carried out.
pub open spec fn counted_files(reports: Seq<FileReport>, root: Seq<char>) -> nat
    decreases reports.len(),
{
    if reports.len() == 0 {
        0
    } else {
        let before = counted_files(reports.drop_last(), root);
        if eligible(reports.last().path@, root) && reports.last().outcome is Done {
            before + 1
        } else {
            before
        }
    }
}

/// How many files of a run count under `tag`: those that had to move to the
/// folder of that tag and whose step was carried out.
pub open spec fn counted_under(reports: Seq<FileReport>, root: Seq<char>, tag: Seq<char>) -> nat
    decreases reports.len(),
{
    if reports.len() == 0 {
        0
    } else {
        let before = counted_under(reports.drop_last(), root, tag);
        let last = reports.last();
        if plan_tag(organized(last.path@, root, false)) == Some(tag) && last.outcome is Done {
            before + 1
        } else {
            before
        }
    }
}

/// A file with the plain name `name` that lies in the folder of its tag under
/// `root` is skipped.
pub proof fn lemma_placed_file_is_skipped(root: Seq<char>, name: Seq<char>, dry_run: bool)
    requires
        is_plain_name(name),
        name_extension(name) is Some,
    ensures
        organized(
            path_destination(root, lowercase_of(name_extension(name)->0), name),
            root,
            dry_run,
        ) == Plan::Skip,
{
    let tag = lowercase_of(name_extension(name)->0);
    lemma_join_adds_component(path_join(root, tag), name);
}

/// The folder of a file depends on its extension by the lowercase form alone:
/// a file that has to move goes to `root/tag/name`, where `tag` is that form,
/// so two files whose extensions differ only by case share tag and folder.
pub proof fn lemma_folder_follows_lowercase(file: Seq<char>, root: Seq<char>)
    requires
        eligible(file, root),
    ensures
        path_extension(file) is Some,
        path_file_name(file) is Some,
        organized(file, root, false) == (Plan::Move {
            tag: lowercase_of(path_extension(file)->0),
            dir: path_join(root, lowercase_of(path_extension(file)->0)),
            dest: path_destination(
                root,
                lowercase_of(path_extension(file)->0),
                path_file_name(file)->0,
            ),
        }),
        organized(file, root, true) == (Plan::Preview {
            tag: lowercase_of(path_extension(file)->0),
            dest: path_destination(
                root,
                lowercase_of(path_extension(file)->0),
                path_file_name(file)->0,
            ),
        }),
{
}

/// A file that is at the destination of a step has nowhere else to go: the
/// step for it is to skip it, in a dry run and otherwise.
pub proof fn lemma_destination_is_final(
    file: Seq<char>,
    root: Seq<char>,
    dry_run: bool,
    again: bool,
)
    requires
        plan_dest(organized(file, root, dry_run)) is Some,
    ensures
        organized(plan_dest(organized(file, root, dry_run))->0, root, again) == Plan::Skip,
{
    lemma_file_name_is_plain(file);
    lemma_placed_file_is_skipped(root, path_file_name(file)->0, again);
}

/// A dry run plans for a file what a run that moves files does: the same tag
/// and the same destination, or to skip it in both.
pub proof fn lemma_dry_run_plans_the_same(file: Seq<char>, root: Seq<char>)
    ensures
        plan_dest(organized(file, root, true)) == plan_dest(organized(file, root, false)),
        plan_tag(organized(file, root, true)) == plan_tag(organized(file, root, false)),
        forall|outcome: Outcome|
            counted(organized(file, root, true), outcome) == counted(
                organized(file, root, false),
                outcome,
            ),
{
}

/// The pairs of source and destination that a dry run announces are those
/// that a run on the same files moves.
pub proof fn lemma_dry_run_equivalence(files: Seq<Seq<char>>, root: Seq<char>)
    ensures
        planned_moves(files, root, true) == planned_moves(files, root, false),
{
    assert forall|pair: (Seq<char>, Seq<char>)|
        planned_moves(files, root, true).contains(pair) == planned_moves(files, root, false).contains(
            pair,
        ) by {
        if planned_moves(files, root, true).contains(pair) {
            let i = choose|i: int|
                0 <= i < files.len() && #[trigger] files[i] == pair.0 && plan_dest(
                    organized(files[i], root, true),
                ) == Some(pair.1);
            lemma_dry_run_plans_the_same(files[i], root);
        }
        if planned_moves(files, root, false).contains(pair) {
            let i = choose|i: int|
                0 <= i < files.len() && #[trigger] files[i] == pair.0 && plan_dest(
                    organized(files[i], root, false),
                ) == Some(pair.1);
            lemma_dry_run_plans_the_same(files[i], root);
        }
    }
}

/// The summary of a dry run is that of a run that moves files and ends the
/// same way for each file.
pub proof fn lemma_dry_run_summary(reports: Seq<FileReport>, root: Seq<char>)
    ensures
        summary(reports, root, true) == summary(reports, root, false),
    decreases reports.len(),
{
    if reports.len() > 0 {
        lemma_dry_run_summary(reports.drop_last(), root);
        lemma_dry_run_plans_the_same(reports.last().path@, root);
    }
}

/// The summary of two lists of reports, one after the other, is the sum of
/// their summaries.
pub proof fn lemma_summary_concat(
    a: Seq<FileReport>,
    b: Seq<FileReport>,
    root: Seq<char>,
    dry_run: bool,
)
    ensures
        summary(a + b, root, dry_run) == summary(a, root, dry_run).add(summary(b, root, dry_run)),
    decreases b.len(),
{
    broadcast use vstd::multiset::group_multiset_axioms;
    if b.len() > 0 {
        lemma_summary_concat(a, b.drop_last(), root, dry_run);
        assert((a + b).drop_last() == a + b.drop_last());
        assert(summary(a + b, root, dry_run) =~= summary(a, root, dry_run).add(
            summary(b, root, dry_run),
        ));
    }
}

/// The summary does not depend on the order in which the files were handled:
/// two stretches of reports that follow each other may change places.
pub proof fn lemma_summary_ignores_order(
    front: Seq<FileReport>,
    a: Seq<FileReport>,
    b: Seq<FileReport>,
    back: Seq<FileReport>,
    root: Seq<char>,
    dry_run: bool,
)
    ensures
        summary(front + a + b + back, root, dry_run) == summary(
            front + b + a + back,
            root,
            dry_run,
        ),
{
    broadcast use vstd::multiset::group_multiset_axioms;
    lemma_summary_concat(front, a, root, dry_run);
    lemma_summary_concat(front + a, b, root, dry_run);
    lemma_summary_concat(front + a + b, back, root, dry_run);
    lemma_summary_concat(front, b, root, dry_run);
    lemma_summary_concat(front + b, a, root, dry_run);
    lemma_summary_concat(front + b + a, back, root, dry_run);
    assert(summary(front + a + b + back, root, dry_run) =~= summary(
        front + b + a + back,
        root,
        dry_run,
    ));
}

/// Each file that had to move and whose step was carried out counts exactly
/// once in the summary, and no other file counts.
pub proof fn lemma_summary_counts_each_file_once(
    reports: Seq<FileReport>,
    root: Seq<char>,
    dry_run: bool,
)
    ensures
        summary(reports, root, dry_run).len() == counted_files(reports, root),
        counted_files(reports, root) <= reports.len(),
    decreases reports.len(),
{
    broadcast use vstd::multiset::group_multiset_axioms;
    if reports.len() > 0 {
        lemma_summary_counts_each_file_once(reports.drop_last(), root, dry_run);
        lemma_dry_run_plans_the_same(reports.last().path@, root);
    }
}

/// The summary holds a tag once for each file that had to move to that tag's
/// folder and whose step was carried out.
pub proof fn lemma_summary_counts_by_tag(
    reports: Seq<FileReport>,
    root: Seq<char>,
    dry_run: bool,
    tag: Seq<char>,
)
    ensures
        summary(reports, root, dry_run).count(tag) == counted_under(reports, root, tag),
    decreases reports.len(),
{
    broadcast use vstd::multiset::group_multiset_axioms;
    if reports.len() > 0 {
        lemma_summary_counts_by_tag(reports.drop_last(), root, dry_run, tag);
        lemma_dry_run_plans_the_same(reports.last().path@, root);
    }
}

/// A file that does not count leaves the summary as it would be without it.
pub proof fn lemma_uncounted_file_changes_nothing(
    reports: Seq<FileReport>,
    k: int,
    root: Seq<char>,
    dry_run: bool,
)
    requires
        0 <= k < reports.len(),
        counted(organized(reports[k].path@, root, dry_run), reports[k].outcome) is None,
    ensures
        summary(reports, root, dry_run) == summary(reports.remove(k), root, dry_run),
{
    broadcast use vstd::multiset::group_multiset_axioms;
    let head = reports.take(k);
    let tail = reports.skip(k + 1);
    let upto = head.push(reports[k]);
    assert(upto.drop_last() == head);
    assert(reports == upto + tail);
    lemma_summary_concat(upto, tail, root, dry_run);
    lemma_summary_concat(head, tail, root, dry_run);
}

/// A file without an extension is skipped, and the summary is what it would
/// be without that file.
pub proof fn lemma_extensionless_file_is_never_counted(
    reports: Seq<FileReport>,
    k: int,
    root: Seq<char>,
    dry_run: bool,
)
    requires
        0 <= k < reports.len(),
        path_extension(reports[k].path@) is None,
    ensures
        organized(reports[k].path@, root, dry_run) == Plan::Skip,
        summary(reports, root, dry_run) == summary(reports.remove(k), root, dry_run),
{
    lemma_uncounted_file_changes_nothing(reports, k, root, dry_run);
}

/// A file that is where it belongs is skipped, and the summary is what it
/// would be without that file.
pub proof fn lemma_placed_file_is_never_counted(
    reports: Seq<FileReport>,
    k: int,
    root: Seq<char>,
    dry_run: bool,
)
    requires
        0 <= k < reports.len(),
        path_extension(reports[k].path@) is Some,
        paths_equal(
            path_destination(
                root,
                lowercase_of(path_extension(reports[k].path@)->0),
                path_file_name(reports[k].path@)->0,
            ),
            reports[k].path@,
        ),
    ensures
        organized(reports[k].path@, root, dry_run) == Plan::Skip,
        summary(reports, root, dry_run) == summary(reports.remove(k), root, dry_run),
{
    lemma_uncounted_file_changes_nothing(reports, k, root, dry_run);
}

/// A file whose step failed does not count, and the summary is what it would
/// be without that file: every other file counts as if nothing had failed.
pub proof fn lemma_failure_is_isolated(
    reports: Seq<FileReport>,
    k: int,
    root: Seq<char>,
    dry_run: bool,
)
    requires
        0 <= k < reports.len(),
        !(reports[k].outcome is Done),
    ensures
        counted(organized(reports[k].path@, root, dry_run), reports[k].outcome) is None,
        summary(reports, root, dry_run) == summary(reports.remove(k), root, dry_run),
{
    lemma_uncounted_file_changes_nothing(reports, k, root, dry_run);
}

/// After a run that moved every file that had to move, a second run over the
/// same files, each where the first run left it, skips them all and counts
/// nothing.
pub proof fn lemma_second_run_counts_nothing(
    first: Seq<FileReport>,
    second: Seq<FileReport>,
    root: Seq<char>,
    dry_run: bool,
)
    requires
        first.len() == second.len(),
        forall|i: int| 0 <= i < first.len() ==> (#[trigger] first[i]).outcome is Done,
        forall|i: int|
            0 <= i < first.len() ==> (#[trigger] second[i]).path@ == resting_place(first[i], root),
    ensures
        forall|i: int|
            0 <= i < second.len() ==> organized((#[trigger] second[i]).path@, root, dry_run)
                == Plan::Skip,
        summary(second, root, dry_run) == Multiset::<Seq<char>>::empty(),
    decreases second.len(),
{
    if second.len() > 0 {
        let n = second.len() - 1;
        lemma_second_run_counts_nothing(first.drop_last(), second.drop_last(), root, dry_run);
        if plan_dest(organized(first[n].path@, root, false)) is Some {
            lemma_destination_is_final(first[n].path@, root, false, dry_run);
        } else {
            lemma_dry_run_plans_the_same(first[n].path@, root);
        }
        assert forall|i: int| 0 <= i < second.len() implies organized(
            (#[trigger] second[i]).path@,
            root,
            dry_run,
        ) == Plan::Skip by {
            if i < n {
                assert(second.drop_last()[i] == second[i]);
            }
        }
    }
}

} // verus!
