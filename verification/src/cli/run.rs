//! The run's decisions: expanding the command-line paths into a work list, the
//! summary tally, and the reduction to the process exit severity. What is on
//! disk arrives as a [`Probe`] per path.

use super::outcome::{max_spec, reduce, reduce_spec, Action, Severity};
use crate::text::{decimal, decimal_spec, str_eq};
use vstd::prelude::*;
use vstd::string::StringExecFns;

verus! {

/// One unit of work.
#[derive(Clone, Debug, PartialEq, Eq)]
pub enum Target {
    /// Read stdin, write stdout (the editor contract).
    Stdin,
    /// A concrete file on disk.
    File(String),
}

/// The expanded work list plus the non-fatal directory-walk errors.
#[derive(Clone, Debug, PartialEq, Eq)]
pub struct Discovered {
    pub targets: Vec<Target>,
    pub errors: Vec<String>,
}

/// What is on disk at a command-line path.
#[derive(Clone, Debug)]
pub enum Probe {
    /// A directory, with the files its search selected (in order) and the
    /// per-entry walk errors.
    Directory { files: Vec<String>, errors: Vec<String> },
    /// A directory whose search could not be set up (a malformed glob), with
    /// the reason.
    WalkFailed(String),
    /// A regular file.
    RegularFile,
    /// Something that is neither a regular file nor a directory.
    Other,
    /// Nothing.
    Missing,
}

/// A target by view: stdin, or a file path.
pub open spec fn target_view(t: Target) -> Option<Seq<char>> {
    match t {
        Target::Stdin => None,
        Target::File(p) => Some(p@),
    }
}

/// The views of a work list.
pub open spec fn targets_view(s: Seq<Target>) -> Seq<Option<Seq<char>>> {
    s.map_values(|t: Target| target_view(t))
}

/// The file targets of a directory's selected files.
pub open spec fn files_view(s: Seq<String>) -> Seq<Option<Seq<char>>> {
    s.map_values(|f: String| Some(f@))
}

/// The work list of the first `n` paths, or `None` when one of them is fatal (a
/// search that could not be set up, a non-regular file, a missing path). A `-`
/// is stdin.
pub open spec fn expand_spec(paths: Seq<String>, probes: Seq<Probe>, n: int) -> Option<Seq<Option<Seq<char>>>>
    decreases n,
{
    if n <= 0 {
        Some(Seq::empty())
    } else {
        match expand_spec(paths, probes, n - 1) {
            None => None,
            Some(t) => if paths[n - 1]@ == "-"@ {
                Some(t.push(None))
            } else {
                match probes[n - 1] {
                    Probe::Directory { files, .. } => Some(t + files_view(files@)),
                    Probe::RegularFile => Some(t.push(Some(paths[n - 1]@))),
                    _ => None,
                }
            },
        }
    }
}

/// The directory-walk errors of the first `n` paths, in order.
pub open spec fn walk_errors_spec(paths: Seq<String>, probes: Seq<Probe>, n: int) -> Seq<Seq<char>>
    decreases n,
{
    if n <= 0 {
        Seq::empty()
    } else {
        walk_errors_spec(paths, probes, n - 1) + if paths[n - 1]@ == "-"@ {
            Seq::<Seq<char>>::empty()
        } else {
            match probes[n - 1] {
                Probe::Directory { errors, .. } => errors@.map_values(|e: String| e@),
                _ => Seq::<Seq<char>>::empty(),
            }
        }
    }
}

/// The message of the first fatal path among the first `n`, if any.
pub open spec fn fatal_spec(paths: Seq<String>, probes: Seq<Probe>, n: int) -> Option<Seq<char>>
    decreases n,
{
    if n <= 0 {
        None
    } else {
        match fatal_spec(paths, probes, n - 1) {
            Some(m) => Some(m),
            None => if paths[n - 1]@ == "-"@ {
                None
            } else {
                let p = paths[n - 1]@;
                match probes[n - 1] {
                    Probe::WalkFailed(why) => Some("searching directory `"@ + p + "`: "@ + why@),
                    Probe::Other => Some("not a regular file or directory: `"@ + p + "`"@),
                    Probe::Missing => Some("path does not exist: `"@ + p + "`"@),
                    _ => None,
                }
            },
        }
    }
}

/// A fatal message, once found, stays the first one.
pub proof fn lemma_fatal_stays(paths: Seq<String>, probes: Seq<Probe>, m: int, n: int)
    requires
        0 <= m <= n,
        fatal_spec(paths, probes, m) is Some,
    ensures
        fatal_spec(paths, probes, n) == fatal_spec(paths, probes, m),
    decreases n - m,
{
    if m < n {
        lemma_fatal_stays(paths, probes, m, n - 1);
    }
}

/// The message of a fatal path.
fn path_error(prefix: &str, path: &str, suffix: &str) -> (m: String)
    ensures
        m@ == prefix@ + path@ + suffix@,
{
    String::from_str(prefix).concat(path).concat(suffix)
}

/// Expand the command-line paths into a work list: no paths means stdin; a `-`
/// is stdin; a directory contributes its selected files and its walk errors; a
/// regular file is itself. A malformed search, a non-regular file or a missing
/// path is fatal.
pub fn collect_targets(paths: &Vec<String>, probes: &Vec<Probe>) -> (r: Result<Discovered, String>)
    requires
        paths@.len() == probes@.len(),
    ensures
        paths@.len() == 0 ==> (r matches Ok(d) && targets_view(d.targets@) == seq![None::<Seq<char>>]),
        paths@.len() > 0 ==> (r is Err <==> expand_spec(paths@, probes@, paths@.len() as int) is None),
        paths@.len() > 0 ==> (r matches Ok(d) ==> Some(targets_view(d.targets@)) == expand_spec(
            paths@,
            probes@,
            paths@.len() as int,
        )),
        r matches Ok(d) ==> d.errors@.map_values(|e: String| e@) == walk_errors_spec(
            paths@,
            probes@,
            paths@.len() as int,
        ),
        r matches Err(m) ==> Some(m@) == fatal_spec(paths@, probes@, paths@.len() as int),
{
    if paths.len() == 0 {
        let mut targets: Vec<Target> = Vec::new();
        targets.push(Target::Stdin);
        assert(targets_view(targets@) =~= seq![None::<Seq<char>>]);
        let errors: Vec<String> = Vec::new();
        assert(errors@.map_values(|e: String| e@) =~= walk_errors_spec(paths@, probes@, 0));
        return Ok(Discovered { targets, errors });
    }
    let mut targets: Vec<Target> = Vec::new();
    let mut errors: Vec<String> = Vec::new();
    let mut i: usize = 0;
    while i < paths.len()
        invariant
            paths@.len() == probes@.len(),
            i <= paths@.len(),
            expand_spec(paths@, probes@, i as int) == Some(targets_view(targets@)),
            errors@.map_values(|e: String| e@) == walk_errors_spec(paths@, probes@, i as int),
            fatal_spec(paths@, probes@, i as int) is None,
        decreases paths@.len() - i,
    {
        let ghost e0 = errors@.map_values(|e: String| e@);
        let p = paths[i].as_str();
        let ghost t0 = targets@;
        proof {
            reveal_strlit("-");
        }
        if str_eq(p, "-") {
            targets.push(Target::Stdin);
            assert(targets_view(targets@) =~= targets_view(t0).push(None));
            assert(errors@.map_values(|e: String| e@) =~= walk_errors_spec(paths@, probes@, i + 1));
        } else {
            match &probes[i] {
                Probe::Directory { files, errors: walk_errors } => {
                    let mut k: usize = 0;
                    while k < files.len()
                        invariant
                            k <= files@.len(),
                            targets_view(targets@) == targets_view(t0) + files_view(files@.subrange(0, k as int)),
                        decreases files@.len() - k,
                    {
                        let ghost t1 = targets@;
                        targets.push(Target::File(files[k].clone()));
                        proof {
                            assert(targets_view(targets@) =~= targets_view(t1).push(Some(files@[k as int]@)));
                            assert(files_view(files@.subrange(0, k + 1)) =~= files_view(
                                files@.subrange(0, k as int),
                            ).push(Some(files@[k as int]@)));
                            assert(targets_view(targets@) =~= targets_view(t0) + files_view(
                                files@.subrange(0, k + 1),
                            ));
                        }
                        k = k + 1;
                    }
                    assert(files@.subrange(0, files@.len() as int) =~= files@);
                    let mut k: usize = 0;
                    while k < walk_errors.len()
                        invariant
                            k <= walk_errors@.len(),
                            errors@.map_values(|e: String| e@) == e0 + walk_errors@.subrange(0, k as int).map_values(
                                |e: String| e@,
                            ),
                        decreases walk_errors@.len() - k,
                    {
                        let ghost ev = errors@;
                        errors.push(walk_errors[k].clone());
                        proof {
                            assert(errors@.map_values(|e: String| e@) =~= ev.map_values(|e: String| e@).push(
                                walk_errors@[k as int]@,
                            ));
                            assert(walk_errors@.subrange(0, k + 1).map_values(|e: String| e@) =~= walk_errors@.subrange(
                                0,
                                k as int,
                            ).map_values(|e: String| e@).push(walk_errors@[k as int]@));
                        }
                        k = k + 1;
                    }
                    assert(walk_errors@.subrange(0, walk_errors@.len() as int) =~= walk_errors@);
                    assert(errors@.map_values(|e: String| e@) =~= walk_errors_spec(paths@, probes@, i + 1));
                },
                Probe::WalkFailed(why) => {
                    proof {
                        lemma_expand_none_stays(paths@, probes@, i + 1, paths@.len() as int);
                    }
                    let m = path_error("searching directory `", p, "`: ").concat(why.as_str());
                    proof {
                        lemma_fatal_stays(paths@, probes@, i + 1, paths@.len() as int);
                    }
                    return Err(m);
                },
                Probe::RegularFile => {
                    targets.push(Target::File(paths[i].clone()));
                    assert(targets_view(targets@) =~= targets_view(t0).push(Some(paths@[i as int]@)));
                    assert(errors@.map_values(|e: String| e@) =~= walk_errors_spec(paths@, probes@, i + 1));
                },
                Probe::Other => {
                    proof {
                        lemma_expand_none_stays(paths@, probes@, i + 1, paths@.len() as int);
                    }
                    proof {
                        lemma_fatal_stays(paths@, probes@, i + 1, paths@.len() as int);
                    }
                    return Err(path_error("not a regular file or directory: `", p, "`"));
                },
                Probe::Missing => {
                    proof {
                        lemma_expand_none_stays(paths@, probes@, i + 1, paths@.len() as int);
                    }
                    proof {
                        lemma_fatal_stays(paths@, probes@, i + 1, paths@.len() as int);
                    }
                    return Err(path_error("path does not exist: `", p, "`"));
                },
            }
        }
        i = i + 1;
    }
    Ok(Discovered { targets, errors })
}

/// Once a prefix of the paths is fatal, every longer prefix is.
pub proof fn lemma_expand_none_stays(paths: Seq<String>, probes: Seq<Probe>, m: int, n: int)
    requires
        0 <= m <= n,
        expand_spec(paths, probes, m) is None,
    ensures
        expand_spec(paths, probes, n) is None,
    decreases n - m,
{
    if m < n {
        lemma_expand_none_stays(paths, probes, m, n - 1);
    }
}

/// Whether the work list holds a file (a pure stdin run is a quiet filter).
pub fn has_file(targets: &Vec<Target>) -> (r: bool)
    ensures
        r == exists|k: int| 0 <= k < targets@.len() && #[trigger] targets@[k] is File,
{
    let mut i: usize = 0;
    while i < targets.len()
        invariant
            i <= targets@.len(),
            forall|k: int| 0 <= k < i ==> !(#[trigger] targets@[k] is File),
        decreases targets@.len() - i,
    {
        match &targets[i] {
            Target::File(_) => {
                return true;
            },
            Target::Stdin => {},
        }
        i = i + 1;
    }
    false
}

/// The number of `a` among `actions[0..n)`.
pub open spec fn count_spec(actions: Seq<Action>, a: Action, n: int) -> nat
    decreases n,
{
    if n <= 0 {
        0
    } else {
        count_spec(actions, a, n - 1) + if actions[n - 1] == a {
            1nat
        } else {
            0nat
        }
    }
}

/// The one-line run summary: how many files were (or would be) reformatted,
/// left unchanged (or only diffed), and skipped.
#[derive(Clone, Copy, Debug, PartialEq, Eq, Structural)]
pub struct Summary {
    /// `--check`: the count is of files that would be reformatted.
    pub would: bool,
    pub changed: usize,
    pub unchanged: usize,
    pub skipped: usize,
}

impl Summary {
    /// The summary line: `N reformatted` (or `N would be reformatted` under
    /// `--check`), then the unchanged and skipped counts.
    pub open spec fn line_spec(self) -> Seq<char> {
        decimal_spec(self.changed as nat) + " "@ + (if self.would {
            "would be reformatted"@
        } else {
            "reformatted"@
        }) + ", "@ + decimal_spec(self.unchanged as nat) + " unchanged, "@ + decimal_spec(self.skipped as nat)
            + " skipped"@
    }

    /// The summary line (see [`Summary::line_spec`]).
    pub fn line(&self) -> (r: String)
        ensures
            r@ == self.line_spec(),
    {
        let mut out = decimal(self.changed);
        out.append(" ");
        if self.would {
            out.append("would be reformatted");
        } else {
            out.append("reformatted");
        }
        out.append(", ");
        out.append(decimal(self.unchanged).as_str());
        out.append(" unchanged, ");
        out.append(decimal(self.skipped).as_str());
        out.append(" skipped");
        out
    }
}

/// The summary, when at least one target was a file; a pure stdin run stays
/// quiet.
pub fn summarize(check: bool, has_file: bool, actions: &[Action]) -> (r: Option<Summary>)
    ensures
        !has_file ==> r is None,
        has_file ==> (r matches Some(s) && s.would == check && s.changed == count_spec(
            actions@,
            if check {
                Action::WouldReformat
            } else {
                Action::Reformatted
            },
            actions@.len() as int,
        ) && s.unchanged == count_spec(actions@, Action::Unchanged, actions@.len() as int) + count_spec(
            actions@,
            Action::Diffed,
            actions@.len() as int,
        ) && s.skipped == count_spec(actions@, Action::Skipped, actions@.len() as int)),
{
    if !has_file {
        return None;
    }
    let target = if check {
        Action::WouldReformat
    } else {
        Action::Reformatted
    };
    let mut changed: usize = 0;
    let mut unchanged: usize = 0;
    let mut skipped: usize = 0;
    let mut i: usize = 0;
    while i < actions.len()
        invariant
            i <= actions@.len(),
            target == (if check {
                Action::WouldReformat
            } else {
                Action::Reformatted
            }),
            changed + unchanged + skipped <= i,
            changed == count_spec(actions@, target, i as int),
            unchanged == count_spec(actions@, Action::Unchanged, i as int) + count_spec(
                actions@,
                Action::Diffed,
                i as int,
            ),
            skipped == count_spec(actions@, Action::Skipped, i as int),
        decreases actions@.len() - i,
    {
        let a = actions[i];
        assert(count_spec(actions@, target, i + 1) == count_spec(actions@, target, i as int) + if actions@[i as int]
            == target {
            1nat
        } else {
            0nat
        });
        assert(count_spec(actions@, Action::Unchanged, i + 1) == count_spec(actions@, Action::Unchanged, i as int)
            + if actions@[i as int] == Action::Unchanged {
            1nat
        } else {
            0nat
        });
        assert(count_spec(actions@, Action::Diffed, i + 1) == count_spec(actions@, Action::Diffed, i as int) + if actions@[
            i as int] == Action::Diffed {
            1nat
        } else {
            0nat
        });
        assert(count_spec(actions@, Action::Skipped, i + 1) == count_spec(actions@, Action::Skipped, i as int) + if actions@[
            i as int] == Action::Skipped {
            1nat
        } else {
            0nat
        });
        assert(target != Action::Unchanged && target != Action::Diffed && target != Action::Skipped);
        if a == target {
            changed = changed + 1;
        } else if a == Action::Unchanged || a == Action::Diffed {
            unchanged = unchanged + 1;
        } else if a == Action::Skipped {
            skipped = skipped + 1;
        }
        i = i + 1;
    }
    Some(Summary { would: check, changed, unchanged, skipped })
}

/// The run's exit severity: the max over the actions, floored to `Failed` when
/// the directory walks reported errors.
pub fn run_severity(actions: &[Action], walk_errors: bool) -> (s: Severity)
    ensures
        s == (if walk_errors {
            max_spec(reduce_spec(actions@, actions@.len() as int), Severity::Failed)
        } else {
            reduce_spec(actions@, actions@.len() as int)
        }),
{
    let s = reduce(actions);
    if walk_errors {
        s.max(Severity::Failed)
    } else {
        s
    }
}


/// A copy of a target.
pub fn copy_target(t: &Target) -> (r: Target)
    ensures
        target_view(r) == target_view(*t),
{
    match t {
        Target::Stdin => Target::Stdin,
        Target::File(p) => Target::File(p.clone()),
    }
}

/// How a run begins: a fatal path ends it at once with `Failed`; otherwise the
/// work list is processed target by target.
#[derive(Debug)]
pub enum Start {
    /// The paths could not be expanded; the message to report.
    Fatal { message: String, severity: Severity },
    /// The run proceeds.
    Go(Runner),
}

/// The run in progress: the work list, the walk errors, and the actions recorded
/// so far (one per processed target, in order).
#[derive(Debug)]
pub struct Runner {
    check: bool,
    targets: Vec<Target>,
    errors: Vec<String>,
    actions: Vec<Action>,
}

impl Runner {
    /// The work list.
    pub closed spec fn targets_spec(&self) -> Seq<Target> {
        self.targets@
    }

    /// The actions recorded so far.
    pub closed spec fn actions_spec(&self) -> Seq<Action> {
        self.actions@
    }

    /// Whether the directory walks reported errors.
    pub closed spec fn walk_failed(&self) -> bool {
        self.errors@.len() > 0
    }

    /// Whether the run is in `--check` mode.
    pub closed spec fn check_spec(&self) -> bool {
        self.check
    }

    /// No more actions than targets.
    pub closed spec fn wf(&self) -> bool {
        self.actions@.len() <= self.targets@.len()
    }

    /// The non-fatal walk errors, to report before processing.
    pub fn walk_errors(&self) -> (e: &Vec<String>)
        ensures
            e@.len() > 0 <==> self.walk_failed(),
    {
        &self.errors
    }

    /// The next target to process, or `None` when every target has its action.
    pub fn next_target(&self) -> (t: Option<Target>)
        requires
            self.wf(),
        ensures
            self.actions_spec().len() < self.targets_spec().len() ==> (t matches Some(x) && target_view(x)
                == target_view(self.targets_spec()[self.actions_spec().len() as int])),
            self.actions_spec().len() == self.targets_spec().len() ==> t is None,
    {
        if self.actions.len() < self.targets.len() {
            Some(copy_target(&self.targets[self.actions.len()]))
        } else {
            None
        }
    }

    /// Record the action of the target `next_target` handed out.
    pub fn record(&mut self, a: Action)
        requires
            old(self).wf(),
            old(self).actions_spec().len() < old(self).targets_spec().len(),
        ensures
            final(self).wf(),
            final(self).actions_spec() == old(self).actions_spec().push(a),
            final(self).targets_spec() == old(self).targets_spec(),
            final(self).walk_failed() == old(self).walk_failed(),
            final(self).check_spec() == old(self).check_spec(),
    {
        self.actions.push(a);
    }

    /// The summary line (when a file was among the targets) and the exit
    /// severity: the max over the actions, floored to `Failed` after walk errors.
    pub fn finish(&self) -> (r: (Option<Summary>, Severity))
        ensures
            r.1 == (if self.walk_failed() {
                max_spec(reduce_spec(self.actions_spec(), self.actions_spec().len() as int), Severity::Failed)
            } else {
                reduce_spec(self.actions_spec(), self.actions_spec().len() as int)
            }),
            (r.0 is Some) == (exists|k: int|
                0 <= k < self.targets_spec().len() && #[trigger] self.targets_spec()[k] is File),
            r.0 matches Some(sm) ==> {
                let a = self.actions_spec();
                &&& sm.would == self.check_spec()
                &&& sm.changed == count_spec(
                    a,
                    if self.check_spec() {
                        Action::WouldReformat
                    } else {
                        Action::Reformatted
                    },
                    a.len() as int,
                )
                &&& sm.unchanged == count_spec(a, Action::Unchanged, a.len() as int) + count_spec(
                    a,
                    Action::Diffed,
                    a.len() as int,
                )
                &&& sm.skipped == count_spec(a, Action::Skipped, a.len() as int)
            },
    {
        let file = has_file(&self.targets);
        let summary = summarize(self.check, file, self.actions.as_slice());
        let sev = run_severity(self.actions.as_slice(), self.errors.len() > 0);
        (summary, sev)
    }
}

/// Begin a run over the command-line paths and what is on disk at each.
pub fn start(paths: &Vec<String>, probes: &Vec<Probe>, check: bool) -> (s: Start)
    requires
        paths@.len() == probes@.len(),
    ensures
        paths@.len() > 0 ==> (s is Fatal <==> expand_spec(paths@, probes@, paths@.len() as int) is None),
        s matches Start::Fatal { severity, .. } ==> severity == Severity::Failed,
        s matches Start::Fatal { message, .. } ==> Some(message@) == fatal_spec(
            paths@,
            probes@,
            paths@.len() as int,
        ),
        s matches Start::Go(r) ==> (r.walk_failed() <==> walk_errors_spec(
            paths@,
            probes@,
            paths@.len() as int,
        ).len() > 0),
        s matches Start::Go(r) ==> r.wf() && r.actions_spec().len() == 0 && r.check_spec() == check && (
        paths@.len() > 0 ==> Some(targets_view(r.targets_spec())) == expand_spec(
            paths@,
            probes@,
            paths@.len() as int,
        )) && (paths@.len() == 0 ==> targets_view(r.targets_spec()) == seq![None::<Seq<char>>]),
{
    match collect_targets(paths, probes) {
        Err(message) => Start::Fatal { message, severity: Severity::Failed },
        Ok(d) => Start::Go(Runner { check, targets: d.targets, errors: d.errors, actions: Vec::new() }),
    }
}

} // verus!
