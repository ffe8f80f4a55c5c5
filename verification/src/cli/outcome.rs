//! The per-file action taxonomy and the process-wide exit-code reduction. Exit
//! codes mirror `black`: `0` success, `1` a no-write mode found a needed change,
//! `123` a file could not be safely processed. The process exit code is the max
//! severity over all files.

use vstd::prelude::*;

verus! {

/// The severity tiers, ordered `Ok < Changed < Failed`.
#[derive(Clone, Copy, Debug, PartialEq, Eq, Structural, PartialOrd, Ord)]
pub enum Severity {
    /// Formatted, written, diffed, or already well-formatted.
    Success,
    /// A no-write mode (`--check`) found a file that would change.
    Changed,
    /// A file could not be safely processed.
    Failed,
}

/// The rank of a severity in the order `Ok < Changed < Failed`.
pub open spec fn rank(s: Severity) -> int {
    match s {
        Severity::Success => 0,
        Severity::Changed => 1,
        Severity::Failed => 2,
    }
}

/// The greater of two severities.
pub open spec fn max_spec(a: Severity, b: Severity) -> Severity {
    if rank(a) >= rank(b) {
        a
    } else {
        b
    }
}

impl Severity {
    /// The process exit code for this severity (`black` parity).
    pub fn exit_code(self) -> (c: u8)
        ensures
            c == (match self {
                Severity::Success => 0u8,
                Severity::Changed => 1u8,
                Severity::Failed => 123u8,
            }),
    {
        match self {
            Severity::Success => 0,
            Severity::Changed => 1,
            Severity::Failed => 123,
        }
    }

    /// The rank of this severity: `Ok` 0, `Changed` 1, `Failed` 2.
    pub fn rank(self) -> (r: u8)
        ensures
            r == rank(self),
    {
        match self {
            Severity::Success => 0,
            Severity::Changed => 1,
            Severity::Failed => 2,
        }
    }

    /// The greater of two severities.
    pub fn max(self, other: Severity) -> (r: Severity)
        ensures
            r == max_spec(self, other),
    {
        if self.rank() >= other.rank() {
            self
        } else {
            other
        }
    }
}

/// What happened to one file or stream.
#[derive(Clone, Copy, Debug, PartialEq, Eq, Structural)]
pub enum Action {
    /// Default mode: the file changed and was written back.
    Reformatted,
    /// The file was already formatted; nothing to do.
    Unchanged,
    /// `--check`: the file would change (not written).
    WouldReformat,
    /// `--diff`: a diff was emitted (informational).
    Diffed,
    /// The file was skipped.
    Skipped,
}

/// The severity an action contributes.
pub open spec fn severity_spec(a: Action) -> Severity {
    match a {
        Action::Reformatted | Action::Unchanged | Action::Diffed => Severity::Success,
        Action::WouldReformat => Severity::Changed,
        Action::Skipped => Severity::Failed,
    }
}

impl Action {
    /// The severity this action contributes to the process exit code.
    pub fn severity(self) -> (s: Severity)
        ensures
            s == severity_spec(self),
            self == Action::Skipped <==> s == Severity::Failed,
            self == Action::WouldReformat <==> s == Severity::Changed,
            (self == Action::Reformatted || self == Action::Unchanged || self == Action::Diffed) <==> s
                == Severity::Success,
    {
        match self {
            Action::Reformatted | Action::Unchanged | Action::Diffed => Severity::Success,
            Action::WouldReformat => Severity::Changed,
            Action::Skipped => Severity::Failed,
        }
    }
}

/// The max severity over `actions[0..n)` (`Ok` for none).
pub open spec fn reduce_spec(actions: Seq<Action>, n: int) -> Severity
    decreases n,
{
    if n <= 0 {
        Severity::Success
    } else {
        max_spec(reduce_spec(actions, n - 1), severity_spec(actions[n - 1]))
    }
}

/// The process-wide exit severity: the max over every file's action.
pub fn reduce(actions: &[Action]) -> (s: Severity)
    ensures
        s == reduce_spec(actions@, actions@.len() as int),
        s == exit_class(actions@),
{
    proof {
        lemma_reduce_classes(actions@, actions@.len() as int);
        assert(actions@.subrange(0, actions@.len() as int) =~= actions@);
    }
    let mut acc = Severity::Success;
    let mut i: usize = 0;
    while i < actions.len()
        invariant
            i <= actions@.len(),
            acc == reduce_spec(actions@, i as int),
        decreases actions@.len() - i,
    {
        acc = acc.max(actions[i].severity());
        i = i + 1;
    }
    acc
}

/// The exit severity of a run told from its actions alone: `Failed` when a file
/// was skipped, else `Changed` when `--check` found a file that would change,
/// else `Success` (whatever was reformatted, left unchanged or diffed).
pub open spec fn exit_class(actions: Seq<Action>) -> Severity {
    if actions.contains(Action::Skipped) {
        Severity::Failed
    } else if actions.contains(Action::WouldReformat) {
        Severity::Changed
    } else {
        Severity::Success
    }
}

/// Only a skip fails a run and only a `--check` finding changes it: the
/// reduction over the first `n` actions is [`exit_class`] of them.
pub proof fn lemma_reduce_classes(actions: Seq<Action>, n: int)
    requires
        0 <= n <= actions.len(),
    ensures
        reduce_spec(actions, n) == exit_class(actions.subrange(0, n)),
    decreases n,
{
    if n > 0 {
        lemma_reduce_classes(actions, n - 1);
        let p = actions.subrange(0, n - 1);
        let q = actions.subrange(0, n);
        assert(q =~= p.push(actions[n - 1]));
        assert forall|x: Action| q.contains(x) <==> (p.contains(x) || x == actions[n - 1]) by {
            if q.contains(x) {
                let k = choose|k: int| 0 <= k < q.len() && q[k] == x;
                if k < n - 1 {
                    assert(p[k] == x);
                }
            }
            if p.contains(x) {
                let k = choose|k: int| 0 <= k < p.len() && p[k] == x;
                assert(q[k] == x);
            }
            if x == actions[n - 1] {
                assert(q[n - 1] == x);
            }
        }
    } else {
        assert(actions.subrange(0, 0) =~= Seq::<Action>::empty());
    }
}

/// Each action's own contribution to the exit code: a skip `123`, a `--check`
/// finding `1`, and a reformat, an unchanged file or a `--diff` `0`.
pub proof fn lemma_action_exit_codes(a: Action)
    ensures
        a == Action::Skipped ==> reduce_spec(seq![a], 1) == Severity::Failed,
        a == Action::WouldReformat ==> reduce_spec(seq![a], 1) == Severity::Changed,
        a == Action::Reformatted || a == Action::Unchanged || a == Action::Diffed ==> reduce_spec(seq![a], 1)
            == Severity::Success,
{
    lemma_reduce_classes(seq![a], 1);
    assert(seq![a].subrange(0, 1) =~= seq![a]);
    assert(seq![a].contains(a)) by {
        assert(seq![a][0] == a);
    }
}

/// The reduction is the maximum: no action's severity exceeds it, and it is some
/// action's severity (or `Ok` when there are none).
pub proof fn lemma_reduce_is_max(actions: Seq<Action>, n: int)
    requires
        0 <= n <= actions.len(),
    ensures
        forall|k: int| 0 <= k < n ==> rank(#[trigger] severity_spec(actions[k])) <= rank(reduce_spec(actions, n)),
        reduce_spec(actions, n) == Severity::Success || exists|k: int|
            0 <= k < n && #[trigger] severity_spec(actions[k]) == reduce_spec(actions, n),
    decreases n,
{
    if n > 0 {
        lemma_reduce_is_max(actions, n - 1);
        if reduce_spec(actions, n) == severity_spec(actions[n - 1]) {
            assert(severity_spec(actions[n - 1]) == reduce_spec(actions, n));
        }
    }
}

/// Reordering does not matter: the severity of a run is the same whatever the
/// order of its files (stated for two adjacent files swapped).
pub proof fn lemma_reduce_swap(actions: Seq<Action>, k: int)
    requires
        0 <= k,
        k + 1 < actions.len(),
    ensures
        reduce_spec(actions.update(k, actions[k + 1]).update(k + 1, actions[k]), actions.len() as int)
            == reduce_spec(actions, actions.len() as int),
    decreases actions.len(),
{
    let sw = actions.update(k, actions[k + 1]).update(k + 1, actions[k]);
    lemma_reduce_prefix(actions, sw, k);
    let r = reduce_spec(actions, k);
    let x = severity_spec(actions[k]);
    let y = severity_spec(actions[k + 1]);
    assert(sw[k] == actions[k + 1] && sw[k + 1] == actions[k]);
    assert(reduce_spec(actions, k + 1) == max_spec(r, x));
    assert(reduce_spec(actions, k + 2) == max_spec(max_spec(r, x), y));
    assert(reduce_spec(sw, k + 1) == max_spec(r, y));
    assert(reduce_spec(sw, k + 2) == max_spec(max_spec(r, y), x));
    assert(reduce_spec(sw, k + 2) == reduce_spec(actions, k + 2));
    lemma_reduce_suffix(actions, sw, k + 2, actions.len() as int);
}

/// Sequences agreeing below `n` reduce alike there.
proof fn lemma_reduce_prefix(a: Seq<Action>, b: Seq<Action>, n: int)
    requires
        0 <= n <= a.len(),
        n <= b.len(),
        forall|k: int| 0 <= k < n ==> a[k] == b[k],
    ensures
        reduce_spec(a, n) == reduce_spec(b, n),
    decreases n,
{
    if n > 0 {
        lemma_reduce_prefix(a, b, n - 1);
    }
}

/// Sequences that reduce alike at `m` and agree on `[m, n)` reduce alike at `n`.
proof fn lemma_reduce_suffix(a: Seq<Action>, b: Seq<Action>, m: int, n: int)
    requires
        0 <= m <= n <= a.len(),
        n <= b.len(),
        reduce_spec(a, m) == reduce_spec(b, m),
        forall|k: int| m <= k < n ==> a[k] == b[k],
    ensures
        reduce_spec(a, n) == reduce_spec(b, n),
    decreases n - m,
{
    if m < n {
        lemma_reduce_suffix(a, b, m, n - 1);
    }
}

} // verus!
