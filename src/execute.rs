//! The execution engine's decisions: how the command is invoked, which
//! target runs next, when to stop, and in which order outcomes are reported.
//!
//! The caller spawns the processes. It asks `next_target` for work when
//! running targets one after another (or starts every target at once when
//! running concurrently), hands each outcome to `record`, stops the whole
//! run when `record` says so, and finally takes the outcomes from `finish`.
use vstd::prelude::*;
use crate::sorted::strictly_sorted;
use crate::text::{join_spec, join_str, views};

verus! {

/// Exit code recorded when the process's status is not known (for example,
/// it was killed by a signal).
pub const UNKNOWN_EXIT_CODE: i32 = -1;

/// How a run is carried out; fixed for the whole run.
#[derive(Debug, Clone, Copy, PartialEq, Eq)]
pub struct ExecutionPolicy {
    /// Run all targets at once rather than one after another.
    pub concurrent: bool,
    /// Print each target's output as it arrives rather than after all
    /// targets are done.
    pub stream_output: bool,
    /// Run the command through the platform shell.
    pub run_in_shell: bool,
    /// Stop everything once a target exits with a nonzero code.
    pub abort_on_nonzero: bool,
}

impl ExecutionPolicy {
    /// The policy for the tool's flags: output streams unless the run is
    /// concurrent without continuous output.
    pub fn from_flags(parallel: bool, continuous_output: bool, shell: bool, abort_on_nonzero: bool) -> (r:
        ExecutionPolicy)
        ensures
            r.concurrent == parallel,
            r.stream_output == (!parallel || continuous_output),
            r.run_in_shell == shell,
            r.abort_on_nonzero == abort_on_nonzero,
    {
        ExecutionPolicy {
            concurrent: parallel,
            stream_output: !parallel || continuous_output,
            run_in_shell: shell,
            abort_on_nonzero,
        }
    }
}

/// What one finished process left behind.
#[derive(Debug, PartialEq, Eq)]
pub struct ExecutionOutcome {
    pub exit_code: i32,
    pub stdout: String,
    pub stderr: String,
}

/// Why a target, or the whole run, could not be carried out.
#[derive(Debug, PartialEq, Eq)]
pub enum ExecutionError {
    /// No pass-through command was given.
    NoCommandSpecified,
    /// The process could not be started.
    Spawn(String),
    /// Reading the process's output or waiting for it failed.
    Io(String),
}

impl ExecutionOutcome {
    /// The outcome of a process with exit status `code` (`None` where it is
    /// not known) whose output streams held the given lines.
    pub fn from_lines(code: Option<i32>, stdout_lines: &Vec<String>, stderr_lines: &Vec<String>) -> (r:
        ExecutionOutcome)
        ensures
            r.exit_code == (match code {
                Some(c) => c,
                None => UNKNOWN_EXIT_CODE,
            }),
            r.stdout@ == join_spec(views(stdout_lines@), seq!['\n']),
            r.stderr@ == join_spec(views(stderr_lines@), seq!['\n']),
    {
        proof {
            reveal_strlit("\n");
            assert("\n"@ =~= seq!['\n']);
        }
        let exit_code = match code {
            Some(c) => c,
            None => UNKNOWN_EXIT_CODE,
        };
        ExecutionOutcome {
            exit_code,
            stdout: join_str(stdout_lines.as_slice(), "\n"),
            stderr: join_str(stderr_lines.as_slice(), "\n"),
        }
    }
}

/// Recording outcome `r` stops the run.
pub open spec fn aborts(abort_on_nonzero: bool, r: Result<ExecutionOutcome, ExecutionError>) -> bool {
    abort_on_nonzero && r is Ok && r->Ok_0.exit_code != 0
}

/// Whether recording `r` stops the run under `policy`.
pub fn stops_run(policy: ExecutionPolicy, r: &Result<ExecutionOutcome, ExecutionError>) -> (b: bool)
    ensures
        b == aborts(policy.abort_on_nonzero, *r),
{
    match r {
        Ok(o) => policy.abort_on_nonzero && o.exit_code != 0,
        Err(_) => false,
    }
}

/// The flags that make a well-known program color its output although it
/// does not write to a terminal.
pub open spec fn color_args_for(program: Seq<char>) -> Seq<Seq<char>> {
    if program == "git"@ {
        seq!["-c"@, "color.ui=always"@]
    } else if program == "ls"@ {
        seq!["--color=always"@]
    } else {
        seq![]
    }
}

/// The color flags for `program`.
pub fn get_color_args(program: &str) -> (r: Vec<String>)
    ensures
        views(r@) == color_args_for(program@),
{
    let mut r: Vec<String> = Vec::new();
    if crate::text::str_eq(program, "git") {
        r.push("-c".to_string());
        r.push("color.ui=always".to_string());
        assert(views(r@) =~= seq!["-c"@, "color.ui=always"@]);
    } else if crate::text::str_eq(program, "ls") {
        r.push("--color=always".to_string());
        assert(views(r@) =~= seq!["--color=always"@]);
    } else {
        assert(views(r@) =~= seq![]);
    }
    r
}

/// The platform whose shell wraps the command.
#[derive(Debug, Clone, Copy, PartialEq, Eq)]
pub enum Platform {
    Posix,
    Windows,
}

/// The program to start and its arguments.
#[derive(Debug, PartialEq, Eq)]
pub struct Invocation {
    pub program: String,
    pub args: Vec<String>,
}

/// The program that runs `command` and the arguments it gets: through the
/// platform shell, the command's tokens joined by spaces; otherwise the
/// command's program with its color flags ahead of the command's own
/// arguments.
pub open spec fn invocation_of(command: Seq<Seq<char>>, shell: bool, platform: Platform) -> (Seq<char>, Seq<
    Seq<char>,
>) {
    if shell {
        match platform {
            Platform::Posix => ("sh"@, seq!["-c"@, join_spec(command, seq![' '])]),
            Platform::Windows => ("powershell"@, seq!["/C"@, join_spec(command, seq![' '])]),
        }
    } else {
        (command[0], color_args_for(command[0]) + command.drop_first())
    }
}

/// How `command`, which is not empty, is started.
pub fn build_invocation(command: &Vec<String>, shell: bool, platform: Platform) -> (r: Invocation)
    requires
        command@.len() > 0,
    ensures
        (r.program@, views(r.args@)) == invocation_of(views(command@), shell, platform),
{
    proof {
        reveal_strlit(" ");
        assert(" "@ =~= seq![' ']);
    }
    if shell {
        let line = join_str(command.as_slice(), " ");
        let (program, flag) = match platform {
            Platform::Posix => ("sh".to_string(), "-c".to_string()),
            Platform::Windows => ("powershell".to_string(), "/C".to_string()),
        };
        let mut args: Vec<String> = Vec::new();
        args.push(flag);
        args.push(line);
        let r = Invocation { program, args };
        assert(views(r.args@) =~= invocation_of(views(command@), shell, platform).1);
        r
    } else {
        let program = command[0].clone();
        let mut args = get_color_args(program.as_str());
        let ghost colors = views(args@);
        let mut i: usize = 1;
        while i < command.len()
            invariant
                1 <= i <= command@.len(),
                views(args@) == colors + views(command@).subrange(1, i as int),
            decreases command.len() - i,
        {
            let ghost before = args@;
            args.push(command[i].clone());
            assert(views(args@) =~= views(before).push(command@[i as int]@));
            assert(views(args@) =~= colors + views(command@).subrange(1, i + 1));
            i = i + 1;
        }
        assert(views(command@).subrange(1, i as int) =~= views(command@).drop_first());
        Invocation { program, args }
    }
}

/// The answer of `record`: go on, or stop the whole run now.
#[derive(Debug, Clone, Copy, PartialEq, Eq)]
pub enum Step {
    Continue,
    Abort,
}

/// One run of the command over its targets.
pub struct Execution {
    targets: Vec<String>,
    invocation: Invocation,
    policy: ExecutionPolicy,
    slots: Vec<Option<Result<ExecutionOutcome, ExecutionError>>>,
    aborted: bool,
}

/// A run as plain values: the targets, the outcome recorded for each target
/// so far, and whether the run has been stopped.
pub struct ExecutionView {
    pub targets: Seq<Seq<char>>,
    pub slots: Seq<Option<Result<ExecutionOutcome, ExecutionError>>>,
    pub aborted: bool,
    pub abort_on_nonzero: bool,
}

impl View for Execution {
    type V = ExecutionView;

    closed spec fn view(&self) -> ExecutionView {
        ExecutionView {
            targets: views(self.targets@),
            slots: self.slots@,
            aborted: self.aborted,
            abort_on_nonzero: self.policy.abort_on_nonzero,
        }
    }
}

/// A run that has not started: no outcome recorded.
pub open spec fn fresh(targets: Seq<Seq<char>>, abort_on_nonzero: bool) -> ExecutionView {
    ExecutionView {
        targets,
        slots: Seq::new(targets.len(), |j: int| None),
        aborted: false,
        abort_on_nonzero,
    }
}

/// The position of the first slot without an outcome, or the length if all
/// are filled.
pub open spec fn first_none(slots: Seq<Option<Result<ExecutionOutcome, ExecutionError>>>) -> int
    decreases slots.len(),
{
    if slots.len() == 0 {
        0
    } else if slots[0] is None {
        0
    } else {
        1 + first_none(slots.drop_first())
    }
}

/// The target to run next when targets run one after another: the first
/// one without an outcome, unless the run has been stopped.
pub open spec fn next_of(st: ExecutionView) -> Option<int> {
    if st.aborted || first_none(st.slots) >= st.slots.len() {
        None
    } else {
        Some(first_none(st.slots))
    }
}

/// The run after outcome `r` of target `i` has been recorded.
pub open spec fn recorded(st: ExecutionView, i: int, r: Result<ExecutionOutcome, ExecutionError>) -> ExecutionView {
    ExecutionView {
        slots: st.slots.update(i, Some(r)),
        aborted: st.aborted || aborts(st.abort_on_nonzero, r),
        ..st
    }
}

/// The recorded outcomes, each with its target, in the order of the targets.
pub open spec fn reported(
    targets: Seq<Seq<char>>,
    slots: Seq<Option<Result<ExecutionOutcome, ExecutionError>>>,
) -> Seq<(Seq<char>, Result<ExecutionOutcome, ExecutionError>)>
    decreases slots.len(),
{
    if slots.len() == 0 || targets.len() == 0 {
        seq![]
    } else {
        let rest = reported(targets.drop_last(), slots.drop_last());
        match slots.last() {
            Some(r) => rest.push((targets.last(), r)),
            None => rest,
        }
    }
}

/// The pairs as plain values.
pub open spec fn pair_views(v: Seq<(String, Result<ExecutionOutcome, ExecutionError>)>) -> Seq<
    (Seq<char>, Result<ExecutionOutcome, ExecutionError>),
> {
    v.map_values(|p: (String, Result<ExecutionOutcome, ExecutionError>)| (p.0@, p.1))
}

impl Execution {
    /// The internal lists agree in length.
    pub closed spec fn wf(&self) -> bool {
        self.slots@.len() == self.targets@.len()
    }

    /// The program and arguments that each target runs.
    pub closed spec fn invocation_view(&self) -> (Seq<char>, Seq<Seq<char>>) {
        (self.invocation.program@, views(self.invocation.args@))
    }

    /// A run of `command` over `targets`; fails when there is no command,
    /// whatever the targets.
    pub fn new(command: Vec<String>, targets: Vec<String>, policy: ExecutionPolicy, platform: Platform) -> (r:
        Result<Execution, ExecutionError>)
        ensures
            command@.len() == 0 <==> r is Err,
            r is Err ==> r->Err_0 == ExecutionError::NoCommandSpecified,
            r is Ok ==> r->Ok_0.wf(),
            r is Ok ==> r->Ok_0@ == fresh(views(targets@), policy.abort_on_nonzero),
            r is Ok ==> r->Ok_0.invocation_view() == invocation_of(views(command@), policy.run_in_shell, platform),
            r is Ok ==> r->Ok_0.policy() == policy,
    {
        if command.len() == 0 {
            return Err(ExecutionError::NoCommandSpecified);
        }
        let invocation = build_invocation(&command, policy.run_in_shell, platform);
        let mut slots: Vec<Option<Result<ExecutionOutcome, ExecutionError>>> = Vec::new();
        let mut i: usize = 0;
        while i < targets.len()
            invariant
                i <= targets@.len(),
                slots@ == Seq::new(i as nat, |j: int| None::<Result<ExecutionOutcome, ExecutionError>>),
            decreases targets.len() - i,
        {
            slots.push(None);
            assert(slots@ =~= Seq::new((i + 1) as nat, |j: int| None::<Result<ExecutionOutcome, ExecutionError>>));
            i = i + 1;
        }
        let r = Execution { targets, invocation, policy, slots, aborted: false };
        assert(r@.slots =~= fresh(views(r.targets@), policy.abort_on_nonzero).slots);
        Ok(r)
    }

    /// The program and arguments that each target runs.
    pub fn invocation(&self) -> (r: &Invocation)
        ensures
            (r.program@, views(r.args@)) == self.invocation_view(),
    {
        &self.invocation
    }

    /// The targets, in the order in which outcomes are reported.
    pub fn targets(&self) -> (r: &Vec<String>)
        ensures
            views(r@) == self@.targets,
    {
        &self.targets
    }

    /// The policy of this run.
    pub closed spec fn policy_spec(&self) -> ExecutionPolicy {
        self.policy
    }

    /// The policy of this run.
    #[verifier::when_used_as_spec(policy_spec)]
    pub fn policy(&self) -> (r: ExecutionPolicy)
        ensures
            r == self.policy_spec(),
            r.abort_on_nonzero == self@.abort_on_nonzero,
    {
        self.policy
    }

    /// The target to run next when targets run one after another.
    pub fn next_target(&self) -> (r: Option<usize>)
        requires
            self.wf(),
        ensures
            r matches Some(i) ==> next_of(self@) == Some(i as int),
            r is None ==> next_of(self@) is None,
    {
        if self.aborted {
            return None;
        }
        let mut i: usize = 0;
        while i < self.slots.len()
            invariant
                !self.aborted,
                i <= self.slots@.len(),
                forall|j: int| 0 <= j < i ==> self.slots@[j] is Some,
            decreases self.slots.len() - i,
        {
            if self.slots[i].is_none() {
                proof {
                    lemma_first_none(self.slots@, i as int);
                    assert(self@.slots == self.slots@);
                    assert(!self@.aborted);
                }
                return Some(i);
            }
            i = i + 1;
        }
        proof {
            lemma_first_none(self.slots@, i as int);
        }
        None
    }

    /// Records the outcome of target `index` and says whether the run must
    /// stop: it stops when the policy asks to abort on a nonzero exit code
    /// and the target exited with one. A target that could not be started
    /// never stops the run.
    pub fn record(&mut self, index: usize, r: Result<ExecutionOutcome, ExecutionError>) -> (step: Step)
        requires
            old(self).wf(),
            index < old(self)@.targets.len(),
        ensures
            final(self).wf(),
            final(self)@ == recorded(old(self)@, index as int, r),
            final(self).invocation_view() == old(self).invocation_view(),
            final(self).policy() == old(self).policy(),
            (step == Step::Abort) == aborts(old(self)@.abort_on_nonzero, r),
    {
        let stop = stops_run(self.policy, &r);
        self.slots.set(index, Some(r));
        if stop {
            self.aborted = true;
        }
        if stop {
            Step::Abort
        } else {
            Step::Continue
        }
    }

    /// The recorded outcomes with their targets, in the order of the targets.
    pub fn finish(self) -> (r: Vec<(String, Result<ExecutionOutcome, ExecutionError>)>)
        requires
            self.wf(),
        ensures
            pair_views(r@) == reported(self@.targets, self@.slots),
    {
        let ghost orig = self.slots@;
        let ghost tv = views(self.targets@);
        let targets = self.targets;
        let mut slots = self.slots;
        let mut out: Vec<(String, Result<ExecutionOutcome, ExecutionError>)> = Vec::new();
        let mut i: usize = 0;
        assert(orig.subrange(0, 0) =~= seq![]);
        while i < slots.len()
            invariant
                slots@.len() == orig.len(),
                targets@.len() == orig.len(),
                tv == views(targets@),
                i <= orig.len(),
                forall|j: int| i <= j < orig.len() ==> slots@[j] == orig[j],
                pair_views(out@) == reported(tv.subrange(0, i as int), orig.subrange(0, i as int)),
            decreases slots.len() - i,
        {
            let mut cell: Option<Result<ExecutionOutcome, ExecutionError>> = None;
            slots.set_and_swap(i, &mut cell);
            let ghost before = out@;
            assert(tv.subrange(0, i + 1).drop_last() =~= tv.subrange(0, i as int));
            assert(orig.subrange(0, i + 1).drop_last() =~= orig.subrange(0, i as int));
            match cell {
                Some(res) => {
                    out.push((targets[i].clone(), res));
                    assert(pair_views(out@) =~= pair_views(before).push((tv[i as int], orig[i as int]->Some_0)));
                },
                None => {},
            }
            i = i + 1;
        }
        assert(tv.subrange(0, i as int) =~= tv);
        assert(orig.subrange(0, i as int) =~= orig);
        out
    }
}

/// The run after the outcomes of the targets in `order` were recorded in
/// that order, `outcomes[i]` being target `i`'s.
pub open spec fn record_in_order(
    st: ExecutionView,
    order: Seq<int>,
    outcomes: Seq<Result<ExecutionOutcome, ExecutionError>>,
) -> ExecutionView
    decreases order.len(),
{
    if order.len() == 0 {
        st
    } else {
        let before = record_in_order(st, order.drop_last(), outcomes);
        recorded(before, order.last(), outcomes[order.last()])
    }
}

/// The run after targets were taken one after another, as `next_target`
/// gives them, for at most `fuel` targets, `outcomes[i]` being target `i`'s.
pub open spec fn run_sequentially(
    st: ExecutionView,
    outcomes: Seq<Result<ExecutionOutcome, ExecutionError>>,
    fuel: nat,
) -> ExecutionView
    decreases fuel,
{
    if fuel == 0 {
        st
    } else {
        match next_of(st) {
            None => st,
            Some(i) => run_sequentially(recorded(st, i, outcomes[i]), outcomes, (fuel - 1) as nat),
        }
    }
}

/// Each target paired with its outcome, for the first `k` targets.
pub open spec fn paired(
    targets: Seq<Seq<char>>,
    outcomes: Seq<Result<ExecutionOutcome, ExecutionError>>,
    k: int,
) -> Seq<(Seq<char>, Result<ExecutionOutcome, ExecutionError>)> {
    Seq::new(k as nat, |j: int| (targets[j], outcomes[j]))
}

/// A run whose first `k` targets have their outcomes.
pub open spec fn prefix_state(
    targets: Seq<Seq<char>>,
    outcomes: Seq<Result<ExecutionOutcome, ExecutionError>>,
    k: int,
    aborted: bool,
    abort_on_nonzero: bool,
) -> ExecutionView {
    ExecutionView {
        targets,
        slots: Seq::new(targets.len(), |j: int| if j < k { Some(outcomes[j]) } else { None }),
        aborted,
        abort_on_nonzero,
    }
}

proof fn lemma_reported_all(
    targets: Seq<Seq<char>>,
    slots: Seq<Option<Result<ExecutionOutcome, ExecutionError>>>,
    outcomes: Seq<Result<ExecutionOutcome, ExecutionError>>,
    k: int,
)
    requires
        slots.len() == targets.len(),
        outcomes.len() == targets.len(),
        0 <= k <= targets.len(),
        forall|j: int| 0 <= j < targets.len() ==> #[trigger] slots[j] == if j < k { Some(outcomes[j]) } else { None },
    ensures
        reported(targets, slots) == paired(targets, outcomes, k),
    decreases targets.len(),
{
    let n = targets.len();
    if n > 0 {
        let k1 = if k == n { k - 1 } else { k };
        lemma_reported_all(targets.drop_last(), slots.drop_last(), outcomes.drop_last(), k1);
        assert(paired(targets.drop_last(), outcomes.drop_last(), k1) =~= paired(targets, outcomes, k1));
        if k == n {
            assert(paired(targets, outcomes, k) =~= paired(targets, outcomes, k1).push((targets.last(), outcomes.last())));
        }
    } else {
        assert(paired(targets, outcomes, k) =~= seq![]);
    }
}

proof fn lemma_prefix_first_none(
    targets: Seq<Seq<char>>,
    outcomes: Seq<Result<ExecutionOutcome, ExecutionError>>,
    k: int,
    aborted: bool,
    abort_on_nonzero: bool,
)
    requires
        0 <= k <= targets.len(),
    ensures
        first_none(prefix_state(targets, outcomes, k, aborted, abort_on_nonzero).slots) == k,
{
    let slots = prefix_state(targets, outcomes, k, aborted, abort_on_nonzero).slots;
    lemma_first_none(slots, k);
}

proof fn lemma_run_from(
    targets: Seq<Seq<char>>,
    outcomes: Seq<Result<ExecutionOutcome, ExecutionError>>,
    abort_on_nonzero: bool,
    k: int,
    fuel: nat,
)
    requires
        outcomes.len() == targets.len(),
        0 <= k <= targets.len(),
        fuel >= targets.len() - k,
        forall|j: int| 0 <= j < k ==> !aborts(abort_on_nonzero, #[trigger] outcomes[j]),
    ensures
        (forall|j: int| k <= j < targets.len() ==> !aborts(abort_on_nonzero, #[trigger] outcomes[j])) ==> run_sequentially(
            prefix_state(targets, outcomes, k, false, abort_on_nonzero),
            outcomes,
            fuel,
        ) == prefix_state(targets, outcomes, targets.len() as int, false, abort_on_nonzero),
        forall|m: int|
            k <= m < targets.len() && aborts(abort_on_nonzero, #[trigger] outcomes[m]) && (forall|j: int|
                k <= j < m ==> !aborts(abort_on_nonzero, #[trigger] outcomes[j])) ==> run_sequentially(
                prefix_state(targets, outcomes, k, false, abort_on_nonzero),
                outcomes,
                fuel,
            ) == prefix_state(targets, outcomes, m + 1, true, abort_on_nonzero),
    decreases fuel,
{
    let n = targets.len() as int;
    let st = prefix_state(targets, outcomes, k, false, abort_on_nonzero);
    lemma_prefix_first_none(targets, outcomes, k, false, abort_on_nonzero);
    if k == n {
        if fuel > 0 {
            assert(next_of(st) is None);
        }
    } else {
        assert(next_of(st) == Some(k));
        let after = recorded(st, k, outcomes[k]);
        if aborts(abort_on_nonzero, outcomes[k]) {
            let stopped = prefix_state(targets, outcomes, k + 1, true, abort_on_nonzero);
            assert(after.slots =~= stopped.slots);
            assert(after == stopped);
            assert(next_of(stopped) is None);
            assert(run_sequentially(stopped, outcomes, (fuel - 1) as nat) == stopped);
            assert(run_sequentially(st, outcomes, fuel) == run_sequentially(after, outcomes, (fuel - 1) as nat));
        } else {
            let next = prefix_state(targets, outcomes, k + 1, false, abort_on_nonzero);
            assert(after.slots =~= next.slots);
            assert(after == next);
            lemma_run_from(targets, outcomes, abort_on_nonzero, k + 1, (fuel - 1) as nat);
            assert forall|m: int|
                k <= m < targets.len() && aborts(abort_on_nonzero, #[trigger] outcomes[m]) && (forall|j: int|
                    k <= j < m ==> !aborts(abort_on_nonzero, #[trigger] outcomes[j])) implies run_sequentially(
                    st,
                    outcomes,
                    fuel,
                ) == prefix_state(targets, outcomes, m + 1, true, abort_on_nonzero) by {
                assert(m != k);
            }
        }
    }
}

/// However the outcomes of a run's targets arrive, once each target's
/// outcome has been recorded the run reports every target with its outcome
/// in the order of the targets. Targets that come sorted (as resolution
/// gives them) are therefore reported in sorted order, whichever target
/// finished first.
pub proof fn lemma_report_order_independent_of_completion(
    targets: Seq<Seq<char>>,
    abort_on_nonzero: bool,
    order: Seq<int>,
    outcomes: Seq<Result<ExecutionOutcome, ExecutionError>>,
)
    requires
        outcomes.len() == targets.len(),
        order.no_duplicates(),
        forall|k: int| 0 <= k < order.len() ==> 0 <= #[trigger] order[k] < targets.len(),
        forall|j: int| 0 <= j < targets.len() ==> #[trigger] order.contains(j),
    ensures
        ({
            let st = record_in_order(fresh(targets, abort_on_nonzero), order, outcomes);
            let rep = reported(st.targets, st.slots);
            &&& rep == paired(targets, outcomes, targets.len() as int)
            &&& strictly_sorted(targets) ==> strictly_sorted(rep.map_values(|p: (Seq<char>, Result<ExecutionOutcome, ExecutionError>)| p.0))
        }),
{
    lemma_recorded_slots(targets, abort_on_nonzero, order, outcomes);
    let st = record_in_order(fresh(targets, abort_on_nonzero), order, outcomes);
    lemma_reported_all(targets, st.slots, outcomes, targets.len() as int);
    let rep = reported(st.targets, st.slots);
    assert(rep.map_values(|p: (Seq<char>, Result<ExecutionOutcome, ExecutionError>)| p.0) =~= targets);
}

proof fn lemma_recorded_slots(
    targets: Seq<Seq<char>>,
    abort_on_nonzero: bool,
    order: Seq<int>,
    outcomes: Seq<Result<ExecutionOutcome, ExecutionError>>,
)
    requires
        forall|k: int| 0 <= k < order.len() ==> 0 <= #[trigger] order[k] < targets.len(),
    ensures
        ({
            let st = record_in_order(fresh(targets, abort_on_nonzero), order, outcomes);
            &&& st.targets == targets
            &&& st.slots.len() == targets.len()
            &&& forall|j: int|
                0 <= j < targets.len() ==> #[trigger] st.slots[j] == if order.contains(j) {
                    Some(outcomes[j])
                } else {
                    None
                }
        }),
    decreases order.len(),
{
    if order.len() > 0 {
        let front = order.drop_last();
        assert forall|k: int| 0 <= k < front.len() implies 0 <= #[trigger] front[k] < targets.len() by {
            assert(front[k] == order[k]);
        }
        lemma_recorded_slots(targets, abort_on_nonzero, front, outcomes);
        let st = record_in_order(fresh(targets, abort_on_nonzero), order, outcomes);
        assert forall|j: int| 0 <= j < targets.len() implies #[trigger] st.slots[j] == if order.contains(j) {
            Some(outcomes[j])
        } else {
            None
        } by {
            if order.contains(j) && j != order.last() {
                let k = choose|k: int| 0 <= k < order.len() && order[k] == j;
                assert(front[k] == j);
            }
            if front.contains(j) {
                let k = choose|k: int| 0 <= k < front.len() && front[k] == j;
                assert(order[k] == j);
            }
            if j == order.last() {
                assert(order[order.len() - 1] == j);
            }
        }
    }
}

/// When targets run one after another and no outcome stops the run (an
/// outcome stops it only when it is a nonzero exit under the abort policy;
/// a target that could not be started never does), every target runs and is
/// reported with its own outcome, in the order of the targets: a failure of
/// one target leaves the others untouched.
pub proof fn lemma_sequential_run_reports_all(
    targets: Seq<Seq<char>>,
    abort_on_nonzero: bool,
    outcomes: Seq<Result<ExecutionOutcome, ExecutionError>>,
)
    requires
        outcomes.len() == targets.len(),
        forall|j: int| 0 <= j < targets.len() ==> !aborts(abort_on_nonzero, #[trigger] outcomes[j]),
    ensures
        ({
            let st = run_sequentially(fresh(targets, abort_on_nonzero), outcomes, targets.len());
            &&& reported(st.targets, st.slots) == paired(targets, outcomes, targets.len() as int)
            &&& next_of(st) is None
        }),
{
    let n = targets.len() as int;
    assert(fresh(targets, abort_on_nonzero) == prefix_state(targets, outcomes, 0, false, abort_on_nonzero)) by {
        assert(fresh(targets, abort_on_nonzero).slots =~= prefix_state(targets, outcomes, 0, false, abort_on_nonzero).slots);
    }
    lemma_run_from(targets, outcomes, abort_on_nonzero, 0, targets.len());
    let st = prefix_state(targets, outcomes, n, false, abort_on_nonzero);
    lemma_reported_all(targets, st.slots, outcomes, n);
    lemma_prefix_first_none(targets, outcomes, n, false, abort_on_nonzero);
}

/// A target that could not be started never stops the run.
pub proof fn lemma_spawn_failure_does_not_abort(abort_on_nonzero: bool, e: ExecutionError)
    ensures
        !aborts(abort_on_nonzero, Err(e)),
{
}

/// When targets run one after another under the abort policy and target `m`
/// is the first to exit with a nonzero code, the run stops right after it:
/// no later target is started, and only targets `0..=m` have outcomes to
/// report.
pub proof fn lemma_abort_stops_run(
    targets: Seq<Seq<char>>,
    outcomes: Seq<Result<ExecutionOutcome, ExecutionError>>,
    m: int,
)
    requires
        outcomes.len() == targets.len(),
        0 <= m < targets.len(),
        aborts(true, outcomes[m]),
        forall|j: int| 0 <= j < m ==> !aborts(true, #[trigger] outcomes[j]),
    ensures
        ({
            let st = run_sequentially(fresh(targets, true), outcomes, targets.len());
            &&& st.aborted
            &&& next_of(st) is None
            &&& reported(st.targets, st.slots) == paired(targets, outcomes, m + 1)
            &&& forall|j: int| m < j < targets.len() ==> #[trigger] st.slots[j] is None
        }),
{
    assert(fresh(targets, true) == prefix_state(targets, outcomes, 0, false, true)) by {
        assert(fresh(targets, true).slots =~= prefix_state(targets, outcomes, 0, false, true).slots);
    }
    lemma_run_from(targets, outcomes, true, 0, targets.len());
    let st = prefix_state(targets, outcomes, m + 1, true, true);
    lemma_reported_all(targets, st.slots, outcomes, m + 1);
}

proof fn lemma_first_none(slots: Seq<Option<Result<ExecutionOutcome, ExecutionError>>>, i: int)
    requires
        0 <= i <= slots.len(),
        forall|j: int| 0 <= j < i ==> slots[j] is Some,
        i == slots.len() || slots[i] is None,
    ensures
        first_none(slots) == i,
    decreases slots.len(),
{
    if slots.len() > 0 && i > 0 {
        lemma_first_none(slots.drop_first(), i - 1);
    }
}

} // verus!
