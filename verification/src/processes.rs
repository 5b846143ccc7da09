//! The processes that a run observes besides the ones it starts itself.

use vstd::prelude::*;
use crate::pid::{parse_pid, parse_u32_spec, PidErrorKind};

verus! {

/// A process that a run watches without having started it.
#[derive(Debug)]
pub enum ProcessToObserve {
    /// A process given by its id.
    ExternalPid(u32),
    /// Docker containers given by their names.
    ExternalContainers(Vec<String>),
}

/// The part of an execution plan that lists the processes observed from
/// outside.
#[derive(Debug)]
pub struct ExecutionPlan {
    pub external_processes_to_observe: Vec<ProcessToObserve>,
}

/// A process id on the command line that is not a `u32`.
#[derive(Debug)]
pub struct PidError {
    /// The text as it was given.
    pub pid: String,
    /// Why it was refused.
    pub kind: PidErrorKind,
}

impl PidError {
    /// The message that `std` gives for this kind of error.
    pub fn message(&self) -> (m: String)
        ensures
            m@ == pid_error_message(self.kind),
    {
        match self.kind {
            PidErrorKind::Empty => String::from_str("cannot parse integer from empty string"),
            PidErrorKind::InvalidDigit => String::from_str("invalid digit found in string"),
            PidErrorKind::PosOverflow => String::from_str("number too large to fit in target type"),
        }
    }
}

pub open spec fn pid_error_message(kind: PidErrorKind) -> Seq<char> {
    match kind {
        PidErrorKind::Empty => "cannot parse integer from empty string"@,
        PidErrorKind::InvalidDigit => "invalid digit found in string"@,
        PidErrorKind::PosOverflow => "number too large to fit in target type"@,
    }
}

impl ExecutionPlan {
    /// A plan that observes no external process yet.
    pub fn new() -> (plan: ExecutionPlan)
        ensures
            plan.external_processes_to_observe@ == Seq::<ProcessToObserve>::empty(),
    {
        ExecutionPlan { external_processes_to_observe: Vec::new() }
    }

    /// Adds one process to observe, after those already listed.
    pub fn observe_external_process(&mut self, process: ProcessToObserve)
        ensures
            final(self).external_processes_to_observe@
                == old(self).external_processes_to_observe@.push(process),
    {
        self.external_processes_to_observe.push(process);
    }
}

/// The `u32` that `s` denotes, where it denotes one.
pub open spec fn pid_value(s: Seq<char>) -> u32 {
    match parse_u32_spec(s) {
        Ok(v) => v,
        Err(_) => 0,
    }
}

/// The first `n` process ids of `pids` are all valid.
pub open spec fn pids_valid_upto(pids: Seq<String>, n: int) -> bool {
    forall|i: int| 0 <= i < n ==> (#[trigger] parse_u32_spec(pids[i]@)) is Ok
}

/// The processes that the first `n` ids of `pids` stand for, in order.
pub open spec fn pid_entries(pids: Seq<String>, n: int) -> Seq<ProcessToObserve> {
    Seq::new(n as nat, |i: int| ProcessToObserve::ExternalPid(pid_value(pids[i]@)))
}

/// The entry for the container names, if any were given.
pub open spec fn container_entry(containers: Option<Vec<String>>) -> Seq<ProcessToObserve> {
    match containers {
        Some(names) => seq![ProcessToObserve::ExternalContainers(names)],
        None => Seq::empty(),
    }
}

pub open spec fn pid_seq(pids: Option<Vec<String>>) -> Seq<String> {
    match pids {
        Some(v) => v@,
        None => Seq::empty(),
    }
}

/// The entries for the first `n` ids of `pids`, all valid: one per id, in
/// the order given, each the `ExternalPid` of the number that id denotes.
pub proof fn lemma_pid_entries(pids: Seq<String>, n: int)
    requires
        0 <= n <= pids.len(),
        pids_valid_upto(pids, n),
    ensures
        pid_entries(pids, n).len() == n,
        forall|i: int|
            0 <= i < n ==> ((#[trigger] parse_u32_spec(pids[i]@)) matches Ok(v)
                && pid_entries(pids, n)[i] == ProcessToObserve::ExternalPid(v)),
{
    assert forall|i: int| 0 <= i < n implies (#[trigger] parse_u32_spec(pids[i]@)) matches Ok(v)
        && pid_entries(pids, n)[i] == ProcessToObserve::ExternalPid(v) by {
        assert(parse_u32_spec(pids[i]@) is Ok);
    }
}

/// Container names, whenever given (however many, none included), make one
/// `ExternalContainers` entry holding exactly those names; none given make
/// no entry.
pub proof fn lemma_container_entry(containers: Option<Vec<String>>)
    ensures
        containers is None ==> container_entry(containers).len() == 0,
        containers matches Some(names) ==> container_entry(containers).len() == 1
            && container_entry(containers)[0] == ProcessToObserve::ExternalContainers(names),
{
}

/// After all ids were accepted, the plan holds what it held before, then one
/// `ExternalPid` per id in order, then, if container names were given, one
/// `ExternalContainers` with them as its last entry.
pub proof fn lemma_plan_after_adding(
    before: Seq<ProcessToObserve>,
    pids: Seq<String>,
    containers: Option<Vec<String>>,
)
    requires
        pids_valid_upto(pids, pids.len() as int),
    ensures
        ({
            let after = before + pid_entries(pids, pids.len() as int) + container_entry(containers);
            &&& after.len() == before.len() + pids.len() + (if containers is Some { 1int } else { 0int })
            &&& forall|i: int| 0 <= i < before.len() ==> after[i] == before[i]
            &&& forall|i: int|
                0 <= i < pids.len() ==> ((#[trigger] parse_u32_spec(pids[i]@)) matches Ok(v)
                    && after[before.len() + i] == ProcessToObserve::ExternalPid(v))
            &&& containers matches Some(names) ==> after[after.len() - 1]
                == ProcessToObserve::ExternalContainers(names)
        }),
{
    lemma_pid_entries(pids, pids.len() as int);
    lemma_container_entry(containers);
    let after = before + pid_entries(pids, pids.len() as int) + container_entry(containers);
    assert forall|i: int| 0 <= i < pids.len() implies (#[trigger] parse_u32_spec(pids[i]@)) matches Ok(v)
        && after[before.len() + i] == ProcessToObserve::ExternalPid(v) by {
        assert(after[before.len() + i] == pid_entries(pids, pids.len() as int)[i]);
    }
}

/// Adds the processes named on the command line to `exec_plan`: first one
/// `ExternalPid` per process id, in the order given, then one
/// `ExternalContainers` with all container names, if any were given.
/// Stops at the first id that is not a `u32` and returns its error; the ids
/// before it stay added.
pub fn add_external_processes(
    pids: Option<Vec<String>>,
    containers: Option<Vec<String>>,
    exec_plan: &mut ExecutionPlan,
) -> (r: Result<(), PidError>)
    ensures
        pids_valid_upto(pid_seq(pids), pid_seq(pids).len() as int) <==> r is Ok,
        r is Ok ==> final(exec_plan).external_processes_to_observe@
            == old(exec_plan).external_processes_to_observe@
                + pid_entries(pid_seq(pids), pid_seq(pids).len() as int)
                + container_entry(containers),
        r is Ok ==> final(exec_plan).external_processes_to_observe@.len()
            == old(exec_plan).external_processes_to_observe@.len() + pid_seq(pids).len()
                + (if containers is Some { 1int } else { 0int }),
        r is Ok ==> forall|i: int|
            0 <= i < pid_seq(pids).len() ==> ((#[trigger] parse_u32_spec(pid_seq(pids)[i]@)) matches Ok(v)
                && final(exec_plan).external_processes_to_observe@[old(exec_plan).external_processes_to_observe@.len() + i]
                    == ProcessToObserve::ExternalPid(v)),
        r is Ok ==> (containers matches Some(names) ==> final(exec_plan).external_processes_to_observe@.last()
            == ProcessToObserve::ExternalContainers(names)),
        r matches Err(e) ==> exists|j: int|
            0 <= j < pid_seq(pids).len()
            && pids_valid_upto(pid_seq(pids), j)
            && parse_u32_spec(#[trigger] pid_seq(pids)[j]@) == Err::<u32, PidErrorKind>(e.kind)
            && e.pid@ == pid_seq(pids)[j]@
            && final(exec_plan).external_processes_to_observe@
                == old(exec_plan).external_processes_to_observe@ + pid_entries(pid_seq(pids), j)
            && final(exec_plan).external_processes_to_observe@.len()
                == old(exec_plan).external_processes_to_observe@.len() + j
            && forall|i: int|
                0 <= i < j ==> ((#[trigger] parse_u32_spec(pid_seq(pids)[i]@)) matches Ok(v)
                    && final(exec_plan).external_processes_to_observe@[old(exec_plan).external_processes_to_observe@.len() + i]
                        == ProcessToObserve::ExternalPid(v)),
{
    let pid_list: Vec<String> = match pids {
        Some(v) => v,
        None => Vec::new(),
    };
    let ghost ps = pid_list@;
    let ghost start = exec_plan.external_processes_to_observe@;
    assert(ps == pid_seq(pids));
    let n = pid_list.len();
    let mut i: usize = 0;
    while i < n
        invariant
            n == ps.len(),
            ps == pid_list@,
            ps == pid_seq(pids),
            start == old(exec_plan).external_processes_to_observe@,
            i <= n,
            pids_valid_upto(ps, i as int),
            exec_plan.external_processes_to_observe@ == start + pid_entries(ps, i as int),
        decreases n - i,
    {
        let parsed = parse_pid(pid_list[i].as_str());
        match parsed {
            Ok(pid) => {
                exec_plan.observe_external_process(ProcessToObserve::ExternalPid(pid));
                assert(pid_entries(ps, i + 1) == pid_entries(ps, i as int).push(
                    ProcessToObserve::ExternalPid(pid),
                ));
                i = i + 1;
            },
            Err(kind) => {
                let err = PidError { pid: pid_list[i].clone(), kind };
                assert(parse_u32_spec(pid_seq(pids)[i as int]@) == Err::<u32, PidErrorKind>(kind));
                proof {
                    lemma_pid_entries(ps, i as int);
                    let after = exec_plan.external_processes_to_observe@;
                    assert forall|k: int| 0 <= k < i implies ((#[trigger] parse_u32_spec(ps[k]@)) matches Ok(v)
                        && after[start.len() + k] == ProcessToObserve::ExternalPid(v)) by {
                        assert(after[start.len() + k] == pid_entries(ps, i as int)[k]);
                    }
                }
                assert(!pids_valid_upto(ps, n as int)) by {
                    assert(!(parse_u32_spec(ps[i as int]@) is Ok));
                }
                return Err(err);
            },
        }
    }
    proof {
        lemma_plan_after_adding(start, ps, containers);
    }
    if let Some(container_names) = containers {
        exec_plan.observe_external_process(ProcessToObserve::ExternalContainers(container_names));
    }
    Ok(())
}

} // verus!
