//! Best-effort rerouting decisions and live-session selection.
//!
//! The host audio stack binds a process's session to the endpoint that was
//! active when the session was created; there is no supported way to move an
//! existing session. Rerouting therefore runs an ordered list of strategies,
//! each reporting applied, unavailable, or a hard error; the router stops at
//! the first decisive (non-unavailable) report. A process with no live
//! session at all is a normal no-op, never an error. The functions here
//! decide; the surrounding process performs the strategies against the OS
//! and reports their outcomes.

use vstd::prelude::*;

use crate::state::spec_clamp_volume;

verus! {

/// What one rerouting strategy reported.
#[derive(Clone, Copy, Debug, PartialEq, Eq, Structural)]
pub enum StrategyOutcome {
    /// The strategy ran and believes it took effect.
    Applied,
    /// The strategy cannot run here; the next one should be tried.
    Unavailable,
    /// The strategy ran and failed hard.
    HardError,
}

/// The overall outcome of one rerouting attempt.
#[derive(Clone, Copy, Debug, PartialEq, Eq, Structural)]
pub enum RouteOutcome {
    /// Some strategy applied.
    Routed,
    /// The process has no live audio session: the normal case for a process
    /// not currently producing audio, and not an error.
    NoSession,
    /// Every strategy was unavailable; nothing was attempted.
    Unrouted,
    /// A strategy ran and failed hard.
    Failed,
}

/// The router's decision: no session short-circuits; otherwise the first
/// non-unavailable strategy report decides.
pub open spec fn spec_route_outcome(found: bool, attempts: Seq<StrategyOutcome>) -> RouteOutcome
    decreases attempts.len(),
{
    if !found {
        RouteOutcome::NoSession
    } else if attempts.len() == 0 {
        RouteOutcome::Unrouted
    } else {
        match attempts[0] {
            StrategyOutcome::Applied => RouteOutcome::Routed,
            StrategyOutcome::HardError => RouteOutcome::Failed,
            StrategyOutcome::Unavailable => spec_route_outcome(found, attempts.drop_first()),
        }
    }
}

/// Decide a rerouting attempt from whether the process has a live session
/// and from the ordered strategy reports.
pub fn route_outcome(session_found: bool, attempts: &Vec<StrategyOutcome>) -> (r: RouteOutcome)
    ensures
        r == spec_route_outcome(session_found, attempts@),
{
    if !session_found {
        return RouteOutcome::NoSession;
    }
    let n = attempts.len();
    proof {
        assert(attempts@.skip(0) =~= attempts@);
    }
    let mut i: usize = 0;
    while i < n
        invariant
            i <= n,
            n == attempts@.len(),
            session_found,
            spec_route_outcome(session_found, attempts@) == spec_route_outcome(
                session_found,
                attempts@.skip(i as int),
            ),
        decreases n - i,
    {
        proof {
            assert(attempts@.skip(i as int)[0] == attempts@[i as int]);
            assert(attempts@.skip(i as int).drop_first() =~= attempts@.skip(i as int + 1));
        }
        match attempts[i] {
            StrategyOutcome::Applied => {
                return RouteOutcome::Routed;
            },
            StrategyOutcome::HardError => {
                return RouteOutcome::Failed;
            },
            StrategyOutcome::Unavailable => {},
        }
        i = i + 1;
    }
    proof {
        assert(attempts@.skip(n as int).len() == 0);
    }
    RouteOutcome::Unrouted
}

/// The endpoint-policy strategy: a stand-in for a privileged, undocumented
/// endpoint-policy configuration surface. It always reports itself
/// unavailable, so the router falls through to the session-nudge strategy;
/// its unavailability is a fallback trigger, never an application error.
pub fn policy_strategy_outcome() -> (r: StrategyOutcome)
    ensures
        r == StrategyOutcome::Unavailable,
{
    StrategyOutcome::Unavailable
}

/// The first position of `pid` in a session pid list, if any.
pub fn find_session_index(session_pids: &Vec<u32>, pid: u32) -> (r: Option<usize>)
    ensures
        match r {
            Option::Some(i) => i < session_pids@.len() && session_pids@[i as int] == pid
                && (forall|j: int| 0 <= j < i ==> session_pids@[j] != pid),
            Option::None => forall|j: int|
                0 <= j < session_pids@.len() ==> session_pids@[j] != pid,
        },
{
    let n = session_pids.len();
    let mut i: usize = 0;
    while i < n
        invariant
            i <= n,
            n == session_pids@.len(),
            forall|j: int| 0 <= j < i ==> session_pids@[j] != pid,
        decreases n - i,
    {
        if session_pids[i] == pid {
            return Some(i);
        }
        i = i + 1;
    }
    None
}

/// Whether `pid` has a live session in the list.
pub fn session_exists(session_pids: &Vec<u32>, pid: u32) -> (r: bool)
    ensures
        r == session_pids@.contains(pid),
{
    match find_session_index(session_pids, pid) {
        Some(i) => {
            proof {
                assert(session_pids@[i as int] == pid);
            }
            true
        },
        None => {
            proof {
                assert(!session_pids@.contains(pid)) by {
                    if session_pids@.contains(pid) {
                        let w = choose|j: int|
                            0 <= j < session_pids@.len() && session_pids@[j] == pid;
                    }
                }
            }
            false
        },
    }
}

/// The positions of every session belonging to `pid`, in ascending order.
pub open spec fn spec_matching_indices(s: Seq<u32>, pid: u32) -> Seq<usize>
    decreases s.len(),
{
    if s.len() == 0 {
        Seq::empty()
    } else {
        let front = spec_matching_indices(s.drop_last(), pid);
        if s.last() == pid {
            front.push((s.len() - 1) as usize)
        } else {
            front
        }
    }
}

/// Every position of `pid` in a session pid list, in ascending order: the
/// sessions the nudge strategy toggles.
pub fn matching_session_indices(session_pids: &Vec<u32>, pid: u32) -> (r: Vec<usize>)
    ensures
        r@ == spec_matching_indices(session_pids@, pid),
{
    let n = session_pids.len();
    let mut r: Vec<usize> = Vec::new();
    let mut i: usize = 0;
    while i < n
        invariant
            i <= n,
            n == session_pids@.len(),
            r@ == spec_matching_indices(session_pids@.subrange(0, i as int), pid),
        decreases n - i,
    {
        proof {
            assert(session_pids@.subrange(0, i as int + 1).drop_last() =~= session_pids@.subrange(
                0,
                i as int,
            ));
            assert(session_pids@.subrange(0, i as int + 1).last() == session_pids@[i as int]);
        }
        if session_pids[i] == pid {
            r.push(i);
        }
        i = i + 1;
    }
    proof {
        assert(session_pids@.subrange(0, n as int) =~= session_pids@);
    }
    r
}

/// Plan a volume application to one process: the clamped value (in
/// thousandths) and the first live session of that pid, if any. `None` means
/// no live session — a normal outcome, not an error.
pub fn plan_app_volume(session_pids: &Vec<u32>, pid: u32, volume: i64) -> (r: (u32, Option<usize>))
    ensures
        r.0 == spec_clamp_volume(volume),
        r.0 <= crate::state::VOLUME_FULL,
        match r.1 {
            Option::Some(i) => i < session_pids@.len() && session_pids@[i as int] == pid
                && (forall|j: int| 0 <= j < i ==> session_pids@[j] != pid),
            Option::None => forall|j: int|
                0 <= j < session_pids@.len() ==> session_pids@[j] != pid,
        },
{
    let v = crate::state::clamp_volume(volume);
    let idx = find_session_index(session_pids, pid);
    (v, idx)
}

} // verus!
