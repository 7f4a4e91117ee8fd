//! The session directory: the per-process view of the live audio world.
//!
//! The OS reports sessions per endpoint; a process with sessions on several
//! endpoints appears several times, and pid 0 stands for system sounds.
//! This module turns that raw, endpoint-ordered report into the
//! deduplicated per-process list the engine exposes: pid 0 is excluded, the
//! first occurrence of a pid wins, and a failed name resolution degrades to
//! a placeholder name instead of failing the listing.

use vstd::prelude::*;
use vstd::string::*;

use crate::text::{append_u32, spec_dec};

verus! {

/// A live per-process audio session as the engine reports it. The volume is
/// in thousandths of full volume.
pub struct AppSession {
    pub pid: u32,
    pub name: String,
    pub process_name: String,
    pub volume: u32,
    pub muted: bool,
}

/// Mathematical view of an `AppSession`.
pub struct AppSessionView {
    pub pid: u32,
    pub name: Seq<char>,
    pub process_name: Seq<char>,
    pub volume: u32,
    pub muted: bool,
}

impl View for AppSession {
    type V = AppSessionView;

    open spec fn view(&self) -> AppSessionView {
        AppSessionView {
            pid: self.pid,
            name: self.name@,
            process_name: self.process_name@,
            volume: self.volume,
            muted: self.muted,
        }
    }
}

/// One raw session report: the pid, its volume (in thousandths) and mute
/// state as read from the session, and the resolver's answer for the pid's
/// executable name (`None` when resolution failed).
pub struct SessionProbe {
    pub pid: u32,
    pub volume: u32,
    pub muted: bool,
    pub resolved_name: Option<String>,
}

/// Mathematical view of a `SessionProbe`.
pub struct SessionProbeView {
    pub pid: u32,
    pub volume: u32,
    pub muted: bool,
    pub resolved_name: Option<Seq<char>>,
}

impl View for SessionProbe {
    type V = SessionProbeView;

    open spec fn view(&self) -> SessionProbeView {
        SessionProbeView {
            pid: self.pid,
            volume: self.volume,
            muted: self.muted,
            resolved_name: match self.resolved_name {
                Option::None => Option::None,
                Option::Some(ref n) => Option::Some(n@),
            },
        }
    }
}

/// The views of a probe list.
pub open spec fn probe_views(s: Seq<SessionProbe>) -> Seq<SessionProbeView> {
    Seq::new(s.len(), |i: int| s[i]@)
}

/// The placeholder display name for a pid whose name did not resolve.
pub open spec fn spec_placeholder_name(pid: u32) -> Seq<char> {
    seq!['P', 'I', 'D', ' '] + spec_dec(pid as int)
}

/// The placeholder executable name for a pid whose name did not resolve.
pub open spec fn spec_unknown_process_name(pid: u32) -> Seq<char> {
    seq!['u', 'n', 'k', 'n', 'o', 'w', 'n', '_', 'p', 'r', 'o', 'c', 'e', 's', 's', '_']
        + spec_dec(pid as int)
}

/// The session entry a probe becomes.
pub open spec fn spec_session_of(p: SessionProbeView) -> AppSessionView {
    AppSessionView {
        pid: p.pid,
        name: match p.resolved_name {
            Option::Some(n) => n,
            Option::None => spec_placeholder_name(p.pid),
        },
        process_name: match p.resolved_name {
            Option::Some(n) => n,
            Option::None => spec_unknown_process_name(p.pid),
        },
        volume: p.volume,
        muted: p.muted,
    }
}

/// Whether the probe at position `i` is kept: its pid is not 0 (system
/// sounds) and no earlier probe already reported the pid.
pub open spec fn spec_keep(s: Seq<SessionProbeView>, i: int) -> bool {
    s[i].pid != 0 && (forall|j: int| 0 <= j < i ==> (#[trigger] s[j]).pid != s[i].pid)
}

/// The deduplicated per-process session list of a raw report.
pub open spec fn spec_collect_sessions(s: Seq<SessionProbeView>) -> Seq<AppSessionView>
    decreases s.len(),
{
    if s.len() == 0 {
        Seq::empty()
    } else {
        let front = spec_collect_sessions(s.drop_last());
        if spec_keep(s, s.len() - 1) {
            front.push(spec_session_of(s.last()))
        } else {
            front
        }
    }
}

/// The placeholder display name `PID <n>`.
pub fn placeholder_name(pid: u32) -> (r: String)
    ensures
        r@ == spec_placeholder_name(pid),
{
    proof {
        reveal_strlit("PID ");
        assert("PID "@ =~= seq!['P', 'I', 'D', ' ']);
    }
    let mut s = String::new();
    s.append("PID ");
    append_u32(&mut s, pid);
    s
}

/// The placeholder executable name `unknown_process_<n>`.
pub fn unknown_process_name(pid: u32) -> (r: String)
    ensures
        r@ == spec_unknown_process_name(pid),
{
    proof {
        reveal_strlit("unknown_process_");
        assert("unknown_process_"@ =~= seq![
            'u', 'n', 'k', 'n', 'o', 'w', 'n', '_', 'p', 'r', 'o', 'c', 'e', 's', 's', '_',
        ]);
    }
    let mut s = String::new();
    s.append("unknown_process_");
    append_u32(&mut s, pid);
    s
}

/// Turn a raw, endpoint-ordered session report into the deduplicated
/// per-process list: pid 0 is excluded, the first occurrence of each pid
/// wins, and an unresolved name degrades to the placeholder names.
pub fn list_audio_apps(probes: &Vec<SessionProbe>) -> (r: Vec<AppSession>)
    ensures
        r@.len() == spec_collect_sessions(probe_views(probes@)).len(),
        forall|k: int|
            0 <= k < r@.len() ==> (#[trigger] r@[k])@ == spec_collect_sessions(
                probe_views(probes@),
            )[k],
{
    let n = probes.len();
    let mut r: Vec<AppSession> = Vec::new();
    let mut i: usize = 0;
    while i < n
        invariant
            i <= n,
            n == probes@.len(),
            r@.len() == spec_collect_sessions(probe_views(probes@).subrange(0, i as int)).len(),
            forall|k: int|
                0 <= k < r@.len() ==> (#[trigger] r@[k])@ == spec_collect_sessions(
                    probe_views(probes@).subrange(0, i as int),
                )[k],
        decreases n - i,
    {
        let ghost pv = probe_views(probes@);
        proof {
            assert(pv.subrange(0, i as int + 1).drop_last() =~= pv.subrange(0, i as int));
            assert(pv.subrange(0, i as int + 1).last() == pv[i as int]);
        }
        let pid = probes[i].pid;
        let mut duplicate = false;
        let mut j: usize = 0;
        while j < i
            invariant
                j <= i <= n,
                n == probes@.len(),
                duplicate ==> (exists|m: int|
                    0 <= m < i && (#[trigger] probe_views(probes@)[m]).pid == pid),
                !duplicate ==> (forall|m: int|
                    0 <= m < j ==> (#[trigger] probe_views(probes@)[m]).pid != pid),
                pid == probe_views(probes@)[i as int].pid,
                i < n,
            decreases i - j,
        {
            if probes[j].pid == pid {
                proof {
                    assert(probe_views(probes@)[j as int].pid == pid);
                }
                duplicate = true;
                j = i;
            } else {
                j = j + 1;
            }
        }
        if pid != 0 && !duplicate {
            proof {
                assert(spec_keep(pv.subrange(0, i as int + 1), i as int)) by {
                    assert(forall|m: int|
                        0 <= m < i ==> (#[trigger] pv.subrange(0, i as int + 1)[m]).pid != pid);
                }
            }
            let (name, process_name) = match &probes[i].resolved_name {
                Some(nm) => (nm.clone(), nm.clone()),
                None => (placeholder_name(pid), unknown_process_name(pid)),
            };
            r.push(
                AppSession {
                    pid,
                    name,
                    process_name,
                    volume: probes[i].volume,
                    muted: probes[i].muted,
                },
            );
        } else {
            proof {
                assert(!spec_keep(pv.subrange(0, i as int + 1), i as int)) by {
                    if pid != 0 {
                        let w = choose|m: int| 0 <= m < i && (#[trigger] pv[m]).pid == pid;
                        assert(pv.subrange(0, i as int + 1)[w].pid == pid);
                    }
                }
            }
        }
        i = i + 1;
    }
    proof {
        assert(probe_views(probes@).subrange(0, n as int) =~= probe_views(probes@));
    }
    r
}

} // verus!
