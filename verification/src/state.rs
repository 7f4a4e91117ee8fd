//! The engine's logical state: routes, stream volumes, app categories.
//!
//! This is the state that outlives any single OS audio session: which device
//! each logical stream is routed to, each stream's volume, and which stream
//! each process id is assigned to. All mutating operations say exactly how
//! the new state relates to the old one; the surrounding process persists a
//! rendered snapshot after every mutation and applies the returned decisions
//! (which pids to reroute, which value to apply) to the live audio subsystem.

use vstd::prelude::*;

use crate::stream::StreamId;

verus! {

/// Volumes are stored in thousandths: `1000` stands for full volume `1.0`.
pub const VOLUME_FULL: u32 = 1000;

/// View of an optional device identifier as an optional character sequence.
pub open spec fn opt_str_view(o: Option<String>) -> Option<Seq<char>> {
    match o {
        Option::None => Option::None,
        Option::Some(s) => Option::Some(s@),
    }
}

/// Device routing per stream: `None` means "use the system default output".
pub struct RouteTable {
    pub game: Option<String>,
    pub voice: Option<String>,
    pub music: Option<String>,
}

/// Mathematical view of a `RouteTable`.
pub struct RoutesView {
    pub game: Option<Seq<char>>,
    pub voice: Option<Seq<char>>,
    pub music: Option<Seq<char>>,
}

impl View for RouteTable {
    type V = RoutesView;

    open spec fn view(&self) -> RoutesView {
        RoutesView {
            game: opt_str_view(self.game),
            voice: opt_str_view(self.voice),
            music: opt_str_view(self.music),
        }
    }
}

impl RoutesView {
    /// The route stored for one stream.
    pub open spec fn entry_for(self, s: StreamId) -> Option<Seq<char>> {
        match s {
            StreamId::Game => self.game,
            StreamId::Voice => self.voice,
            StreamId::Music => self.music,
        }
    }

    /// This table with one stream's route replaced.
    pub open spec fn with_entry(self, s: StreamId, d: Option<Seq<char>>) -> RoutesView {
        match s {
            StreamId::Game => RoutesView { game: d, ..self },
            StreamId::Voice => RoutesView { voice: d, ..self },
            StreamId::Music => RoutesView { music: d, ..self },
        }
    }
}

/// Volume per stream, in thousandths of full volume.
#[derive(Clone, Copy, PartialEq, Eq, Structural, Debug)]
pub struct VolumeTable {
    pub game: u32,
    pub voice: u32,
    pub music: u32,
}

impl VolumeTable {
    /// The volume stored for one stream.
    pub open spec fn entry_for(self, s: StreamId) -> u32 {
        match s {
            StreamId::Game => self.game,
            StreamId::Voice => self.voice,
            StreamId::Music => self.music,
        }
    }

    /// This table with one stream's volume replaced.
    pub open spec fn with_entry(self, s: StreamId, v: u32) -> VolumeTable {
        match s {
            StreamId::Game => VolumeTable { game: v, ..self },
            StreamId::Voice => VolumeTable { voice: v, ..self },
            StreamId::Music => VolumeTable { music: v, ..self },
        }
    }

    /// Every stored volume lies in `[0, VOLUME_FULL]`.
    pub open spec fn wf(self) -> bool {
        self.game <= VOLUME_FULL && self.voice <= VOLUME_FULL && self.music <= VOLUME_FULL
    }
}

/// Mathematical view of the whole engine state.
pub struct StateView {
    pub routes: RoutesView,
    pub volumes: VolumeTable,
    pub cats: Seq<(u32, StreamId)>,
}

/// The stream assigned to a pid: the first entry with that pid, if any.
pub open spec fn seq_cat_of(c: Seq<(u32, StreamId)>, pid: u32) -> Option<StreamId>
    decreases c.len(),
{
    if c.len() == 0 {
        Option::None
    } else if c[0].0 == pid {
        Option::Some(c[0].1)
    } else {
        seq_cat_of(c.drop_first(), pid)
    }
}

/// The pids assigned to stream `s`, in the order they stand in `c`.
pub open spec fn spec_pids_for(c: Seq<(u32, StreamId)>, s: StreamId) -> Seq<u32>
    decreases c.len(),
{
    if c.len() == 0 {
        Seq::empty()
    } else {
        let front = spec_pids_for(c.drop_last(), s);
        if c.last().1 == s {
            front.push(c.last().0)
        } else {
            front
        }
    }
}

/// Category entries are strictly sorted by pid, so each pid occurs once and
/// the persisted document is rendered in one canonical order.
pub open spec fn cats_sorted(c: Seq<(u32, StreamId)>) -> bool {
    forall|i: int, j: int| 0 <= i < j < c.len() ==> (#[trigger] c[i]).0 < (#[trigger] c[j]).0
}

impl StateView {
    /// Well-formedness: volumes in range, categories sorted.
    pub open spec fn wf(self) -> bool {
        self.volumes.wf() && cats_sorted(self.cats)
    }

    /// The stream assigned to a pid, if any.
    pub open spec fn cat_of(self, pid: u32) -> Option<StreamId> {
        seq_cat_of(self.cats, pid)
    }

    /// The state of a fresh engine: no routes, full volume, no categories.
    pub open spec fn empty() -> StateView {
        StateView {
            routes: RoutesView { game: Option::None, voice: Option::None, music: Option::None },
            volumes: VolumeTable { game: VOLUME_FULL, voice: VOLUME_FULL, music: VOLUME_FULL },
            cats: Seq::empty(),
        }
    }
}

/// `seq_cat_of` over a concatenation: the left part wins where it has the pid.
pub proof fn lemma_cat_of_concat(a: Seq<(u32, StreamId)>, b: Seq<(u32, StreamId)>, pid: u32)
    ensures
        seq_cat_of(a + b, pid) == (match seq_cat_of(a, pid) {
            Option::Some(t) => Option::Some(t),
            Option::None => seq_cat_of(b, pid),
        }),
    decreases a.len(),
{
    if a.len() == 0 {
        assert(a + b =~= b);
    } else {
        assert((a + b).drop_first() =~= a.drop_first() + b);
        lemma_cat_of_concat(a.drop_first(), b, pid);
    }
}

/// A pid that stands at no index has no category.
pub proof fn lemma_cat_of_absent(c: Seq<(u32, StreamId)>, pid: u32)
    requires
        forall|i: int| 0 <= i < c.len() ==> (#[trigger] c[i]).0 != pid,
    ensures
        seq_cat_of(c, pid) is None,
    decreases c.len(),
{
    if c.len() > 0 {
        lemma_cat_of_absent(c.drop_first(), pid);
    }
}

/// A pid stands in `spec_pids_for(c, s)` exactly when `(pid, s)` stands in
/// `c`.
proof fn lemma_pids_for_membership(c: Seq<(u32, StreamId)>, s: StreamId, pid: u32)
    ensures
        spec_pids_for(c, s).contains(pid) <==> exists|i: int|
            0 <= i < c.len() && #[trigger] c[i] == (pid, s),
    decreases c.len(),
{
    if c.len() > 0 {
        lemma_pids_for_membership(c.drop_last(), s, pid);
        let front = spec_pids_for(c.drop_last(), s);
        if c.last().1 == s && c.last().0 == pid {
            assert(c[c.len() - 1] == (pid, s));
            if c.last().1 == s {
                assert(spec_pids_for(c, s) == front.push(c.last().0));
                assert(spec_pids_for(c, s)[spec_pids_for(c, s).len() - 1] == pid);
            }
        } else {
            assert forall|i: int| 0 <= i < c.len() && #[trigger] c[i] == (pid, s) implies 0 <= i
                < c.len() - 1 && c.drop_last()[i] == (pid, s) by {
                assert(i != c.len() - 1);
            }
            assert forall|i: int|
                0 <= i < c.len() - 1 && #[trigger] c.drop_last()[i] == (pid, s) implies c[i] == (
                pid,
                s,
            ) by {}
            if c.last().1 == s {
                // the pushed pid is a different one
                assert(spec_pids_for(c, s) == front.push(c.last().0));
                assert forall|k: int|
                    0 <= k < spec_pids_for(c, s).len() && #[trigger] spec_pids_for(c, s)[k] == pid
                        implies front.contains(pid) by {
                    assert(k < front.len());
                    assert(front[k] == pid);
                }
                if front.contains(pid) {
                    let k = choose|k: int| 0 <= k < front.len() && front[k] == pid;
                    assert(spec_pids_for(c, s)[k] == pid);
                }
            }
        }
    }
}

/// In a sorted table, a pid's category is `s` exactly when `(pid, s)` is an
/// entry.
proof fn lemma_cat_of_membership(c: Seq<(u32, StreamId)>, s: StreamId, pid: u32)
    requires
        cats_sorted(c),
    ensures
        (seq_cat_of(c, pid) == Option::Some(s)) <==> exists|i: int|
            0 <= i < c.len() && #[trigger] c[i] == (pid, s),
    decreases c.len(),
{
    if c.len() == 0 {
    } else if c[0].0 == pid {
        if c[0].1 == s {
            assert(c[0] == (pid, s));
        } else {
            assert forall|i: int| 0 <= i < c.len() implies #[trigger] c[i] != (pid, s) by {
                if i > 0 {
                    assert(c[0].0 < c[i].0);
                }
            }
        }
    } else {
        let tail = c.drop_first();
        assert(cats_sorted(tail)) by {
            assert(forall|x: int, y: int|
                0 <= x < y < tail.len() ==> (#[trigger] tail[x]).0 == c[x + 1].0
                    && (#[trigger] tail[y]).0 == c[y + 1].0);
        }
        lemma_cat_of_membership(tail, s, pid);
        assert forall|i: int| 0 <= i < c.len() && #[trigger] c[i] == (pid, s) implies tail[i - 1]
            == (pid, s) && 0 <= i - 1 < tail.len() by {
            assert(i != 0);
        }
        assert forall|i: int| 0 <= i < tail.len() && #[trigger] tail[i] == (pid, s) implies c[i + 1]
            == (pid, s) by {}
    }
}

/// The fan-out law: when a route or a stream volume is applied, the pids it
/// fans out to are exactly those categorized under that stream.
pub proof fn lemma_fan_out_is_categories(c: Seq<(u32, StreamId)>, s: StreamId, pid: u32)
    requires
        cats_sorted(c),
    ensures
        spec_pids_for(c, s).contains(pid) <==> seq_cat_of(c, pid) == Option::Some(s),
{
    lemma_pids_for_membership(c, s, pid);
    lemma_cat_of_membership(c, s, pid);
}

/// A stored route reads back: after a stream's route is replaced, the table
/// holds exactly the new device for that stream, and any other stream keeps
/// its route.
pub proof fn lemma_route_update_reads_back(
    r: RoutesView,
    s: StreamId,
    d: Option<Seq<char>>,
    other: StreamId,
)
    ensures
        r.with_entry(s, d).entry_for(s) == d,
        other != s ==> r.with_entry(s, d).entry_for(other) == r.entry_for(other),
{
}

/// Clamping lands in `[0, VOLUME_FULL]` and leaves in-range values alone.
pub proof fn lemma_clamp_bounds(v: i64)
    ensures
        spec_clamp_volume(v) <= VOLUME_FULL,
        0 <= v <= VOLUME_FULL ==> spec_clamp_volume(v) == v,
        v < 0 ==> spec_clamp_volume(v) == 0,
        v > VOLUME_FULL ==> spec_clamp_volume(v) == VOLUME_FULL,
{
}

/// The engine's owned logical state.
pub struct MixerState {
    pub routes: RouteTable,
    pub volumes: VolumeTable,
    pub cats: Vec<(u32, StreamId)>,
}

impl View for MixerState {
    type V = StateView;

    open spec fn view(&self) -> StateView {
        StateView { routes: self.routes@, volumes: self.volumes, cats: self.cats@ }
    }
}

/// Clamp a requested volume (in thousandths) into `[0, VOLUME_FULL]`.
pub open spec fn spec_clamp_volume(v: i64) -> u32 {
    if v < 0 {
        0u32
    } else if v > VOLUME_FULL {
        VOLUME_FULL
    } else {
        v as u32
    }
}

/// Clamp a requested volume (in thousandths) into `[0, VOLUME_FULL]`.
pub fn clamp_volume(v: i64) -> (r: u32)
    ensures
        r == spec_clamp_volume(v),
        r <= VOLUME_FULL,
{
    if v < 0 {
        0
    } else if v > VOLUME_FULL as i64 {
        VOLUME_FULL
    } else {
        v as u32
    }
}

impl MixerState {
    /// Well-formedness of the owned state.
    pub open spec fn wf(self) -> bool {
        self@.wf()
    }

    /// A fresh engine state: no routes, full volume, no categories.
    pub fn new() -> (r: MixerState)
        ensures
            r@ == StateView::empty(),
            r.wf(),
    {
        let r = MixerState {
            routes: RouteTable { game: None, voice: None, music: None },
            volumes: VolumeTable { game: VOLUME_FULL, voice: VOLUME_FULL, music: VOLUME_FULL },
            cats: Vec::new(),
        };
        proof {
            assert(r@.cats =~= StateView::empty().cats);
        }
        r
    }

    /// The route stored for one stream (`None` = system default output).
    pub fn route_for(&self, s: StreamId) -> (r: Option<String>)
        ensures
            opt_str_view(r) == self@.routes.entry_for(s),
    {
        let slot = match s {
            StreamId::Game => &self.routes.game,
            StreamId::Voice => &self.routes.voice,
            StreamId::Music => &self.routes.music,
        };
        match slot {
            None => None,
            Some(d) => Some(d.clone()),
        }
    }

    /// Every stream's route, in canonical stream order.
    pub fn get_routes(&self) -> (r: Vec<(StreamId, Option<String>)>)
        ensures
            r@.len() == 3,
            forall|i: int| 0 <= i < 3 ==> (#[trigger] r@[i]).0 == crate::stream::spec_stream_of_index(i),
            forall|i: int| 0 <= i < 3 ==> opt_str_view((#[trigger] r@[i]).1) == self@.routes.entry_for(r@[i].0),
    {
        let mut r: Vec<(StreamId, Option<String>)> = Vec::new();
        r.push((StreamId::Game, self.route_for(StreamId::Game)));
        r.push((StreamId::Voice, self.route_for(StreamId::Voice)));
        r.push((StreamId::Music, self.route_for(StreamId::Music)));
        r
    }

    /// The pids currently assigned to stream `s`, in ascending order.
    pub fn pids_for(&self, s: StreamId) -> (r: Vec<u32>)
        ensures
            r@ == spec_pids_for(self@.cats, s),
    {
        let mut r: Vec<u32> = Vec::new();
        let n = self.cats.len();
        let mut i: usize = 0;
        while i < n
            invariant
                i <= n,
                n == self.cats.len(),
                r@ == spec_pids_for(self.cats@.subrange(0, i as int), s),
            decreases n - i,
        {
            let (pid, t) = self.cats[i];
            proof {
                assert(self.cats@.subrange(0, i + 1 as int).drop_last()
                    =~= self.cats@.subrange(0, i as int));
                assert(self.cats@.subrange(0, i + 1 as int).last() == self.cats@[i as int]);
            }
            if t == s {
                r.push(pid);
            }
            i = i + 1;
        }
        proof {
            assert(self.cats@.subrange(0, n as int) =~= self.cats@);
        }
        r
    }

    /// Store a route for a stream. Returns the pids currently assigned to
    /// that stream, which the caller then reroutes (best effort) to the new
    /// device. The stored route for `s` afterwards is exactly `d`; nothing
    /// else changes.
    pub fn set_route(&mut self, s: StreamId, d: Option<String>) -> (pids: Vec<u32>)
        ensures
            final(self)@.routes == old(self)@.routes.with_entry(s, opt_str_view(d)),
            final(self)@.volumes == old(self)@.volumes,
            final(self)@.cats == old(self)@.cats,
            final(self).wf() == old(self).wf(),
            pids@ == spec_pids_for(old(self)@.cats, s),
    {
        match s {
            StreamId::Game => {
                self.routes.game = d;
            },
            StreamId::Voice => {
                self.routes.voice = d;
            },
            StreamId::Music => {
                self.routes.music = d;
            },
        }
        self.pids_for(s)
    }

    /// Every pid's assigned stream, in ascending pid order.
    pub fn get_app_categories(&self) -> (r: Vec<(u32, StreamId)>)
        ensures
            r@ == self@.cats,
    {
        let mut r: Vec<(u32, StreamId)> = Vec::new();
        let n = self.cats.len();
        let mut i: usize = 0;
        while i < n
            invariant
                i <= n,
                n == self.cats.len(),
                r@ == self.cats@.subrange(0, i as int),
            decreases n - i,
        {
            r.push(self.cats[i]);
            proof {
                assert(self.cats@.subrange(0, i + 1 as int)
                    =~= self.cats@.subrange(0, i as int).push(self.cats@[i as int]));
            }
            i = i + 1;
        }
        proof {
            assert(self.cats@.subrange(0, n as int) =~= self.cats@);
        }
        r
    }

    /// The first position whose pid is `>= pid`, scanning the sorted entries.
    fn cat_position(&self, pid: u32) -> (r: usize)
        requires
            cats_sorted(self.cats@),
        ensures
            r <= self.cats@.len(),
            forall|j: int| 0 <= j < r ==> (#[trigger] self.cats@[j]).0 < pid,
            r < self.cats@.len() ==> self.cats@[r as int].0 >= pid,
    {
        let n = self.cats.len();
        let mut i: usize = 0;
        while i < n
            invariant
                i <= n,
                n == self.cats.len(),
                forall|j: int| 0 <= j < i ==> (#[trigger] self.cats@[j]).0 < pid,
            decreases n - i,
        {
            if self.cats[i].0 >= pid {
                return i;
            }
            i = i + 1;
        }
        i
    }

    /// Assign `pid` to stream `s` and hand back the device its stream is
    /// routed to (`None` = system default), so the caller can reroute the
    /// process. Afterwards `pid` maps to `s` and every other pid's category
    /// is unchanged; routes and volumes are untouched.
    pub fn set_app_category(&mut self, pid: u32, s: StreamId) -> (device: Option<String>)
        requires
            old(self).wf(),
        ensures
            final(self).wf(),
            final(self)@.routes == old(self)@.routes,
            final(self)@.volumes == old(self)@.volumes,
            final(self)@.cat_of(pid) == Option::Some(s),
            forall|q: u32| q != pid ==> final(self)@.cat_of(q) == old(self)@.cat_of(q),
            opt_str_view(device) == old(self)@.routes.entry_for(s),
    {
        let ghost pre = self.cats@;
        let idx = self.cat_position(pid);
        let replace = idx < self.cats.len() && self.cats[idx].0 == pid;
        if replace {
            self.cats.remove(idx);
        }
        self.cats.insert(idx, (pid, s));
        proof {
            let post = self.cats@;
            let i = idx as int;
            let prefix = pre.subrange(0, i);
            let oldsuf = pre.subrange(i, pre.len() as int);
            let newsuf = if replace {
                pre.subrange(i + 1, pre.len() as int)
            } else {
                oldsuf
            };
            assert(pre =~= prefix + oldsuf);
            assert(post =~= prefix + (seq![(pid, s)] + newsuf));
            if replace {
                assert(oldsuf =~= seq![pre[i]] + newsuf);
            }
            // sortedness of the new sequence
            assert forall|x: int, y: int| 0 <= x < y < post.len() implies
                (#[trigger] post[x]).0 < (#[trigger] post[y]).0 by {
                if replace {
                    assert(forall|k: int| i + 1 <= k < pre.len() ==> pid < (#[trigger] pre[k]).0);
                } else {
                    assert(forall|k: int| i <= k < pre.len() ==> pid < (#[trigger] pre[k]).0);
                }
            }
            // category lookups in the new sequence
            assert forall|q: u32| true implies seq_cat_of(post, q) == (if q == pid {
                Option::Some(s)
            } else {
                seq_cat_of(pre, q)
            }) by {
                lemma_cat_of_concat(prefix, seq![(pid, s)] + newsuf, q);
                lemma_cat_of_concat(seq![(pid, s)], newsuf, q);
                lemma_cat_of_concat(prefix, oldsuf, q);
                assert((seq![(pid, s)] + newsuf).drop_first() =~= newsuf);
                if replace {
                    lemma_cat_of_concat(seq![pre[i]], newsuf, q);
                    assert((seq![pre[i]] + newsuf).drop_first() =~= newsuf);
                }
                if q == pid {
                    lemma_cat_of_absent(prefix, q);
                }
            }
        }
        self.route_for(s)
    }

    /// Remove `pid`'s category assignment. Returns whether one was present;
    /// when none was, the state is left exactly as it was (so the caller
    /// need not persist anything).
    pub fn clear_app_category(&mut self, pid: u32) -> (removed: bool)
        requires
            old(self).wf(),
        ensures
            final(self).wf(),
            removed == (old(self)@.cat_of(pid) is Some),
            final(self)@.routes == old(self)@.routes,
            final(self)@.volumes == old(self)@.volumes,
            final(self)@.cat_of(pid) is None,
            forall|q: u32| q != pid ==> final(self)@.cat_of(q) == old(self)@.cat_of(q),
            !removed ==> final(self)@ == old(self)@,
    {
        let ghost pre = self.cats@;
        let idx = self.cat_position(pid);
        let present = idx < self.cats.len() && self.cats[idx].0 == pid;
        proof {
            let i = idx as int;
            let prefix = pre.subrange(0, i);
            let oldsuf = pre.subrange(i, pre.len() as int);
            assert(pre =~= prefix + oldsuf);
            lemma_cat_of_concat(prefix, oldsuf, pid);
            lemma_cat_of_absent(prefix, pid);
            if !present {
                if i < pre.len() {
                    assert(oldsuf[0].0 != pid);
                    assert(forall|k: int| i < k < pre.len() ==> pid < (#[trigger] pre[k]).0);
                    assert(forall|k: int| 0 <= k < pre.len() ==> (#[trigger] pre[k]).0 != pid);
                }
                lemma_cat_of_absent(pre, pid);
            }
        }
        if !present {
            return false;
        }
        self.cats.remove(idx);
        proof {
            let post = self.cats@;
            let i = idx as int;
            let prefix = pre.subrange(0, i);
            let newsuf = pre.subrange(i + 1, pre.len() as int);
            assert(post =~= prefix + newsuf);
            assert forall|q: u32| true implies seq_cat_of(post, q) == (if q == pid {
                Option::None::<StreamId>
            } else {
                seq_cat_of(pre, q)
            }) by {
                lemma_cat_of_concat(prefix, newsuf, q);
                lemma_cat_of_concat(prefix, seq![pre[i]] + newsuf, q);
                assert(pre =~= prefix + (seq![pre[i]] + newsuf));
                assert((seq![pre[i]] + newsuf).drop_first() =~= newsuf);
                lemma_cat_of_concat(seq![pre[i]], newsuf, q);
                if q == pid {
                    lemma_cat_of_absent(prefix, q);
                    assert(forall|k: int| i + 1 <= k < pre.len() ==> pid < (#[trigger] pre[k]).0);
                    lemma_cat_of_absent(newsuf, q);
                }
            }
        }
        true
    }

    /// Store a stream volume, clamped into `[0, VOLUME_FULL]`. Returns the
    /// clamped value and the pids currently assigned to the stream, to which
    /// the caller then applies that value (best effort, tolerating pids whose
    /// process has exited).
    pub fn set_stream_volume(&mut self, s: StreamId, volume: i64) -> (r: (u32, Vec<u32>))
        requires
            old(self).wf(),
        ensures
            final(self).wf(),
            r.0 == spec_clamp_volume(volume),
            final(self)@.volumes == old(self)@.volumes.with_entry(s, r.0),
            final(self)@.routes == old(self)@.routes,
            final(self)@.cats == old(self)@.cats,
            r.1@ == spec_pids_for(old(self)@.cats, s),
    {
        let v = clamp_volume(volume);
        match s {
            StreamId::Game => {
                self.volumes.game = v;
            },
            StreamId::Voice => {
                self.volumes.voice = v;
            },
            StreamId::Music => {
                self.volumes.music = v;
            },
        }
        let pids = self.pids_for(s);
        (v, pids)
    }

    /// The volume stored for a stream, in thousandths.
    pub fn stream_volume(&self, s: StreamId) -> (r: u32)
        ensures
            r == self@.volumes.entry_for(s),
    {
        match s {
            StreamId::Game => self.volumes.game,
            StreamId::Voice => self.volumes.voice,
            StreamId::Music => self.volumes.music,
        }
    }
}

} // verus!
