//! The device catalog: naming, disambiguation and identifier resolution.
//!
//! Devices probed from the audio backend get a session-stable identifier of
//! the shape `<name>::<kind>#<index>`, where the index disambiguates devices
//! sharing a name and kind within one enumeration. Resolving an identifier
//! back to a device goes by the index embedded after the final `#`, falling
//! back to substring matching on a positional device marker; identifiers are
//! not guaranteed stable across re-enumerations (driver reload, hot-plug),
//! a deliberate, known limitation.

use vstd::prelude::*;
use vstd::string::*;

use crate::text::{append_usize, parse_u32_at, spec_dec, spec_parse_u32, str_chars};

verus! {

/// Whether a device plays or records.
#[derive(Clone, Copy, Debug, PartialEq, Eq, Hash, Structural)]
pub enum DeviceKind {
    Input,
    Output,
}

/// The lower-case name of a kind, as embedded in device identifiers.
pub open spec fn spec_kind_name(k: DeviceKind) -> Seq<char> {
    match k {
        DeviceKind::Input => seq!['i', 'n', 'p', 'u', 't'],
        DeviceKind::Output => seq!['o', 'u', 't', 'p', 'u', 't'],
    }
}

impl DeviceKind {
    /// The lower-case name of this kind.
    pub fn name(self) -> (r: &'static str)
        ensures
            r@ == spec_kind_name(self),
    {
        proof {
            reveal_strlit("input");
            reveal_strlit("output");
            assert("input"@ =~= spec_kind_name(DeviceKind::Input));
            assert("output"@ =~= spec_kind_name(DeviceKind::Output));
        }
        match self {
            DeviceKind::Input => "input",
            DeviceKind::Output => "output",
        }
    }
}

/// A catalogued device.
#[derive(Clone, Debug)]
pub struct DeviceInfo {
    pub id: String,
    pub name: String,
    pub kind: DeviceKind,
    pub is_default: bool,
    pub backend: String,
}

/// A device as the backend reports it: its display name and whether it
/// offers an output configuration.
#[derive(Clone, Debug)]
pub struct DeviceProbe {
    pub name: String,
    pub is_output: bool,
}

/// Two probes collide when they share name and kind.
pub open spec fn probe_matches(a: DeviceProbe, b: DeviceProbe) -> bool {
    a.name@ == b.name@ && a.is_output == b.is_output
}

/// How many of the first `j` probes collide with `target`.
pub open spec fn spec_dup_count(s: Seq<DeviceProbe>, target: DeviceProbe, j: int) -> int
    decreases j,
{
    if j <= 0 {
        0
    } else {
        spec_dup_count(s, target, j - 1) + if probe_matches(s[j - 1], target) {
            1int
        } else {
            0int
        }
    }
}

/// The session-stable identifier of a device: `<name>::<kind>#<index>`.
pub open spec fn spec_device_id(name: Seq<char>, kind: DeviceKind, idx: int) -> Seq<char> {
    name + seq![':', ':'] + spec_kind_name(kind) + seq!['#'] + spec_dec(idx)
}

/// How many probes before position `i` collide with the probe at `i`.
fn dup_count(probes: &Vec<DeviceProbe>, i: usize) -> (r: usize)
    requires
        i < probes@.len(),
    ensures
        r == spec_dup_count(probes@, probes@[i as int], i as int),
        r <= i,
{
    let mut cnt: usize = 0;
    let mut j: usize = 0;
    while j < i
        invariant
            j <= i < probes@.len(),
            cnt <= j,
            cnt == spec_dup_count(probes@, probes@[i as int], j as int),
        decreases i - j,
    {
        if probes[j].name == probes[i].name && probes[j].is_output == probes[i].is_output {
            cnt = cnt + 1;
        }
        j = j + 1;
    }
    cnt
}

/// Build the identifier `<name>::<kind>#<idx>`.
fn build_device_id(name: &String, kind: DeviceKind, idx: usize) -> (r: String)
    ensures
        r@ == spec_device_id(name@, kind, idx as int),
{
    proof {
        reveal_strlit("::");
        reveal_strlit("#");
        assert("::"@ =~= seq![':', ':']);
        assert("#"@ =~= seq!['#']);
    }
    let mut id = String::new();
    id.append(name.as_str());
    id.append("::");
    id.append(kind.name());
    id.append("#");
    append_usize(&mut id, idx);
    proof {
        assert(id@ =~= spec_device_id(name@, kind, idx as int));
    }
    id
}

/// Catalogue the probed devices, in probe order. Each device keeps its
/// reported name, gets its kind from the output probe, is flagged default
/// exactly when it is an output device whose name equals the host's default
/// output name, and receives an identifier disambiguated among the devices
/// before it that share its name and kind.
pub fn list_audio_devices(
    probes: &Vec<DeviceProbe>,
    default_output_name: &String,
    backend: &String,
) -> (r: Vec<DeviceInfo>)
    ensures
        r@.len() == probes@.len(),
        forall|i: int|
            0 <= i < probes@.len() ==> {
                let p = probes@[i];
                let d = #[trigger] r@[i];
                d.name@ == p.name@ && d.kind == (if p.is_output {
                    DeviceKind::Output
                } else {
                    DeviceKind::Input
                }) && d.is_default == (p.is_output && p.name@ == default_output_name@)
                    && d.backend@ == backend@ && d.id@ == spec_device_id(
                    p.name@,
                    d.kind,
                    spec_dup_count(probes@, p, i),
                )
            },
{
    let n = probes.len();
    let mut r: Vec<DeviceInfo> = Vec::new();
    let mut i: usize = 0;
    while i < n
        invariant
            i <= n,
            n == probes@.len(),
            r@.len() == i,
            forall|k: int|
                0 <= k < i ==> {
                    let p = probes@[k];
                    let d = #[trigger] r@[k];
                    d.name@ == p.name@ && d.kind == (if p.is_output {
                        DeviceKind::Output
                    } else {
                        DeviceKind::Input
                    }) && d.is_default == (p.is_output && p.name@ == default_output_name@)
                        && d.backend@ == backend@ && d.id@ == spec_device_id(
                        p.name@,
                        d.kind,
                        spec_dup_count(probes@, p, k),
                    )
                },
        decreases n - i,
    {
        let kind = if probes[i].is_output {
            DeviceKind::Output
        } else {
            DeviceKind::Input
        };
        let is_default = probes[i].is_output && probes[i].name == *default_output_name;
        let idx = dup_count(probes, i);
        let id = build_device_id(&probes[i].name, kind, idx);
        r.push(
            DeviceInfo {
                id,
                name: probes[i].name.clone(),
                kind,
                is_default,
                backend: backend.clone(),
            },
        );
        i = i + 1;
    }
    r
}

// ---------------------------------------------------------------------------
// identifier resolution
// ---------------------------------------------------------------------------
/// The position of the last `#` in a sequence, if any.
pub open spec fn spec_last_hash(s: Seq<char>) -> Option<int>
    decreases s.len(),
{
    if s.len() == 0 {
        Option::None
    } else if s.last() == '#' {
        Option::Some(s.len() - 1)
    } else {
        spec_last_hash(s.drop_last())
    }
}

/// A needle occurs somewhere in a haystack.
pub open spec fn spec_contains(h: Seq<char>, needle: Seq<char>) -> bool {
    exists|k: int|
        0 <= k <= h.len() - needle.len() && #[trigger] h.subrange(k, k + needle.len()) == needle
}

/// The positional marker `Device_<di>` used by the substring fallback.
pub open spec fn spec_device_marker(di: int) -> Seq<char> {
    seq!['D', 'e', 'v', 'i', 'c', 'e', '_'] + spec_dec(di)
}

/// The substring fallback: the first device position whose marker occurs in
/// the identifier.
pub open spec fn spec_fallback_match(id: Seq<char>, count: int, di: int) -> Option<int>
    decreases count - di,
{
    if di >= count {
        Option::None
    } else if spec_contains(id, spec_device_marker(di)) {
        Option::Some(di)
    } else {
        spec_fallback_match(id, count, di + 1)
    }
}

/// What an identifier resolves to among `count` enumerated output devices:
/// the index after the last `#` when it is a well-formed number below
/// `count`, else the substring fallback, else nothing (an unresolvable
/// identifier, which callers report as a distinct error from "no session").
pub open spec fn spec_resolve_device(id: Seq<char>, count: int) -> Option<int> {
    match spec_last_hash(id) {
        Option::Some(h) => {
            let tail = id.skip(h + 1);
            match spec_parse_u32(tail) {
                Option::Some((v, u)) => if u == tail.len() && (v as int) < count {
                    Option::Some(v as int)
                } else {
                    spec_fallback_match(id, count, 0)
                },
                Option::None => spec_fallback_match(id, count, 0),
            }
        },
        Option::None => spec_fallback_match(id, count, 0),
    }
}

/// The position right after the last `#`, scanning from the end.
fn find_last_hash(chars: &Vec<char>) -> (r: Option<usize>)
    ensures
        match r {
            Option::Some(h) => h < chars@.len() && spec_last_hash(chars@) == Option::Some(h as int),
            Option::None => spec_last_hash(chars@) is None,
        },
{
    let n = chars.len();
    proof {
        assert(chars@.subrange(0, n as int) =~= chars@);
    }
    let mut i: usize = n;
    while i > 0
        invariant
            i <= n,
            n == chars@.len(),
            spec_last_hash(chars@) == spec_last_hash(chars@.subrange(0, i as int)),
        decreases i,
    {
        proof {
            assert(chars@.subrange(0, i as int).last() == chars@[i - 1]);
            assert(chars@.subrange(0, i as int).drop_last() =~= chars@.subrange(0, i as int - 1));
        }
        if chars[i - 1] == '#' {
            return Some(i - 1);
        }
        i = i - 1;
    }
    proof {
        assert(chars@.subrange(0, 0) =~= Seq::<char>::empty());
    }
    None
}

/// Whether `needle` occurs in `h`.
fn contains_seq(h: &Vec<char>, needle: &Vec<char>) -> (r: bool)
    ensures
        r == spec_contains(h@, needle@),
{
    let hn = h.len();
    let nn = needle.len();
    if nn == 0 {
        proof {
            assert(h@.subrange(0, 0 + needle@.len() as int) =~= needle@);
        }
        return true;
    }
    if nn > hn {
        proof {
            assert(!spec_contains(h@, needle@)) by {
                if spec_contains(h@, needle@) {
                    let w = choose|m: int|
                        0 <= m <= h@.len() - needle@.len() && #[trigger] h@.subrange(
                            m,
                            m + needle@.len(),
                        ) == needle@;
                }
            }
        }
        return false;
    }
    let mut k: usize = 0;
    while k <= hn - nn
        invariant
            nn <= hn,
            hn == h@.len(),
            nn == needle@.len(),
            1 <= nn,
            k <= hn - nn + 1,
            forall|m: int| 0 <= m < k ==> #[trigger] h@.subrange(m, m + nn) != needle@,
        decreases hn - k,
    {
        let mut j: usize = 0;
        let mut matches = true;
        while j < nn
            invariant
                k + nn <= hn,
                hn == h@.len(),
                nn == needle@.len(),
                j <= nn,
                matches ==> forall|m: int| 0 <= m < j ==> h@[k + m] == needle@[m],
                !matches ==> h@.subrange(k as int, k + nn) != needle@,
            decreases nn - j,
        {
            if h[k + j] != needle[j] {
                proof {
                    assert(h@.subrange(k as int, k + nn)[j as int] == h@[k + j]);
                }
                matches = false;
                j = nn;
            } else {
                j = j + 1;
            }
        }
        if matches {
            proof {
                assert(h@.subrange(k as int, k + nn) =~= needle@);
            }
            return true;
        }
        k = k + 1;
    }
    proof {
        assert(!spec_contains(h@, needle@)) by {
            if spec_contains(h@, needle@) {
                let w = choose|m: int|
                    0 <= m <= h@.len() - needle@.len() && #[trigger] h@.subrange(
                        m,
                        m + needle@.len(),
                    ) == needle@;
                assert(h@.subrange(w, w + nn) != needle@);
            }
        }
    }
    false
}

/// The marker `Device_<di>`.
fn device_marker(di: usize) -> (r: String)
    ensures
        r@ == spec_device_marker(di as int),
{
    proof {
        reveal_strlit("Device_");
        assert("Device_"@ =~= seq!['D', 'e', 'v', 'i', 'c', 'e', '_']);
    }
    let mut m = String::new();
    m.append("Device_");
    append_usize(&mut m, di);
    m
}

/// Resolve a device identifier among `count` enumerated output devices.
/// `None` means the identifier matches no device — a distinct condition from
/// a process having no live session.
pub fn resolve_device_index(device_id: &str, count: usize) -> (r: Option<usize>)
    ensures
        match r {
            Option::Some(i) => i < count && spec_resolve_device(device_id@, count as int)
                == Option::Some(i as int),
            Option::None => spec_resolve_device(device_id@, count as int) is None,
        },
{
    let chars = str_chars(device_id);
    match find_last_hash(&chars) {
        Some(h) => {
            match parse_u32_at(&chars, h + 1) {
                Some((v, p)) => {
                    if p == chars.len() && (v as usize) < count {
                        return Some(v as usize);
                    }
                },
                None => {},
            }
        },
        None => {},
    }
    let mut di: usize = 0;
    while di < count
        invariant
            di <= count,
            chars@ == device_id@,
            spec_resolve_device(device_id@, count as int) == spec_fallback_match(
                device_id@,
                count as int,
                di as int,
            ),
        decreases count - di,
    {
        let marker = device_marker(di);
        let needle = str_chars(marker.as_str());
        if contains_seq(&chars, &needle) {
            proof {
                assert(spec_contains(device_id@, spec_device_marker(di as int)));
                assert(spec_fallback_match(device_id@, count as int, di as int) == Option::Some(
                    di as int,
                ));
            }
            return Some(di);
        }
        proof {
            assert(spec_fallback_match(device_id@, count as int, di as int)
                == spec_fallback_match(device_id@, count as int, di as int + 1));
        }
        di = di + 1;
    }
    None
}

} // verus!
