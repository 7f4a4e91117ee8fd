//! Tests of the device catalog, identifier resolution, router decisions and
//! the session directory.

use audio_mixer::devices::{list_audio_devices, resolve_device_index, DeviceKind, DeviceProbe};
use audio_mixer::router::{
    find_session_index, matching_session_indices, plan_app_volume, policy_strategy_outcome,
    route_outcome, session_exists, RouteOutcome, StrategyOutcome,
};
use audio_mixer::sessions::{list_audio_apps, SessionProbe};
use audio_mixer::state::MixerState;
use audio_mixer::StreamId;

fn probe(name: &str, is_output: bool) -> DeviceProbe {
    DeviceProbe { name: name.to_string(), is_output }
}

#[test]
fn catalog_disambiguates_equal_names() {
    let probes = vec![probe("Speakers", true), probe("Speakers", true)];
    let devices = list_audio_devices(&probes, &"Speakers".to_string(), &"WASAPI".to_string());
    assert_eq!(devices.len(), 2);
    assert_eq!(devices[0].id, "Speakers::output#0");
    assert_eq!(devices[1].id, "Speakers::output#1");
    assert_eq!(resolve_device_index("Speakers::output#1", 2), Some(1));
    assert_eq!(resolve_device_index("Speakers::output#0", 2), Some(0));
}

#[test]
fn catalog_kinds_defaults_and_backend() {
    let probes = vec![
        probe("Mic", false),
        probe("Speakers", true),
        probe("Headset", true),
    ];
    let devices = list_audio_devices(&probes, &"Speakers".to_string(), &"ALSA".to_string());
    assert_eq!(devices[0].kind, DeviceKind::Input);
    assert_eq!(devices[0].id, "Mic::input#0");
    assert!(!devices[0].is_default);
    assert_eq!(devices[1].kind, DeviceKind::Output);
    assert!(devices[1].is_default);
    assert!(!devices[2].is_default);
    assert_eq!(devices[1].name, "Speakers");
    assert_eq!(devices[1].backend, "ALSA");
}

#[test]
fn input_sharing_an_output_name_is_not_default_and_counts_apart() {
    let probes = vec![probe("Duo", false), probe("Duo", true)];
    let devices = list_audio_devices(&probes, &"Duo".to_string(), &"WASAPI".to_string());
    assert_eq!(devices[0].id, "Duo::input#0");
    assert!(!devices[0].is_default);
    assert_eq!(devices[1].id, "Duo::output#0");
    assert!(devices[1].is_default);
}

#[test]
fn resolve_out_of_range_index_without_marker_fails() {
    assert_eq!(resolve_device_index("Speakers::output#7", 2), None);
    assert_eq!(resolve_device_index("no hash at all", 2), None);
}

#[test]
fn resolve_falls_back_to_positional_marker() {
    assert_eq!(resolve_device_index("legacy Device_1 label", 3), Some(1));
    assert_eq!(resolve_device_index("legacy Device_9 label", 3), None);
}

#[test]
fn router_stops_at_first_decisive_strategy() {
    let attempts = vec![StrategyOutcome::Unavailable, StrategyOutcome::Applied];
    assert_eq!(route_outcome(true, &attempts), RouteOutcome::Routed);
    let attempts = vec![StrategyOutcome::Unavailable, StrategyOutcome::HardError];
    assert_eq!(route_outcome(true, &attempts), RouteOutcome::Failed);
    let attempts = vec![StrategyOutcome::Applied, StrategyOutcome::HardError];
    assert_eq!(route_outcome(true, &attempts), RouteOutcome::Routed);
    let attempts = vec![StrategyOutcome::Unavailable, StrategyOutcome::Unavailable];
    assert_eq!(route_outcome(true, &attempts), RouteOutcome::Unrouted);
}

#[test]
fn router_reports_no_session_before_any_strategy() {
    let attempts = vec![StrategyOutcome::HardError];
    assert_eq!(route_outcome(false, &attempts), RouteOutcome::NoSession);
}

#[test]
fn policy_strategy_is_a_fallback_trigger() {
    assert_eq!(policy_strategy_outcome(), StrategyOutcome::Unavailable);
}

#[test]
fn categorize_without_live_session_succeeds() {
    // Assigning a category to a process with no live session must not fail:
    // the assignment is stored, and the router reports the no-session no-op.
    let mut st = MixerState::new();
    let device = st.set_app_category(1234, StreamId::Voice);
    assert_eq!(device, None);
    assert_eq!(st.get_app_categories(), vec![(1234, StreamId::Voice)]);
    let live_pids: Vec<u32> = vec![];
    let found = session_exists(&live_pids, 1234);
    let attempts = vec![policy_strategy_outcome()];
    assert_eq!(route_outcome(found, &attempts), RouteOutcome::NoSession);
}

#[test]
fn session_lookup_finds_first_and_all() {
    let pids = vec![3, 5, 3, 9];
    assert_eq!(find_session_index(&pids, 3), Some(0));
    assert_eq!(find_session_index(&pids, 9), Some(3));
    assert_eq!(find_session_index(&pids, 4), None);
    assert!(session_exists(&pids, 5));
    assert!(!session_exists(&pids, 6));
    assert_eq!(matching_session_indices(&pids, 3), vec![0, 2]);
    assert_eq!(matching_session_indices(&pids, 4), Vec::<usize>::new());
}

#[test]
fn volume_plan_clamps_and_finds_session() {
    let pids = vec![4, 7];
    let (v, idx) = plan_app_volume(&pids, 7, 2000);
    assert_eq!(v, 1000);
    assert_eq!(idx, Some(1));
    let (v, idx) = plan_app_volume(&pids, 9, -3);
    assert_eq!(v, 0);
    assert_eq!(idx, None);
}

#[test]
fn stream_volume_propagates_clamped_value_to_categorized_pids() {
    // The stream volume is clamped once and that same value is what gets
    // planned for every pid categorized under the stream (mocked live list).
    let mut st = MixerState::new();
    st.set_app_category(11, StreamId::Music);
    st.set_app_category(22, StreamId::Music);
    let (clamped, pids) = st.set_stream_volume(StreamId::Music, 1500);
    assert_eq!(clamped, 1000);
    assert_eq!(pids, vec![11, 22]);
    let live_pids = vec![22, 11];
    for pid in pids {
        let (v, idx) = plan_app_volume(&live_pids, pid, clamped as i64);
        assert_eq!(v, 1000);
        assert!(idx.is_some());
    }
    // A stale category entry (exited process) plans no application and must
    // not disturb the others.
    st.set_app_category(33, StreamId::Music);
    let (_, idx) = plan_app_volume(&live_pids, 33, 1000);
    assert_eq!(idx, None);
}

fn session(pid: u32, volume: u32, muted: bool, name: Option<&str>) -> SessionProbe {
    SessionProbe { pid, volume, muted, resolved_name: name.map(|s| s.to_string()) }
}

#[test]
fn session_directory_dedups_and_excludes_system_sounds() {
    let probes = vec![
        session(0, 1000, false, None),
        session(42, 800, false, Some("game.exe")),
        session(42, 300, true, Some("game.exe")),
        session(7, 500, true, None),
    ];
    let apps = list_audio_apps(&probes);
    assert_eq!(apps.len(), 2);
    assert_eq!(apps[0].pid, 42);
    assert_eq!(apps[0].volume, 800);
    assert!(!apps[0].muted);
    assert_eq!(apps[0].name, "game.exe");
    assert_eq!(apps[0].process_name, "game.exe");
    assert_eq!(apps[1].pid, 7);
    assert_eq!(apps[1].name, "PID 7");
    assert_eq!(apps[1].process_name, "unknown_process_7");
    assert!(apps[1].muted);
}
