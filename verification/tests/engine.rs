//! Tests of the engine state: routes, categories, volumes, persistence.

use audio_mixer::codec::{load_state, render_state};
use audio_mixer::state::{MixerState, VOLUME_FULL};
use audio_mixer::StreamId;

fn fresh() -> MixerState {
    MixerState::new()
}

#[test]
fn set_route_then_get_routes_returns_it() {
    let mut st = fresh();
    let pids = st.set_route(StreamId::Music, Some("Speakers::output#1".to_string()));
    assert!(pids.is_empty());
    let routes = st.get_routes();
    assert_eq!(routes.len(), 3);
    assert_eq!(routes[0], (StreamId::Game, None));
    assert_eq!(routes[1], (StreamId::Voice, None));
    assert_eq!(
        routes[2],
        (StreamId::Music, Some("Speakers::output#1".to_string()))
    );
}

#[test]
fn set_route_back_to_default() {
    let mut st = fresh();
    st.set_route(StreamId::Game, Some("X::output#0".to_string()));
    st.set_route(StreamId::Game, None);
    assert_eq!(st.get_routes()[0], (StreamId::Game, None));
}

#[test]
fn clear_app_category_absent_pid_is_false_and_unchanged() {
    let mut st = fresh();
    st.set_app_category(5, StreamId::Game);
    let before = render_state(&st);
    let removed = st.clear_app_category(7);
    assert!(!removed);
    let after = render_state(&st);
    assert_eq!(before, after);
}

#[test]
fn set_then_get_then_clear_app_category() {
    let mut st = fresh();
    st.set_app_category(1234, StreamId::Voice);
    let cats = st.get_app_categories();
    assert_eq!(cats, vec![(1234, StreamId::Voice)]);
    let removed = st.clear_app_category(1234);
    assert!(removed);
    assert!(st.get_app_categories().is_empty());
}

#[test]
fn categories_stay_sorted_and_reassign() {
    let mut st = fresh();
    st.set_app_category(30, StreamId::Game);
    st.set_app_category(10, StreamId::Voice);
    st.set_app_category(20, StreamId::Music);
    st.set_app_category(10, StreamId::Game);
    assert_eq!(
        st.get_app_categories(),
        vec![
            (10, StreamId::Game),
            (20, StreamId::Music),
            (30, StreamId::Game)
        ]
    );
}

#[test]
fn set_app_category_hands_back_stream_device() {
    let mut st = fresh();
    st.set_route(StreamId::Voice, Some("Headset::output#0".to_string()));
    let device = st.set_app_category(42, StreamId::Voice);
    assert_eq!(device, Some("Headset::output#0".to_string()));
    // A stream routed to the system default hands back no device.
    let device = st.set_app_category(43, StreamId::Game);
    assert_eq!(device, None);
}

#[test]
fn stream_volume_clamps_above_and_below() {
    let mut st = fresh();
    let (v, _) = st.set_stream_volume(StreamId::Voice, 1500);
    assert_eq!(v, VOLUME_FULL);
    assert_eq!(st.stream_volume(StreamId::Voice), VOLUME_FULL);
    let (v, _) = st.set_stream_volume(StreamId::Voice, -20);
    assert_eq!(v, 0);
    assert_eq!(st.stream_volume(StreamId::Voice), 0);
    let (v, _) = st.set_stream_volume(StreamId::Voice, 423);
    assert_eq!(v, 423);
    assert_eq!(st.stream_volume(StreamId::Voice), 423);
}

#[test]
fn stream_volume_defaults_to_full() {
    let st = fresh();
    assert_eq!(st.stream_volume(StreamId::Game), VOLUME_FULL);
    assert_eq!(st.stream_volume(StreamId::Voice), VOLUME_FULL);
    assert_eq!(st.stream_volume(StreamId::Music), VOLUME_FULL);
}

#[test]
fn set_route_reports_the_streams_pids() {
    let mut st = fresh();
    st.set_app_category(3, StreamId::Game);
    st.set_app_category(9, StreamId::Voice);
    st.set_app_category(7, StreamId::Game);
    let pids = st.set_route(StreamId::Game, Some("Speakers::output#0".to_string()));
    assert_eq!(pids, vec![3, 7]);
    let (_, pids) = st.set_stream_volume(StreamId::Voice, 500);
    assert_eq!(pids, vec![9]);
}

#[test]
fn empty_state_renders_canonically() {
    let st = fresh();
    assert_eq!(
        render_state(&st),
        "{\"routes\":{\"game\":null,\"voice\":null,\"music\":null},\
         \"volumes\":{\"game\":1000,\"voice\":1000,\"music\":1000},\
         \"app_categories\":{}}"
    );
}

#[test]
fn persist_and_reload_reproduces_state() {
    let mut st = fresh();
    st.set_route(StreamId::Music, Some("Speakers::output#1".to_string()));
    st.set_route(StreamId::Game, None);
    st.set_stream_volume(StreamId::Game, 750);
    st.set_app_category(1234, StreamId::Voice);
    st.set_app_category(99, StreamId::Music);
    let doc = render_state(&st);
    let reloaded = load_state(Some(&doc));
    assert_eq!(reloaded.get_routes(), st.get_routes());
    assert_eq!(reloaded.get_app_categories(), st.get_app_categories());
    assert_eq!(
        reloaded.stream_volume(StreamId::Game),
        st.stream_volume(StreamId::Game)
    );
    assert_eq!(
        reloaded.stream_volume(StreamId::Voice),
        st.stream_volume(StreamId::Voice)
    );
    assert_eq!(
        reloaded.stream_volume(StreamId::Music),
        st.stream_volume(StreamId::Music)
    );
}

#[test]
fn persist_and_reload_with_escaped_device_id() {
    let mut st = fresh();
    let odd = "We\"ird\\Device::output#0".to_string();
    st.set_route(StreamId::Voice, Some(odd.clone()));
    let doc = render_state(&st);
    let reloaded = load_state(Some(&doc));
    assert_eq!(reloaded.get_routes()[1], (StreamId::Voice, Some(odd)));
}

#[test]
fn persist_and_reload_with_non_ascii_device_id() {
    let mut st = fresh();
    let odd = "Lautsprecher (übrig)::output#0".to_string();
    st.set_route(StreamId::Game, Some(odd.clone()));
    let doc = render_state(&st);
    let reloaded = load_state(Some(&doc));
    assert_eq!(reloaded.get_routes()[0], (StreamId::Game, Some(odd)));
}

#[test]
fn missing_state_file_loads_empty() {
    let st = load_state(None);
    assert_eq!(st.get_routes()[0], (StreamId::Game, None));
    assert_eq!(st.get_routes()[1], (StreamId::Voice, None));
    assert_eq!(st.get_routes()[2], (StreamId::Music, None));
    assert!(st.get_app_categories().is_empty());
    assert_eq!(st.stream_volume(StreamId::Game), VOLUME_FULL);
}

#[test]
fn corrupt_state_file_loads_empty() {
    for bad in [
        "",
        "not json at all",
        "{\"routes\":{}}",
        "{\"routes\":{\"game\":null,\"voice\":null,\"music\":null},\
         \"volumes\":{\"game\":1000,\"voice\":1000,\"music\":1000},\
         \"app_categories\":{}}trailing",
        "{\"routes\":{\"game\":null,\"voice\":null,\"music\":null},\
         \"volumes\":{\"game\":9999999,\"voice\":1000,\"music\":1000},\
         \"app_categories\":{}}",
    ] {
        let st = load_state(Some(bad));
        assert!(st.get_app_categories().is_empty(), "input: {bad}");
        assert_eq!(st.get_routes()[2], (StreamId::Music, None), "input: {bad}");
        assert_eq!(st.stream_volume(StreamId::Voice), VOLUME_FULL, "input: {bad}");
    }
}

#[test]
fn unsorted_persisted_categories_are_rejected_as_corrupt() {
    let doc = "{\"routes\":{\"game\":null,\"voice\":null,\"music\":null},\
               \"volumes\":{\"game\":1000,\"voice\":1000,\"music\":1000},\
               \"app_categories\":{\"20\":\"game\",\"10\":\"voice\"}}";
    let st = load_state(Some(doc));
    assert!(st.get_app_categories().is_empty());
}
