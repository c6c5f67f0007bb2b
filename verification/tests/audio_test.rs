use rge_core::audio::{
    plan_transition, AudioPlugin, EngineState, Entity, FrameRecord, ManagerError, PlaybackState,
    PluginFault, SourceCommand, AUDIO_PLUGIN_ID,
};

#[test]
fn audio_plugin_name_is_stable_human_readable_string() {
    let plugin = AudioPlugin::new();
    assert_eq!(plugin.name(), "rge-audio scheduling canary");
}

#[test]
fn audio_plugin_frames_advanced_starts_at_zero() {
    let plugin = AudioPlugin::new();
    assert_eq!(plugin.frames_advanced(), 0);
}

#[test]
fn audio_plugin_default_impl_matches_new() {
    let a = AudioPlugin::default();
    let b = AudioPlugin::new();
    assert_eq!(a.frames_advanced(), b.frames_advanced());
    assert_eq!(a.name(), b.name());
}

#[test]
fn playback_state_default_is_stopped() {
    assert_eq!(PlaybackState::default(), PlaybackState::Stopped);
}

#[test]
fn from_kira_is_total() {
    assert_eq!(PlaybackState::from_engine(EngineState::Playing), PlaybackState::Playing);
    assert_eq!(PlaybackState::from_engine(EngineState::Resuming), PlaybackState::Playing);
    assert_eq!(PlaybackState::from_engine(EngineState::Pausing), PlaybackState::Paused);
    assert_eq!(PlaybackState::from_engine(EngineState::Paused), PlaybackState::Paused);
    assert_eq!(PlaybackState::from_engine(EngineState::WaitingToResume), PlaybackState::Paused);
    assert_eq!(PlaybackState::from_engine(EngineState::Stopping), PlaybackState::Stopped);
    assert_eq!(PlaybackState::from_engine(EngineState::Stopped), PlaybackState::Stopped);
}

#[test]
fn audio_plugin_id_is_stable() {
    let plugin = AudioPlugin::new();
    assert_eq!(plugin.id(), "rge-audio.scheduling-plugin");
    assert_eq!(AUDIO_PLUGIN_ID, "rge-audio.scheduling-plugin");
}

#[test]
fn entity_from_raw_keeps_the_id() {
    assert_eq!(Entity::from_raw(42), Entity(42));
    assert_eq!(Entity(7).debug_text(), format!("{:?}", Entity(7)));
}

#[test]
fn transitions_between_every_pair_of_states() {
    let (stopped, paused, playing) = (PlaybackState::Stopped, PlaybackState::Paused, PlaybackState::Playing);
    for s in [stopped, paused, playing] {
        assert_eq!(plan_transition(s, s), SourceCommand::Keep);
    }
    assert_eq!(plan_transition(stopped, playing), SourceCommand::Start { paused: false });
    assert_eq!(plan_transition(stopped, paused), SourceCommand::Start { paused: true });
    assert_eq!(plan_transition(playing, stopped), SourceCommand::Stop);
    assert_eq!(plan_transition(paused, stopped), SourceCommand::Stop);
    assert_eq!(plan_transition(paused, playing), SourceCommand::Resume);
    assert_eq!(plan_transition(playing, paused), SourceCommand::Pause);
}

#[test]
fn manager_error_messages() {
    assert_eq!(ManagerError::Backend("x".into()).message(), "kira backend failed to start: x");
    assert_eq!(ManagerError::ResourceLimit("y".into()).message(), "kira resource pool exhausted: y");
    assert_eq!(
        ManagerError::UnknownSource(Entity(3)).message(),
        "no AudioSource registered for entity Entity(3)"
    );
    assert_eq!(ManagerError::UnknownClip("ping".into()).message(), "unknown clip: ping");
    assert_eq!(ManagerError::Play("full".into()).message(), "kira play() failed: full");
}

#[test]
fn only_a_missing_clip_ends_a_step() {
    assert!(ManagerError::UnknownClip("missing".into()).ends_step());
    assert!(!ManagerError::UnknownSource(Entity(1)).ends_step());
    assert!(!ManagerError::Play("p".into()).ends_step());
    assert!(!ManagerError::ResourceLimit("r".into()).ends_step());
    assert!(!ManagerError::Backend("b".into()).ends_step());
}

#[test]
fn missing_resources_are_contract_violations_naming_them() {
    let plugin = AudioPlugin::new();
    assert!(plugin.begin_tick(true, true).is_ok());
    match plugin.begin_tick(false, true) {
        Err(PluginFault::ContractViolation(s)) => assert_eq!(s, "AudioManager"),
        other => panic!("unexpected {other:?}"),
    }
    match plugin.begin_tick(false, false) {
        Err(PluginFault::ContractViolation(s)) => assert_eq!(s, "AudioManager"),
        other => panic!("unexpected {other:?}"),
    }
    match plugin.begin_tick(true, false) {
        Err(PluginFault::ContractViolation(s)) => assert_eq!(s, "AudioFrame"),
        other => panic!("unexpected {other:?}"),
    }
}

#[test]
fn successful_ticks_append_numbered_records() {
    let mut plugin = AudioPlugin::new();
    let mut records: Vec<FrameRecord> = Vec::new();
    plugin.finish_tick(&mut records, 2, true, Ok(())).unwrap();
    plugin.finish_tick(&mut records, 0, false, Ok(())).unwrap();
    assert_eq!(plugin.frames_advanced(), 2);
    assert_eq!(
        records,
        vec![
            FrameRecord { tick: 0, source_count: 2, had_listener: true },
            FrameRecord { tick: 1, source_count: 0, had_listener: false },
        ]
    );
}

#[test]
fn failed_tick_leaves_counter_and_records_unchanged() {
    let mut plugin = AudioPlugin::new();
    let mut records: Vec<FrameRecord> = Vec::new();
    plugin.finish_tick(&mut records, 1, false, Ok(())).unwrap();
    let r = plugin.finish_tick(&mut records, 1, false, Err(ManagerError::UnknownClip("missing".into())));
    match r {
        Err(PluginFault::RuntimeFault(m)) => {
            assert_eq!(m, "audio_schedule_step failed: unknown clip: missing")
        }
        other => panic!("unexpected {other:?}"),
    }
    assert_eq!(plugin.frames_advanced(), 1);
    assert_eq!(records.len(), 1);
}

#[test]
fn frames_count_only_successful_ticks() {
    let mut p = AudioPlugin::new();
    let mut records: Vec<FrameRecord> = Vec::new();
    for i in 0..5 {
        assert!(p.begin_tick(true, true).is_ok());
        p.finish_tick(&mut records, i, false, Ok(())).unwrap();
    }
    assert!(p.begin_tick(false, true).is_err());
    let err = p.finish_tick(&mut records, 0, false, Err(ManagerError::UnknownClip("x".to_string())));
    assert!(err.is_err());
    assert_eq!(p.frames_advanced(), 5);
    assert_eq!(records.len(), 5);
}
