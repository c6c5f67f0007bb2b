//! Playback decisions of the audio layer: entity ids, playback states and
//! how a source moves between them, the manager's errors, and the
//! scheduling plugin's per-tick bookkeeping. Driving the audio engine
//! itself is left to the caller, which hands the outcomes back as plain
//! values.

use vstd::prelude::*;

use crate::text::{decimal, push_decimal};

verus! {

/// An ECS entity id.
#[derive(Clone, Copy, Debug, PartialEq, Eq, Hash, PartialOrd, Ord, Structural)]
pub struct Entity(pub u64);

impl Entity {
    /// The entity with this raw id.
    pub fn from_raw(raw: u64) -> (e: Entity)
        ensures
            e.0 == raw,
    {
        Entity(raw)
    }

    /// The debug form `Entity(<id>)`.
    pub fn debug_text(&self) -> (s: String)
        ensures
            s@ == entity_text(*self),
    {
        let mut s = String::from_str("Entity(");
        push_decimal(&mut s, self.0);
        s.append(")");
        s
    }
}

pub open spec fn entity_text(e: Entity) -> Seq<char> {
    "Entity("@ + decimal(e.0 as nat) + ")"@
}

/// What a source is asked to do, or was last told to do.
#[derive(Clone, Copy, Debug, PartialEq, Eq, Hash, Structural)]
pub enum PlaybackState {
    Stopped,
    Paused,
    Playing,
}

impl Default for PlaybackState {
    fn default() -> (s: Self)
        ensures
            s == PlaybackState::Stopped,
    {
        PlaybackState::Stopped
    }
}

/// The audio engine's own, finer playback state of a sound.
#[derive(Clone, Copy, Debug, PartialEq, Eq, Hash, Structural)]
pub enum EngineState {
    Playing,
    Pausing,
    Paused,
    WaitingToResume,
    Resuming,
    Stopping,
    Stopped,
}

/// How an engine state reads as a playback state: a sound on its way to a
/// state counts as being in it, and one waiting to resume counts as paused.
pub open spec fn engine_playback(s: EngineState) -> PlaybackState {
    match s {
        EngineState::Playing | EngineState::Resuming => PlaybackState::Playing,
        EngineState::Paused | EngineState::Pausing | EngineState::WaitingToResume => PlaybackState::Paused,
        EngineState::Stopped | EngineState::Stopping => PlaybackState::Stopped,
    }
}

impl PlaybackState {
    /// The playback state an engine state stands for.
    pub fn from_engine(state: EngineState) -> (s: PlaybackState)
        ensures
            s == engine_playback(state),
    {
        match state {
            EngineState::Playing | EngineState::Resuming => PlaybackState::Playing,
            EngineState::Paused | EngineState::Pausing | EngineState::WaitingToResume => PlaybackState::Paused,
            EngineState::Stopped | EngineState::Stopping => PlaybackState::Stopped,
        }
    }
}

/// What reconciling a source asks of the engine.
#[derive(Clone, Copy, Debug, PartialEq, Eq, Structural)]
pub enum SourceCommand {
    /// Nothing changes state; only parameters are brought up to date.
    Keep,
    /// Stop and drop the current sound, if any.
    Stop,
    /// Start a fresh sound from the source's clip, paused at once if asked.
    Start { paused: bool },
    /// Resume the paused sound.
    Resume,
    /// Pause the playing sound.
    Pause,
}

/// The command that takes a source from the state last applied to the
/// desired one.
pub open spec fn command_for(last: PlaybackState, desired: PlaybackState) -> SourceCommand {
    if last == desired {
        SourceCommand::Keep
    } else {
        match (last, desired) {
            (_, PlaybackState::Stopped) => SourceCommand::Stop,
            (PlaybackState::Stopped, PlaybackState::Playing) => SourceCommand::Start { paused: false },
            (PlaybackState::Stopped, PlaybackState::Paused) => SourceCommand::Start { paused: true },
            (PlaybackState::Paused, PlaybackState::Playing) => SourceCommand::Resume,
            _ => SourceCommand::Pause,
        }
    }
}

/// Decide how to bring a source from the state last applied to the desired
/// one. After the command runs, the desired state is the state applied.
pub fn plan_transition(last: PlaybackState, desired: PlaybackState) -> (c: SourceCommand)
    ensures
        c == command_for(last, desired),
        (c == SourceCommand::Keep) <==> last == desired,
        c is Start ==> last == PlaybackState::Stopped,
        c == SourceCommand::Stop ==> desired == PlaybackState::Stopped,
{
    if last == desired {
        return SourceCommand::Keep;
    }
    match (last, desired) {
        (_, PlaybackState::Stopped) => SourceCommand::Stop,
        (PlaybackState::Stopped, PlaybackState::Playing) => SourceCommand::Start { paused: false },
        (PlaybackState::Stopped, PlaybackState::Paused) => SourceCommand::Start { paused: true },
        (PlaybackState::Paused, PlaybackState::Playing) => SourceCommand::Resume,
        _ => SourceCommand::Pause,
    }
}

/// Whether a source holds a sound after its command has run: a start
/// makes one, a stop drops it, any other command leaves it as it was.
pub open spec fn sound_after(has_sound: bool, c: SourceCommand) -> bool {
    match c {
        SourceCommand::Start { .. } => true,
        SourceCommand::Stop => false,
        _ => has_sound,
    }
}

/// A source agrees with the state last applied to it: it holds a sound
/// exactly when that state is not `Stopped`.
pub open spec fn source_consistent(last: PlaybackState, has_sound: bool) -> bool {
    has_sound == (last != PlaybackState::Stopped)
}

/// Reconciling keeps a source consistent: if it held a sound exactly when
/// its last applied state was not `Stopped`, then after the planned command
/// has run and the desired state is the one applied, it holds a sound
/// exactly when the desired state is not `Stopped`.
pub proof fn law_transition_keeps_source_consistent(last: PlaybackState, desired: PlaybackState, has_sound: bool)
    requires
        source_consistent(last, has_sound),
    ensures
        source_consistent(desired, sound_after(has_sound, command_for(last, desired))),
{
}

/// Errors of the audio manager.
#[derive(Debug)]
pub enum ManagerError {
    /// The engine's backend failed to start.
    Backend(String),
    /// One of the engine's resource pools is full.
    ResourceLimit(String),
    /// No source is registered for the entity.
    UnknownSource(Entity),
    /// The clip a source names was never registered.
    UnknownClip(String),
    /// The engine refused to play a sound.
    Play(String),
}

pub open spec fn manager_error_text(e: ManagerError) -> Seq<char> {
    match e {
        ManagerError::Backend(s) => "kira backend failed to start: "@ + s@,
        ManagerError::ResourceLimit(s) => "kira resource pool exhausted: "@ + s@,
        ManagerError::UnknownSource(en) => "no AudioSource registered for entity "@ + entity_text(en),
        ManagerError::UnknownClip(s) => "unknown clip: "@ + s@,
        ManagerError::Play(s) => "kira play() failed: "@ + s@,
    }
}

impl ManagerError {
    /// The error's message.
    pub fn message(&self) -> (s: String)
        ensures
            s@ == manager_error_text(*self),
    {
        let (mut s, detail) = match self {
            ManagerError::Backend(d) => (String::from_str("kira backend failed to start: "), d.clone()),
            ManagerError::ResourceLimit(d) => (String::from_str("kira resource pool exhausted: "), d.clone()),
            ManagerError::UnknownSource(e) => (String::from_str("no AudioSource registered for entity "), e.debug_text()),
            ManagerError::UnknownClip(d) => (String::from_str("unknown clip: "), d.clone()),
            ManagerError::Play(d) => (String::from_str("kira play() failed: "), d.clone()),
        };
        s.append(detail.as_str());
        s
    }

    /// Whether this error ends a scheduling step: only a missing clip does;
    /// any other failure skips the one source and the step goes on.
    pub fn ends_step(&self) -> (b: bool)
        ensures
            b == (*self is UnknownClip),
    {
        match self {
            ManagerError::UnknownClip(_) => true,
            _ => false,
        }
    }
}

/// One successful scheduling step, as the plugin records it.
#[derive(Clone, Copy, Debug, PartialEq, Eq, Structural)]
pub struct FrameRecord {
    /// Zero-based index of the step among the plugin's successful steps.
    pub tick: u64,
    /// Number of sources scheduled in the step.
    pub source_count: usize,
    /// Whether the frame had an active listener.
    pub had_listener: bool,
}

/// Why a plugin tick failed.
#[derive(Debug)]
pub enum PluginFault {
    /// A resource the caller had to stage was missing; names the resource.
    ContractViolation(String),
    /// The work itself failed.
    RuntimeFault(String),
}

/// The plugin's stable id.
pub const AUDIO_PLUGIN_ID: &'static str = "rge-audio.scheduling-plugin";

/// The records of a plugin's frames agree with its step counter: one per
/// successful step, numbered from zero.
pub open spec fn ledger_consistent(records: Seq<FrameRecord>, frames: u64) -> bool {
    &&& records.len() == frames
    &&& forall|i: int| 0 <= i < records.len() ==> (#[trigger] records[i]).tick == i
}

/// What one tick does to the step counter: one more on success, nothing
/// on failure.
pub open spec fn tick_effect(before: u64, after: u64, ok: bool) -> bool {
    after == (if ok { before + 1 } else { before as int })
}

/// Number of successful ticks in a run.
pub open spec fn successes(oks: Seq<bool>) -> nat
    decreases oks.len(),
{
    if oks.len() == 0 {
        0
    } else {
        successes(oks.drop_last()) + (if oks.last() { 1nat } else { 0nat })
    }
}

/// Over any run of ticks from a fresh plugin, the counter values `fs`
/// before and after each tick end at the number of successful ticks.
pub proof fn law_frames_count_successes(oks: Seq<bool>, fs: Seq<u64>)
    requires
        fs.len() == oks.len() + 1,
        fs[0] == 0,
        forall|i: int| 0 <= i < oks.len() ==> tick_effect(#[trigger] fs[i], fs[i + 1], oks[i]),
    ensures
        fs.last() == successes(oks),
    decreases oks.len(),
{
    if oks.len() > 0 {
        let k = oks.len() - 1;
        assert(tick_effect(fs[k], fs[k + 1], oks[k]));
        law_frames_count_successes(oks.drop_last(), fs.drop_last());
        assert(fs.drop_last().last() == fs[k]);
    }
}

/// The scheduling plugin: counts the scheduling steps it has driven.
#[derive(Debug)]
pub struct AudioPlugin {
    frames_advanced: u64,
}

impl AudioPlugin {
    pub closed spec fn frames_view(&self) -> u64 {
        self.frames_advanced
    }

    /// A plugin that has driven no step yet.
    pub fn new() -> (p: AudioPlugin)
        ensures
            p.frames_view() == 0,
    {
        AudioPlugin { frames_advanced: 0 }
    }

    /// Number of scheduling steps driven successfully so far.
    pub fn frames_advanced(&self) -> (n: u64)
        ensures
            n == self.frames_view(),
    {
        self.frames_advanced
    }

    /// The plugin's human-readable name.
    pub fn name(&self) -> (s: &'static str)
        ensures
            s@ == "rge-audio scheduling canary"@,
    {
        "rge-audio scheduling canary"
    }

    /// The plugin's stable id.
    pub fn id(&self) -> (s: &'static str)
        ensures
            s@ == AUDIO_PLUGIN_ID@,
    {
        AUDIO_PLUGIN_ID
    }

    /// Check the resources a tick needs before it starts: the audio manager
    /// first, then the frame. A missing one is a contract violation naming it.
    pub fn begin_tick(&self, has_manager: bool, has_frame: bool) -> (r: Result<(), PluginFault>)
        ensures
            r is Ok <==> has_manager && has_frame,
            !has_manager ==> (r matches Err(PluginFault::ContractViolation(s)) && s@ == "AudioManager"@),
            has_manager && !has_frame ==> (r matches Err(PluginFault::ContractViolation(s)) && s@ == "AudioFrame"@),
    {
        if !has_manager {
            return Err(PluginFault::ContractViolation(String::from_str("AudioManager")));
        }
        if !has_frame {
            return Err(PluginFault::ContractViolation(String::from_str("AudioFrame")));
        }
        Ok(())
    }

    /// Finish a tick once the scheduling step has run with `outcome`. On
    /// success the frame's records gain one for this step and the counter
    /// goes up by one; on failure both stay as they were and the error is a
    /// runtime fault carrying the step's error message.
    pub fn finish_tick(
        &mut self,
        records: &mut Vec<FrameRecord>,
        source_count: usize,
        had_listener: bool,
        outcome: Result<(), ManagerError>,
    ) -> (r: Result<(), PluginFault>)
        requires
            outcome is Ok ==> old(self).frames_view() < u64::MAX,
        ensures
            outcome is Ok ==> {
                &&& r is Ok
                &&& final(self).frames_view() == old(self).frames_view() + 1
                &&& final(records)@ == old(records)@.push(
                    FrameRecord { tick: old(self).frames_view(), source_count, had_listener },
                )
            },
            outcome is Err ==> {
                &&& r matches Err(PluginFault::RuntimeFault(m))
                    && m@ == "audio_schedule_step failed: "@ + manager_error_text(outcome->Err_0)
                &&& final(self).frames_view() == old(self).frames_view()
                &&& final(records)@ == old(records)@
            },
            tick_effect(old(self).frames_view(), final(self).frames_view(), outcome is Ok),
            ledger_consistent(old(records)@, old(self).frames_view()) ==> ledger_consistent(
                final(records)@,
                final(self).frames_view(),
            ),
    {
        match outcome {
            Ok(()) => {
                records.push(FrameRecord { tick: self.frames_advanced, source_count, had_listener });
                self.frames_advanced = self.frames_advanced + 1;
                Ok(())
            },
            Err(e) => {
                let mut m = String::from_str("audio_schedule_step failed: ");
                let detail = e.message();
                m.append(detail.as_str());
                Err(PluginFault::RuntimeFault(m))
            },
        }
    }
}

impl Default for AudioPlugin {
    fn default() -> (p: Self)
        ensures
            p.frames_view() == 0,
    {
        AudioPlugin::new()
    }
}

} // verus!
