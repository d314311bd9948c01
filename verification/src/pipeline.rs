//! The per-frame side of the runtime: the context the engine supplies
//! each frame and the ordered pipeline of logic stages run against it.

use vstd::prelude::*;

use crate::state::State;

verus! {

/// One keyboard event: a key code and whether the key went down.
#[derive(Debug, Clone, PartialEq, Eq)]
pub struct KeyEvent {
    /// The engine's code for the key.
    pub key_code: u32,
    /// True when the key was pressed, false when it was released.
    pub pressed: bool,
}

/// One mouse-button event: a button number and whether it went down.
#[derive(Debug, Clone, PartialEq, Eq)]
pub struct MouseEvent {
    /// The engine's number for the button.
    pub button: u8,
    /// True when the button was pressed, false when it was released.
    pub pressed: bool,
}

/// One collision event: the labels of the two entities involved and
/// whether the contact began or ended.
#[derive(Debug, Clone, PartialEq, Eq)]
pub struct CollisionEvent {
    /// The label of one entity of the pair.
    pub label_a: String,
    /// The label of the other entity of the pair.
    pub label_b: String,
    /// True when the contact began, false when it ended.
    pub began: bool,
}

/// An order for the audio subsystem, to be carried out by the engine.
#[derive(Debug, Clone, PartialEq, Eq)]
pub enum AudioCommand {
    /// Start looping the music at `path`, at `volume_milli` thousandths
    /// of full volume.
    PlayMusic { path: String, volume_milli: u64 },
    /// Play the one-shot effect at `path`, at `volume_milli`
    /// thousandths of full volume.
    PlaySfx { path: String, volume_milli: u64 },
    /// Stop the music.
    StopMusic,
}

/// The handle to the audio subsystem that stages see: it records what
/// was asked this frame, and the engine performs the orders afterwards.
pub struct AudioManager {
    /// Whether music is currently playing, as reported by the engine.
    music_playing: bool,
    /// The orders issued so far this frame, oldest first.
    commands: Vec<AudioCommand>,
}

impl AudioManager {
    /// What the stages have asked for so far, oldest first.
    pub closed spec fn commands_view(&self) -> Seq<AudioCommand> {
        self.commands@
    }

    /// Whether the handle reports music as playing.
    pub closed spec fn music_playing_view(&self) -> bool {
        self.music_playing
    }

    /// A fresh handle for one frame.
    pub fn new(music_playing: bool) -> (r: Self)
        ensures
            r.music_playing_view() == music_playing,
            r.commands_view() == Seq::<AudioCommand>::empty(),
    {
        AudioManager { music_playing, commands: Vec::new() }
    }

    /// Ask for looping music; the handle reports music as playing from
    /// here on.
    pub fn play_music(&mut self, path: String, volume_milli: u64)
        ensures
            final(self).commands_view() == old(self).commands_view().push(
                AudioCommand::PlayMusic { path, volume_milli },
            ),
            final(self).music_playing_view(),
    {
        self.commands.push(AudioCommand::PlayMusic { path, volume_milli });
        self.music_playing = true;
    }

    /// Ask for a one-shot sound effect.
    pub fn play_sfx(&mut self, path: String, volume_milli: u64)
        ensures
            final(self).commands_view() == old(self).commands_view().push(
                AudioCommand::PlaySfx { path, volume_milli },
            ),
            final(self).music_playing_view() == old(self).music_playing_view(),
    {
        self.commands.push(AudioCommand::PlaySfx { path, volume_milli });
    }

    /// Ask for the music to stop; the handle reports it stopped.
    pub fn stop_music(&mut self)
        ensures
            final(self).commands_view() == old(self).commands_view().push(
                AudioCommand::StopMusic,
            ),
            !final(self).music_playing_view(),
    {
        self.commands.push(AudioCommand::StopMusic);
        self.music_playing = false;
    }

    /// Whether music is playing.
    pub fn music_playing(&self) -> (r: bool)
        ensures
            r == self.music_playing_view(),
    {
        self.music_playing
    }

    /// Hand the frame's orders out for the engine to perform, leaving
    /// the queue empty.
    pub fn take_commands(&mut self) -> (out: Vec<AudioCommand>)
        ensures
            out@ == old(self).commands_view(),
            final(self).commands_view() == Seq::<AudioCommand>::empty(),
            final(self).music_playing_view() == old(self).music_playing_view(),
    {
        let mut out: Vec<AudioCommand> = Vec::new();
        core::mem::swap(&mut self.commands, &mut out);
        out
    }
}

/// The per-frame facts the engine supplies and the stages read: time,
/// window extents, input snapshots, and drain-once event queues.
pub struct EngineContext {
    /// Time elapsed during this frame, in microseconds.
    pub delta_micros: u64,
    /// Time elapsed since the run began, in microseconds.
    pub elapsed_micros: u64,
    /// Window width, in milli-units.
    pub window_width_milli: u64,
    /// Window height, in milli-units.
    pub window_height_milli: u64,
    /// Whether the run should end after this frame.
    pub should_exit: bool,
    /// The key codes held down at the start of the frame.
    pub keys_held: Vec<u32>,
    /// Keyboard events of this frame; drain-once.
    pub keyboard_events: Vec<KeyEvent>,
    /// Mouse-button events of this frame; drain-once.
    pub mouse_events: Vec<MouseEvent>,
    /// Collision events of this frame; drain-once.
    pub collision_events: Vec<CollisionEvent>,
    /// The audio handle.
    pub audio: AudioManager,
}

impl EngineContext {
    /// The keyboard events still waiting this frame, oldest first.
    pub open spec fn keyboard_events_view(&self) -> Seq<KeyEvent> {
        self.keyboard_events@
    }

    /// The mouse-button events still waiting this frame, oldest first.
    pub open spec fn mouse_events_view(&self) -> Seq<MouseEvent> {
        self.mouse_events@
    }

    /// The collision events still waiting this frame, oldest first.
    pub open spec fn collision_events_view(&self) -> Seq<CollisionEvent> {
        self.collision_events@
    }

    /// A context for one frame, with the queues as the engine filled
    /// them.
    pub fn new(
        delta_micros: u64,
        elapsed_micros: u64,
        window_width_milli: u64,
        window_height_milli: u64,
        keys_held: Vec<u32>,
        keyboard_events: Vec<KeyEvent>,
        mouse_events: Vec<MouseEvent>,
        collision_events: Vec<CollisionEvent>,
        audio: AudioManager,
    ) -> (r: Self)
        ensures
            r.delta_micros == delta_micros,
            r.elapsed_micros == elapsed_micros,
            r.window_width_milli == window_width_milli,
            r.window_height_milli == window_height_milli,
            !r.should_exit,
            r.keys_held == keys_held,
            r.keyboard_events_view() == keyboard_events@,
            r.mouse_events_view() == mouse_events@,
            r.collision_events_view() == collision_events@,
            r.audio == audio,
    {
        EngineContext {
            delta_micros,
            elapsed_micros,
            window_width_milli,
            window_height_milli,
            should_exit: false,
            keys_held,
            keyboard_events,
            mouse_events,
            collision_events,
            audio,
        }
    }

    /// Take every waiting keyboard event, leaving the queue empty: a
    /// later stage of the same frame will not see them again.
    pub fn take_keyboard_events(&mut self) -> (out: Vec<KeyEvent>)
        ensures
            out@ == old(self).keyboard_events_view(),
            final(self).keyboard_events_view() == Seq::<KeyEvent>::empty(),
            final(self).mouse_events_view() == old(self).mouse_events_view(),
            final(self).collision_events_view() == old(self).collision_events_view(),
            final(self).audio == old(self).audio,
    {
        let mut out: Vec<KeyEvent> = Vec::new();
        core::mem::swap(&mut self.keyboard_events, &mut out);
        out
    }

    /// Take every waiting mouse-button event, leaving the queue empty.
    pub fn take_mouse_events(&mut self) -> (out: Vec<MouseEvent>)
        ensures
            out@ == old(self).mouse_events_view(),
            final(self).mouse_events_view() == Seq::<MouseEvent>::empty(),
            final(self).keyboard_events_view() == old(self).keyboard_events_view(),
            final(self).collision_events_view() == old(self).collision_events_view(),
            final(self).audio == old(self).audio,
    {
        let mut out: Vec<MouseEvent> = Vec::new();
        core::mem::swap(&mut self.mouse_events, &mut out);
        out
    }

    /// Take every waiting collision event, leaving the queue empty.
    pub fn take_collision_events(&mut self) -> (out: Vec<CollisionEvent>)
        ensures
            out@ == old(self).collision_events_view(),
            final(self).collision_events_view() == Seq::<CollisionEvent>::empty(),
            final(self).keyboard_events_view() == old(self).keyboard_events_view(),
            final(self).mouse_events_view() == old(self).mouse_events_view(),
            final(self).audio == old(self).audio,
    {
        let mut out: Vec<CollisionEvent> = Vec::new();
        core::mem::swap(&mut self.collision_events, &mut out);
        out
    }
}

/// The ordered sequence of logic stages.  Stages are appended before
/// the run starts and the order then stands for the life of the
/// pipeline; each frame, `run_frame` calls every stage once, in push
/// order, handing all of them the same context and frame state so that
/// what one stage writes the next one reads.
pub struct Pipeline<S, F> where F: Fn(&mut EngineContext, &mut State<S>) {
    stages: Vec<F>,
    _marker: core::marker::PhantomData<S>,
}

impl<S, F> Pipeline<S, F> where F: Fn(&mut EngineContext, &mut State<S>) {
    /// The stages, in the order they run.
    pub closed spec fn stages_view(&self) -> Seq<F> {
        self.stages@
    }

    /// An empty pipeline.
    pub fn new() -> (r: Self)
        ensures
            r.stages_view() == Seq::<F>::empty(),
    {
        Pipeline { stages: Vec::new(), _marker: core::marker::PhantomData }
    }

    /// Append one stage; it will run after every stage already pushed.
    pub fn push(&mut self, stage: F) -> (r: &mut Self)
        ensures
            (*r).stages_view() == old(self).stages_view().push(stage),
            *final(self) == *final(r),
    {
        self.stages.push(stage);
        self
    }

    /// How many stages are registered.
    pub fn len(&self) -> (r: usize)
        ensures
            r == self.stages_view().len(),
    {
        self.stages.len()
    }

    /// Run one frame: call every stage once, first to last, each one
    /// seeing the context and frame state exactly as the stage before
    /// it left them.  The contract says so through the returned ghost
    /// witness: a chain of per-stage snapshots that starts at the
    /// incoming pair, ends at the outgoing pair, and whose step `j` is
    /// an invocation of stage `j` that is handed snapshot `j` and
    /// leaves snapshot `j + 1` — exactly what stage `j + 1` is handed.
    pub fn run_frame(&self, ctx: &mut EngineContext, state: &mut State<S>) -> (snaps: Ghost<
        (Seq<EngineContext>, Seq<State<S>>),
    >)
        requires
            forall|i: int, a: (&mut EngineContext, &mut State<S>)|
                0 <= i < self.stages_view().len() ==> #[trigger] call_requires(
                    self.stages_view()[i],
                    a,
                ),
        ensures
            snaps@.0.len() == self.stages_view().len() + 1,
            snaps@.1.len() == self.stages_view().len() + 1,
            snaps@.0[0] == *old(ctx),
            snaps@.1[0] == *old(state),
            snaps@.0[self.stages_view().len() as int] == *final(ctx),
            snaps@.1[self.stages_view().len() as int] == *final(state),
            forall|j: int|
                #![trigger snaps@.0[j]]
                #![trigger snaps@.1[j]]
                0 <= j < self.stages_view().len() ==> exists|
                    a: (&mut EngineContext, &mut State<S>),
                |
                    call_ensures(self.stages_view()[j], a, ()) && *a.0 == snaps@.0[j] && *a.1
                        == snaps@.1[j] && *final(a.0) == snaps@.0[j + 1] && *final(a.1)
                        == snaps@.1[j + 1],
    {
        let n = self.stages.len();
        let mut i: usize = 0;
        let ghost mut snaps_c: Seq<EngineContext> = seq![*ctx];
        let ghost mut snaps_s: Seq<State<S>> = seq![*state];
        while i < n
            invariant
                n == self.stages_view().len(),
                0 <= i <= n,
                forall|j: int, a: (&mut EngineContext, &mut State<S>)|
                    0 <= j < n ==> #[trigger] call_requires(self.stages_view()[j], a),
                snaps_c.len() == i + 1,
                snaps_s.len() == i + 1,
                snaps_c[0] == *old(ctx),
                snaps_s[0] == *old(state),
                snaps_c[i as int] == *ctx,
                snaps_s[i as int] == *state,
                forall|j: int|
                    0 <= j < i ==> exists|a: (&mut EngineContext, &mut State<S>)|
                        call_ensures(#[trigger] self.stages_view()[j], a, ()) && *a.0 == snaps_c[j]
                            && *a.1 == snaps_s[j] && *final(a.0) == snaps_c[j + 1] && *final(a.1)
                            == snaps_s[j + 1],
            decreases n - i,
        {
            let ghost c0 = snaps_c;
            let ghost s0 = snaps_s;
            run_stage(&self.stages[i], ctx, state);
            proof {
                snaps_c = snaps_c.push(*ctx);
                snaps_s = snaps_s.push(*state);
                assert forall|j: int| 0 <= j < i + 1 implies exists|
                    a: (&mut EngineContext, &mut State<S>),
                |
                    call_ensures(#[trigger] self.stages_view()[j], a, ()) && *a.0 == snaps_c[j]
                        && *a.1 == snaps_s[j] && *final(a.0) == snaps_c[j + 1] && *final(a.1)
                        == snaps_s[j + 1] by {
                    if j < i {
                        assert(snaps_c[j] == c0[j] && snaps_c[j + 1] == c0[j + 1]);
                        assert(snaps_s[j] == s0[j] && snaps_s[j + 1] == s0[j + 1]);
                    } else {
                        assert(snaps_c[j] == c0[j] && snaps_s[j] == s0[j]);
                    }
                }
            }
            i += 1;
        }
        let snaps_out: Ghost<(Seq<EngineContext>, Seq<State<S>>)> = Ghost((snaps_c, snaps_s));
        proof {
            assert(snaps_out@.0 == snaps_c && snaps_out@.1 == snaps_s);
            assert forall|j: int|
                #![trigger snaps_out@.0[j]]
                #![trigger snaps_out@.1[j]]
                0 <= j < self.stages_view().len() implies exists|
                a: (&mut EngineContext, &mut State<S>),
            |
                call_ensures(self.stages_view()[j], a, ()) && *a.0 == snaps_out@.0[j] && *a.1
                    == snaps_out@.1[j] && *final(a.0) == snaps_out@.0[j + 1] && *final(a.1)
                    == snaps_out@.1[j + 1] by {
                // name the stage so the loop's per-step fact comes into play
                let f = self.stages_view()[j];
                assert(exists|a: (&mut EngineContext, &mut State<S>)|
                    call_ensures(#[trigger] self.stages_view()[j], a, ()) && *a.0 == snaps_c[j]
                        && *a.1 == snaps_s[j] && *final(a.0) == snaps_c[j + 1] && *final(a.1)
                        == snaps_s[j + 1]);
                assert(snaps_out@.0[j] == snaps_c[j] && snaps_out@.0[j + 1] == snaps_c[j + 1]);
                assert(snaps_out@.1[j] == snaps_s[j] && snaps_out@.1[j + 1] == snaps_s[j + 1]);
            }
        }
        snaps_out
    }
}

/// Invoke one stage on the frame's context and state; the ensures names
/// the invocation: some argument pair whose entry values are the
/// incoming pair and whose final values are the outgoing pair satisfies
/// the stage's postcondition.
fn run_stage<S, F>(stage: &F, ctx: &mut EngineContext, state: &mut State<S>) where
    F: Fn(&mut EngineContext, &mut State<S>),

    requires
        forall|a: (&mut EngineContext, &mut State<S>)| #[trigger] call_requires(*stage, a),
    ensures
        exists|a: (&mut EngineContext, &mut State<S>)|
            #[trigger] call_ensures(*stage, a, ()) && *a.0 == *old(ctx) && *a.1 == *old(state)
                && *final(a.0) == *final(ctx) && *final(a.1) == *final(state),
{
    let c = &mut *ctx;
    let s = &mut *state;
    stage(c, s);
}

} // verus!
