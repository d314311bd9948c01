use framestate::pipeline::{
    AudioCommand, AudioManager, CollisionEvent, EngineContext, KeyEvent, MouseEvent, Pipeline,
};
use framestate::sprite::Sprite;
use framestate::state::State;
use framestate::traits::{Manage, ManageTarget};

struct Counters {
    order: Vec<u32>,
    counter: u64,
}

type Stage = fn(&mut EngineContext, &mut State<Counters>);

fn fresh_ctx() -> EngineContext {
    EngineContext::new(
        16_667,
        16_667,
        1280_000,
        720_000,
        Vec::new(),
        Vec::new(),
        Vec::new(),
        Vec::new(),
        AudioManager::new(false),
    )
}

fn stage_one(_ctx: &mut EngineContext, state: &mut State<Counters>) {
    state.main.order.push(1);
    state.main.counter += 1;
    state.repo.add_one(Sprite::new("from_stage_one", "img/s.png"));
}

fn stage_two(_ctx: &mut EngineContext, state: &mut State<Counters>) {
    state.main.order.push(2);
    // sees the increment stage one made in this same frame
    assert!(state.main.counter % 2 == 1);
    state.main.counter += 1;
    // sees the sprite stage one inserted in this same frame
    assert!(state.repo.get_one::<Sprite>("from_stage_one").is_some());
}

fn stage_three(_ctx: &mut EngineContext, state: &mut State<Counters>) {
    state.main.order.push(3);
    // sees the increments of both earlier stages
    assert!(state.main.counter % 2 == 0);
}

#[test]
fn stages_run_in_push_order_and_share_mutations() {
    let mut pipeline: Pipeline<Counters, Stage> = Pipeline::new();
    pipeline.push(stage_one);
    pipeline.push(stage_two);
    pipeline.push(stage_three);
    assert_eq!(pipeline.len(), 3);

    let mut state = State::new(Counters { order: Vec::new(), counter: 0 });
    let mut ctx = fresh_ctx();
    pipeline.run_frame(&mut ctx, &mut state);
    assert_eq!(state.main.order, vec![1, 2, 3]);
    assert_eq!(state.main.counter, 2);

    // a second frame runs the same stages again, in the same order
    let mut ctx = fresh_ctx();
    pipeline.run_frame(&mut ctx, &mut state);
    assert_eq!(state.main.order, vec![1, 2, 3, 1, 2, 3]);
    assert_eq!(state.main.counter, 4);
}

#[test]
fn push_chains_like_a_builder() {
    let mut pipeline: Pipeline<Counters, Stage> = Pipeline::new();
    pipeline.push(stage_one).push(stage_two);
    assert_eq!(pipeline.len(), 2);
}

fn drain_keys(ctx: &mut EngineContext, state: &mut State<Counters>) {
    let events = ctx.take_keyboard_events();
    state.main.counter += events.len() as u64;
}

fn expect_no_keys(ctx: &mut EngineContext, _state: &mut State<Counters>) {
    // the earlier stage consumed the queue: drain-once
    assert!(ctx.take_keyboard_events().is_empty());
}

#[test]
fn event_queues_are_drain_once_within_a_frame() {
    let mut pipeline: Pipeline<Counters, Stage> = Pipeline::new();
    pipeline.push(drain_keys);
    pipeline.push(expect_no_keys);

    let keys = vec![
        KeyEvent { key_code: 32, pressed: true },
        KeyEvent { key_code: 32, pressed: false },
    ];
    let mut ctx = EngineContext::new(
        16_667,
        33_334,
        1280_000,
        720_000,
        Vec::new(),
        keys,
        vec![MouseEvent { button: 0, pressed: true }],
        Vec::new(),
        AudioManager::new(false),
    );
    let mut state = State::new(Counters { order: Vec::new(), counter: 0 });
    pipeline.run_frame(&mut ctx, &mut state);
    assert_eq!(state.main.counter, 2);
    // other queues were left alone
    assert_eq!(ctx.take_mouse_events().len(), 1);
}

#[test]
fn collision_events_pair_two_labels() {
    let mut ctx = EngineContext::new(
        1,
        1,
        100,
        100,
        Vec::new(),
        Vec::new(),
        Vec::new(),
        vec![CollisionEvent {
            label_a: String::from("car"),
            label_b: String::from("wall"),
            began: true,
        }],
        AudioManager::new(false),
    );
    let hits = ctx.take_collision_events();
    assert_eq!(hits.len(), 1);
    assert_eq!(hits[0].label_a, "car");
    assert_eq!(hits[0].label_b, "wall");
    assert!(hits[0].began);
    assert!(ctx.take_collision_events().is_empty());
}

#[test]
fn audio_manager_records_orders_in_sequence() {
    let mut audio = AudioManager::new(false);
    assert!(!audio.music_playing());
    audio.play_music(String::from("music/theme.ogg"), 800);
    assert!(audio.music_playing());
    audio.play_sfx(String::from("sfx/jump.ogg"), 1000);
    audio.stop_music();
    assert!(!audio.music_playing());
    let orders = audio.take_commands();
    assert_eq!(orders.len(), 3);
    assert_eq!(
        orders[0],
        AudioCommand::PlayMusic { path: String::from("music/theme.ogg"), volume_milli: 800 }
    );
    assert_eq!(
        orders[1],
        AudioCommand::PlaySfx { path: String::from("sfx/jump.ogg"), volume_milli: 1000 }
    );
    assert_eq!(orders[2], AudioCommand::StopMusic);
    assert!(audio.take_commands().is_empty());
}
