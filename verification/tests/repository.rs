use framestate::sprite::Sprite;
use framestate::state::{Repository, State};
use framestate::text::Text;
use framestate::traits::{Manage, ManageTarget};

#[test]
fn insert_then_get_returns_it_sprite() {
    let mut repo = Repository::new();
    let car = Sprite::new("car", "img/car.png");
    repo.add_one(car.clone());
    let got = repo.get_one::<Sprite>("car").expect("car must be stored");
    assert_eq!(*got, car);
}

#[test]
fn insert_then_get_returns_it_text() {
    let mut repo = Repository::new();
    let t = Text::new("title", "hello");
    repo.add_one(t.clone());
    let got = repo.get_one::<Text>("title").expect("title must be stored");
    assert_eq!(*got, t);
    assert_eq!(got.value, "hello");
}

#[test]
fn labels_do_not_collide_across_kinds() {
    let mut repo = Repository::new();
    repo.add_one(Sprite::new("shared", "img/a.png"));
    repo.add_one(Text::new("shared", "words"));
    assert!(repo.get_one::<Sprite>("shared").is_some());
    assert!(repo.get_one::<Text>("shared").is_some());
    repo.remove::<Sprite>("shared");
    assert!(repo.get_one::<Sprite>("shared").is_none());
    assert!(repo.get_one::<Text>("shared").is_some());
}

#[test]
fn insert_same_label_twice_keeps_only_second() {
    let mut repo = Repository::new();
    let mut first = Sprite::new("car", "img/car.png");
    first.translation_x = 1_000;
    repo.add_one(first);
    let mut second = Sprite::new("car", "img/car.png");
    second.translation_x = 42_000;
    repo.add_one(second);
    let all = repo.iter::<Sprite>();
    assert_eq!(all.len(), 1);
    let got = repo.get_one::<Sprite>("car").expect("car must be stored");
    assert_eq!(got.translation_x, 42_000);
}

#[test]
fn add_one_reference_adjusts_stored_entity() {
    let mut repo = Repository::new();
    let s = repo.add_one(Sprite::new("hero", "img/hero.png"));
    s.translation_x = 7_500;
    s.layer = 3;
    let got = repo.get_one::<Sprite>("hero").unwrap();
    assert_eq!(got.translation_x, 7_500);
    assert_eq!(got.layer, 3);
}

#[test]
fn get_one_mut_changes_are_visible() {
    let mut repo = Repository::new();
    repo.add_one(Text::new("fps", "FPS: "));
    {
        let t = repo.get_one_mut::<Text>("fps").unwrap();
        t.value = String::from("FPS: 60");
    }
    assert_eq!(repo.get_one::<Text>("fps").unwrap().value, "FPS: 60");
}

#[test]
fn get_one_absent_is_none() {
    let repo = Repository::new();
    assert!(repo.get_one::<Sprite>("nobody").is_none());
}

#[test]
fn get_one_does_not_answer_for_another_label() {
    let mut repo = Repository::new();
    repo.add_one(Sprite::new("stored", "p"));
    assert!(repo.get_one::<Sprite>("other").is_none());
    assert!(repo.get_one::<Sprite>("store").is_none());
    assert!(repo.get_one::<Sprite>("stored2").is_none());
}

#[test]
fn get_many_mutates_independently() {
    let mut repo = Repository::new();
    repo.add_one(Sprite::new("a", "img/a.png"));
    repo.add_one(Sprite::new("b", "img/b.png"));
    {
        let mut pair = repo.get::<Sprite>(&["a", "b"]).expect("both present");
        assert_eq!(pair.len(), 2);
        let b = pair.pop().unwrap();
        let a = pair.pop().unwrap();
        a.translation_x = 11_000;
        assert_eq!(b.translation_x, 0);
    }
    assert_eq!(repo.get_one::<Sprite>("a").unwrap().translation_x, 11_000);
    assert_eq!(repo.get_one::<Sprite>("b").unwrap().translation_x, 0);
}

#[test]
fn get_many_preserves_request_order() {
    let mut repo = Repository::new();
    repo.add_one(Text::new("one", "1"));
    repo.add_one(Text::new("two", "2"));
    repo.add_one(Text::new("three", "3"));
    let got = repo.get::<Text>(&["three", "one"]).expect("both present");
    assert_eq!(got[0].value, "3");
    assert_eq!(got[1].value, "1");
}

#[test]
fn get_many_duplicate_label_fails_whole_call() {
    let mut repo = Repository::new();
    repo.add_one(Sprite::new("a", "img/a.png"));
    assert!(repo.get::<Sprite>(&["a", "a"]).is_none());
}

#[test]
fn get_many_missing_label_fails_whole_call() {
    let mut repo = Repository::new();
    repo.add_one(Sprite::new("a", "img/a.png"));
    assert!(repo.get::<Sprite>(&["a", "ghost"]).is_none());
    // the present half is untouched and still reachable
    assert!(repo.get_one::<Sprite>("a").is_some());
}

#[test]
fn remove_returns_entity_as_stored() {
    let mut repo = Repository::new();
    {
        let s = repo.add_one(Sprite::new("crate", "img/crate.png"));
        s.translation_y = -2_000;
        s.collision = true;
    }
    let taken = repo.remove::<Sprite>("crate").expect("crate must be stored");
    assert_eq!(taken.translation_y, -2_000);
    assert!(taken.collision);
    assert!(repo.get_one::<Sprite>("crate").is_none());
    assert!(repo.remove::<Sprite>("crate").is_none());
}

#[test]
fn drain_removes_exactly_the_matching_entities() {
    let mut repo = Repository::new();
    repo.add_one(Text::new("t1", "x"));
    repo.add_one(Text::new("t2", "y"));
    repo.add_one(Text::new("keep", "z"));
    let drained = repo.drain::<Text, _>(|t: &Text| t.label().starts_with('t'));
    assert_eq!(drained.len(), 2);
    assert!(drained.iter().all(|t| t.label().starts_with('t')));
    assert!(repo.get_one::<Text>("t1").is_none());
    assert!(repo.get_one::<Text>("t2").is_none());
    let kept = repo.get_one::<Text>("keep").expect("keep must stay");
    assert_eq!(kept.value, "z");
    let still_matching = repo.find::<Text, _>(|t: &Text| t.label().starts_with('t'));
    assert!(still_matching.is_empty());
}

#[test]
fn drain_one_removes_a_single_match() {
    let mut repo = Repository::new();
    repo.add_one(Sprite::new("m1", "img/m.png"));
    repo.add_one(Sprite::new("m2", "img/m.png"));
    let taken = repo
        .drain_one::<Sprite, _>(|s: &Sprite| s.filepath == "img/m.png")
        .expect("one must match");
    assert!(taken.filepath == "img/m.png");
    assert_eq!(repo.iter::<Sprite>().len(), 1);
    assert!(repo.drain_one::<Sprite, _>(|s: &Sprite| s.layer == 9).is_none());
}

#[test]
fn drain_all_empties_one_kind() {
    let mut repo = Repository::new();
    repo.add_one(Sprite::new("a", "p"));
    repo.add_one(Sprite::new("b", "q"));
    repo.add_one(Text::new("t", "v"));
    let all = repo.drain_all::<Sprite>();
    assert_eq!(all.len(), 2);
    assert!(repo.iter::<Sprite>().is_empty());
    assert_eq!(repo.iter::<Text>().len(), 1);
}

#[test]
fn delete_reports_whether_something_went() {
    let mut repo = Repository::new();
    repo.add_one(Sprite::new("a", "p"));
    assert!(!repo.delete::<Sprite, _>(|s: &Sprite| s.collision));
    assert!(repo.delete::<Sprite, _>(|s: &Sprite| !s.collision));
    assert!(repo.iter::<Sprite>().is_empty());
}

#[test]
fn delete_one_removes_at_most_one() {
    let mut repo = Repository::new();
    repo.add_one(Text::new("a", "x"));
    repo.add_one(Text::new("b", "x"));
    assert!(repo.delete_one::<Text, _>(|t: &Text| t.value == "x"));
    assert_eq!(repo.iter::<Text>().len(), 1);
    assert!(!repo.delete_one::<Text, _>(|t: &Text| t.value == "nothing"));
}

#[test]
fn find_and_find_one_leave_entities_stored() {
    let mut repo = Repository::new();
    repo.add_one(Sprite::new("low", "p"));
    let hi = repo.add_one(Sprite::new("high", "p"));
    hi.layer = 5;
    let found = repo.find::<Sprite, _>(|s: &Sprite| s.layer > 0);
    assert_eq!(found.len(), 1);
    assert_eq!(found[0].layer, 5);
    let one = repo.find_one::<Sprite, _>(|s: &Sprite| s.layer == 0).unwrap();
    assert_eq!(one.layer, 0);
    assert!(repo.find_one::<Sprite, _>(|s: &Sprite| s.layer == 9).is_none());
    assert_eq!(repo.iter::<Sprite>().len(), 2);
}

#[test]
fn find_mut_hands_out_matching_references() {
    let mut repo = Repository::new();
    repo.add_one(Sprite::new("a", "p"));
    let b = repo.add_one(Sprite::new("b", "p"));
    b.collision = true;
    {
        let refs = repo.find_mut::<Sprite, _>(|s: &Sprite| s.collision);
        assert_eq!(refs.len(), 1);
        for r in refs {
            r.translation_x = 99_000;
        }
    }
    assert_eq!(repo.get_one::<Sprite>("b").unwrap().translation_x, 99_000);
    assert_eq!(repo.get_one::<Sprite>("a").unwrap().translation_x, 0);
}

#[test]
fn find_one_mut_adjusts_first_match() {
    let mut repo = Repository::new();
    repo.add_one(Text::new("a", "old"));
    {
        let t = repo.find_one_mut::<Text, _>(|t: &Text| t.value == "old").unwrap();
        t.value = String::from("new");
    }
    assert_eq!(repo.get_one::<Text>("a").unwrap().value, "new");
    assert!(repo.find_one_mut::<Text, _>(|t: &Text| t.value == "old").is_none());
}

#[test]
fn find_returns_each_match_exactly_once() {
    let mut repo = Repository::new();
    repo.add_one(Text::new("a", "same"));
    repo.add_one(Text::new("b", "same"));
    repo.add_one(Text::new("c", "other"));
    let found = repo.find::<Text, _>(|t: &Text| t.value == "same");
    assert_eq!(found.len(), 2);
    let drained = repo.drain::<Text, _>(|t: &Text| t.value == "same");
    assert_eq!(drained.len(), 2);
    assert_eq!(repo.iter::<Text>().len(), 1);
}

#[test]
fn filter_matches_find() {
    let mut repo = Repository::new();
    repo.add_one(Text::new("a", "m"));
    repo.add_one(Text::new("b", "n"));
    let filtered = repo.filter::<Text, _>(|t: &Text| t.value == "m");
    assert_eq!(filtered.len(), 1);
    let muts = repo.filter_mut::<Text, _>(|t: &Text| t.value == "n");
    assert_eq!(muts.len(), 1);
}

#[test]
fn iter_and_iter_mut_walk_everything() {
    let mut repo = Repository::new();
    repo.add_one(Sprite::new("a", "p"));
    repo.add_one(Sprite::new("b", "p"));
    assert_eq!(repo.iter::<Sprite>().len(), 2);
    for s in repo.iter_mut::<Sprite>() {
        s.layer = 7;
    }
    assert!(repo.iter::<Sprite>().iter().all(|s| s.layer == 7));
}

#[test]
fn for_each_and_for_each_mut_visit_everything() {
    let mut repo = Repository::new();
    repo.add_one(Text::new("a", "x"));
    repo.add_one(Text::new("b", "y"));
    repo.for_each_mut::<Text, _>(|mut t: Text| {
        t.font_size_milli = 12_000;
        t
    });
    let mut seen = 0usize;
    let count = std::cell::Cell::new(0usize);
    repo.for_each::<Text, _>(|t: &Text| {
        assert_eq!(t.font_size_milli, 12_000);
        count.set(count.get() + 1);
    });
    seen += count.get();
    assert_eq!(seen, 2);
}

#[test]
fn add_many_returns_references_in_input_order() {
    let mut repo = Repository::new();
    let ones = vec![
        Sprite::new("s1", "img/1.png"),
        Sprite::new("s2", "img/2.png"),
        Sprite::new("s3", "img/3.png"),
    ];
    {
        let refs = repo.add::<Sprite>(ones);
        assert_eq!(refs.len(), 3);
        assert_eq!(refs[0].filepath, "img/1.png");
        assert_eq!(refs[2].filepath, "img/3.png");
        for (i, r) in refs.into_iter().enumerate() {
            r.translation_x = (i as i64 + 1) * 1_000;
        }
    }
    assert_eq!(repo.get_one::<Sprite>("s1").unwrap().translation_x, 1_000);
    assert_eq!(repo.get_one::<Sprite>("s2").unwrap().translation_x, 2_000);
    assert_eq!(repo.get_one::<Sprite>("s3").unwrap().translation_x, 3_000);
}

#[test]
fn clear_empties_one_kind_only() {
    let mut repo = Repository::new();
    repo.add_one(Sprite::new("a", "p"));
    repo.add_one(Text::new("t", "v"));
    repo.clear::<Sprite>();
    assert!(repo.get_one::<Sprite>("a").is_none());
    assert!(repo.get_one::<Text>("t").is_some());
}

#[test]
fn reset_empties_every_kind() {
    let mut repo = Repository::new();
    repo.add_one(Sprite::new("a", "p"));
    repo.add_one(Sprite::new("b", "p"));
    repo.add_one(Text::new("t", "v"));
    repo.reset();
    assert!(repo.get_one::<Sprite>("a").is_none());
    assert!(repo.get_one::<Sprite>("b").is_none());
    assert!(repo.get_one::<Text>("t").is_none());
    assert!(repo.find::<Sprite, _>(|_s: &Sprite| true).is_empty());
    assert!(repo.find::<Text, _>(|_t: &Text| true).is_empty());
}

#[test]
fn state_pairs_payload_with_empty_repository() {
    let state = State::new(41u64);
    assert_eq!(state.main, 41);
    assert!(state.repo.get_one::<Sprite>("anything").is_none());
}

#[test]
fn empty_repository_walks_and_drains_to_nothing() {
    let mut repo = Repository::new();
    assert!(repo.iter::<Sprite>().is_empty());
    assert!(repo.drain::<Sprite, _>(|_s: &Sprite| true).is_empty());
    assert!(repo.find::<Text, _>(|_t: &Text| true).is_empty());
    assert!(repo.drain_one::<Text, _>(|_t: &Text| true).is_none());
}

#[test]
fn get_of_no_labels_is_an_empty_batch() {
    let mut repo = Repository::new();
    repo.add_one(Sprite::new("a", "p"));
    let got = repo.get::<Sprite>(&[]).expect("an empty request has no failing label");
    assert!(got.is_empty());
}

#[test]
fn add_of_no_entities_changes_nothing() {
    let mut repo = Repository::new();
    repo.add_one(Text::new("t", "v"));
    let refs = repo.add::<Text>(Vec::new());
    assert!(refs.is_empty());
    assert_eq!(repo.iter::<Text>().len(), 1);
}

#[test]
fn entity_label_round_trip() {
    let s = Sprite::new("my label", "p");
    assert_eq!(s.label(), "my label");
    let t = Text::new("other", "v");
    assert_eq!(t.label(), "other");
}
