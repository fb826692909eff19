use labello::prelabels::{prelabel_choice, Generation, HintAction, HintEffect, HintKey, HintReply, PrelabelWork};

const TASK: u64 = 3;
const CONFIG: u64 = 9;

fn key(image: u64) -> HintKey {
    HintKey { image, task: TASK, config: CONFIG }
}

fn hints(generation: u64, paused: bool) -> HintReply {
    HintReply::Hints {
        suggestions: Vec::new(),
        execution: None,
        generation: Generation { id: generation, paused },
        from_batch: true,
    }
}

#[test]
fn the_current_image_is_loaded_first_then_prepared_ones_then_checked() {
    let mut work = PrelabelWork::new();
    let images = vec![10, 11];
    let (cancelled, request) = work.refresh(TASK, CONFIG, &images, 0);
    assert_eq!((cancelled, request), (None, Some(HintAction::Load(key(10)))));
    work.start(1, HintAction::Load(key(10)));
    assert!(matches!(work.accept(1, Ok(hints(5, false)), Some(CONFIG), 100), HintEffect::SetSuggestions { image: 10, .. }));
    assert_eq!(work.refresh(TASK, CONFIG, &images, 200).1, Some(HintAction::Load(key(11))));
    work.start(2, HintAction::Load(key(11)));
    work.accept(2, Ok(hints(5, false)), Some(CONFIG), 300);
    assert_eq!(work.refresh(TASK, CONFIG, &images, 1_000).1, None);
    assert_eq!(work.refresh(TASK, CONFIG, &images, 2_100).1, Some(HintAction::Check(key(10))));
    assert_eq!(work.status(key(10)).unwrap().checked_at, 100);
}

#[test]
fn hints_of_images_no_longer_shown_are_dropped_and_stale_loads_cancelled() {
    let mut work = PrelabelWork::new();
    work.start(1, HintAction::Load(key(10)));
    work.accept(1, Ok(hints(5, false)), Some(CONFIG), 0);
    work.start(2, HintAction::Load(key(11)));
    let (cancelled, request) = work.refresh(TASK, CONFIG, &vec![12], 0);
    assert_eq!(cancelled, Some(2));
    assert_eq!(request, Some(HintAction::Load(key(12))));
    assert!(work.status(key(10)).is_none());
    assert!(work.in_flight().is_none());
}

#[test]
fn a_changed_generation_drops_all_hints_and_keeps_a_paused_one() {
    let mut work = PrelabelWork::new();
    work.start(1, HintAction::Load(key(10)));
    work.accept(1, Ok(hints(5, false)), Some(CONFIG), 0);
    work.start(2, HintAction::Check(key(10)));
    assert!(matches!(work.accept(2, Ok(HintReply::Generation(Generation { id: 5, paused: false })), Some(CONFIG), 50), HintEffect::Nothing));
    assert_eq!(work.status(key(10)).unwrap().checked_at, 50);
    work.start(3, HintAction::Check(key(10)));
    assert!(matches!(work.accept(3, Ok(HintReply::Generation(Generation { id: 6, paused: true })), Some(CONFIG), 60), HintEffect::ClearAll));
    let status = work.status(key(10)).unwrap();
    assert_eq!(status.generation, Some(Generation { id: 6, paused: true }));
    assert!(!status.from_batch);
}

#[test]
fn errors_are_kept_and_replies_for_another_choice_are_ignored() {
    let mut work = PrelabelWork::new();
    work.start(1, HintAction::Load(key(10)));
    assert!(matches!(work.accept(7, Err("late".to_string()), Some(CONFIG), 0), HintEffect::Nothing));
    assert!(work.in_flight().is_some());
    work.accept(1, Err("model offline".to_string()), Some(CONFIG), 0);
    assert_eq!(
        work.status(key(10)).unwrap().error.as_deref(),
        Some("Hints unavailable: model offline. Manual annotation is still available.")
    );
    work.forget(key(10));
    assert!(work.status(key(10)).is_none());
    work.start(2, HintAction::Load(key(10)));
    work.accept(2, Ok(hints(1, false)), Some(CONFIG + 1), 0);
    assert!(work.status(key(10)).is_none());
    assert!(work.in_flight().is_none());
}

#[test]
fn prelabel_choice_keeps_an_offered_pick_and_defaults_to_the_first_offered() {
    let offered = vec![7, 3, 9];
    assert_eq!(prelabel_choice(true, None, &offered), Some(7));
    assert_eq!(prelabel_choice(true, Some(Some(9)), &offered), Some(9));
    assert_eq!(prelabel_choice(true, Some(Some(4)), &offered), None);
    assert_eq!(prelabel_choice(true, Some(None), &offered), None);
    assert_eq!(prelabel_choice(true, None, &Vec::new()), None);
    assert_eq!(prelabel_choice(false, None, &offered), None);
}
