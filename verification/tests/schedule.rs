use bbg::storage::schedule::ArchivalSchedule;

#[test]
fn not_due_before_the_interval_elapses() {
    let mut s = ArchivalSchedule::new(3);
    s.record_block();
    s.record_block();
    assert!(!s.due());
}

#[test]
fn due_once_the_interval_elapses() {
    let mut s = ArchivalSchedule::new(3);
    s.record_block();
    s.record_block();
    s.record_block();
    assert!(s.due());
}

#[test]
fn stays_due_past_the_interval_until_checkpointed() {
    let mut s = ArchivalSchedule::new(2);
    for _ in 0..5 {
        s.record_block();
    }
    assert!(s.due());
}

#[test]
fn checkpoint_ran_resets_the_counter() {
    let mut s = ArchivalSchedule::new(2);
    s.record_block();
    s.record_block();
    assert!(s.due());

    s.checkpoint_ran();

    assert!(!s.due());
    s.record_block();
    assert!(!s.due());
    s.record_block();
    assert!(s.due());
}

#[test]
fn a_zero_interval_is_clamped_to_one_not_always_due() {
    let s = ArchivalSchedule::new(0);
    assert!(!s.due());
}

#[test]
fn a_fresh_schedule_is_not_due() {
    let s = ArchivalSchedule::new(10);
    assert!(!s.due());
}

#[test]
fn a_zero_interval_is_due_after_one_block() {
    let mut s = ArchivalSchedule::new(0);
    s.record_block();
    assert!(s.due());
}
