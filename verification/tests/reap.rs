use stackaroni::reap::{abandoned, owner_pid, Reaped};

#[test]
fn pid_is_read_from_the_right_field_for_both_shapes() {
    // The pid comes second here; reading the last field would give the sequence number.
    assert_eq!(owner_pid("stackaroni-run-48612-1"), Some(48612));
    assert_eq!(owner_pid("stackaroni-run-48612-1.tif"), Some(48612));

    // The pid comes last here, and the stack name may contain hyphens.
    assert_eq!(owner_pid("stackaroni-blossom-30799"), Some(30799));
    assert_eq!(owner_pid("stackaroni-my-odd-stack-1234"), Some(1234));
}

#[test]
fn anything_unrecognised_is_left_alone() {
    assert_eq!(owner_pid("stackaroni-blossom-notapid"), None);
    assert_eq!(owner_pid("some-other-tool-1234"), None);
    assert_eq!(owner_pid("stackaroni-"), None);
    assert_eq!(owner_pid(".DS_Store"), None);
}

#[test]
fn wildcard_pids_are_not_treated_as_process_ids() {
    assert_eq!(owner_pid("stackaroni-gone-0"), None);
    assert_eq!(owner_pid("stackaroni-run-0-1"), None);
    assert_eq!(owner_pid(&format!("stackaroni-gone-{}", u32::MAX)), None);
}

#[test]
fn the_largest_process_id_is_accepted_and_the_next_is_not() {
    assert_eq!(owner_pid("stackaroni-x-2147483647"), Some(2147483647));
    assert_eq!(owner_pid("stackaroni-x-2147483648"), None);
    assert_eq!(owner_pid("stackaroni-x-99999999999999999999"), None);
    assert_eq!(owner_pid("stackaroni-run-+7-1"), Some(7));
    assert_eq!(owner_pid("stackaroni-run--1"), None);
    assert_eq!(owner_pid("stackaroni-42"), Some(42));
}

#[test]
fn only_what_was_removed_is_counted() {
    let mut reaped = Reaped::nothing();
    reaped.record(true, 1024);
    reaped.record(false, 512);
    assert_eq!(reaped, Reaped { entries: 1, bytes: 1024 });
}

/// An entry goes where its owner is known and has exited; no other process is asked about.
#[test]
fn only_what_a_dead_process_left_is_abandoned() {
    assert!(abandoned("stackaroni-run-48612-1", |pid| pid != 48612));
    assert!(!abandoned("stackaroni-run-48612-1", |pid| pid == 48612));
    assert!(!abandoned("some-other-tool-1234", |_| panic!("nobody owns this")));
}
