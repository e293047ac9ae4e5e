use splitar::{VolumeLifecycle, VolumePhase};

#[test]
fn plain_volume_is_published() {
    let mut v = VolumeLifecycle::new(false);
    assert!(v.is_active());
    assert!(!v.may_publish());
    assert!(!v.writer_closed());
    assert!(v.may_publish());
    v.published();
    assert_eq!(v.phase(), VolumePhase::Finished);
}

#[test]
fn compressed_volume_waits_for_its_process() {
    let mut v = VolumeLifecycle::new(true);
    assert!(v.writer_closed());
    assert!(!v.may_publish());
    assert_eq!(v.subprocess_exited(true, Some(0)), Ok(()));
    assert!(v.may_publish());
    v.published();
    assert_eq!(v.phase(), VolumePhase::Finished);
}

#[test]
fn failed_process_rolls_back() {
    let mut v = VolumeLifecycle::new(true);
    v.writer_closed();
    assert_eq!(v.subprocess_exited(false, Some(2)), Err(2));
    assert_eq!(v.phase(), VolumePhase::Aborted);
    assert!(!v.may_publish());
    let mut w = VolumeLifecycle::new(true);
    w.writer_closed();
    assert_eq!(w.subprocess_exited(false, None), Err(-1));
}

#[test]
fn interrupted_volume_is_never_published() {
    let mut v = VolumeLifecycle::new(true);
    assert!(v.abort());
    assert_eq!(v.phase(), VolumePhase::Aborted);
    assert!(!v.may_publish());
    assert!(!v.is_active());
    assert!(!v.abort());
}

#[test]
fn finished_volume_stays_finished() {
    let mut v = VolumeLifecycle::new(false);
    v.writer_closed();
    v.published();
    assert!(!v.abort());
    assert_eq!(v.phase(), VolumePhase::Finished);
}

#[test]
fn interruption_in_second_volume_keeps_the_first() {
    let mut first = VolumeLifecycle::new(false);
    first.writer_closed();
    assert!(first.may_publish());
    first.published();
    let mut second = VolumeLifecycle::new(false);
    assert!(!second.abort());
    assert_eq!(second.phase(), VolumePhase::Aborted);
    assert!(!second.may_publish());
    assert_eq!(first.phase(), VolumePhase::Finished);
}
