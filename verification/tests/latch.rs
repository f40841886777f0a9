use forest_fire::latch::EdgeLatch;

#[test]
fn press_release_pulse_sequence() {
    let mut l = EdgeLatch::new();
    let inputs = [false, true, false, true, false];
    let expected = [false, false, true, false, false];
    for i in 0..inputs.len() {
        assert_eq!(l.poll(inputs[i]), expected[i], "at poll {}", i);
    }
}

#[test]
fn held_key_does_not_flicker() {
    let mut l = EdgeLatch::new();
    assert!(!l.poll(true)); // pressed
    assert!(!l.poll(true)); // still held: no change
    assert!(l.poll(false)); // released: active
    assert!(l.poll(false)); // stays active without input
    assert!(!l.poll(true)); // pressed again: inactive
    assert!(!l.poll(true)); // still held
    assert!(!l.poll(false)); // released: back to idle
    assert!(!l.poll(false));
}
