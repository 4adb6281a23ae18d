use diag_engine::probe::{get_system_state, SystemError, SystemState, MOCK_TEMPERATURE};
use diag_engine::workload::{render_artifact, StopSignal, Workload, WorkloadResult, INITIAL_VALUE};
use tokio::sync::oneshot;

fn number(bytes: &[u8]) -> u128 {
    let mut n: u128 = 0;
    for b in bytes.iter().rev() {
        n = n * 256 + u128::from(*b);
    }
    n
}

#[test]
fn the_stand_in_probe_reports_twenty_five_degrees() {
    assert_eq!(MOCK_TEMPERATURE, 25);
    assert_eq!(get_system_state(), Ok(SystemState { temperature: 25 }));
}

#[test]
fn the_probe_error_has_its_text() {
    assert_eq!(SystemError::Fail.message(), "cannot get system state");
}

#[test]
fn a_fresh_workload_holds_two() {
    assert_eq!(INITIAL_VALUE, 2);
    let workload = Workload::new();
    assert!(!workload.is_stopped());
    assert_eq!(workload.bytes(), &vec![2]);
    assert_eq!(workload.finish(), WorkloadResult { value: vec![2], completed: false });
}

#[test]
fn advance_doubles_the_number() {
    let mut workload = Workload::new();
    workload.advance();
    assert_eq!(workload.bytes(), &vec![4]);
    workload.advance();
    assert_eq!(workload.bytes(), &vec![8]);
}

#[test]
fn the_number_grows_past_one_byte() {
    let mut workload = Workload::new();
    for _ in 0..9 {
        workload.advance();
    }
    // 2 * 2^9 = 1024 = 0x0400
    assert_eq!(workload.bytes(), &vec![0x00, 0x04]);
    assert_eq!(workload.finish().to_decimal(), "1024");
}

#[test]
fn the_number_strictly_increases_with_each_advance() {
    let mut workload = Workload::new();
    let mut previous = number(workload.bytes());
    for _ in 0..100 {
        assert!(workload.tick(StopSignal::Empty));
        let current = number(workload.bytes());
        assert!(current > previous);
        assert_eq!(current, 2 * previous);
        previous = current;
    }
    assert_eq!(previous, 1u128 << 101);
    assert_eq!(workload.finish().to_decimal(), "2535301200456458802993406410752");
}

#[test]
fn tick_keeps_going_unless_the_channel_is_closed() {
    let mut workload = Workload::new();
    assert!(workload.tick(StopSignal::Empty));
    assert!(workload.tick(StopSignal::Value));
    assert_eq!(workload.bytes(), &vec![8]);
    assert!(!workload.tick(StopSignal::Closed));
    assert!(workload.is_stopped());
    assert_eq!(workload.bytes(), &vec![8]);
}

#[test]
fn a_stopped_workload_stays_stopped() {
    let mut workload = Workload::new();
    assert!(!workload.tick(StopSignal::Closed));
    assert!(!workload.tick(StopSignal::Empty));
    assert!(!workload.tick(StopSignal::Value));
    assert!(workload.is_stopped());
    assert_eq!(workload.finish(), WorkloadResult { value: vec![2], completed: true });
}

#[test]
fn poll_runs_while_the_sender_lives_and_stops_when_it_is_dropped() {
    let (tx, mut rx) = oneshot::channel::<u32>();
    let mut workload = Workload::new();
    assert!(workload.poll(&mut rx));
    assert!(workload.poll(&mut rx));
    assert!(workload.poll(&mut rx));
    assert_eq!(workload.bytes(), &vec![16]);
    drop(tx);
    assert!(!workload.poll(&mut rx));
    assert!(workload.is_stopped());
    assert_eq!(workload.bytes(), &vec![16]);
    assert!(!workload.poll(&mut rx));
    assert_eq!(workload.finish(), WorkloadResult { value: vec![16], completed: true });
}

#[test]
fn poll_takes_a_sent_value_as_no_reason_to_stop() {
    let (tx, mut rx) = oneshot::channel::<u32>();
    let mut workload = Workload::new();
    tx.send(7).unwrap();
    // The value is waiting: the workload goes on once, then finds the channel used up.
    assert!(workload.poll(&mut rx));
    assert_eq!(workload.bytes(), &vec![4]);
    assert!(!workload.poll(&mut rx));
    assert_eq!(workload.bytes(), &vec![4]);
}

#[test]
fn the_artifact_names_the_number_in_decimal() {
    let result = WorkloadResult { value: vec![0x00, 0x04], completed: true };
    assert_eq!(result.to_decimal(), "1024");
    assert_eq!(render_artifact(&result), "Calculated n:\n1024\n");
}

#[test]
fn the_decimal_of_zero_and_of_no_bytes_is_zero() {
    assert_eq!(WorkloadResult { value: vec![], completed: false }.to_decimal(), "0");
    assert_eq!(WorkloadResult { value: vec![0, 0], completed: false }.to_decimal(), "0");
    assert_eq!(WorkloadResult { value: vec![255, 255], completed: false }.to_decimal(), "65535");
}
