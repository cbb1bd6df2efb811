use ttrpc::connection::{
    replay_plan, run_write_loop, write_step, ReadAction, ReadEvent, ReadLoopState,
};
use ttrpc::error::Error;
use ttrpc::fdstore::{SockMessage, SOCK_NAME_LEN};
use ttrpc::proto::WireMessage;

fn msg(payload: &[u8]) -> WireMessage {
    WireMessage { payload: payload.to_vec() }
}

fn record(id: u64, payload: &[u8]) -> SockMessage {
    SockMessage { sock_name: vec![b'X'; SOCK_NAME_LEN], id, message: msg(payload) }
}

#[test]
fn one_report_per_envelope() {
    // Each envelope's result channel gets exactly one report — the outcome
    // of its own send — never zero, never two; each failure also raises the
    // writer delegate's disconnect reaction, once.
    let outcomes: Vec<Result<(), Error>> =
        vec![Ok(()), Err(Error::Transport), Ok(()), Err(Error::Other)];
    let log = run_write_loop(&outcomes);
    assert_eq!(log.reports.len(), 4);
    assert_eq!(log.reports, outcomes);
    assert_eq!(log.disconnects, vec![Error::Transport, Error::Other]);
}

#[test]
fn successful_send_reports_without_disconnect() {
    let d = write_step(Ok(()));
    assert_eq!(d.report, Ok(()));
    assert!(d.disconnect.is_none());
}

#[test]
fn failed_send_reports_failure_and_disconnects() {
    let d = write_step(Err(Error::Storage));
    assert_eq!(d.report, Err(Error::Storage));
    assert_eq!(d.disconnect, Some(Error::Storage));
}

#[test]
fn replay_monotonicity() {
    // Records with ids {2, 5, 7} loaded for an identity: the next id
    // assigned to a freshly arriving frame is 8.
    let records = vec![record(2, &[1]), record(5, &[2]), record(7, &[3])];
    let plan = replay_plan(&records);
    assert_eq!(plan.next_id, 8);
    assert_eq!(plan.deliveries.len(), 3);
    let ids: Vec<u64> = plan.deliveries.iter().map(|d| d.0).collect();
    assert_eq!(ids, vec![2, 5, 7]);
    assert_eq!(plan.deliveries[1].1.payload, vec![2]);
}

#[test]
fn replay_of_nothing_starts_at_zero() {
    let records: Vec<SockMessage> = Vec::new();
    let plan = replay_plan(&records);
    assert_eq!(plan.next_id, 0);
    assert!(plan.deliveries.is_empty());
}

#[test]
fn replay_out_of_order_ids() {
    let records = vec![record(9, &[]), record(3, &[])];
    let plan = replay_plan(&records);
    assert_eq!(plan.next_id, 10);
}

#[test]
fn shutdown_wins_race_and_exits_once() {
    // A read loop racing an already-resolved shutdown signal against a
    // pending frame terminates via the shutdown path: no dispatch, no
    // disconnect, and the loop takes no further step, so the exit reaction
    // runs exactly once.
    let mut state = ReadLoopState::plain();
    let action = state.read_step(ReadEvent::Shutdown);
    assert!(matches!(action, ReadAction::Stop));
    assert!(!state.running);
}

#[test]
fn first_frame_decode_error_disconnects() {
    // A stream yielding a decode error on its first frame: disconnect is
    // invoked with the error and zero prior dispatches.
    let mut state = ReadLoopState::plain();
    let action = state.read_step(ReadEvent::ReadError(Error::Decode));
    match action {
        ReadAction::Disconnect(e) => assert_eq!(e, Error::Decode),
        _ => panic!("expected the disconnect reaction"),
    }
    assert!(!state.running);
}

#[test]
fn plain_run_dispatches_under_id_zero() {
    let mut state = ReadLoopState::plain();
    let action = state.read_step(ReadEvent::Frame(msg(&[5])));
    match action {
        ReadAction::Deliver(id, m) => {
            assert_eq!(id, 0);
            assert_eq!(m.payload, vec![5]);
        },
        _ => panic!("expected a plain dispatch"),
    }
    assert!(state.running);
}

#[test]
fn replay_run_persists_first_with_increasing_ids() {
    let mut state = ReadLoopState::with_store(8);
    let a1 = state.read_step(ReadEvent::Frame(msg(&[1])));
    match a1 {
        ReadAction::PersistThenDeliver(id, m) => {
            assert_eq!(id, 8);
            assert_eq!(m.payload, vec![1]);
        },
        _ => panic!("expected persist before dispatch"),
    }
    let a2 = state.read_step(ReadEvent::Frame(msg(&[2])));
    match a2 {
        ReadAction::PersistThenDeliver(id, _) => assert_eq!(id, 9),
        _ => panic!("expected persist before dispatch"),
    }
    assert!(state.running);
    assert_eq!(state.next_id, 10);
}
