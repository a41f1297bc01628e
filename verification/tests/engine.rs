use dora_daemon::engine::{watchdog_result, Engine};
use dora_daemon::types::{
    CoordinatorEffects, CoordinatorEvent, CoordinatorReply, DeliveryOutcome, DropOutcome,
    EngineError, InputMapping, Metadata, NodeConfig, SEND_TIMEOUT_MILLIS, TIMER_TIMEOUT_MILLIS,
    WATCHDOG_INTERVAL_SECS,
};
use dora_daemon::RunStatus;

const DF: u128 = 1;

fn meta(ts: u64) -> Metadata {
    Metadata { timestamp: ts }
}

fn user_input(input: &str, source: &str, output: &str) -> (String, InputMapping) {
    (
        input.to_string(),
        InputMapping::User {
            source: source.to_string(),
            output: output.to_string(),
            operator: None,
        },
    )
}

/// One producer `p` with output `x`, two subscribers `a` and `b`, each with
/// the single input `in` fed by `(p, x)`.
fn fanout_engine() -> Engine {
    let mut e = Engine::new(None);
    let nodes = vec![
        NodeConfig { node_id: "p".to_string(), inputs: vec![] },
        NodeConfig { node_id: "a".to_string(), inputs: vec![user_input("in", "p", "x")] },
        NodeConfig { node_id: "b".to_string(), inputs: vec![user_input("in", "p", "x")] },
    ];
    let actions = e.spawn_dataflow(DF, &nodes).expect("spawn");
    assert_eq!(actions.spawn_nodes, vec!["p", "a", "b"]);
    assert!(actions.timer_intervals.is_empty());
    e.handle_subscribe(DF, &"p".to_string(), 10).expect("subscribe p");
    e.handle_subscribe(DF, &"a".to_string(), 11).expect("subscribe a");
    e.handle_subscribe(DF, &"b".to_string(), 12).expect("subscribe b");
    e
}

fn dataflow<'a>(e: &'a Engine, id: u128) -> &'a dora_daemon::engine::RunningDataflow {
    &e.running.iter().find(|(d, _)| *d == id).expect("dataflow").1
}

fn has_channel(e: &Engine, id: u128, node: &str) -> bool {
    dataflow(e, id).subscribe_channels.iter().any(|(n, _)| n == node)
}

#[test]
fn contract_constants() {
    assert_eq!(SEND_TIMEOUT_MILLIS, 10);
    assert_eq!(TIMER_TIMEOUT_MILLIS, 1);
    assert_eq!(WATCHDOG_INTERVAL_SECS, 5);
}

#[test]
fn single_producer_two_subscribers_one_message() {
    let mut e = fanout_engine();
    let handle = e.handle_prepare("x".to_string(), meta(7), 16).expect("prepare");
    assert_eq!(e.segments.len(), 1);
    assert_eq!(e.segments[0].1.os_id, handle);
    assert_eq!(e.segments[0].1.len, 16);

    let plan = e.start_send(DF, &"p".to_string(), &handle).expect("send");
    assert_eq!(plan.entries.len(), 2);
    assert_eq!(plan.metadata.timestamp, 7);
    let data = plan.data.as_ref().expect("data");
    assert_eq!(data.shared_memory_id, handle);
    assert_eq!(data.len, 16);
    assert_eq!(plan.entries[0].receiver, "a");
    assert_eq!(plan.entries[1].receiver, "b");
    assert_eq!(plan.entries[0].input, "in");
    assert_ne!(plan.entries[0].drop_token, plan.entries[1].drop_token);
    let (t0, t1) = (plan.entries[0].drop_token, plan.entries[1].drop_token);

    let outcomes = vec![DeliveryOutcome::Delivered, DeliveryOutcome::Delivered];
    e.finish_send(plan, &outcomes);
    assert_eq!(e.sent_out.len(), 2);
    assert!(e.prepared.is_empty());

    assert_eq!(e.handle_drop(t0), DropOutcome::Released);
    assert_eq!(e.sent_out.len(), 1);
    assert_eq!(e.segments.len(), 1);
    assert_eq!(e.handle_drop(t1), DropOutcome::Freed);
    assert!(e.sent_out.is_empty());
    assert!(e.segments.is_empty());
}

#[test]
fn drop_token_released_exactly_once() {
    let mut e = fanout_engine();
    let handle = e.handle_prepare("x".to_string(), meta(1), 8).expect("prepare");
    let plan = e.start_send(DF, &"p".to_string(), &handle).expect("send");
    let t0 = plan.entries[0].drop_token;
    let outcomes = vec![DeliveryOutcome::Delivered, DeliveryOutcome::TimedOut];
    e.finish_send(plan, &outcomes);
    assert_eq!(e.handle_drop(t0), DropOutcome::Freed);
    assert_eq!(e.handle_drop(t0), DropOutcome::UnknownToken);
    assert_eq!(e.handle_drop(9999), DropOutcome::UnknownToken);
}

#[test]
fn slow_subscriber_is_dropped() {
    let mut e = fanout_engine();
    let handle = e.handle_prepare("x".to_string(), meta(1), 8).expect("prepare");
    let plan = e.start_send(DF, &"p".to_string(), &handle).expect("send");
    let t0 = plan.entries[0].drop_token;
    // `b` is slower than the 10 ms budget: its delivery times out, no token
    // is recorded for it and its channel stays
    let outcomes = vec![DeliveryOutcome::Delivered, DeliveryOutcome::TimedOut];
    e.finish_send(plan, &outcomes);
    assert_eq!(e.sent_out.len(), 1);
    assert!(has_channel(&e, DF, "b"));
    assert_eq!(e.handle_drop(t0), DropOutcome::Freed);
    assert!(e.segments.is_empty());
}

#[test]
fn closed_subscriber_keeps_segment_for_the_rest() {
    let mut e = fanout_engine();
    let handle = e.handle_prepare("x".to_string(), meta(1), 8).expect("prepare");
    let plan = e.start_send(DF, &"p".to_string(), &handle).expect("send");
    let t1 = plan.entries[1].drop_token;
    // `a` closed its queue between prepare and send; `b` still consumes
    let outcomes = vec![DeliveryOutcome::Closed, DeliveryOutcome::Delivered];
    e.finish_send(plan, &outcomes);
    assert!(!has_channel(&e, DF, "a"));
    assert!(has_channel(&e, DF, "b"));
    assert_eq!(e.sent_out.len(), 1);
    assert_eq!(e.segments.len(), 1);
    assert_eq!(e.handle_drop(t1), DropOutcome::Freed);
    assert!(e.segments.is_empty());
}

#[test]
fn no_delivery_frees_segment_immediately() {
    let mut e = fanout_engine();
    let handle = e.handle_prepare("x".to_string(), meta(1), 8).expect("prepare");
    let plan = e.start_send(DF, &"p".to_string(), &handle).expect("send");
    let outcomes = vec![DeliveryOutcome::TimedOut, DeliveryOutcome::Closed];
    e.finish_send(plan, &outcomes);
    assert!(e.sent_out.is_empty());
    assert!(e.segments.is_empty());
}

#[test]
fn zero_length_output_allocates_no_segment() {
    let mut e = fanout_engine();
    let handle = e.handle_prepare("x".to_string(), meta(3), 0).expect("prepare");
    // a synthetic handle stands in for an OS identifier
    assert_eq!(handle.len(), 36);
    assert!(e.segments.is_empty());
    let plan = e.start_send(DF, &"p".to_string(), &handle).expect("send");
    assert!(plan.data.is_none());
    assert_eq!(plan.entries.len(), 2);
    let outcomes = vec![DeliveryOutcome::Delivered, DeliveryOutcome::Delivered];
    e.finish_send(plan, &outcomes);
    assert!(e.sent_out.is_empty());
    assert!(e.segments.is_empty());
}

#[test]
fn prepare_rollback_frees_segment() {
    let mut e = fanout_engine();
    let handle = e.handle_prepare("x".to_string(), meta(1), 8).expect("prepare");
    assert_eq!(e.segments.len(), 1);
    e.rollback_prepared(&handle);
    assert!(e.prepared.is_empty());
    assert!(e.segments.is_empty());
    // rolling an unknown handle back changes nothing
    e.rollback_prepared(&handle);
    assert!(e.prepared.is_empty());
}

#[test]
fn send_with_unknown_handle_fails() {
    let mut e = fanout_engine();
    let r = e.start_send(DF, &"p".to_string(), &"nope".to_string());
    assert_eq!(r.unwrap_err(), EngineError::UnknownSharedMemoryId);
}

#[test]
fn send_on_unknown_dataflow_consumes_message() {
    let mut e = fanout_engine();
    let handle = e.handle_prepare("x".to_string(), meta(1), 8).expect("prepare");
    let r = e.start_send(77, &"p".to_string(), &handle);
    assert_eq!(r.unwrap_err(), EngineError::NoSuchDataflow { dataflow_id: 77 });
    // the prepared message is gone and its segment reclaimed
    assert!(e.prepared.is_empty());
    assert!(e.segments.is_empty());
}

#[test]
fn node_stop_propagates_input_closed() {
    let mut e = fanout_engine();
    let eff = e.handle_stopped(DF, &"p".to_string()).expect("stopped");
    assert!(!eff.all_nodes_finished);
    // both subscribers are told the input closed, on their own channels
    assert_eq!(eff.notifications.len(), 2);
    assert_eq!(eff.notifications[0], (11, "in".to_string()));
    assert_eq!(eff.notifications[1], (12, "in".to_string()));
    // `in` was their only open input, so their channels are gone
    assert!(!has_channel(&e, DF, "a"));
    assert!(!has_channel(&e, DF, "b"));
    assert!(has_channel(&e, DF, "p"));
}

#[test]
fn dataflow_completes_when_last_node_stops() {
    let mut e = fanout_engine();
    assert!(!e.handle_stopped(DF, &"p".to_string()).expect("p").all_nodes_finished);
    assert!(!e.handle_stopped(DF, &"a".to_string()).expect("a").all_nodes_finished);
    let eff = e.handle_stopped(DF, &"b".to_string()).expect("b");
    // the coordinator is told that all nodes finished, and the dataflow is gone
    assert!(eff.all_nodes_finished);
    assert!(e.running.is_empty());
    // a later stop for the vanished dataflow is a routing error
    let r = e.handle_stopped(DF, &"p".to_string());
    assert_eq!(r.unwrap_err(), EngineError::NoSuchDataflow { dataflow_id: DF });
}

#[test]
fn stop_dataflow_drains_channels() {
    let mut e = fanout_engine();
    let channels = e.handle_stop_dataflow(DF).expect("stop");
    assert_eq!(channels, vec![10, 11, 12]);
    assert!(dataflow(&e, DF).subscribe_channels.is_empty());
}

#[test]
fn repeated_stop_of_absent_dataflow_changes_nothing() {
    let mut e = Engine::new(None);
    for _ in 0..2 {
        let r = e.handle_stop_dataflow(5);
        assert_eq!(r.unwrap_err(), EngineError::NoSuchDataflow { dataflow_id: 5 });
        assert!(e.running.is_empty());
        assert!(e.prepared.is_empty());
        assert!(e.sent_out.is_empty());
        assert!(e.segments.is_empty());
    }
}

#[test]
fn duplicate_dataflow_is_rejected() {
    let mut e = Engine::new(None);
    let nodes = vec![NodeConfig { node_id: "p".to_string(), inputs: vec![] }];
    e.spawn_dataflow(DF, &nodes).expect("first spawn");
    let r = e.spawn_dataflow(DF, &nodes);
    assert_eq!(r.unwrap_err(), EngineError::DuplicateDataflow { dataflow_id: DF });
    assert_eq!(e.running.len(), 1);
}

#[test]
fn operator_inputs_are_rejected() {
    let mut e = Engine::new(None);
    let nodes = vec![NodeConfig {
        node_id: "a".to_string(),
        inputs: vec![(
            "in".to_string(),
            InputMapping::User {
                source: "p".to_string(),
                output: "x".to_string(),
                operator: Some("op".to_string()),
            },
        )],
    }];
    let r = e.spawn_dataflow(DF, &nodes);
    assert_eq!(r.unwrap_err(), EngineError::OperatorsNotSupported);
}

#[test]
fn timer_ticks_reach_the_subscribed_input() {
    let mut e = Engine::new(None);
    let interval: u64 = 100_000_000;
    let nodes = vec![NodeConfig {
        node_id: "a".to_string(),
        inputs: vec![("tick".to_string(), InputMapping::Timer { interval_nanos: interval })],
    }];
    let actions = e.spawn_dataflow(DF, &nodes).expect("spawn");
    assert_eq!(actions.timer_intervals, vec![interval]);
    e.handle_subscribe(DF, &"a".to_string(), 21).expect("subscribe");
    // over 350 ms a 100 ms timer fires three or four times; each tick plans
    // one delivery with no data
    for ts in [100, 200, 300] {
        let plan = e.plan_timer(DF, interval, meta(ts)).expect("tick");
        assert_eq!(plan.entries.len(), 1);
        assert_eq!(plan.entries[0].receiver, "a");
        assert_eq!(plan.entries[0].input, "tick");
        assert_eq!(plan.entries[0].channel, 21);
        assert_eq!(plan.metadata.timestamp, ts);
    }
    // a stalled subscriber only loses the tick; pruning is for closed queues
    e.prune_closed_channels(DF, &vec![]);
    assert!(has_channel(&e, DF, "a"));
    // a closed queue is pruned
    e.prune_closed_channels(DF, &vec!["a".to_string()]);
    assert!(!has_channel(&e, DF, "a"));
}

#[test]
fn timer_without_subscribers_changes_nothing() {
    let e = Engine::new(None);
    assert!(e.plan_timer(9, 1_000, meta(1)).is_none());
    let e2 = fanout_engine();
    // the fan-out dataflow has no timers at all
    assert!(e2.plan_timer(DF, 1_000, meta(1)).is_none());
    // planning borrows the engine immutably, so nothing can have changed;
    // the subscriber set is still intact
    assert_eq!(dataflow(&e2, DF).subscribe_channels.len(), 3);
}

#[test]
fn spawned_node_result_never_touches_running_nodes() {
    let mut e = fanout_engine();
    let before = dataflow(&e, DF).running_nodes.clone();
    let (status, warn) = e
        .handle_spawned_node_result(DF, &"a".to_string(), true)
        .expect("result");
    assert_eq!(status, RunStatus::Continue);
    // `a` is still subscribed: it died without sending its stop notice
    assert!(warn);
    assert_eq!(dataflow(&e, DF).running_nodes, before);
    let (_, warn2) = e
        .handle_spawned_node_result(DF, &"zzz".to_string(), true)
        .expect("result");
    assert!(!warn2);
}

#[test]
fn standalone_mode_exits_when_all_required_nodes_finish() {
    let mut e = Engine::new(Some(vec![(DF, "p".to_string()), (DF, "a".to_string())]));
    let (s1, _) = e.handle_spawned_node_result(DF, &"p".to_string(), true).expect("p");
    assert_eq!(s1, RunStatus::Continue);
    let (s2, _) = e.handle_spawned_node_result(DF, &"a".to_string(), true).expect("a");
    assert_eq!(s2, RunStatus::Exit);
}

#[test]
fn standalone_node_failure_is_fatal() {
    let mut e = Engine::new(Some(vec![(DF, "p".to_string())]));
    let r = e.handle_spawned_node_result(DF, &"p".to_string(), false);
    assert_eq!(
        r.unwrap_err(),
        EngineError::NodeFailed { dataflow_id: DF, node_id: "p".to_string() }
    );
    // outside standalone mode the failure is only logged
    let mut e2 = Engine::new(None);
    assert!(e2.handle_spawned_node_result(DF, &"p".to_string(), false).is_ok());
}

#[test]
fn watchdog_failure_loses_the_coordinator() {
    assert!(watchdog_result(true).is_ok());
    let err = watchdog_result(false).unwrap_err();
    assert_eq!(err, EngineError::LostCoordinatorConnection);
    assert_eq!(err.message(), "lost connection to coordinator");
}

#[test]
fn destroy_exits_without_touching_state() {
    let mut e = fanout_engine();
    let running_before = e.running.len();
    let (reply, status, effects) = e.handle_coordinator_event(CoordinatorEvent::Destroy);
    assert!(matches!(reply, CoordinatorReply::DestroyResult(Ok(()))));
    assert_eq!(status, RunStatus::Exit);
    assert!(matches!(effects, CoordinatorEffects::NoEffect));
    assert_eq!(e.running.len(), running_before);
    // after the exit the loop is gone: there is no second invocation to make
}

#[test]
fn coordinator_watchdog_command_is_acknowledged() {
    let mut e = Engine::new(None);
    let (reply, status, _) = e.handle_coordinator_event(CoordinatorEvent::Watchdog);
    assert!(matches!(reply, CoordinatorReply::WatchdogAck));
    assert_eq!(status, RunStatus::Continue);
}

#[test]
fn stop_command_replies_with_spawn_result() {
    let mut e = fanout_engine();
    let (reply, _, effects) =
        e.handle_coordinator_event(CoordinatorEvent::StopDataflow { dataflow_id: DF });
    assert!(matches!(reply, CoordinatorReply::SpawnResult(Ok(()))));
    assert!(matches!(effects, CoordinatorEffects::StopChannels(ref c) if c.len() == 3));
    let (reply2, _, _) =
        e.handle_coordinator_event(CoordinatorEvent::StopDataflow { dataflow_id: 42 });
    assert!(matches!(reply2, CoordinatorReply::SpawnResult(Err(_))));
}

#[test]
fn subscribe_to_unknown_dataflow_fails() {
    let mut e = Engine::new(None);
    let r = e.handle_subscribe(3, &"a".to_string(), 1);
    assert_eq!(r.unwrap_err(), EngineError::NoSuchDataflow { dataflow_id: 3 });
}

#[test]
fn prepare_send_drop_restores_accounting() {
    let mut e = fanout_engine();
    assert!(e.prepared.is_empty() && e.sent_out.is_empty() && e.segments.is_empty());
    let handle = e.handle_prepare("x".to_string(), meta(1), 32).expect("prepare");
    let plan = e.start_send(DF, &"p".to_string(), &handle).expect("send");
    let tokens: Vec<u64> = plan.entries.iter().map(|en| en.drop_token).collect();
    let outcomes = vec![DeliveryOutcome::Delivered, DeliveryOutcome::Delivered];
    e.finish_send(plan, &outcomes);
    for (i, t) in tokens.iter().enumerate() {
        let out = e.handle_drop(*t);
        if i + 1 == tokens.len() {
            assert_eq!(out, DropOutcome::Freed);
        } else {
            assert_eq!(out, DropOutcome::Released);
        }
    }
    // the shared-memory accounting is back where it started
    assert!(e.prepared.is_empty() && e.sent_out.is_empty() && e.segments.is_empty());
}

#[test]
fn dataflows_are_isolated() {
    let mut e = fanout_engine();
    let other: u128 = 2;
    let nodes = vec![
        NodeConfig { node_id: "p".to_string(), inputs: vec![] },
        NodeConfig { node_id: "c".to_string(), inputs: vec![user_input("in", "p", "x")] },
    ];
    e.spawn_dataflow(other, &nodes).expect("second spawn");
    e.handle_subscribe(other, &"c".to_string(), 30).expect("subscribe c");
    // stopping the first dataflow leaves the second untouched
    e.handle_stop_dataflow(DF).expect("stop");
    assert!(has_channel(&e, other, "c"));
    assert_eq!(dataflow(&e, other).running_nodes.len(), 2);
}

#[test]
fn resubscribe_replaces_the_channel() {
    let mut e = fanout_engine();
    e.handle_subscribe(DF, &"a".to_string(), 99).expect("resubscribe");
    let df = dataflow(&e, DF);
    let entries: Vec<&(String, u64)> =
        df.subscribe_channels.iter().filter(|(n, _)| n == "a").collect();
    assert_eq!(entries.len(), 1);
    assert_eq!(entries[0].1, 99);
}

#[test]
fn send_without_receivers_succeeds_and_frees() {
    let mut e = Engine::new(None);
    let nodes = vec![NodeConfig { node_id: "p".to_string(), inputs: vec![] }];
    e.spawn_dataflow(DF, &nodes).expect("spawn");
    e.handle_subscribe(DF, &"p".to_string(), 10).expect("subscribe");
    let handle = e.handle_prepare("x".to_string(), meta(1), 8).expect("prepare");
    // no mapping lists any receiver for (p, x): the plan is empty and the
    // segment is reclaimed once the send completes
    let plan = e.start_send(DF, &"p".to_string(), &handle).expect("send");
    assert!(plan.entries.is_empty());
    e.finish_send(plan, &vec![]);
    assert!(e.segments.is_empty());
    assert!(e.sent_out.is_empty());
}

#[test]
fn fresh_engine_has_send_headroom() {
    let e = fanout_engine();
    assert!(e.can_start_send(DF));
    assert!(e.can_start_send(42));
}
