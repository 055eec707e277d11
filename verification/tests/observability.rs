use pulsur::observability::{
    gauge_value, observe_active_connections, observe_component_health, observe_queue_depth,
    ComponentHealth, ComponentState, HealthTable, ObservabilityState,
};
use pulsur::ws::{echo_reply, encode_frame, FrameParse, WebSocket, WsMessage};

fn report(name: &str, state: ComponentState, at: u64) -> ComponentHealth {
    ComponentHealth { component: name.to_string(), state, detail: String::new(), updated_at_ms: at }
}

#[test]
fn health_table_keeps_last_report_sorted_by_name() {
    let mut table = HealthTable::new();
    table.update(report("queue", ComponentState::Healthy, 1));
    table.update(report("gateway", ComponentState::Degraded, 2));
    table.update(report("queue", ComponentState::Down, 3));
    let sorted = table.sorted();
    assert_eq!(sorted.len(), 2);
    assert_eq!(sorted[0].component, "gateway");
    assert_eq!(sorted[1].component, "queue");
    assert_eq!(sorted[1].state, ComponentState::Down);
    assert_eq!(sorted[1].updated_at_ms, 3);
    assert_eq!(gauge_value(-5), 0);
    assert_eq!(gauge_value(7), 7);
}

#[test]
fn websocket_buffers_partial_frames() {
    let mut ws = WebSocket::new();
    let frame = encode_frame(0x82, &[1, 2, 3]);
    ws.receive(&frame[..3]);
    assert!(matches!(ws.next_frame(), FrameParse::Incomplete));
    ws.receive(&frame[3..]);
    ws.receive(&encode_frame(0x89, &[]));
    match ws.next_frame() {
        FrameParse::Frame(f, n) => {
            assert_eq!(f.opcode, 2);
            assert_eq!(f.payload, vec![1, 2, 3]);
            assert_eq!(n, 5);
        }
        _ => panic!("expected a frame"),
    }
    assert!(matches!(ws.next_frame(), FrameParse::Frame(ref f, 2) if f.opcode == 9));
    assert!(matches!(ws.next_frame(), FrameParse::Incomplete));
}

#[test]
fn echo_replies() {
    assert_eq!(
        echo_reply(&WsMessage::Text("hi".into())),
        Some(encode_frame(0x81, b"Pulsar Echo: hi"))
    );
    assert_eq!(echo_reply(&WsMessage::Binary(vec![9])), Some(encode_frame(0x82, &[9])));
    assert_eq!(echo_reply(&WsMessage::Ping), None);
}

#[test]
fn observe_functions_update_agent_state() {
    let mut agent = ObservabilityState::new();
    observe_active_connections(&mut agent, "http-server", 4);
    observe_active_connections(&mut agent, "http-server", -2);
    observe_queue_depth(&mut agent, "emails", 9);
    observe_component_health(&mut agent, "queue", ComponentState::Degraded, "slow".to_string(), 42);
    agent.record_request(true);
    assert_eq!(agent.connections_of("http-server"), Some(0));
    assert_eq!(agent.depth_of("emails"), Some(9));
    assert_eq!(agent.depth_of("other"), None);
    assert_eq!(agent.counts(), (1, 1));
    let health = agent.component_health();
    assert_eq!(health.len(), 1);
    assert_eq!(health[0].detail, "slow");
    assert_eq!(health[0].updated_at_ms, 42);
}

#[test]
fn gauge_totals_sum_latest_readings() {
    let mut agent = ObservabilityState::new();
    assert_eq!((agent.active_connections_total(), agent.queue_depth_total()), (0, 0));
    agent.set_active_connections("http-server", 8);
    agent.set_active_connections("gateway", 3);
    assert_eq!(agent.active_connections_total(), 11);
    agent.set_active_connections("http-server", 5);
    assert_eq!(agent.active_connections_total(), 8);
    agent.set_active_connections("gateway", -7);
    assert_eq!(agent.active_connections_total(), 5);
    observe_queue_depth(&mut agent, "emails", 42);
    observe_queue_depth(&mut agent, "sms", i64::MAX);
    observe_queue_depth(&mut agent, "push", i64::MAX);
    assert_eq!(agent.queue_depth_total(), 42 + 2 * i64::MAX as i128);
    observe_queue_depth(&mut agent, "emails", 2);
    assert_eq!(agent.queue_depth_total(), 2 + 2 * i64::MAX as i128);
}
