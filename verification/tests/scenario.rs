//! Scenarios: what is accepted, what is refused and why, and how events come
//! about.

use serde_json::Value;

use weft::abi::splitmix64;
use weft::orchestrator::{NodeRegistry, NodeStatus, Scheduler, Turn};
use weft::scenario::{
    validate_partition_spec, EventAction, FileSystemFaults, LatencyDistribution, NetworkFaults,
    Node, Scenario, ScenarioError, ScheduledEvent,
};

// ---- reading a document ---------------------------------------------------

fn bad(why: &str) -> ScenarioError {
    ScenarioError::ParseError(why.to_string())
}

fn text_at(v: &Value, key: &str) -> Result<String, ScenarioError> {
    v.get(key)
        .and_then(Value::as_str)
        .map(str::to_string)
        .ok_or_else(|| bad(key))
}

fn number_at(v: &Value, key: &str) -> Result<u64, ScenarioError> {
    v.get(key).and_then(Value::as_u64).ok_or_else(|| bad(key))
}

fn some<'a>(v: &'a Value, key: &str) -> Option<&'a Value> {
    v.get(key).filter(|x| !x.is_null())
}

fn bits_at(v: &Value, key: &str) -> Result<Option<u64>, ScenarioError> {
    match some(v, key) {
        None => Ok(None),
        Some(x) => x
            .as_f64()
            .map(|f| Some(f.to_bits()))
            .ok_or_else(|| bad(key)),
    }
}

fn node_of(v: &Value) -> Result<Node, ScenarioError> {
    let args = v.get("args").and_then(Value::as_array).ok_or_else(|| bad("args"))?;
    Ok(Node {
        node_id: number_at(v, "node_id")? as usize,
        program: text_at(v, "program")?,
        args: args
            .iter()
            .map(|a| a.as_str().map(str::to_string).ok_or_else(|| bad("args")))
            .collect::<Result<_, _>>()?,
    })
}

fn event_of(v: &Value) -> Result<ScheduledEvent, ScenarioError> {
    let a = v.get("action").ok_or_else(|| bad("action"))?;
    let action = match text_at(a, "type")?.as_str() {
        "crash" => EventAction::Crash {
            node_id: number_at(a, "node_id")? as usize,
        },
        "start" => EventAction::Start {
            node_id: number_at(a, "node_id")? as usize,
        },
        "activate_partition" => EventAction::ActivatePartition {
            spec: text_at(a, "spec")?,
        },
        "clear_partition" => EventAction::ClearPartition,
        _ => return Err(bad("type")),
    };
    Ok(ScheduledEvent {
        time_ns: number_at(v, "time_ns")?,
        action,
    })
}

fn network_of(v: &Value) -> Result<NetworkFaults, ScenarioError> {
    Ok(NetworkFaults {
        latency: some(v, "latency").map(|_| text_at(v, "latency")).transpose()?,
        loss: bits_at(v, "loss")?,
        bandwidth: some(v, "bandwidth")
            .map(|_| number_at(v, "bandwidth"))
            .transpose()?,
        partitions: some(v, "partitions")
            .map(|_| text_at(v, "partitions"))
            .transpose()?,
    })
}

fn parse_scenario_yaml(json: &str) -> Result<Scenario, ScenarioError> {
    let v: Value = serde_json::from_str(json).map_err(|e| bad(&e.to_string()))?;
    let list = |key: &str| -> Result<Vec<Value>, ScenarioError> {
        v.get(key)
            .and_then(Value::as_array)
            .cloned()
            .ok_or_else(|| bad(key))
    };
    let mut filesystem = None;
    if let Some(fs) = some(&v, "filesystem") {
        let mut all = Vec::new();
        for (id, f) in fs.as_object().ok_or_else(|| bad("filesystem"))? {
            all.push((
                id.parse::<usize>().map_err(|e| bad(&e.to_string()))?,
                FileSystemFaults {
                    fsync_lies: f.get("fsync_lies").and_then(Value::as_bool).unwrap_or(false),
                    enospc_after_bytes: some(f, "enospc_after_bytes")
                        .map(|_| number_at(f, "enospc_after_bytes"))
                        .transpose()?,
                    torn_write_probability: bits_at(f, "torn_write_probability")?,
                },
            ));
        }
        filesystem = Some(all);
    }
    Scenario {
        name: text_at(&v, "name")?,
        description: some(&v, "description").and_then(Value::as_str).map(str::to_string),
        seed: number_at(&v, "seed")?,
        nodes: list("nodes")?.iter().map(node_of).collect::<Result<_, _>>()?,
        network: some(&v, "network").map(network_of).transpose()?,
        filesystem,
        time_skew: None,
        events: match v.get("events") {
            None => Vec::new(),
            Some(_) => list("events")?.iter().map(event_of).collect::<Result<_, _>>()?,
        },
    }
    .take_in()
}

fn scenario(nodes: usize, events: Vec<(u64, EventAction)>) -> Scenario {
    Scenario {
        name: "test".to_string(),
        description: Some("test scenario".to_string()),
        seed: 42,
        nodes: (0..nodes)
            .map(|node_id| Node {
                node_id,
                program: "./prog".to_string(),
                args: vec![],
            })
            .collect(),
        network: None,
        filesystem: Default::default(),
        time_skew: Default::default(),
        events: events
            .into_iter()
            .map(|(time_ns, action)| ScheduledEvent { time_ns, action })
            .collect(),
    }
}

// ---- latency --------------------------------------------------------------

#[test]
fn parse_fixed() {
    assert_eq!(
        LatencyDistribution::parse("fixed:1000").unwrap(),
        LatencyDistribution::Fixed { ns: 1000 }
    );
}

#[test]
fn parse_uniform() {
    assert_eq!(
        LatencyDistribution::parse("uniform:100-5000").unwrap(),
        LatencyDistribution::Uniform {
            lo_ns: 100,
            hi_ns: 5000
        }
    );
}

#[test]
fn parse_exponential() {
    assert_eq!(
        LatencyDistribution::parse("exp:1000").unwrap(),
        LatencyDistribution::Exponential { mean_ns: 1000 }
    );
}

#[test]
fn invalid_formats() {
    assert!(LatencyDistribution::parse("uniform:5000-100").is_err()); // lo > hi
    assert!(LatencyDistribution::parse("exp:0").is_err()); // mean = 0
    assert!(LatencyDistribution::parse("foo:123").is_err()); // unknown type
}

#[test]
fn latency_errors_say_what_is_wrong() {
    let says = |s: &str| LatencyDistribution::parse(s).unwrap_err().text("");
    assert_eq!(
        says(" fixed:x "),
        "Invalid latency spec 'fixed:x': invalid digit found in string"
    );
    assert_eq!(
        says("fixed:"),
        "Invalid latency spec 'fixed:': cannot parse integer from empty string"
    );
    assert_eq!(
        says("uniform:1-x"),
        "Invalid latency spec 'uniform:1-x': hi: invalid digit found in string"
    );
    assert_eq!(
        says("uniform:9-1"),
        "Invalid latency spec 'uniform:9-1': lo (9) must be <= hi (1)"
    );
    assert_eq!(says("exp:0"), "Invalid latency spec 'exp:0': mean must be > 0");
    assert_eq!(
        says("foo"),
        "Invalid latency spec 'foo': must be 'fixed:N', 'uniform:LO-HI', or 'exp:MEAN'"
    );
}

// ---- partitions -----------------------------------------------------------

#[test]
fn test_partition_spec_validation() {
    // Valid partitions
    assert!(validate_partition_spec("0+1|2").is_ok());
    assert!(validate_partition_spec("0|1|2").is_ok());
    assert!(validate_partition_spec("").is_ok()); // empty clears partitions

    // Invalid partitions
    assert!(validate_partition_spec("|0").is_err()); // leading |
    assert!(validate_partition_spec("0||1").is_err()); // consecutive |
    assert!(validate_partition_spec("0+|1").is_err()); // empty node
    assert!(validate_partition_spec("0+x").is_err()); // non-numeric node
}

// ---- whole scenarios ------------------------------------------------------

#[test]
fn parse_minimal_scenario() {
    let json = r#"{"name":"test","seed":42,"nodes":[{"node_id":0,"program":"./prog","args":[]}]}"#;
    let scenario = parse_scenario_yaml(json).unwrap();
    assert_eq!(scenario.name, "test");
    assert_eq!(scenario.seed, 42);
    assert_eq!(scenario.nodes.len(), 1);
}

#[test]
fn parse_parse_with_network_faults() {
    let json = r#"{"name":"net-test","seed":42,"nodes":[{"node_id":0,"program":"./prog","args":[]}],"network":{"latency":"uniform:100-1000","loss":0.1}}"#;
    let scenario = parse_scenario_yaml(json).unwrap();
    assert!(scenario.network.is_some());
}

#[test]
fn invalid_loss_probability() {
    let json = r#"{"name":"test","seed":42,"nodes":[{"node_id":0,"program":"./prog","args":[]}],"network":{"loss":1.5}}"#;
    assert!(parse_scenario_yaml(json).is_err());
}

#[test]
fn parse_minimal_valid_scenario() {
    let json = r#"{
  "name": "test",
  "seed": 42,
  "nodes": [
    {"node_id": 0, "program": "./prog", "args": []}
  ]
}"#;
    let result = parse_scenario_yaml(json);
    assert!(result.is_ok());
    let scenario = result.unwrap();
    assert_eq!(scenario.name, "test");
    assert_eq!(scenario.seed, 42);
    assert_eq!(scenario.nodes.len(), 1);
}

#[test]
fn parse_multi_node_scenario() {
    let json = r#"{
  "name": "3-nodes",
  "seed": 100,
  "nodes": [
    {"node_id": 0, "program": "./writer", "args": ["--verbose"]},
    {"node_id": 1, "program": "./replica", "args": []},
    {"node_id": 2, "program": "./replica", "args": []}
  ]
}"#;
    let result = parse_scenario_yaml(json);
    assert!(result.is_ok());
    let scenario = result.unwrap();
    assert_eq!(scenario.nodes.len(), 3);
}

#[test]
fn scenario_parser_parse_with_network_faults() {
    let json = r#"{
  "name": "with-net",
  "seed": 42,
  "nodes": [{"node_id": 0, "program": "./prog", "args": []}],
  "network": {"latency": "uniform:100-1000", "loss": 0.1}
}"#;
    let result = parse_scenario_yaml(json);
    assert!(result.is_ok());
    let scenario = result.unwrap();
    assert!(scenario.network.is_some());
}

#[test]
fn parse_with_events() {
    let json = r#"{
  "name": "with-events",
  "seed": 42,
  "nodes": [{"node_id": 0, "program": "./prog", "args": []}],
  "events": [
    {"time_ns": 1000, "action": {"type": "crash", "node_id": 0}},
    {"time_ns": 5000, "action": {"type": "start", "node_id": 0}}
  ]
}"#;
    let result = parse_scenario_yaml(json);
    assert!(result.is_ok());
    let scenario = result.unwrap();
    assert_eq!(scenario.events.len(), 2);
    assert!(scenario.events[0].time_ns < scenario.events[1].time_ns);
}

#[test]
fn parse_with_filesystem_faults() {
    let json = r#"{
  "name": "with-fs",
  "seed": 42,
  "nodes": [{"node_id": 0, "program": "./prog", "args": []}],
  "filesystem": {
    "0": {"fsync_lies": true, "enospc_after_bytes": 1000000, "torn_write_probability": 0.05}
  }
}"#;
    let result = parse_scenario_yaml(json);
    assert!(result.is_ok());
}

#[test]
fn reject_invalid_loss_probability_above_one() {
    let json = r#"{
  "name": "bad-loss",
  "seed": 42,
  "nodes": [{"node_id": 0, "program": "./prog", "args": []}],
  "network": {"loss": 1.5}
}"#;
    let result = parse_scenario_yaml(json);
    assert!(result.is_err());
}

#[test]
fn reject_invalid_loss_probability_negative() {
    let json = r#"{
  "name": "bad-loss",
  "seed": 42,
  "nodes": [{"node_id": 0, "program": "./prog", "args": []}],
  "network": {"loss": -0.1}
}"#;
    let result = parse_scenario_yaml(json);
    assert!(result.is_err());
}

#[test]
fn reject_malformed_latency_fixed() {
    let json = r#"{
  "name": "bad-latency",
  "seed": 42,
  "nodes": [{"node_id": 0, "program": "./prog", "args": []}],
  "network": {"latency": "fixed:abc"}
}"#;
    let result = parse_scenario_yaml(json);
    assert!(result.is_err());
}

#[test]
fn reject_malformed_latency_uniform_inverted() {
    let json = r#"{
  "name": "bad-latency",
  "seed": 42,
  "nodes": [{"node_id": 0, "program": "./prog", "args": []}],
  "network": {"latency": "uniform:5000-100"}
}"#;
    let result = parse_scenario_yaml(json);
    assert!(result.is_err(), "lo > hi should be rejected");
}

#[test]
fn reject_malformed_latency_exponential_zero_mean() {
    let json = r#"{
  "name": "bad-latency",
  "seed": 42,
  "nodes": [{"node_id": 0, "program": "./prog", "args": []}],
  "network": {"latency": "exp:0"}
}"#;
    let result = parse_scenario_yaml(json);
    assert!(result.is_err(), "exp with mean=0 should be rejected");
}

#[test]
fn reject_unknown_latency_type() {
    let json = r#"{
  "name": "bad-latency",
  "seed": 42,
  "nodes": [{"node_id": 0, "program": "./prog", "args": []}],
  "network": {"latency": "foobar:123"}
}"#;
    let result = parse_scenario_yaml(json);
    assert!(result.is_err());
}

#[test]
fn reject_non_sequential_node_ids() {
    let json = r#"{
  "name": "bad-nodes",
  "seed": 42,
  "nodes": [
    {"node_id": 0, "program": "./prog", "args": []},
    {"node_id": 2, "program": "./prog", "args": []}
  ]
}"#;
    let result = parse_scenario_yaml(json);
    // Validation happens during parsing, so we expect error
    assert!(result.is_err());
}

#[test]
fn reject_event_referencing_nonexistent_node() {
    let json = r#"{
  "name": "bad-event",
  "seed": 42,
  "nodes": [{"node_id": 0, "program": "./prog", "args": []}],
  "events": [{"time_ns": 1000, "action": {"type": "crash", "node_id": 5}}]
}"#;
    let result = parse_scenario_yaml(json);
    assert!(result.is_err() || result.unwrap().validate().is_err());
}

#[test]
fn reject_filesystem_fault_for_nonexistent_node() {
    let json = r#"{
  "name": "bad-fs",
  "seed": 42,
  "nodes": [{"node_id": 0, "program": "./prog", "args": []}],
  "filesystem": {"10": {"fsync_lies": true}}
}"#;
    let result = parse_scenario_yaml(json);
    assert!(result.is_err() || result.unwrap().validate().is_err());
}

#[test]
fn reject_malformed_partition_spec_empty_group() {
    let json = r#"{
  "name": "bad-partition",
  "seed": 42,
  "nodes": [{"node_id": 0, "program": "./prog", "args": []}],
  "network": {"partitions": "|0"}
}"#;
    let result = parse_scenario_yaml(json);
    assert!(result.is_err());
}

#[test]
fn reject_malformed_partition_spec_non_numeric() {
    let json = r#"{
  "name": "bad-partition",
  "seed": 42,
  "nodes": [{"node_id": 0, "program": "./prog", "args": []}],
  "network": {"partitions": "0+x"}
}"#;
    let result = parse_scenario_yaml(json);
    assert!(result.is_err());
}

#[test]
fn accept_valid_partition_spec() {
    let json = r#"{
  "name": "partition",
  "seed": 42,
  "nodes": [
    {"node_id": 0, "program": "./prog", "args": []},
    {"node_id": 1, "program": "./prog", "args": []},
    {"node_id": 2, "program": "./prog", "args": []}
  ],
  "network": {"partitions": "0+1|2"}
}"#;
    let result = parse_scenario_yaml(json);
    assert!(result.is_ok());
}

#[test]
fn parser_never_panics_on_empty() {
    let _ = parse_scenario_yaml("");
}

#[test]
fn parser_never_panics_on_garbage() {
    let garbage = "!@#$%^&*()_+-=[]{}|;:',.<>?/`~";
    let _ = parse_scenario_yaml(garbage);
}

#[test]
fn parser_never_panics_on_huge_seed() {
    let json = r#"{
  "name": "test",
  "seed": 18446744073709551615,
  "nodes": [{"node_id": 0, "program": "./prog", "args": []}]
}"#;
    let _ = parse_scenario_yaml(json);
}

#[test]
fn parser_never_panics_on_many_nodes() {
    let mut json = String::from(r#"{"name":"many","seed":42,"nodes":["#);

    for i in 0..100 {
        if i > 0 {
            json.push(',');
        }
        json.push_str(&format!(r#"{{"node_id":{},"program":"p","args":[]}}"#, i));
    }

    json.push_str("]}");

    let result = parse_scenario_yaml(&json);
    if let Ok(scenario) = result {
        assert_eq!(scenario.nodes.len(), 100);
    }
}

#[test]
fn parser_never_panics_on_huge_event_list() {
    let mut json = String::from(
        r#"{"name":"many-events","seed":42,"nodes":[{"node_id":0,"program":"p","args":[]}],"events":["#,
    );

    for i in 0..1000 {
        if i > 0 {
            json.push(',');
        }
        json.push_str(&format!(
            r#"{{"time_ns":{},"action":{{"type":"crash","node_id":0}}}}"#,
            i * 1000
        ));
    }

    json.push_str("]}");

    let result = parse_scenario_yaml(&json);
    if let Ok(scenario) = result {
        assert_eq!(scenario.events.len(), 1000);
    }
}

#[test]
fn every_scenario_error_says_what_is_wrong() {
    let mut s = scenario(2, vec![]);
    s.nodes[1].node_id = 7;
    assert_eq!(
        s.validate().unwrap_err().text(""),
        "Invalid node ID 7: nodes must be sequentially numbered; expected 1, got 7"
    );
    let s = scenario(1, vec![(5, EventAction::Start { node_id: 3 })]);
    assert_eq!(
        s.validate().unwrap_err().text(""),
        "Invalid node ID 3: event references node 3, but only 1 nodes exist"
    );
    let mut s = scenario(1, vec![]);
    s.time_skew = Some(vec![(0, -5), (4, 5)]);
    assert_eq!(
        s.validate().unwrap_err().text(""),
        "Invalid node ID 4: time skew for node 4, but only 1 nodes exist"
    );
    let mut s = scenario(1, vec![]);
    s.filesystem = Some(vec![(
        2,
        FileSystemFaults {
            fsync_lies: true,
            enospc_after_bytes: None,
            torn_write_probability: None,
        },
    )]);
    assert_eq!(
        s.validate().unwrap_err().text(""),
        "Invalid node ID 2: filesystem faults for node 2, but only 1 nodes exist"
    );
    // Malformed network faults are an error of the whole, too.
    let net = |loss, bandwidth| {
        let mut s = scenario(1, vec![]);
        s.network = Some(NetworkFaults {
            latency: None,
            loss,
            bandwidth,
            partitions: None,
        });
        s
    };
    assert_eq!(
        net(Some(1.5f64.to_bits()), None).validate().unwrap_err(),
        ScenarioError::InvalidLossProbability(1.5f64.to_bits())
    );
    assert_eq!(
        ScenarioError::InvalidLossProbability(0).text("1.5"),
        "Invalid loss probability 1.5: must be in [0.0, 1.0]"
    );
    assert_eq!(
        net(None, Some(0)).validate().unwrap_err().text(""),
        "Invalid bandwidth 0: must be > 0"
    );
    assert_eq!(
        validate_partition_spec(" 0+ |1").unwrap_err().text(""),
        "Invalid partition spec '0+ |1': ' ' is not a valid node ID"
    );
    assert_eq!(bad("x").text(""), "JSON/YAML parse error: x");
    assert_eq!(
        ScenarioError::MissingField("a".into()).text(""),
        "Missing required field: a"
    );
    assert_eq!(
        ScenarioError::InvalidScenario("b".into()).text(""),
        "Invalid scenario: b"
    );
}

#[test]
fn a_torn_write_needs_a_probability() {
    let mut s = scenario(1, vec![]);
    s.filesystem = Some(vec![(
        0,
        FileSystemFaults {
            fsync_lies: false,
            enospc_after_bytes: None,
            torn_write_probability: Some(2.0f64.to_bits()),
        },
    )]);
    assert!(matches!(
        s.take_in(),
        Err(ScenarioError::InvalidLossProbability(_))
    ));
}

#[test]
fn events_come_by_time_and_keep_their_order_within_one() {
    let s = scenario(
        3,
        vec![
            (500, EventAction::Crash { node_id: 0 }),
            (100, EventAction::Crash { node_id: 1 }),
            (500, EventAction::Start { node_id: 2 }),
            (100, EventAction::ClearPartition),
        ],
    )
    .take_in()
    .unwrap();
    let times: Vec<u64> = s.events.iter().map(|e| e.time_ns).collect();
    assert_eq!(times, vec![100, 100, 500, 500]);
    assert!(matches!(s.events[0].action, EventAction::Crash { node_id: 1 }));
    assert!(matches!(s.events[1].action, EventAction::ClearPartition));
    assert!(matches!(s.events[2].action, EventAction::Crash { node_id: 0 }));
}

// ---- what comes about -----------------------------------------------------

#[test]
fn node_registry_tracks_state() {
    let scenario = scenario(2, vec![]);
    let mut registry = NodeRegistry::new(&scenario);

    // Initially, nodes are idle
    assert_eq!(registry.state(0), Some(NodeStatus::Idle));
    assert_eq!(registry.pid(0), None);

    // After setting running, state and pid are tracked
    registry.set_running(0, 1234);
    assert_eq!(registry.state(0), Some(NodeStatus::Running));
    assert_eq!(registry.pid(0), Some(1234));

    // After crash, state changes
    registry.set_crashed(0);
    assert_eq!(registry.state(0), Some(NodeStatus::Crashed));
    assert_eq!(registry.pid(0), Some(1234)); // PID persists (for cleanup)
}

#[test]
fn event_scheduler_executes_on_time() {
    let scenario = scenario(1, vec![(1000, EventAction::Crash { node_id: 0 })]);
    let mut registry = NodeRegistry::new(&scenario);
    registry.set_running(0, 9999);
    let mut scheduler = Scheduler::new();
    assert_eq!(scheduler.step(&scenario, 0, &mut registry), Turn::Wait);
    assert_eq!(scheduler.step(&scenario, 999, &mut registry), Turn::Wait);
    assert_eq!(registry.state(0), Some(NodeStatus::Running));
    assert_eq!(
        scheduler.step(&scenario, 1000, &mut registry),
        Turn::Acted(Some(9999))
    );
    assert_eq!(registry.state(0), Some(NodeStatus::Crashed));
    assert_eq!(scheduler.step(&scenario, 1000, &mut registry), Turn::Done);
}

#[test]
fn event_scheduler_respects_event_ordering() {
    let scenario = scenario(
        2,
        vec![
            (500, EventAction::Crash { node_id: 0 }),
            (1000, EventAction::Crash { node_id: 1 }),
        ],
    );
    let mut registry = NodeRegistry::new(&scenario);
    registry.set_running(0, 1000);
    registry.set_running(1, 2000);
    let mut scheduler = Scheduler::new();
    assert_eq!(
        scheduler.step(&scenario, 500, &mut registry),
        Turn::Acted(Some(1000))
    );
    assert_eq!(scheduler.step(&scenario, 500, &mut registry), Turn::Wait);
    assert_eq!(registry.state(0), Some(NodeStatus::Crashed));
    assert_eq!(registry.state(1), Some(NodeStatus::Running));
    assert_eq!(
        scheduler.step(&scenario, 1000, &mut registry),
        Turn::Acted(Some(2000))
    );
    assert_eq!(registry.state(1), Some(NodeStatus::Crashed));
}

#[test]
fn only_what_runs_is_killed() {
    let scenario = scenario(
        2,
        vec![
            (0, EventAction::Crash { node_id: 0 }),
            (0, EventAction::Start { node_id: 0 }),
            (0, EventAction::Crash { node_id: 1 }),
            (
                0,
                EventAction::ActivatePartition {
                    spec: "0|1".to_string(),
                },
            ),
        ],
    );
    let mut registry = NodeRegistry::new(&scenario);
    registry.set_running(1, u32::MAX); // no process has this number
    let mut scheduler = Scheduler::new();
    assert_eq!(scheduler.step(&scenario, 0, &mut registry), Turn::Acted(None));
    assert_eq!(registry.state(0), Some(NodeStatus::Idle));
    assert_eq!(scheduler.step(&scenario, 0, &mut registry), Turn::Acted(None));
    assert_eq!(registry.state(0), Some(NodeStatus::Restarting));
    assert_eq!(scheduler.step(&scenario, 0, &mut registry), Turn::Acted(None));
    assert_eq!(registry.state(1), Some(NodeStatus::Crashed));
    assert_eq!(scheduler.step(&scenario, 0, &mut registry), Turn::Acted(None));
    assert_eq!(registry.state(7), None);
}

// ---- robustness -----------------------------------------------------------

const VALID: &str = r#"{
  "seed": 7,
  "processes": [
    {"id": 0, "cmd": ["node", "a"]},
    {"id": 1, "cmd": ["node", "b"]}
  ],
  "net": {"latency": "uniform:1000-2000", "loss": 0.1, "partitions": "0|1"},
  "events": [
    {"at_ms": 10, "kind": "crash", "node": 1},
    {"at_ms": 20, "kind": "restart", "node": 1}
  ]
}"#;

#[test]
fn ten_thousand_mutated_inputs_never_panic() {
    let mut rng = 0x5EED_u64;
    let base = VALID.as_bytes();
    for _ in 0..10_000 {
        let mut bytes = base.to_vec();
        match splitmix64(&mut rng) % 4 {
            // Byte flips at random positions.
            0 => {
                for _ in 0..1 + splitmix64(&mut rng) % 8 {
                    let pos = (splitmix64(&mut rng) as usize) % bytes.len();
                    bytes[pos] = (splitmix64(&mut rng) & 0xFF) as u8;
                }
            }
            // Truncation.
            1 => {
                let len = (splitmix64(&mut rng) as usize) % bytes.len();
                bytes.truncate(len);
            }
            // Random garbage of random length (incl. invalid UTF-8).
            2 => {
                let len = (splitmix64(&mut rng) as usize) % 512;
                bytes = (0..len)
                    .map(|_| (splitmix64(&mut rng) & 0xFF) as u8)
                    .collect();
            }
            // Duplication: splice a random slice into a random position.
            _ => {
                let start = (splitmix64(&mut rng) as usize) % bytes.len();
                let end = start + (splitmix64(&mut rng) as usize) % (bytes.len() - start);
                let at = (splitmix64(&mut rng) as usize) % bytes.len();
                let slice = bytes[start..end].to_vec();
                for (offset, byte) in slice.into_iter().enumerate() {
                    bytes.insert(at + offset, byte);
                }
            }
        }
        // A panic anywhere here fails the test. The pieces of the text go to
        // the readers of latencies and partitions as well.
        let text = String::from_utf8_lossy(&bytes);
        let _ = parse_scenario_yaml(&text);
        for piece in text.split('"') {
            let _ = LatencyDistribution::parse(piece);
            let _ = validate_partition_spec(piece);
        }
    }
}
