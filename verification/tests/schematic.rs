use serde_json::Value;
use svxprobe::ingest::{load, validate, LoadError, ModelError};
use svxprobe::model::{
    Design, Dir, Document, Edge, FileEntry, Generator, MemPort, MuxPort, Node, NodeKind,
};
use svxprobe::schematic::cone::cone;
use svxprobe::schematic::hierarchy::is_hierarchical;
use svxprobe::schematic::scope::{expand, expand_with, scope_graph, scope_graph_with};
use svxprobe::schematic::trace::{cone_with, trace_graph};
use svxprobe::schematic::types::{
    ConeLimits, PinRole, Projection, SchNode, SchematicGraph, Side, TraceStep,
};

fn kind(s: &str) -> NodeKind {
    match s {
        "Instance" => NodeKind::Instance,
        "Net" => NodeKind::Net,
        "Port" => NodeKind::Port,
        "Var" => NodeKind::Var,
        "Param" => NodeKind::Param,
        "GenBlock" => NodeKind::GenBlock,
        "FF" => NodeKind::Ff,
        "Comb" => NodeKind::Comb,
        "Latch" => NodeKind::Latch,
        "Assign" => NodeKind::Assign,
        "Interface" => NodeKind::Interface,
        "Modport" => NodeKind::Modport,
        "Memory" => NodeKind::Memory,
        "And" => NodeKind::And,
        "Or" => NodeKind::Or,
        "Not" => NodeKind::Not,
        "Mux" => NodeKind::Mux,
        "Const" => NodeKind::Const,
        other => panic!("kind {}", other),
    }
}

fn dir(s: &str) -> Dir {
    match s {
        "in" => Dir::In,
        "out" => Dir::Out,
        "inout" => Dir::Inout,
        other => panic!("dir {}", other),
    }
}

fn text(v: &Value, key: &str) -> Option<String> {
    v[key].as_str().map(|s| s.to_string())
}

fn number(v: &Value) -> u32 {
    v.as_u64().expect("a number") as u32
}

fn list<'a>(v: &'a Value, key: &str) -> &'a [Value] {
    v[key].as_array().map(|a| a.as_slice()).unwrap_or(&[])
}

fn node_of(v: &Value) -> Node {
    Node {
        id: number(&v["id"]),
        kind: kind(v["kind"].as_str().unwrap()),
        name: text(v, "name").unwrap(),
        path: text(v, "path").unwrap(),
        parent: v["parent"].as_u64().map(|p| p as u32),
        children: list(v, "children").iter().map(number).collect(),
        symbol_key: text(v, "symbol_key").unwrap(),
        def_range: None,
        inst_range: None,
        type_: text(v, "type"),
        dir: v["dir"].as_str().map(dir),
        const_value: text(v, "const"),
        modport: None,
        members: None,
        reset: text(v, "reset"),
        enable: text(v, "enable"),
        mem_depth: None,
        init_source: None,
        op: None,
        drivers: vec![],
        loads: vec![],
    }
}

fn edge_of(v: &Value) -> Edge {
    Edge {
        id: number(&v["id"]),
        port: number(&v["port"]),
        endpoint: number(&v["endpoint"]),
        dir: dir(v["dir"].as_str().unwrap()),
        select: text(v, "select"),
        mem_port: v["mem_port"].as_str().map(|s| match s {
            "addr" => MemPort::Addr,
            "din" => MemPort::Din,
            "dout" => MemPort::Dout,
            other => panic!("mem port {}", other),
        }),
        mux_port: v["mux_port"].as_str().map(|s| match s {
            "sel" => MuxPort::Sel,
            "d0" => MuxPort::D0,
            "d1" => MuxPort::D1,
            other => panic!("mux port {}", other),
        }),
    }
}

fn document(json: &str) -> Document {
    let v: Value = serde_json::from_str(json).expect("json");
    Document {
        schema_version: number(&v["schema_version"]),
        design: text(&v, "design").unwrap(),
        generator: Generator { tool: String::new(), version: String::new() },
        files: list(&v, "files")
            .iter()
            .map(|f| FileEntry {
                id: number(&f["id"]),
                path: text(f, "path").unwrap(),
                language: None,
            })
            .collect(),
        nodes: list(&v, "nodes").iter().map(node_of).collect(),
        edges: list(&v, "edges").iter().map(edge_of).collect(),
        enums: vec![],
        source_map: vec![],
        name_refs: vec![],
    }
}

fn design(json: &str) -> Design {
    let d = match load(document(json)) {
        Ok(d) => d,
        Err(_) => panic!("the document loads"),
    };
    assert!(is_hierarchical(&d));
    d
}

const DOC: &str = r#"{
    "schema_version": 1,
    "design": "t",
    "files": [{"id": 0, "path": "t.sv"}],
    "nodes": [
        {"id":0,"kind":"Instance","name":"t","path":"t","parent":null,
         "children":[1],"symbol_key":"t"},
        {"id":1,"kind":"Var","name":"a","path":"t.a","parent":0,
         "children":[],"symbol_key":"t.a","type":"logic"}
    ]
}"#;

const DUAL_NODE: &str = r#"{
    "schema_version": 1,
    "design": "t",
    "files": [{"id": 0, "path": "t.sv"}],
    "nodes": [
        {"id":0,"kind":"Instance","name":"t","path":"t","parent":null,
         "children":[1,2],"symbol_key":"t"},
        {"id":1,"kind":"Port","name":"clk","path":"t.clk","parent":0,
         "children":[],"symbol_key":"t.clk","dir":"in"},
        {"id":2,"kind":"Net","name":"clk","path":"t.clk","parent":0,
         "children":[],"symbol_key":"t.clk#net"}
    ]
}"#;

#[test]
fn parses_and_indexes() {
    let d = design(DOC);
    assert_eq!(d.nodes().len(), 2);
    assert_eq!(d.nodes_at_path("t.a"), &[1]);
}

#[test]
fn rejects_bad_refs() {
    let bad = DOC.replace("\"children\":[1]", "\"children\":[99]");
    assert!(load(document(&bad)).is_err());
}

#[test]
fn accepts_port_backing_net_dual_node() {
    assert!(load(document(DUAL_NODE)).is_ok());
}

#[test]
fn rejects_same_name_distinct_objects() {
    let bad = r#"{
        "schema_version": 1,
        "design": "t",
        "files": [{"id": 0, "path": "t.sv"}],
        "nodes": [
            {"id":0,"kind":"Instance","name":"t","path":"t","parent":null,
             "children":[1,2],"symbol_key":"t"},
            {"id":1,"kind":"Var","name":"a","path":"t.a","parent":0,
             "children":[],"symbol_key":"t.a"},
            {"id":2,"kind":"Var","name":"a","path":"t.a$dup","parent":0,
             "children":[],"symbol_key":"t.a$dup"}
        ]
    }"#;
    assert!(load(document(bad)).is_err());
}

#[test]
fn rejects_instance_vs_signal_name_collision() {
    let bad = r#"{
        "schema_version": 1,
        "design": "t",
        "files": [{"id": 0, "path": "t.sv"}],
        "nodes": [
            {"id":0,"kind":"Instance","name":"t","path":"t","parent":null,
             "children":[1,2],"symbol_key":"t"},
            {"id":1,"kind":"Instance","name":"m","path":"t.m","parent":0,
             "children":[],"symbol_key":"t.m"},
            {"id":2,"kind":"Net","name":"m","path":"t.m","parent":0,
             "children":[],"symbol_key":"t.m#net"}
        ]
    }"#;
    assert!(load(document(bad)).is_err());
}

const PLAIN_NET_DOC: &str = r#"{
    "schema_version": 1,
    "design": "t",
    "files": [{"id": 0, "path": "t.sv"}],
    "nodes": [
        {"id":0,"kind":"Instance","name":"t","path":"t","parent":null,
         "children":[1,3,5],"symbol_key":"t"},
        {"id":1,"kind":"Instance","name":"a","path":"t.a","parent":0,
         "children":[2],"symbol_key":"t.a"},
        {"id":2,"kind":"Port","name":"y","path":"t.a.y","parent":1,
         "children":[],"symbol_key":"t.a.y","dir":"out","type":"logic"},
        {"id":3,"kind":"Instance","name":"b","path":"t.b","parent":0,
         "children":[4],"symbol_key":"t.b"},
        {"id":4,"kind":"Port","name":"x","path":"t.b.x","parent":3,
         "children":[],"symbol_key":"t.b.x","dir":"in","type":"logic"},
        {"id":5,"kind":"Var","name":"n","path":"t.n","parent":0,
         "children":[],"symbol_key":"t.n","type":"logic"}
    ],
    "edges": [
        {"id":0,"port":2,"endpoint":5,"dir":"out"},
        {"id":1,"port":4,"endpoint":5,"dir":"in"}
    ]
}"#;

#[test]
fn plain_net_joins_instances_in_logic_free_scope() {
    let d = design(PLAIN_NET_DOC);
    let g = scope_graph(&d, "t").expect("scope graph");

    let wires: Vec<_> = g
        .edges
        .iter()
        .filter(|e| (e.source, e.target) == (2, 4) || (e.source, e.target) == (4, 2))
        .collect();
    assert_eq!(wires.len(), 1);
    assert_eq!(wires[0].net.as_deref(), Some("n"));
    assert_eq!(wires[0].net_path.as_deref(), Some("t.n"));
    for inst in ["a", "b"] {
        let n = g.nodes.iter().find(|n| n.label == inst).unwrap();
        assert!(n.ports.iter().all(|p| !p.dangling));
    }
}

const ROLES_DOC: &str = r#"{
    "schema_version": 1,
    "design": "t",
    "files": [{"id": 0, "path": "t.sv"}],
    "nodes": [
        {"id":0,"kind":"Instance","name":"t","path":"t","parent":null,
         "children":[1,2,3,4,5,6,7],"symbol_key":"t"},
        {"id":1,"kind":"Var","name":"clk","path":"t.clk","parent":0,
         "children":[],"symbol_key":"t.clk","type":"logic"},
        {"id":2,"kind":"Var","name":"rst_n","path":"t.rst_n","parent":0,
         "children":[],"symbol_key":"t.rst_n","type":"logic"},
        {"id":3,"kind":"Var","name":"d","path":"t.d","parent":0,
         "children":[],"symbol_key":"t.d","type":"logic"},
        {"id":4,"kind":"Var","name":"en","path":"t.en","parent":0,
         "children":[],"symbol_key":"t.en","type":"logic"},
        {"id":5,"kind":"Var","name":"q","path":"t.q","parent":0,
         "children":[],"symbol_key":"t.q","type":"logic"},
        {"id":6,"kind":"FF","name":"FF","path":"t.$ff6","parent":0,
         "children":[],"symbol_key":"t.$ff6","type":"clk","reset":"t.rst_n"},
        {"id":7,"kind":"Latch","name":"Latch","path":"t.$latch7","parent":0,
         "children":[],"symbol_key":"t.$latch7","enable":"t.en"}
    ],
    "edges": [
        {"id":0,"port":6,"endpoint":1,"dir":"in"},
        {"id":1,"port":6,"endpoint":2,"dir":"in"},
        {"id":2,"port":6,"endpoint":3,"dir":"in"},
        {"id":3,"port":6,"endpoint":5,"dir":"out"},
        {"id":4,"port":7,"endpoint":4,"dir":"in"},
        {"id":5,"port":7,"endpoint":3,"dir":"in"},
        {"id":6,"port":7,"endpoint":5,"dir":"out"}
    ]
}"#;

#[test]
fn ff_reset_and_latch_enable_pins_carry_roles() {
    let d = design(ROLES_DOC);
    let g = scope_graph(&d, "t").expect("scope graph");
    let role_of = |kind: NodeKind, pin: &str| {
        g.nodes
            .iter()
            .find(|n| n.kind == kind)
            .expect("box")
            .ports
            .iter()
            .find(|p| p.name == pin)
            .expect("pin")
            .role
    };
    assert_eq!(role_of(NodeKind::Ff, "clk"), Some(PinRole::Clk));
    assert_eq!(role_of(NodeKind::Ff, "rst_n"), Some(PinRole::Reset));
    assert_eq!(role_of(NodeKind::Ff, "d"), None);
    assert_eq!(role_of(NodeKind::Latch, "en"), Some(PinRole::Enable));
    assert_eq!(role_of(NodeKind::Latch, "d"), None);
}

const GATE_LEVEL_DOC: &str = r#"{
    "schema_version": 1,
    "design": "t",
    "files": [{"id": 0, "path": "t.sv"}],
    "nodes": [
        {"id":0,"kind":"Instance","name":"t","path":"t","parent":null,
         "children":[1,2,3,4,5,6,7,8,10],"symbol_key":"t"},
        {"id":1,"kind":"Port","name":"a","path":"t.a","parent":0,"children":[],
         "symbol_key":"t.a","dir":"in"},
        {"id":2,"kind":"Port","name":"b","path":"t.b","parent":0,"children":[],
         "symbol_key":"t.b","dir":"in"},
        {"id":3,"kind":"Port","name":"y","path":"t.y","parent":0,"children":[],
         "symbol_key":"t.y","dir":"out"},
        {"id":4,"kind":"Port","name":"sel","path":"t.sel","parent":0,"children":[],
         "symbol_key":"t.sel","dir":"in"},
        {"id":5,"kind":"Port","name":"c","path":"t.c","parent":0,"children":[],
         "symbol_key":"t.c","dir":"in"},
        {"id":6,"kind":"Port","name":"d","path":"t.d","parent":0,"children":[],
         "symbol_key":"t.d","dir":"in"},
        {"id":7,"kind":"Port","name":"z","path":"t.z","parent":0,"children":[],
         "symbol_key":"t.z","dir":"out"},
        {"id":8,"kind":"Assign","name":"$assign8","path":"t.$assign8","parent":0,
         "children":[9],"symbol_key":"t.$assign8"},
        {"id":9,"kind":"And","name":"and","path":"t.$assign8.$and9","parent":8,
         "children":[],"symbol_key":"t.$assign8.$and9"},
        {"id":10,"kind":"Assign","name":"$assign10","path":"t.$assign10","parent":0,
         "children":[11],"symbol_key":"t.$assign10"},
        {"id":11,"kind":"Mux","name":"mux","path":"t.$assign10.$mux11","parent":10,
         "children":[],"symbol_key":"t.$assign10.$mux11"}
    ],
    "edges": [
        {"id":0,"port":9,"endpoint":1,"dir":"in"},
        {"id":1,"port":9,"endpoint":2,"dir":"in"},
        {"id":2,"port":9,"endpoint":3,"dir":"out"},
        {"id":3,"port":8,"endpoint":1,"dir":"in"},
        {"id":4,"port":8,"endpoint":2,"dir":"in"},
        {"id":5,"port":8,"endpoint":3,"dir":"out"},
        {"id":6,"port":11,"endpoint":4,"dir":"in","mux_port":"sel"},
        {"id":7,"port":11,"endpoint":5,"dir":"in","mux_port":"d1"},
        {"id":8,"port":11,"endpoint":6,"dir":"in","mux_port":"d0"},
        {"id":9,"port":11,"endpoint":7,"dir":"out"},
        {"id":10,"port":10,"endpoint":4,"dir":"in"},
        {"id":11,"port":10,"endpoint":5,"dir":"in"},
        {"id":12,"port":10,"endpoint":6,"dir":"in"},
        {"id":13,"port":10,"endpoint":7,"dir":"out"}
    ]
}"#;

#[test]
fn process_level_ignores_gate_primitives() {
    let d = design(GATE_LEVEL_DOC);
    for g in [
        scope_graph(&d, "t").expect("scope graph"),
        scope_graph_with(&d, "t", Projection::ProcessLevel).expect("scope graph"),
    ] {
        assert_eq!(g.nodes.iter().filter(|n| n.kind == NodeKind::Assign).count(), 2);
        assert!(!g.nodes.iter().any(|n| matches!(n.kind, NodeKind::And | NodeKind::Mux)));
    }
}

#[test]
fn gate_level_dissolves_logic_into_gate_network() {
    let d = design(GATE_LEVEL_DOC);
    let g = scope_graph_with(&d, "t", Projection::GateLevel).expect("scope graph");

    assert!(!g.nodes.iter().any(|n| n.kind == NodeKind::Assign));
    let and = g.nodes.iter().find(|n| n.kind == NodeKind::And).expect("And box");
    let mux = g.nodes.iter().find(|n| n.kind == NodeKind::Mux).expect("Mux box");

    assert!(and.ports.iter().any(|p| p.path == "t.a"));
    assert!(and.ports.iter().any(|p| p.path == "t.b"));
    let outs: Vec<&_> = and.ports.iter().filter(|p| p.side == Side::East).collect();
    assert_eq!(outs.len(), 1);
    assert_eq!(outs[0].path, "t.$assign8.$and9");

    let sel = mux.ports.iter().find(|p| p.path == "t.sel").expect("sel pin");
    assert_eq!(sel.role, Some(PinRole::Sel));
    let data = mux.ports.iter().find(|p| p.path == "t.c").expect("d1 pin");
    assert_eq!(data.role, None);

    assert!(g.edges.iter().any(|e| e.source == outs[0].id || e.target == outs[0].id));
}

const CONST_GATE_DOC: &str = r#"{
    "schema_version": 1,
    "design": "u",
    "files": [{"id": 0, "path": "u.sv"}],
    "nodes": [
        {"id":0,"kind":"Instance","name":"u","path":"u","parent":null,
         "children":[1,2,3],"symbol_key":"u"},
        {"id":1,"kind":"Port","name":"a","path":"u.a","parent":0,"children":[],
         "symbol_key":"u.a","dir":"in"},
        {"id":2,"kind":"Port","name":"y","path":"u.y","parent":0,"children":[],
         "symbol_key":"u.y","dir":"out"},
        {"id":3,"kind":"Assign","name":"$assign3","path":"u.$assign3","parent":0,
         "children":[4,5],"symbol_key":"u.$assign3"},
        {"id":4,"kind":"And","name":"and","path":"u.$assign3.$and4","parent":3,
         "children":[],"symbol_key":"u.$assign3.$and4"},
        {"id":5,"kind":"Const","name":"const","path":"u.$assign3.$const5","parent":3,
         "children":[],"symbol_key":"u.$assign3.$const5","const":"8'hff"}
    ],
    "edges": [
        {"id":0,"port":4,"endpoint":1,"dir":"in"},
        {"id":1,"port":4,"endpoint":5,"dir":"in"},
        {"id":2,"port":4,"endpoint":2,"dir":"out"}
    ]
}"#;

#[test]
fn gate_const_operand_becomes_inline_tie_value() {
    let d = design(CONST_GATE_DOC);
    let g = scope_graph_with(&d, "u", Projection::GateLevel).expect("scope graph");

    let and = g.nodes.iter().find(|n| n.kind == NodeKind::And).expect("And box");
    assert!(and
        .ports
        .iter()
        .any(|p| p.side == Side::West && p.constant.as_deref() == Some("8'hff")));
    assert!(and.ports.iter().any(|p| p.path == "u.a" && p.constant.is_none()));
    assert!(!g.nodes.iter().any(|n| n.constant.is_some() || n.kind == NodeKind::Const));
}

const NESTED_GATE_DOC: &str = r#"{
    "schema_version": 1,
    "design": "u",
    "files": [{"id": 0, "path": "u.sv"}],
    "nodes": [
        {"id":0,"kind":"Instance","name":"u","path":"u","parent":null,
         "children":[1,2,3,4,5],"symbol_key":"u"},
        {"id":1,"kind":"Port","name":"a","path":"u.a","parent":0,"children":[],
         "symbol_key":"u.a","dir":"in"},
        {"id":2,"kind":"Port","name":"b","path":"u.b","parent":0,"children":[],
         "symbol_key":"u.b","dir":"in"},
        {"id":3,"kind":"Port","name":"c","path":"u.c","parent":0,"children":[],
         "symbol_key":"u.c","dir":"in"},
        {"id":4,"kind":"Port","name":"y","path":"u.y","parent":0,"children":[],
         "symbol_key":"u.y","dir":"out"},
        {"id":5,"kind":"Assign","name":"$assign5","path":"u.$assign5","parent":0,
         "children":[6,7],"symbol_key":"u.$assign5"},
        {"id":6,"kind":"Or","name":"or","path":"u.$assign5.$or6","parent":5,
         "children":[],"symbol_key":"u.$assign5.$or6"},
        {"id":7,"kind":"And","name":"and","path":"u.$assign5.$and7","parent":5,
         "children":[],"symbol_key":"u.$assign5.$and7"}
    ],
    "edges": [
        {"id":0,"port":7,"endpoint":1,"dir":"in"},
        {"id":1,"port":7,"endpoint":2,"dir":"in"},
        {"id":2,"port":6,"endpoint":7,"dir":"in"},
        {"id":3,"port":6,"endpoint":3,"dir":"in"},
        {"id":4,"port":6,"endpoint":4,"dir":"out"}
    ]
}"#;

#[test]
fn gate_to_gate_wiring_connects_nested_primitives() {
    let d = design(NESTED_GATE_DOC);
    let g = scope_graph_with(&d, "u", Projection::GateLevel).expect("scope graph");

    let and = g.nodes.iter().find(|n| n.kind == NodeKind::And).expect("And box");
    let or = g.nodes.iter().find(|n| n.kind == NodeKind::Or).expect("Or box");
    let and_out = and.ports.iter().find(|p| p.side == Side::East).expect("and output pin");
    let or_in = or.ports.iter().find(|p| p.path == "u.$assign5.$and7").expect("or input");
    assert!(g.edges.iter().any(|e| (e.source == and_out.id && e.target == or_in.id)
        || (e.source == or_in.id && e.target == and_out.id)));
    assert!(!and_out.dangling);
}

fn fault(json: &str) -> ModelError {
    match validate(&document(json)) {
        Err(e) => e,
        Ok(()) => panic!("no fault"),
    }
}

#[test]
fn each_fault_is_named() {
    let version = DOC.replace("\"schema_version\": 1", "\"schema_version\": 2");
    assert_eq!(fault(&version), ModelError::SchemaVersion { version: 2 });
    assert_eq!(fault(&version).message(&document(&version)), "unsupported schema_version 2");
    let parent = DOC.replace("\"parent\":0", "\"parent\":7");
    assert_eq!(fault(&parent), ModelError::Parent { node: 1, parent: 7 });
    assert_eq!(
        fault(&parent).message(&document(&parent)),
        "node 1 has out-of-range parent 7"
    );
    let child = DOC.replace("\"children\":[1]", "\"children\":[99]");
    assert_eq!(fault(&child), ModelError::Child { node: 0, child: 99 });
    assert_eq!(
        fault(&child).message(&document(&child)),
        "node 0 has out-of-range child 99"
    );
    let edge = PLAIN_NET_DOC.replace("\"port\":4,\"endpoint\":5", "\"port\":4,\"endpoint\":6");
    assert_eq!(fault(&edge), ModelError::Edge { edge: 1 });
    assert_eq!(
        fault(&edge).message(&document(&edge)),
        "edge 1 references out-of-range node"
    );
    let name = PLAIN_NET_DOC.replace("\"name\":\"n\"", "\"name\":\"a\"");
    assert!(matches!(fault(&name), ModelError::Name { .. }));
    assert_eq!(
        fault(&name).message(&document(&name)),
        "name collision in scope: 'a' maps to 2 distinct objects [Instance t.a, Var t.n]"
    );
    assert!(matches!(load(document(&name)), Err(LoadError::Fault(ModelError::Name { .. }))));
}

/// `a` drives the net `n`, which `b` and the register in `c` read; `c` reports back.
const NET_DOC: &str = r#"{
    "schema_version": 1,
    "design": "t",
    "files": [{"id": 0, "path": "t.sv"}],
    "nodes": [
        {"id":0,"kind":"Instance","name":"t","path":"t","parent":null,
         "children":[1,3,5,6],"symbol_key":"t"},
        {"id":1,"kind":"Instance","name":"a","path":"t.a","parent":0,
         "children":[2],"symbol_key":"t.a"},
        {"id":2,"kind":"Port","name":"y","path":"t.a.y","parent":1,
         "children":[],"symbol_key":"t.a.y","dir":"out","type":"logic"},
        {"id":3,"kind":"Instance","name":"b","path":"t.b","parent":0,
         "children":[4],"symbol_key":"t.b"},
        {"id":4,"kind":"Port","name":"x","path":"t.b.x","parent":3,
         "children":[],"symbol_key":"t.b.x","dir":"in","type":"logic"},
        {"id":5,"kind":"Var","name":"n","path":"t.n","parent":0,
         "children":[],"symbol_key":"t.n","type":"logic"},
        {"id":6,"kind":"Instance","name":"c","path":"t.c","parent":0,
         "children":[7,8,9],"symbol_key":"t.c"},
        {"id":7,"kind":"Port","name":"d","path":"t.c.d","parent":6,
         "children":[],"symbol_key":"t.c.d","dir":"in","type":"logic"},
        {"id":8,"kind":"Var","name":"q","path":"t.c.q","parent":6,
         "children":[],"symbol_key":"t.c.q","type":"logic"},
        {"id":9,"kind":"FF","name":"FF","path":"t.c.$ff9","parent":6,
         "children":[],"symbol_key":"t.c.$ff9"}
    ],
    "edges": [
        {"id":0,"port":2,"endpoint":5,"dir":"out"},
        {"id":1,"port":4,"endpoint":5,"dir":"in"},
        {"id":2,"port":7,"endpoint":5,"dir":"in"},
        {"id":3,"port":9,"endpoint":7,"dir":"in"},
        {"id":4,"port":9,"endpoint":8,"dir":"out"}
    ]
}"#;

fn pins(g: &SchematicGraph) -> Vec<u32> {
    g.nodes.iter().flat_map(|n: &SchNode| n.ports.iter().map(|p| p.id)).collect()
}

fn check_traced(g: &SchematicGraph) {
    let drawn = pins(g);
    for e in &g.edges {
        assert!(drawn.contains(&e.source));
        assert!(drawn.contains(&e.target));
    }
    for (i, e) in g.edges.iter().enumerate() {
        for f in &g.edges[..i] {
            assert!((e.source, e.target) != (f.source, f.target));
            assert!((e.source, e.target) != (f.target, f.source));
        }
    }
    for (i, n) in g.nodes.iter().enumerate() {
        assert!(!g.nodes[..i].iter().any(|m| m.id == n.id));
        assert!(n.ports.iter().all(|p| !p.dangling));
        if let Some(p) = n.parent {
            assert!(g.nodes.iter().any(|m| m.id == p));
        }
    }
}

fn boxes(g: &SchematicGraph) -> usize {
    g.nodes
        .iter()
        .filter(|n| !matches!(n.kind, NodeKind::Net | NodeKind::Var | NodeKind::Port))
        .count()
}

fn labels(g: &SchematicGraph) -> Vec<&str> {
    let mut l: Vec<&str> = g.nodes.iter().map(|n| n.label.as_str()).collect();
    l.sort();
    l
}

#[test]
fn a_cone_draws_what_a_net_reaches() {
    let d = design(NET_DOC);
    let g = cone_with(&d, 5, Dir::In, ConeLimits::depth(1), Projection::ProcessLevel);
    check_traced(&g);
    assert!(!g.truncated);
    assert_eq!(g.root, "t");
    assert!(g.nodes.iter().any(|n| n.id == 1));
    assert!(g.edges.iter().any(|e| e.net.as_deref() == Some("n")));
    let out = cone_with(&d, 5, Dir::Out, ConeLimits::depth(2), Projection::ProcessLevel);
    check_traced(&out);
    assert!(out.nodes.iter().any(|n| n.kind == NodeKind::Ff && n.parent == Some(6)));
    assert!(out.nodes.iter().any(|n| n.id == 6));
}

#[test]
fn a_fanout_of_one_counts_what_it_leaves_out() {
    let d = design(NET_DOC);
    let mut limits = ConeLimits::depth(1);
    limits.fanout = 1;
    let g = cone_with(&d, 5, Dir::Out, limits, Projection::ProcessLevel);
    check_traced(&g);
    assert!(g.truncated);
    assert!(g.nodes.iter().any(|n| n.ports.iter().any(|p| p.more.is_some())));
}

#[test]
fn a_box_budget_is_kept_over_all_steps() {
    let d = design(NET_DOC);
    let mut limits = ConeLimits::depth(3);
    limits.boxes = 2;
    let steps = [
        TraceStep { seed: 5, dir: Dir::Out, depth: 3, fanout: None },
        TraceStep { seed: 5, dir: Dir::In, depth: 3, fanout: None },
    ];
    let g = trace_graph(&d, &steps, limits, Projection::ProcessLevel);
    check_traced(&g);
    assert!(g.truncated);
    assert!(boxes(&g) <= 2);
    for most in 0..6 {
        limits.boxes = most;
        let g = trace_graph(&d, &steps, limits, Projection::ProcessLevel);
        check_traced(&g);
        assert!(boxes(&g) <= most);
        assert!(pins(&g).contains(&5));
    }
    let open = trace_graph(&d, &steps, ConeLimits::depth(3), Projection::ProcessLevel);
    check_traced(&open);
    assert!(!open.truncated);
    assert!(open.nodes.len() > g.nodes.len());
}

#[test]
fn a_budget_of_none_acts_as_one() {
    let d = design(NET_DOC);
    let graph = |depth: usize, fanout: Option<usize>, limit: usize| {
        let mut limits = ConeLimits::depth(3);
        limits.fanout = limit;
        let steps = [
            TraceStep { seed: 5, dir: Dir::Out, depth, fanout },
            TraceStep { seed: 8, dir: Dir::In, depth, fanout },
        ];
        format!("{:?}", trace_graph(&d, &steps, limits, Projection::ProcessLevel))
    };
    assert_eq!(graph(0, None, 4), graph(1, None, 4));
    assert_eq!(graph(2, Some(0), 4), graph(2, Some(1), 4));
    assert_eq!(graph(2, None, 0), graph(2, None, 1));
    assert_eq!(graph(2, None, 4), graph(2, None, 4));
    assert!(graph(2, None, 1) != graph(2, None, 4));
    assert!(graph(1, None, 4) != graph(2, None, 4));
    let mut none = ConeLimits::depth(0);
    none.fanout = 0;
    let mut one = ConeLimits::depth(1);
    one.fanout = 1;
    let g = cone_with(&d, 5, Dir::Out, none, Projection::ProcessLevel);
    let h = cone_with(&d, 5, Dir::Out, one, Projection::ProcessLevel);
    assert_eq!(format!("{:?}", g), format!("{:?}", h));
    assert!(g.truncated);
}

#[test]
fn wires_are_numbered_behind_the_edges() {
    let d = design(NET_DOC);
    let steps = [
        TraceStep { seed: 5, dir: Dir::Out, depth: 3, fanout: None },
        TraceStep { seed: 5, dir: Dir::In, depth: 3, fanout: None },
    ];
    let g = trace_graph(&d, &steps, ConeLimits::depth(3), Projection::ProcessLevel);
    assert!(g.edges.len() > 1);
    for (i, e) in g.edges.iter().enumerate() {
        assert_eq!(e.id, 5 + i as u32);
    }
}

#[test]
fn containers_are_drawn_within_the_budget() {
    let d = design(NET_DOC);
    let mut limits = ConeLimits::depth(1);
    limits.boxes = 1;
    let g = cone_with(&d, 8, Dir::In, limits, Projection::ProcessLevel);
    check_traced(&g);
    assert_eq!(boxes(&g), 1);
    assert!(g.truncated);
    assert!(g.nodes.iter().any(|n| n.kind == NodeKind::Ff && n.parent.is_none()));
    limits.boxes = 2;
    let g = cone_with(&d, 8, Dir::In, limits, Projection::ProcessLevel);
    check_traced(&g);
    assert_eq!(boxes(&g), 2);
    assert!(g.nodes.iter().any(|n| n.kind == NodeKind::Ff && n.parent == Some(6)));
}

#[test]
fn a_cone_of_a_box_keeps_its_budget() {
    let d = design(NET_DOC);
    for seed in [1, 3, 6, 9] {
        for most in 1..4 {
            let mut limits = ConeLimits::depth(3);
            limits.boxes = most;
            for dir in [Dir::In, Dir::Out] {
                let g = cone_with(&d, seed, dir, limits, Projection::ProcessLevel);
                check_traced(&g);
                assert!(boxes(&g) <= most);
                assert!(g.nodes.iter().any(|n| n.id == seed));
            }
        }
    }
}

const UNDRIVEN_DOC: &str = r#"{
    "schema_version": 1,
    "design": "t",
    "files": [{"id": 0, "path": "t.sv"}],
    "nodes": [
        {"id":0,"kind":"Instance","name":"t","path":"t","parent":null,
         "children":[1],"symbol_key":"t"},
        {"id":1,"kind":"Instance","name":"u","path":"t.u","parent":0,
         "children":[2],"symbol_key":"t.u"},
        {"id":2,"kind":"Port","name":"p","path":"t.u.p","parent":1,
         "children":[],"symbol_key":"t.u.p","dir":"in","type":"logic"}
    ],
    "edges": []
}"#;

#[test]
fn a_seed_that_reaches_nothing_is_drawn() {
    let d = design(UNDRIVEN_DOC);
    for dir in [Dir::In, Dir::Out] {
        for projection in [Projection::ProcessLevel, Projection::GateLevel] {
            let g = cone_with(&d, 2, dir, ConeLimits::depth(1), projection);
            check_traced(&g);
            assert!(!g.nodes.is_empty());
            assert!(g.edges.is_empty());
            assert!(!g.truncated);
            assert!(pins(&g).contains(&2));
            assert!(g
                .nodes
                .iter()
                .any(|n| n.path == "t.u.p" || n.ports.iter().any(|p| p.path == "t.u.p")));
            let b = cone_with(&d, 1, dir, ConeLimits::depth(1), projection);
            assert!(b.nodes.iter().any(|n| n.id == 1));
        }
    }
    let mut none = ConeLimits::depth(1);
    none.boxes = 0;
    let g = cone_with(&d, 2, Dir::In, none, Projection::ProcessLevel);
    assert_eq!(boxes(&g), 0);
    assert!(g.truncated);
    assert!(pins(&g).contains(&2));
}

#[test]
fn a_trace_of_one_step_is_a_cone_and_of_none_is_empty() {
    let d = design(NET_DOC);
    let step = [TraceStep { seed: 5, dir: Dir::Out, depth: 2, fanout: None }];
    let limits = ConeLimits::depth(2);
    let g = trace_graph(&d, &step, limits, Projection::ProcessLevel);
    let c = cone_with(&d, 5, Dir::Out, limits, Projection::ProcessLevel);
    assert_eq!(labels(&g), labels(&c));
    assert_eq!(g.edges.len(), c.edges.len());
    let none = trace_graph(&d, &[], limits, Projection::ProcessLevel);
    assert!(none.nodes.is_empty() && none.edges.is_empty() && !none.truncated);
}

#[test]
fn an_instance_cone_has_instances_for_boxes() {
    let d = design(NET_DOC);
    let g = cone(&d, 5, Dir::Out, 2);
    assert!(!g.truncated);
    assert!(!g.nodes.is_empty());
    assert!(g.nodes.iter().all(|n| n.kind == NodeKind::Instance));
}

#[test]
fn scope_views_are_flat_and_whole() {
    for (json, top) in [(NET_DOC, "t"), (GATE_LEVEL_DOC, "t"), (CONST_GATE_DOC, "u")] {
        let d = design(json);
        for projection in [Projection::ProcessLevel, Projection::GateLevel] {
            let g = scope_graph_with(&d, top, projection).expect("scope graph");
            assert_eq!(g.root, top);
            assert!(!g.truncated);
            assert!(g.nodes.iter().all(|n| n.parent.is_none()));
        }
    }
}

#[test]
fn without_primitives_the_levels_agree() {
    let d = design(NET_DOC);
    let process = scope_graph_with(&d, "t", Projection::ProcessLevel).unwrap();
    let gate = scope_graph_with(&d, "t", Projection::GateLevel).unwrap();
    assert_eq!(labels(&process), labels(&gate));
    assert_eq!(pins(&process), pins(&gate));
    assert_eq!(process.edges.len(), gate.edges.len());
}

#[test]
fn expanding_an_instance_draws_its_scope() {
    let d = design(NET_DOC);
    let a = expand(&d, 6).unwrap();
    let b = scope_graph(&d, "t.c").unwrap();
    assert_eq!(labels(&a), labels(&b));
    assert_eq!(pins(&a), pins(&b));
    assert!(expand(&d, 5).is_none());
    assert!(expand_with(&d, 99, Projection::GateLevel).is_none());
    assert!(scope_graph(&d, "t.n").is_none());
    assert!(scope_graph(&d, "nowhere").is_none());
}

#[test]
fn a_circle_of_parents_is_no_hierarchy() {
    let circle = NET_DOC.replace("\"path\":\"t\",\"parent\":null", "\"path\":\"t\",\"parent\":6");
    match load(document(&circle)) {
        Ok(d) => assert!(!is_hierarchical(&d)),
        Err(_) => panic!("the document loads"),
    }
}

#[test]
fn traces_draw_the_boxes_of_their_level() {
    let d = design(GATE_LEVEL_DOC);
    let process = cone_with(&d, 3, Dir::Inout, ConeLimits::depth(2), Projection::ProcessLevel);
    check_traced(&process);
    assert!(process.nodes.iter().any(|n| n.kind == NodeKind::Assign));
    assert!(!process.nodes.iter().any(|n| matches!(n.kind, NodeKind::And | NodeKind::Mux)));
    let gates = cone_with(&d, 3, Dir::Inout, ConeLimits::depth(2), Projection::GateLevel);
    check_traced(&gates);
    assert!(gates.nodes.iter().any(|n| n.kind == NodeKind::And));
    assert!(!gates.nodes.iter().any(|n| n.kind == NodeKind::Assign));
    let ties = design(CONST_GATE_DOC);
    let g = cone_with(&ties, 2, Dir::Inout, ConeLimits::depth(3), Projection::GateLevel);
    check_traced(&g);
    assert!(g.nodes.iter().any(|n| n.kind == NodeKind::And));
    assert!(!g.nodes.iter().any(|n| n.kind == NodeKind::Const));
}

#[test]
fn a_trace_that_reports_dropped_connections_says_so() {
    let d = design(NET_DOC);
    for fanout in 0..4 {
        let mut limits = ConeLimits::depth(3);
        limits.fanout = fanout;
        let g = cone_with(&d, 5, Dir::Inout, limits, Projection::ProcessLevel);
        check_traced(&g);
        let dropped = g.nodes.iter().any(|n| n.ports.iter().any(|p| p.more.is_some()));
        assert!(!dropped || g.truncated);
    }
}
