use svxprobe::matcher::anchor::detect_anchor;
use svxprobe::matcher::normalize::{classify, Classification, NormalizeConfig, Rule};
use svxprobe::matcher::run::{pick_node, run_match, MatchOptions, WaveVar};
use svxprobe::model::{Design, Document, Generator, Node, NodeKind, WaveSignalRef};

fn cfg() -> NormalizeConfig {
    NormalizeConfig {
        design_top: "picorv32_soc".to_string(),
        anchor: vec!["TOP".to_string(), "tb".to_string(), "dut".to_string()],
        excluded: vec!["TOP".to_string(), "tb".to_string(), "soc_pkg".to_string()],
    }
}

fn candidate(c: Classification) -> String {
    match c {
        Classification::InDesign { candidate, .. } => candidate,
        other => panic!("expected InDesign, got {:?}", other),
    }
}

#[test]
fn anchor_rebase_plain() {
    let c = classify(&cfg(), "TOP.tb.dut.g_lane[0].bus.valid");
    assert_eq!(candidate(c), "picorv32_soc.g_lane[0].bus.valid");
}

#[test]
fn generate_array_index_is_preserved() {
    let c = classify(&cfg(), "TOP.tb.dut.g_lane[1].core.trap");
    assert_eq!(candidate(c), "picorv32_soc.g_lane[1].core.trap");
}

#[test]
fn array_element_segment_is_dropped() {
    let c = classify(&cfg(), "TOP.tb.dut.g_lane[0].core.cpuregs.[5]");
    match c {
        Classification::InDesign { candidate, trail } => {
            assert_eq!(candidate, "picorv32_soc.g_lane[0].core.cpuregs");
            assert!(trail.contains(&Rule::ArrayElement));
        }
        other => panic!("{:?}", other),
    }
}

#[test]
fn genblock_is_flattened() {
    let c = classify(&cfg(), "TOP.tb.dut.g_lane[0].core.genblk1.foo");
    match c {
        Classification::InDesign { candidate, trail } => {
            assert_eq!(candidate, "picorv32_soc.g_lane[0].core.foo");
            assert!(trail.contains(&Rule::GenBlockFlatten));
        }
        other => panic!("{:?}", other),
    }
}

#[test]
fn excluded_vs_mystery() {
    assert_eq!(classify(&cfg(), "TOP.tb.N_CORES"), Classification::Excluded);
    assert_eq!(classify(&cfg(), "TOP.soc_pkg.XLEN"), Classification::Excluded);
    let mystery = classify(&NormalizeConfig { excluded: vec![], ..cfg() }, "OTHER.weird.sig");
    assert_eq!(mystery, Classification::OutOfDesign);
}

fn node(id: u32, path: &str, kind: NodeKind) -> Node {
    Node {
        id,
        kind,
        name: path.rsplit('.').next().unwrap_or(path).to_string(),
        path: path.to_string(),
        parent: None,
        children: vec![],
        symbol_key: path.to_string(),
        def_range: None,
        inst_range: None,
        type_: None,
        dir: None,
        const_value: None,
        modport: None,
        members: None,
        reset: None,
        enable: None,
        mem_depth: None,
        init_source: None,
        op: None,
        drivers: vec![],
        loads: vec![],
    }
}

fn soc() -> Design {
    Design::from_document(Document {
        schema_version: 1,
        design: "soc".to_string(),
        generator: Generator { tool: String::new(), version: String::new() },
        files: vec![],
        nodes: vec![
            node(0, "soc", NodeKind::Instance),
            node(1, "soc.clk", NodeKind::Port),
            node(2, "soc.clk", NodeKind::Net),
            node(3, "soc.mem.regs", NodeKind::Var),
            node(4, "soc.bus.valid", NodeKind::Var),
            node(5, "soc.WIDTH", NodeKind::Param),
        ],
        edges: vec![],
        enums: vec![],
        source_map: vec![],
        name_refs: vec![],
    })
}

fn var(at: u32, name: &str, is_parameter: bool) -> WaveVar {
    WaveVar { var_ref: at, signal_ref: at + 100, full_name: name.to_string(), is_parameter }
}

#[test]
fn the_wrapping_of_the_design_is_detected() {
    let d = soc();
    let signals = [
        var(0, "TOP.tb.cycle", false),
        var(1, "TOP.tb.dut.clk", false),
        var(2, "TOP.tb.dut.mem.regs.[3]", false),
    ];
    assert_eq!(detect_anchor(&d, &signals, "soc"), vec!["TOP", "tb", "dut"]);
    let flat = [var(0, "x.y", false)];
    assert_eq!(detect_anchor(&d, &flat, "soc"), Vec::<String>::new());
    let tie = [var(0, "a.clk", false), var(1, "a.b.clk", false)];
    assert_eq!(detect_anchor(&d, &tie, "soc"), vec!["a", "b"]);
    let parameters = [var(0, "a.clk", true)];
    assert_eq!(detect_anchor(&d, &parameters, "soc"), Vec::<String>::new());
}

#[test]
fn every_signal_is_counted_once_and_linked() {
    let mut d = soc();
    let signals = [
        var(0, "TOP.tb.dut.clk", false),
        var(1, "TOP.tb.dut.mem.regs.[3]", false),
        var(2, "TOP.tb.dut.memory.bus.valid", false),
        var(3, "TOP.tb.dut.WIDTH", false),
        var(4, "TOP.tb.dut.DEPTH", true),
        var(5, "TOP.tb.dut.nowhere", false),
        var(6, "TOP.tb.cycle", false),
        var(7, "OTHER.weird", false),
    ];
    let opts = MatchOptions { excluded_scopes: vec!["tb".to_string()], anchor: None };
    let r = run_match(&mut d, &signals, &opts);
    assert_eq!(r.anchor, vec!["TOP", "tb", "dut"]);
    assert_eq!(r.total_signals, 8);
    assert_eq!(r.matched_direct, 2);
    assert_eq!(r.matched_alias, 1);
    assert_eq!(r.matched(), 3);
    assert_eq!(r.unmatched, 1);
    assert_eq!(r.denominator, 4);
    assert_eq!(r.excluded_parameter, 2);
    assert_eq!(r.excluded_scope, 1);
    assert_eq!(r.mystery, 1);
    assert_eq!(r.rule_counts.get(Rule::AnchorRebase), 3);
    assert_eq!(r.rule_counts.get(Rule::ArrayElement), 1);
    assert_eq!(r.rule_counts.get(Rule::GenBlockFlatten), 0);
    assert_eq!(r.rule_counts.get(Rule::InterfaceAlias), 1);
    assert_eq!(r.unmatched_samples.len(), 1);
    assert_eq!(r.unmatched_samples[0].full_name, "TOP.tb.dut.nowhere");
    assert_eq!(r.unmatched_samples[0].candidate, "soc.nowhere");
    assert_eq!(r.mystery_samples, vec!["OTHER.weird"]);
    assert!(!r.passes_ratio(1, 2));
    assert_eq!(d.wave_index.signal_of(2), Some(WaveSignalRef(0)));
    assert_eq!(d.wave_index.signal_of(3), Some(WaveSignalRef(1)));
    assert_eq!(d.wave_index.node_of(WaveSignalRef(2)), Some(4));
    assert_eq!(d.wave_index.len(), 3);
}

#[test]
fn a_forced_anchor_is_taken_and_the_gate_is_exact() {
    let mut d = soc();
    let signals = [var(0, "clk", false), var(1, "nowhere", false)];
    let opts = MatchOptions { excluded_scopes: vec![], anchor: Some(vec![]) };
    let r = run_match(&mut d, &signals, &opts);
    assert_eq!(r.anchor, Vec::<String>::new());
    assert!(r.passes_ratio(1, 2));
    assert!(!r.passes_ratio(51, 100));
    let none = run_match(&mut d, &[], &MatchOptions::default());
    assert!(none.passes_ratio(1, 1));
}

#[test]
fn a_variable_is_picked_before_a_net_and_a_port() {
    let d = soc();
    assert_eq!(pick_node(&d, "soc.clk"), Some(2));
    assert_eq!(pick_node(&d, "soc.mem.regs"), Some(3));
    assert_eq!(pick_node(&d, "soc.WIDTH"), None);
    assert_eq!(pick_node(&d, "soc.nothing"), None);
}
