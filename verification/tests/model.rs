use svxprobe::model::{
    Design, Dir, Document, Edge, EnumDef, EnumMember, FileEntry, Generator, Location,
    ModportMember, NameClass, NameRef, Node, NodeId, NodeKind, Range, SourceMapEntry, WaveIndex,
    WaveSignalRef,
};

fn node(id: NodeId, path: &str, kind: NodeKind, range: Option<Range>) -> Node {
    Node {
        id,
        kind,
        name: path.rsplit('.').next().unwrap_or(path).to_string(),
        path: path.to_string(),
        parent: None,
        children: vec![],
        symbol_key: path.to_string(),
        def_range: range,
        inst_range: None,
        type_: None,
        dir: None,
        const_value: None,
        modport: None,
        members: None,
        reset: None,
        enable: None,
        mem_depth: None,
        init_source: None,
        op: None,
        drivers: vec![],
        loads: vec![],
    }
}

fn rng(file: u32, lo: u32, hi: u32) -> Range {
    Range {
        file,
        start: Location { line: 1, col: 1, offset: lo },
        end: Location { line: 1, col: 1, offset: hi },
    }
}

fn file(id: u32, path: &str, language: Option<&str>) -> FileEntry {
    FileEntry { id, path: path.to_string(), language: language.map(|l| l.to_string()) }
}

fn doc(files: Vec<FileEntry>, nodes: Vec<Node>) -> Document {
    Document {
        schema_version: 1,
        design: "t".to_string(),
        generator: Generator { tool: String::new(), version: String::new() },
        files,
        nodes,
        edges: vec![],
        enums: vec![],
        source_map: vec![],
        name_refs: vec![],
    }
}

#[test]
fn path_and_source_lookup() {
    let d = Design::from_document(doc(
        vec![file(0, "t.sv", None)],
        vec![
            node(0, "t", NodeKind::Instance, Some(rng(0, 0, 10))),
            node(1, "t.a", NodeKind::Var, Some(rng(0, 4, 8))),
        ],
    ));
    assert_eq!(d.nodes_at_path("t.a"), &[1]);
    let mut hit = d.nodes_at_source(0, 5);
    hit.sort();
    assert_eq!(hit, vec![0, 1]);
    assert_eq!(d.nodes_at_source(0, 9), vec![0]);
}

#[test]
fn hls_source_map_lookup_both_directions() {
    let mut doc = doc(
        vec![file(0, "t.sv", Some("systemverilog")), file(1, "t.cpp", Some("cpp"))],
        vec![node(0, "t", NodeKind::Instance, Some(rng(0, 0, 10)))],
    );
    doc.source_map = vec![SourceMapEntry { generated: rng(0, 4, 8), source: rng(1, 20, 24) }];
    let d = Design::from_document(doc);
    assert_eq!(d.mapped_from_gen(0, 5).map(|r| r.start.offset), Some(20));
    assert_eq!(d.mapped_from_src(1, 22).map(|r| r.start.offset), Some(4));
    assert!(d.mapped_from_gen(0, 9).is_none());
    assert!(d.mapped_from_src(1, 30).is_none());
    assert!(d.mapped_from_gen(1, 22).is_none());
}

#[test]
fn name_ref_lookup_is_narrowest_and_separate_from_src_index() {
    let mut doc = doc(
        vec![file(0, "t.sv", None)],
        vec![node(0, "t", NodeKind::Instance, Some(rng(0, 0, 20)))],
    );
    doc.name_refs = vec![
        NameRef {
            file: 0,
            line: 1,
            col: 5,
            offset: 4,
            len: 9,
            class: NameClass::Signal,
            rel: "bus.valid".to_string(),
        },
        NameRef {
            file: 0,
            line: 1,
            col: 9,
            offset: 8,
            len: 5,
            class: NameClass::Signal,
            rel: "bus.valid".to_string(),
        },
    ];
    let d = Design::from_document(doc);
    assert_eq!(d.name_ref_at(0, 10).map(|r| r.len), Some(5));
    assert_eq!(d.name_ref_at(0, 5).map(|r| r.len), Some(9));
    assert_eq!(d.nodes_at_source(0, 10), vec![0]);
    assert_eq!(d.name_refs_in_file(0).len(), 2);
    assert!(d.name_refs_in_file(1).is_empty());
    assert_eq!(d.name_ref_at(0, 10).unwrap().absolute_path(), None);
}

#[test]
fn conn_index_links_both_endpoints() {
    let mut doc = doc(
        vec![file(0, "t.sv", None)],
        vec![
            node(0, "t", NodeKind::Instance, None),
            node(1, "t.p", NodeKind::Port, None),
            node(2, "t.n", NodeKind::Net, None),
        ],
    );
    doc.edges = vec![Edge {
        id: 0,
        port: 1,
        endpoint: 2,
        dir: Dir::Out,
        select: None,
        mem_port: None,
        mux_port: None,
    }];
    let d = Design::from_document(doc);
    assert_eq!(d.edges().len(), 1);
    assert_eq!(d.edges_of(1).len(), 1);
    assert_eq!(d.edges_of(2)[0].dir, Dir::Out);
    assert!(d.edges_of(0).is_empty());
}

#[test]
fn wave_index_round_trips_via_pairs() {
    let mut wi = WaveIndex::default();
    wi.insert(3, WaveSignalRef(10));
    wi.insert(7, WaveSignalRef(20));

    let mut pairs: Vec<(NodeId, WaveSignalRef)> = wi.pairs();
    pairs.sort_by_key(|(node, sig)| (*node, sig.0));
    assert_eq!(pairs, vec![(3, WaveSignalRef(10)), (7, WaveSignalRef(20))]);

    let rebuilt = WaveIndex::from_pairs(&pairs);
    assert_eq!(rebuilt.len(), 2);
    assert_eq!(rebuilt.node_of(WaveSignalRef(10)), Some(3));
    assert_eq!(rebuilt.node_of(WaveSignalRef(20)), Some(7));
    assert_eq!(rebuilt.signal_of(3), Some(WaveSignalRef(10)));
    assert_eq!(rebuilt.signal_of(7), Some(WaveSignalRef(20)));
}

#[test]
fn modport_member_nodes_resolve_via_parent_path() {
    let mut bus = node(1, "t.bus", NodeKind::Interface, None);
    bus.parent = Some(0);
    bus.children = vec![2, 3];
    let mut valid = node(2, "t.bus.valid", NodeKind::Var, None);
    valid.parent = Some(1);
    let mut mp = node(3, "t.bus.mem", NodeKind::Modport, None);
    mp.parent = Some(1);
    mp.members = Some(vec![ModportMember { name: "valid".to_string(), dir: Dir::In }]);
    let d = Design::from_document(doc(
        vec![],
        vec![node(0, "t", NodeKind::Instance, None), bus, valid, mp],
    ));
    assert_eq!(d.modport_member_nodes(3, "valid"), &[2]);
    assert!(d.modport_member_nodes(3, "nope").is_empty());
    assert!(d.modport_member_nodes(0, "valid").is_empty());
}

#[test]
fn enum_for_type_looks_up_by_type_string() {
    let mut doc = doc(vec![], vec![node(0, "t.s", NodeKind::Var, None)]);
    doc.enums = vec![(
        "p::e_t".to_string(),
        EnumDef {
            width: 2,
            members: vec![
                EnumMember { name: "A".to_string(), value: 0 },
                EnumMember { name: "B".to_string(), value: 1 },
            ],
        },
    )];
    let d = Design::from_document(doc);
    let e = d.enum_for_type("p::e_t").expect("enum present");
    assert_eq!(e.width, 2);
    assert_eq!(e.members[1].name, "B");
    assert_eq!(e.members[1].value, 1);
    assert!(d.enum_for_type("nope").is_none());
}

#[test]
fn relinking_keeps_links_one_to_one() {
    let mut wi = WaveIndex::default();
    assert!(wi.is_empty());
    wi.insert(3, WaveSignalRef(10));
    wi.insert(3, WaveSignalRef(11));
    assert_eq!(wi.signal_of(3), Some(WaveSignalRef(11)));
    assert_eq!(wi.node_of(WaveSignalRef(11)), Some(3));
    assert_eq!(wi.node_of(WaveSignalRef(10)), None);
    assert_eq!(wi.len(), 1);
    wi.insert(4, WaveSignalRef(11));
    assert_eq!(wi.signal_of(3), None);
    assert_eq!(wi.signal_of(4), Some(WaveSignalRef(11)));
    assert_eq!(wi.node_of(WaveSignalRef(11)), Some(4));
    assert_eq!(wi.len(), 1);
    wi.insert(4, WaveSignalRef(11));
    assert_eq!(wi.pairs(), vec![(4, WaveSignalRef(11))]);
    wi.insert(5, WaveSignalRef(12));
    wi.insert(4, WaveSignalRef(12));
    assert_eq!(wi.pairs(), vec![(4, WaveSignalRef(12))]);
    assert_eq!(wi.node_of(WaveSignalRef(11)), None);
    assert_eq!(wi.signal_of(5), None);
}

#[test]
fn links_from_pairs_are_one_to_one() {
    let pairs = [
        (1, WaveSignalRef(7)),
        (2, WaveSignalRef(7)),
        (3, WaveSignalRef(8)),
        (3, WaveSignalRef(9)),
    ];
    let wi = WaveIndex::from_pairs(&pairs);
    assert_eq!(wi.pairs(), vec![(2, WaveSignalRef(7)), (3, WaveSignalRef(9))]);
    assert_eq!(wi.node_of(WaveSignalRef(7)), Some(2));
    assert_eq!(wi.node_of(WaveSignalRef(8)), None);
    let again = WaveIndex::from_pairs(&wi.pairs());
    assert_eq!(again.pairs(), wi.pairs());
    assert_eq!(again.node_of(WaveSignalRef(9)), Some(3));
}

#[test]
fn the_narrowest_mapping_is_measured_on_the_side_asked_for() {
    let mut doc = doc(
        vec![file(0, "t.sv", None)],
        vec![node(0, "t", NodeKind::Instance, Some(rng(0, 0, 10)))],
    );
    doc.source_map = vec![
        SourceMapEntry { generated: rng(0, 0, 10), source: rng(0, 100, 102) },
        SourceMapEntry { generated: rng(0, 0, 4), source: rng(0, 90, 110) },
    ];
    let d = Design::from_document(doc);
    assert_eq!(d.mapped_from_gen(0, 2).map(|r| r.start.offset), Some(90));
    assert_eq!(d.mapped_from_gen(0, 6).map(|r| r.start.offset), Some(100));
    assert_eq!(d.mapped_from_src(0, 101).map(|r| r.end.offset), Some(10));
    assert_eq!(d.mapped_from_src(0, 95).map(|r| r.end.offset), Some(4));
    assert!(d.mapped_from_gen(0, 101).is_none());
}

#[test]
fn source_spans_are_half_open_and_per_file() {
    let mut b = node(1, "t.b", NodeKind::Instance, Some(rng(1, 0, 6)));
    b.inst_range = Some(rng(0, 20, 24));
    let d = Design::from_document(doc(
        vec![file(0, "a.sv", None), file(1, "b.sv", None)],
        vec![node(0, "t", NodeKind::Instance, Some(rng(0, 0, 10))), b],
    ));
    assert_eq!(d.nodes_at_source(0, 0), vec![0]);
    assert_eq!(d.nodes_at_source(0, 10), Vec::<u32>::new());
    assert_eq!(d.nodes_at_source(0, 23), vec![1]);
    assert_eq!(d.nodes_at_source(0, 24), Vec::<u32>::new());
    assert_eq!(d.nodes_at_source(1, 3), vec![1]);
    assert_eq!(d.nodes_in_source_range(0, 8, 21), vec![0, 1]);
    assert_eq!(d.nodes_in_source_range(0, 10, 20), Vec::<u32>::new());
    assert_eq!(d.nodes_at_source(2, 3), Vec::<u32>::new());
}

#[test]
fn paths_may_name_several_nodes() {
    let d = Design::from_document(doc(
        vec![],
        vec![
            node(0, "t", NodeKind::Instance, None),
            node(1, "t.a", NodeKind::Port, None),
            node(2, "t.a", NodeKind::Net, None),
        ],
    ));
    assert_eq!(d.nodes_at_path("t.a"), &[1, 2]);
    assert_eq!(d.nodes_at_path("t.b"), &[] as &[u32]);
    assert_eq!(d.path_count(), 2);
    assert_eq!(d.nodes().len(), 3);
    assert_eq!(d.node(2).map(|n| n.kind), Some(NodeKind::Net));
    assert!(d.node(3).is_none());
}

#[test]
fn marked_references_carry_their_path() {
    let r = NameRef {
        file: 0,
        line: 1,
        col: 1,
        offset: 0,
        len: 3,
        class: NameClass::Module,
        rel: "/soc_pkg::XLEN".to_string(),
    };
    let plain = NameRef { rel: "u".to_string(), ..r.clone() };
    assert_eq!(r.absolute_path(), Some("soc_pkg::XLEN"));
    assert_eq!(plain.absolute_path(), None);
    assert_eq!(r.span(), (0, 3));
}
