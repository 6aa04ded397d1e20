use svxprobe::cache::{
    pick_links, pick_model, read_model_cache, try_load_wave_index, write_model_cache,
    write_wave_index, Archive,
};
use svxprobe::cli::{
    excluded_scopes, file_entry, graph_cmd, graph_lines, ingest_lines, line_offset, match_lines,
    parse_offset, parse_source, probe_target, selection_lines, GraphArgs, GraphError,
    ProbeTarget, SpecError, Verdict,
};
use svxprobe::ingest::{
    cache_path_for, load, load_cached, wave_index_cache_path, CacheHeader, LoadError, SourceMeta,
};
use svxprobe::matcher::run::{run_match, MatchOptions, WaveVar};
use svxprobe::model::{
    Dir, Document, Edge, EnumDef, EnumMember, FileEntry, Generator, Location, NameClass, NameRef,
    Node, NodeKind, Range, SourceMapEntry,
};
use svxprobe::schematic::hierarchy::is_hierarchical;
use svxprobe::schematic::types::{ConeLimits, Projection};
use svxprobe::session::{
    check_top, elaborate_argv, parse_dir, Resolution, Session, SourceTarget, TraceStepReq,
    TreeNode, WaveTarget,
};
use svxprobe::sessions::{Sessions, DEFAULT_SESSION};

fn node(id: u32, kind: NodeKind, name: &str, path: &str, parent: Option<u32>, kids: &[u32]) -> Node {
    Node {
        id,
        kind,
        name: name.to_string(),
        path: path.to_string(),
        parent,
        children: kids.to_vec(),
        symbol_key: path.to_string(),
        def_range: None,
        inst_range: None,
        type_: None,
        dir: None,
        const_value: None,
        modport: None,
        members: None,
        reset: None,
        enable: None,
        mem_depth: None,
        init_source: None,
        op: None,
        drivers: vec![],
        loads: vec![],
    }
}

fn rng(file: u32, lo: u32, hi: u32) -> Range {
    Range {
        file,
        start: Location { line: 3, col: 5, offset: lo },
        end: Location { line: 4, col: 1, offset: hi },
    }
}

fn edge(id: u32, port: u32, endpoint: u32, dir: Dir) -> Edge {
    Edge { id, port, endpoint, dir, select: None, mem_port: None, mux_port: None }
}

/// A top with an array of two generated lanes, one instance in each, and a generate block
/// that holds logic alone.
fn document() -> Document {
    let mut top = node(0, NodeKind::Instance, "t", "t", None, &[1, 2, 3, 4, 11]);
    top.def_range = Some(rng(0, 0, 50));
    let mut port = node(1, NodeKind::Port, "go", "t.go", Some(0), &[]);
    port.dir = Some(Dir::In);
    port.type_ = Some("logic[7:0]".to_string());
    let mut var = node(2, NodeKind::Var, "go", "t.go", Some(0), &[]);
    var.type_ = Some("logic[7:0]".to_string());
    let mut state = node(3, NodeKind::Var, "state", "t.state", Some(0), &[]);
    state.type_ = Some("p::e_t".to_string());
    state.def_range = Some(rng(0, 10, 20));
    let mut a_in = node(9, NodeKind::Port, "x", "t.g[0].u.x", Some(7), &[]);
    a_in.dir = Some(Dir::In);
    let mut b_out = node(10, NodeKind::Port, "y", "t.g[1].u.y", Some(8), &[]);
    b_out.dir = Some(Dir::Out);
    Document {
        schema_version: 1,
        design: "t".to_string(),
        generator: Generator { tool: String::new(), version: String::new() },
        files: vec![
            FileEntry { id: 0, path: "rtl/t.sv".to_string(), language: None },
            FileEntry { id: 1, path: "src/t.cpp".to_string(), language: Some("cpp".to_string()) },
        ],
        nodes: vec![
            top,
            port,
            var,
            state,
            node(4, NodeKind::GenBlock, "g", "t.g", Some(0), &[5, 6]),
            node(5, NodeKind::GenBlock, "", "t.g[0]", Some(4), &[7]),
            node(6, NodeKind::GenBlock, "", "t.g[1]", Some(4), &[8]),
            node(7, NodeKind::Instance, "u", "t.g[0].u", Some(5), &[9]),
            node(8, NodeKind::Instance, "u", "t.g[1].u", Some(6), &[10]),
            a_in,
            b_out,
            node(11, NodeKind::GenBlock, "only_logic", "t.only_logic", Some(0), &[12]),
            node(12, NodeKind::Comb, "comb", "t.only_logic.$comb12", Some(11), &[]),
        ],
        edges: vec![edge(0, 9, 3, Dir::In), edge(1, 10, 3, Dir::Out)],
        enums: vec![(
            "p::e_t".to_string(),
            EnumDef {
                width: 2,
                members: vec![
                    EnumMember { name: "IDLE".to_string(), value: 0 },
                    EnumMember { name: "RUN".to_string(), value: 1 },
                ],
            },
        )],
        source_map: vec![SourceMapEntry { generated: rng(0, 8, 24), source: rng(1, 100, 110) }],
        name_refs: vec![],
    }
}

fn session() -> Session {
    let design = match load(document()) {
        Ok(d) => d,
        Err(_) => panic!("the document loads"),
    };
    assert!(is_hierarchical(&design));
    Session { design, src_root: "/work".to_string() }
}

fn all_rows(t: &TreeNode, out: &mut Vec<String>) {
    out.push(t.path.clone());
    for c in &t.children {
        all_rows(c, out);
    }
}

#[test]
fn tree_rows_are_scopes_with_arrays_opened() {
    let s = session();
    let shut = s.hierarchy_tree("t", 0).unwrap();
    assert!(shut.expandable && shut.children.is_empty());
    let tree = s.hierarchy_tree("t", 9).unwrap();
    let mut rows = Vec::new();
    all_rows(&tree, &mut rows);
    assert_eq!(rows, vec!["t", "t.g[0]", "t.g[0].u", "t.g[1]", "t.g[1].u"]);
    assert_eq!(tree.children[0].label, "g[0]");
    for r in &rows {
        assert!(s.scope_graph(r).is_some());
        assert!(s.scope_signals(r).is_some());
    }
    assert!(s.hierarchy_tree("t.only_logic", 1).is_none());
    assert!(s.scope_graph("t.only_logic").is_none());
    assert!(s.scope_signals("t.only_logic").is_none());
    assert!(s.hierarchy_tree("t.state", 1).is_none());
}

#[test]
fn scope_signals_are_listed_once_each() {
    let s = session();
    assert_eq!(s.scope_signals("t").unwrap(), vec!["t.go", "t.state"]);
    assert_eq!(s.scope_signals("t.g[0]").unwrap(), Vec::<String>::new());
    assert_eq!(s.scope_signals("t.g[0].u").unwrap(), vec!["t.g[0].u.x"]);
    let e = s.signal_entry(2, true).unwrap();
    assert_eq!(e.path, "t.go");
    assert_eq!(e.name, "go");
    assert_eq!(e.kind, NodeKind::Var);
    assert_eq!(e.width.as_deref(), Some("[7:0]"));
    assert!(e.in_trace);
    assert_eq!(s.signal_entry(3, false).unwrap().width.as_deref(), Some("[1:0]"));
    assert!(s.signal_entry(99, false).is_none());
}

#[test]
fn a_session_tells_of_its_top_and_files() {
    let s = session();
    assert_eq!(s.design_top(), "t");
    let scopes = s.list_scopes();
    assert_eq!(scopes.len(), 1);
    assert_eq!((scopes[0].id, scopes[0].kind.as_str()), (0, "Instance"));
    assert_eq!(s.source_files().len(), 2);
    assert_eq!(s.source_files()[1].language.as_deref(), Some("cpp"));
    assert_eq!(s.source_file_path(1).as_deref(), Some("src/t.cpp"));
    assert_eq!(s.source_file_path(7), None);
    assert_eq!(s.resolve_source("rtl/t.sv", true, true), "/work/rtl/t.sv");
    assert_eq!(s.resolve_source("rtl/t.sv", false, true), "rtl/t.sv");
    assert_eq!(s.context_node(Some("t.go")), Some(1));
    assert_eq!(s.context_node(Some("nope")), None);
    assert_eq!(s.context_node(None), None);
}

#[test]
fn a_trace_names_its_seeds_by_path() {
    let s = session();
    let req = |path: &str| TraceStepReq {
        path: path.to_string(),
        dir: Dir::Out,
        depth: None,
        fanout: None,
    };
    let g = s
        .trace_graph(&[req("t.state")], ConeLimits::depth(4), Projection::ProcessLevel)
        .unwrap();
    assert!(!g.nodes.is_empty());
    match s.trace_graph(&[req("t.none")], ConeLimits::depth(4), Projection::ProcessLevel) {
        Err(why) => assert_eq!(why, "trace seed not found: t.none"),
        Ok(_) => panic!("no such seed"),
    }
    assert!(s
        .trace_graph(&[], ConeLimits::depth(4), Projection::ProcessLevel)
        .unwrap()
        .nodes
        .is_empty());
}

#[test]
fn cones_take_a_direction_by_name() {
    let s = session();
    assert_eq!(parse_dir("in"), Dir::In);
    assert_eq!(parse_dir("out"), Dir::Out);
    assert_eq!(parse_dir("sideways"), Dir::Inout);
    assert!(s.cone(3, "inout", 1).nodes.iter().all(|n| n.kind == NodeKind::Instance));
    assert!(s.expand(7).is_some());
    assert!(s.expand_with(3, Projection::GateLevel).is_none());
    assert!(s.scope_graph_with("t", Projection::GateLevel).is_some());
}

#[test]
fn a_response_links_all_views() {
    let s = session();
    let r = Resolution { anchor: 3, alternatives: vec![2, 99] };
    let source = SourceTarget { def: Some(rng(0, 10, 20)), inst: None };
    let linked = WaveTarget::Linked { var_ref: 5, full_name: "TOP.state".to_string() };
    let p = s.response(&r, source, &linked, 17);
    assert_eq!((p.anchor.id, p.anchor.path.as_str(), p.anchor.kind.as_str()), (3, "t.state", "Var"));
    let at = p.source.unwrap();
    assert_eq!((at.path.as_str(), at.line, at.col, at.offset), ("rtl/t.sv", 3, 5, 10));
    let c = p.mapped_source.unwrap();
    assert_eq!((c.file, c.path.as_str(), c.offset, c.end_offset), (1, "src/t.cpp", 100, 110));
    assert!(p.wave.in_trace);
    assert_eq!((p.wave.var_ref, p.wave.signal_ref), (5, 17));
    assert_eq!(p.wave.enum_map.unwrap().len(), 2);
    assert_eq!(p.alternatives.len(), 2);
    assert_eq!(p.alternatives[1].path, "");
    let bare = s.response(
        &Resolution { anchor: 9, alternatives: vec![] },
        SourceTarget { def: None, inst: None },
        &WaveTarget::NotInTrace,
        17,
    );
    assert!(bare.source.is_none() && bare.mapped_source.is_none());
    assert!(!bare.wave.in_trace);
    assert_eq!((bare.wave.signal_ref, bare.wave.full_name.as_str()), (0, ""));
}

#[test]
fn the_elaborator_is_told_what_to_do() {
    let inc = vec!["inc".to_string()];
    let hls = vec!["a.cpp".to_string()];
    assert_eq!(
        elaborate_argv("s.f", "top", &inc, &hls).unwrap(),
        vec![
            "--top", "top", "-f", "s.f", "-I", "inc", "--gate-level", "--hls-map", "--hls-src",
            "a.cpp", "-o", "-",
        ]
    );
    assert_eq!(
        elaborate_argv("s.f", "top", &[], &[]).unwrap(),
        vec!["--top", "top", "-f", "s.f", "--gate-level", "-o", "-"]
    );
    assert_eq!(
        elaborate_argv("s.f", "  ", &[], &[]),
        Err("a top module name is required to elaborate a designlist".to_string())
    );
    let s = session();
    assert_eq!(check_top(&s.design, "t", "fine"), Ok(()));
    let why = check_top(&s.design, "u", " no such module \n").unwrap_err();
    assert!(why.contains("top 'u'"));
    assert!(why.ends_with("Harness output: no such module"));
}

#[test]
fn source_positions_are_read() {
    let d = session().design;
    let at = parse_source(&d, "t.sv:12:4").unwrap();
    assert_eq!((at.file, at.path.as_str(), at.line, at.col), (0, "rtl/t.sv", 12, 4));
    assert_eq!(parse_source(&d, "rtl/t.sv:12").unwrap().col, 1);
    assert!(matches!(parse_source(&d, "t.sv"), Err(SpecError::Shape)));
    assert!(matches!(parse_source(&d, "t.sv:x"), Err(SpecError::Number)));
    assert!(matches!(parse_source(&d, "t.sv:1:x"), Err(SpecError::Column)));
    assert!(matches!(parse_source(&d, "other.sv:1"), Err(SpecError::File)));
    assert_eq!(parse_offset(&d, "t.cpp:40"), Ok((1, 40)));
    assert_eq!(parse_offset(&d, "7:40"), Ok((7, 40)));
    assert_eq!(parse_offset(&d, "t.cpp"), Err(SpecError::Shape));
    assert_eq!(parse_offset(&d, "t.cpp:x"), Err(SpecError::Number));
    assert_eq!(parse_offset(&d, "none:1"), Err(SpecError::File));
    assert_eq!(file_entry(&d, "t.cpp").map(|f| f.id), Some(1));
    assert_eq!(line_offset("ab\nµc\nd", 3, 1), Some(7));
    assert_eq!(line_offset("ab\nµc\nd", 2, 3), Some(5));
    assert_eq!(line_offset("ab\n", 1, 0), Some(0));
    assert_eq!(line_offset("ab\n", 2, 1), None);
}

#[test]
fn excluded_scopes_skip_comments() {
    assert_eq!(
        excluded_scopes("TOP # top\n\n// all\r\n  tb  // bench\nsoc_pkg"),
        vec!["TOP", "tb", "soc_pkg"]
    );
}

fn graph_args(cone: Option<&str>, projection: Option<&str>, fanout: Option<usize>) -> GraphArgs {
    GraphArgs {
        scope: "t".to_string(),
        cone: cone.map(|c| c.to_string()),
        dir: "inout".to_string(),
        depth: 2,
        projection: projection.map(|p| p.to_string()),
        fanout,
    }
}

#[test]
fn a_graph_is_picked_by_the_arguments() {
    let d = session().design;
    let whole = graph_cmd(&d, &graph_args(None, None, None)).unwrap();
    assert_eq!(whole.root, "t");
    let lines = graph_lines(&d, &whole);
    assert_eq!(lines[0], "scope:  t");
    assert_eq!(lines[1], format!("boxes:  {}", whole.nodes.len()));
    assert!(lines.contains(&"  [7] g[0].u (Instance, 1 ports) +".to_string()));
    assert!(lines.contains(&format!("wires:  {}", whole.edges.len())));
    let legacy = graph_cmd(&d, &graph_args(Some("t.state"), None, None)).unwrap();
    assert!(legacy.nodes.iter().all(|n| n.kind == NodeKind::Instance));
    assert!(graph_cmd(&d, &graph_args(Some("t.state"), Some("gate-level"), None)).is_ok());
    assert!(graph_cmd(&d, &graph_args(Some("t.state"), None, Some(1))).is_ok());
    assert!(matches!(
        graph_cmd(&d, &graph_args(Some("t.state"), Some("rtl"), None)),
        Err(GraphError::Projection)
    ));
    assert!(matches!(
        graph_cmd(&d, &graph_args(Some("t.none"), None, None)),
        Err(GraphError::Net)
    ));
    let mut nowhere = graph_args(None, None, None);
    nowhere.scope = "nope".to_string();
    assert!(matches!(graph_cmd(&d, &nowhere), Err(GraphError::Scope)));
}

#[test]
fn summaries_are_printed_line_by_line() {
    let mut d = session().design;
    assert_eq!(
        ingest_lines(&d),
        vec![
            "design:       t",
            "files:        2",
            "nodes:        13",
            "unique paths: 12",
            "  Comb       1",
            "  GenBlock   4",
            "  Instance   3",
            "  Port       3",
            "  Var        2",
            "src_index @ top def: 1 node(s)",
        ]
    );
    let signals = [
        WaveVar { var_ref: 0, signal_ref: 0, full_name: "w.go".to_string(), is_parameter: false },
        WaveVar { var_ref: 1, signal_ref: 1, full_name: "w.no".to_string(), is_parameter: false },
        WaveVar { var_ref: 2, signal_ref: 2, full_name: "v".to_string(), is_parameter: false },
    ];
    let r = run_match(&mut d, &signals, &MatchOptions::default());
    let v = Verdict {
        hit_percent: "50.00".to_string(),
        wanted_percent: "95".to_string(),
        pass: false,
    };
    assert_eq!(
        match_lines("a.vcd", &r, d.wave_index.len(), true, &v),
        vec![
            "trace:       a.vcd",
            "anchor:      w",
            "signals:     3",
            "denominator: 2 (design-scope, non-parameter)",
            "matched:     1 (50.00%)  [direct 1 + interface-alias 0]",
            "unmatched:   1",
            "excluded:    0 scope + 0 parameter",
            "mystery:     1",
            "wave_index:  1 signals linked",
            "rules applied:",
            "  AnchorRebase: 1",
            "  UNMATCHED w.no -> t.no",
            "  MYSTERY v",
            "gate (>= 95% & 0 mystery): FAIL",
        ]
    );
    assert_eq!(
        selection_lines(
            &d,
            3,
            SourceTarget { def: None, inst: Some(rng(0, 10, 20)) },
            &WaveTarget::Linked { var_ref: 0, full_name: "w.state".to_string() },
            &[1],
        ),
        vec![
            "selection: t.state  [Some(Var)]",
            "  source:  rtl/t.sv:3:5  (offset 10)",
            "  wave:    w.state",
            "alternatives (picker):",
            "  - t.go",
        ]
    );
    assert_eq!(
        selection_lines(
            &d,
            99,
            SourceTarget { def: None, inst: None },
            &WaveTarget::NotInTrace,
            &[],
        ),
        vec!["selection: ?  [None]", "  source:  (no range)", "  wave:    (not in trace)"]
    );
}

#[test]
fn caches_follow_their_sources() {
    let then = SourceMeta { len: 10, mtime_ns: 20 };
    let now = SourceMeta { len: 10, mtime_ns: 21 };
    let doc = vec![1u8, 2, 3, 250];
    let model = write_model_cache(CacheHeader::current(1, then), doc.clone()).unwrap();
    assert_eq!(read_model_cache(&model, then), Some(doc.clone()));
    assert_eq!(read_model_cache(&model, now), None);
    let newer = write_model_cache(CacheHeader::current(2, then), doc.clone()).unwrap();
    assert_eq!(read_model_cache(&newer, then), None);
    assert_eq!(read_model_cache(&model[..model.len() - 1], then), None);
    assert_eq!(read_model_cache(b"not a valid rkyv archive", then), None);
    assert_eq!(read_model_cache(&[], then), None);
    assert!(load_cached(document()).is_some());
    let links = vec![(3u32, 10u64), (7, 20)];
    let wave = write_wave_index(then, now, 7, links.clone()).unwrap();
    assert_eq!(try_load_wave_index(&wave, then, now, 7), Some(links.clone()));
    assert_eq!(try_load_wave_index(&wave, now, now, 7), None);
    assert_eq!(try_load_wave_index(&wave, then, then, 7), None);
    assert_eq!(try_load_wave_index(&wave, then, now, 8), None);
    assert_eq!(try_load_wave_index(&model, then, now, 7), None);
    assert_eq!(read_model_cache(&wave, then), None);
    let none = write_wave_index(then, now, 7, vec![]).unwrap();
    assert_eq!(try_load_wave_index(&none, then, now, 7), Some(vec![]));
    let many: Vec<(u32, u64)> = (0..10_000u32).map(|i| (i, u64::MAX - i as u64)).collect();
    let large = write_wave_index(then, now, 7, many.clone()).unwrap();
    assert_eq!(try_load_wave_index(&large, then, now, 7), Some(many));
    let empty = write_model_cache(CacheHeader::current(1, then), vec![]).unwrap();
    assert_eq!(read_model_cache(&empty, then), Some(vec![]));
    let a = Archive { header: vec![1, 10, 20, 10, 21, 7], links, payload: vec![] };
    assert_eq!(pick_links(Some(a), then, now, 7), Some(vec![(3, 10), (7, 20)]));
    assert_eq!(pick_links(None, then, now, 7), None);
    let m = Archive { header: vec![1, 1, 10, 20], links: vec![], payload: doc.clone() };
    assert_eq!(pick_model(Some(m), then), Some(doc));
    assert_eq!(cache_path_for("a/hierarchy.json"), "a/.schemview_data/hierarchy.json.rkyv");
    assert_eq!(cache_path_for("hierarchy.json"), "./.schemview_data/hierarchy.json.rkyv");
    assert_eq!(
        wave_index_cache_path("a/m.json", "b/t.fst"),
        "a/.schemview_data/m.json.t.fst.waveidx.rkyv"
    );
}

#[test]
fn pairs_of_files_have_index_caches_of_their_own() {
    let one = wave_index_cache_path("a/m.json", "t.fst");
    assert!(one != wave_index_cache_path("a/m.json", "u.fst"));
    assert!(one != wave_index_cache_path("a/n.json", "t.fst"));
    assert!(one != wave_index_cache_path("b/m.json", "t.fst"));
    assert_eq!(one, wave_index_cache_path("a/m.json", "elsewhere/t.fst"));
    assert_eq!(wave_index_cache_path("x", "y.z"), wave_index_cache_path("x.y", "z"));
    assert!(wave_index_cache_path("x", "yz") != wave_index_cache_path("x.y", "z"));
}

#[test]
fn identifier_occurrences_feed_the_source_pane() {
    let classes = [
        (NameClass::Module, "module"),
        (NameClass::Instance, "instance"),
        (NameClass::Port, "port"),
        (NameClass::Signal, "signal"),
        (NameClass::Param, "param"),
        (NameClass::Type, "type"),
        (NameClass::EnumMember, "enum-member"),
        (NameClass::Function, "function"),
        (NameClass::Interface, "interface"),
        (NameClass::Modport, "modport"),
        (NameClass::Genvar, "genvar"),
    ];
    let mut doc = document();
    for (i, (class, _)) in classes.iter().enumerate() {
        doc.name_refs.push(NameRef {
            file: 0,
            line: 2,
            col: 1 + i as u32,
            offset: 10 * i as u32,
            len: 3,
            class: *class,
            rel: "x".to_string(),
        });
        doc.name_refs.push(NameRef {
            file: 9,
            line: 1,
            col: 1,
            offset: 0,
            len: 1,
            class: *class,
            rel: String::new(),
        });
    }
    let design = match load(doc) {
        Ok(d) => d,
        Err(_) => panic!("the document loads"),
    };
    let s = Session { design, src_root: String::new() };
    let refs = s.name_refs(0);
    assert_eq!(refs.len(), classes.len());
    for (i, (r, (_, word))) in refs.iter().zip(classes.iter()).enumerate() {
        assert_eq!(r.cls, *word);
        assert_eq!((r.line, r.col, r.offset, r.len), (2, 1 + i as u32, 10 * i as u32, 3));
    }
    assert_eq!(s.name_refs(9).len(), classes.len());
    assert!(s.name_refs(1).is_empty());
    let all: Vec<_> = s.source_files().into_iter().flat_map(|f| s.name_refs(f.id)).collect();
    assert!(all.iter().all(|r| !r.cls.is_empty() && r.len > 0));
}

#[test]
fn an_identifier_past_the_offset_range_cannot_be_indexed() {
    let mut doc = document();
    doc.name_refs = vec![NameRef {
        file: 0,
        line: 1,
        col: 1,
        offset: u32::MAX,
        len: 2,
        class: NameClass::Signal,
        rel: "x".to_string(),
    }];
    assert!(matches!(load(doc), Err(LoadError::Unindexable)));
}

#[test]
fn windows_own_their_sessions() {
    let mut all = Sessions::new();
    assert_eq!(
        all.scope_graph(None, "t", None).err().as_deref(),
        Some("no design loaded for session 'main'")
    );
    assert_eq!(all.store(None, session()), "t");
    let mut other = session();
    other.src_root = "/other".to_string();
    assert_eq!(all.store(Some("pane"), other), "t");
    assert_eq!(all.session(Some(DEFAULT_SESSION)).unwrap().src_root, "/work");
    assert_eq!(all.session(Some("pane")).unwrap().src_root, "/other");
    all.store(Some("pane"), session());
    assert_eq!(all.session(Some("pane")).unwrap().src_root, "/work");
    assert!(all.scope_graph(Some("pane"), "t", Some(Projection::GateLevel)).is_ok());
    assert_eq!(
        all.scope_graph(None, "nope", None).err().as_deref(),
        Some("scope not found: nope")
    );
    assert!(all.expand_node(None, 7, None).is_ok());
    assert_eq!(all.expand_node(None, 3, None).err().as_deref(), Some("not expandable"));
    assert!(all.hierarchy_tree(None, "t", 1).is_ok());
    assert_eq!(
        all.hierarchy_tree(None, "t.state", 1).err().as_deref(),
        Some("scope not found: t.state")
    );
    assert_eq!(all.scope_signals(None, "t").unwrap(), vec!["t.go", "t.state"]);
    assert!(all.scope_signals(None, "t.state").is_err());
    assert!(all.cone(None, 3, "in", 1).is_ok());
    all.unload(Some("pane"));
    all.unload(Some("pane"));
    assert_eq!(
        all.session(Some("pane")).err().as_deref(),
        Some("no design loaded for session 'pane'")
    );
    assert!(all.session(None).is_ok());
}

#[test]
fn a_probe_starts_from_the_first_target_given() {
    let t = |s: &str| Some(s.to_string());
    assert_eq!(probe_target(t("s"), t("n"), None, None), Ok(ProbeTarget::Signal("s".to_string())));
    assert_eq!(probe_target(None, t("n"), t("x"), None), Ok(ProbeTarget::Node("n".to_string())));
    assert_eq!(probe_target(None, None, t("x"), t("o")), Ok(ProbeTarget::Source("x".to_string())));
    assert_eq!(probe_target(None, None, None, t("o")), Ok(ProbeTarget::Offset("o".to_string())));
    assert_eq!(
        probe_target(None, None, None, None),
        Err("give one of --signal / --node / --source / --offset".to_string())
    );
}
