use callgraph::ast::{join_segments, AstNode, NodePos};
use callgraph::collector::CallGraphCollector;
use callgraph::graph::{CallEdge, CallGraph};

fn s(x: &str) -> String {
    x.to_string()
}

fn path(segs: &[&str]) -> Vec<String> {
    segs.iter().map(|x| x.to_string()).collect()
}

fn call_at(segs: &[&str], line: usize, column: usize, children: Vec<AstNode>) -> AstNode {
    AstNode::Call {
        target: Some(path(segs)),
        pos: NodePos::LineCol { line, column },
        children,
    }
}

fn fn_def(name: &str, children: Vec<AstNode>) -> AstNode {
    AstNode::FnDef {
        name: s(name),
        children,
    }
}

fn edge_names(edges: &Vec<CallEdge>) -> Vec<String> {
    edges.iter().map(|e| e.callee.clone()).collect()
}

#[test]
fn empty_function_yields_node() {
    let mut graph = CallGraph::new();
    let mut collector = CallGraphCollector::new("a.rs", "fn foo() {}\n");
    let items = vec![fn_def("foo", vec![])];
    collector.visit_nodes(&items, &mut graph);
    assert_eq!(graph.len(), 1);
    assert_eq!(graph.name_at(0), "foo");
    let edges = graph.lookup(&s("foo")).expect("foo must have a node");
    assert!(edges.is_empty());
}

#[test]
fn callee_is_joined_path_text() {
    let mut graph = CallGraph::new();
    let mut collector = CallGraphCollector::new("a.rs", "fn f() { a::b::c(1); }\n");
    let items = vec![fn_def("f", vec![call_at(&["a", "b", "c"], 1, 10, vec![])])];
    collector.visit_nodes(&items, &mut graph);
    let edges = graph.lookup(&s("f")).expect("f must have a node");
    assert_eq!(edges.len(), 1);
    assert_eq!(edges[0].callee, "a::b::c");
    assert_eq!(edges[0].origin_file, "a.rs");
    assert_eq!(edges[0].line, 1);
    assert_eq!(edges[0].column, 10);
}

#[test]
fn non_path_call_not_recorded() {
    let mut graph = CallGraph::new();
    let mut collector = CallGraphCollector::new("a.rs", "fn f() { x.run(); }\n");
    // A call through a value: no target path, so no edge; nodes nested in it
    // are still visited.
    let inner = call_at(&["g"], 2, 3, vec![]);
    let items = vec![fn_def(
        "f",
        vec![AstNode::Call {
            target: None,
            pos: NodePos::LineCol { line: 1, column: 10 },
            children: vec![inner],
        }],
    )];
    collector.visit_nodes(&items, &mut graph);
    let edges = graph.lookup(&s("f")).expect("f must have a node");
    assert_eq!(edge_names(edges), vec![s("g")]);
}

#[test]
fn edge_order_is_textual_outer_to_inner() {
    let mut graph = CallGraph::new();
    let mut collector = CallGraphCollector::new("a.rs", "fn m() { f(g(h()), k()); }\n");
    let h = call_at(&["h"], 1, 14, vec![]);
    let g = call_at(&["g"], 1, 12, vec![h]);
    let k = call_at(&["k"], 1, 20, vec![]);
    let f = call_at(&["f"], 1, 10, vec![g, k]);
    let items = vec![fn_def("m", vec![f])];
    collector.visit_nodes(&items, &mut graph);
    let edges = graph.lookup(&s("m")).expect("m must have a node");
    assert_eq!(edge_names(edges), vec![s("f"), s("g"), s("h"), s("k")]);
}

#[test]
fn nested_function_attribution() {
    let mut graph = CallGraph::new();
    let src = "fn outer() {\n    a();\n    fn inner() {\n        b();\n    }\n    c();\n}\n";
    let mut collector = CallGraphCollector::new("a.rs", src);
    let items = vec![fn_def(
        "outer",
        vec![
            call_at(&["a"], 2, 5, vec![]),
            fn_def("inner", vec![call_at(&["b"], 4, 9, vec![])]),
            call_at(&["c"], 6, 5, vec![]),
        ],
    )];
    collector.visit_nodes(&items, &mut graph);
    let outer = graph.lookup(&s("outer")).expect("outer must have a node");
    assert_eq!(edge_names(outer), vec![s("a"), s("c")]);
    let inner = graph.lookup(&s("inner")).expect("inner must have a node");
    assert_eq!(edge_names(inner), vec![s("b")]);
}

#[test]
fn two_file_round_trip() {
    let mut graph = CallGraph::new();
    let src_a = "fn main() { helper(); }\n";
    let src_b = "fn helper() {}\n";
    let mut collector_a = CallGraphCollector::new("a.rs", src_a);
    let items_a = vec![fn_def("main", vec![call_at(&["helper"], 1, 13, vec![])])];
    collector_a.visit_nodes(&items_a, &mut graph);
    let mut collector_b = CallGraphCollector::new("b.rs", src_b);
    let items_b = vec![fn_def("helper", vec![])];
    collector_b.visit_nodes(&items_b, &mut graph);
    assert_eq!(graph.len(), 2);
    let main_edges = graph.lookup(&s("main")).expect("main must have a node");
    assert_eq!(main_edges.len(), 1);
    assert_eq!(main_edges[0].callee, "helper");
    assert_eq!(main_edges[0].origin_file, "a.rs");
    assert_eq!(main_edges[0].line, 1);
    assert_eq!(main_edges[0].column, 13);
    let helper_edges = graph.lookup(&s("helper")).expect("helper must have a node");
    assert!(helper_edges.is_empty());
}

#[test]
fn same_name_across_files_appends_edges() {
    let mut graph = CallGraph::new();
    let mut collector_a = CallGraphCollector::new("a.rs", "fn dup() { one(); }\n");
    collector_a.visit_nodes(
        &vec![fn_def("dup", vec![call_at(&["one"], 1, 12, vec![])])],
        &mut graph,
    );
    let mut collector_b = CallGraphCollector::new("b.rs", "fn dup() { two(); }\n");
    collector_b.visit_nodes(
        &vec![fn_def("dup", vec![call_at(&["two"], 1, 12, vec![])])],
        &mut graph,
    );
    assert_eq!(graph.len(), 1);
    let edges = graph.lookup(&s("dup")).expect("dup must have a node");
    assert_eq!(edge_names(edges), vec![s("one"), s("two")]);
    assert_eq!(edges[0].origin_file, "a.rs");
    assert_eq!(edges[1].origin_file, "b.rs");
}

#[test]
fn call_outside_any_function_is_skipped() {
    let mut graph = CallGraph::new();
    let mut collector = CallGraphCollector::new("a.rs", "static X: i32 = init();\n");
    let items = vec![AstNode::Group {
        children: vec![call_at(&["init"], 1, 17, vec![])],
    }];
    collector.visit_nodes(&items, &mut graph);
    assert_eq!(graph.len(), 0);
}

#[test]
fn group_is_transparent() {
    let mut graph = CallGraph::new();
    let mut collector = CallGraphCollector::new("a.rs", "fn f() { if x { g(); } }\n");
    let items = vec![fn_def(
        "f",
        vec![AstNode::Group {
            children: vec![call_at(&["g"], 1, 17, vec![])],
        }],
    )];
    collector.visit_nodes(&items, &mut graph);
    let edges = graph.lookup(&s("f")).expect("f must have a node");
    assert_eq!(edge_names(edges), vec![s("g")]);
}

#[test]
fn offset_resolution_within_lines() {
    let collector = CallGraphCollector::new("a.rs", "ab\ncde\nf");
    assert_eq!(collector.offset_to_line_column(0), (1, 1));
    assert_eq!(collector.offset_to_line_column(1), (1, 2));
    assert_eq!(collector.offset_to_line_column(2), (1, 3));
    assert_eq!(collector.offset_to_line_column(3), (2, 1));
    assert_eq!(collector.offset_to_line_column(6), (2, 4));
    assert_eq!(collector.offset_to_line_column(7), (3, 1));
    assert_eq!(collector.offset_to_line_column(8), (3, 2));
}

#[test]
fn offset_beyond_text_degrades_to_zero() {
    let collector = CallGraphCollector::new("a.rs", "ab\ncde\nf");
    assert_eq!(collector.offset_to_line_column(9), (0, 0));
    assert_eq!(collector.offset_to_line_column(1000), (0, 0));
}

#[test]
fn offset_in_empty_text_degrades_to_zero() {
    let collector = CallGraphCollector::new("e.rs", "");
    assert_eq!(collector.offset_to_line_column(0), (0, 0));
    assert_eq!(collector.offset_to_line_column(5), (0, 0));
}

#[test]
fn trailing_newline_has_no_extra_line() {
    let collector = CallGraphCollector::new("a.rs", "a\n");
    assert_eq!(collector.offset_to_line_column(0), (1, 1));
    assert_eq!(collector.offset_to_line_column(1), (1, 2));
    assert_eq!(collector.offset_to_line_column(2), (0, 0));
}

#[test]
fn offset_position_resolves_into_edge() {
    let mut graph = CallGraph::new();
    let src = "fn f() {\n    g();\n}\n";
    let mut collector = CallGraphCollector::new("a.rs", src);
    // Offset 13 is the start of `g` on line 2, column 5.
    let items = vec![fn_def(
        "f",
        vec![AstNode::Call {
            target: Some(path(&["g"])),
            pos: NodePos::Offset { offset: 13 },
            children: vec![],
        }],
    )];
    collector.visit_nodes(&items, &mut graph);
    let edges = graph.lookup(&s("f")).expect("f must have a node");
    assert_eq!(edges[0].line, 2);
    assert_eq!(edges[0].column, 5);
}

#[test]
fn unresolvable_offset_yields_zero_position() {
    let mut graph = CallGraph::new();
    let mut collector = CallGraphCollector::new("a.rs", "fn f() { g(); }");
    let items = vec![fn_def(
        "f",
        vec![AstNode::Call {
            target: Some(path(&["g"])),
            pos: NodePos::Offset { offset: 1000 },
            children: vec![],
        }],
    )];
    collector.visit_nodes(&items, &mut graph);
    let edges = graph.lookup(&s("f")).expect("f must have a node");
    assert_eq!(edges[0].line, 0);
    assert_eq!(edges[0].column, 0);
}

#[test]
fn join_segments_matches_declared_order() {
    assert_eq!(join_segments(&path(&[])), "");
    assert_eq!(join_segments(&path(&["f"])), "f");
    assert_eq!(join_segments(&path(&["a", "b"])), "a::b");
    assert_eq!(join_segments(&path(&["std", "mem", "swap"])), "std::mem::swap");
}

#[test]
fn lookup_of_unknown_name_is_none() {
    let mut graph = CallGraph::new();
    let mut collector = CallGraphCollector::new("a.rs", "fn foo() {}\n");
    collector.visit_nodes(&vec![fn_def("foo", vec![])], &mut graph);
    assert!(graph.lookup(&s("bar")).is_none());
}

#[test]
fn repeated_identical_calls_all_recorded() {
    let mut graph = CallGraph::new();
    let mut collector = CallGraphCollector::new("a.rs", "fn f() { g(); g(); }\n");
    let items = vec![fn_def(
        "f",
        vec![call_at(&["g"], 1, 10, vec![]), call_at(&["g"], 1, 15, vec![])],
    )];
    collector.visit_nodes(&items, &mut graph);
    let edges = graph.lookup(&s("f")).expect("f must have a node");
    assert_eq!(edge_names(edges), vec![s("g"), s("g")]);
    assert_eq!(edges[0].column, 10);
    assert_eq!(edges[1].column, 15);
}

#[test]
fn ensure_node_keeps_existing_edges() {
    let mut graph = CallGraph::new();
    graph.ensure_node(&s("f"));
    graph.append_edge(
        &s("f"),
        CallEdge {
            callee: s("g"),
            origin_file: s("a.rs"),
            line: 1,
            column: 1,
        },
    );
    graph.ensure_node(&s("f"));
    let edges = graph.lookup(&s("f")).expect("f must have a node");
    assert_eq!(edges.len(), 1);
}

#[test]
fn append_edge_creates_missing_entry() {
    let mut graph = CallGraph::new();
    graph.append_edge(
        &s("f"),
        CallEdge {
            callee: s("g"),
            origin_file: s("a.rs"),
            line: 2,
            column: 3,
        },
    );
    assert_eq!(graph.len(), 1);
    assert_eq!(graph.name_at(0), "f");
    let edges = graph.edges_at(0);
    assert_eq!(edges[0].callee, "g");
}
