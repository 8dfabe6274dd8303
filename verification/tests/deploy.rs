use rui::deploy::{
    aws_of, cron_labels, fmt_dur, route_counts, strat_str, AppModel, CronNode, DeployGraph, Edge, Node, NodeKind, RouteNode,
};
use rui::view::Strategy;

fn n(id: &'static str, kind: NodeKind) -> Node {
    Node { id, label: id.into(), kind }
}

fn level(lv: &[(&'static str, usize)], id: &str) -> usize {
    lv.iter().find(|(k, _)| *k == id).map(|(_, v)| *v).expect("node has a level")
}

#[test]
fn topo_orders_deps_first() {
    let g = DeployGraph {
        nodes: vec![n("web", NodeKind::Compute), n("worker", NodeKind::Compute), n("database", NodeKind::Database), n("queue", NodeKind::Queue)],
        edges: vec![
            Edge { from: "web", to: "database", label: "" },
            Edge { from: "web", to: "queue", label: "" },
            Edge { from: "worker", to: "queue", label: "" },
        ],
    };
    let order = g.topo().expect("acyclic");
    let pos = |id: &str| order.iter().position(|x| x.id == id).unwrap();
    assert!(pos("database") < pos("web"));
    assert!(pos("queue") < pos("web"));
    assert!(pos("queue") < pos("worker"));
    let lv = g.levels();
    assert_eq!(level(&lv, "database"), 0);
    assert_eq!(level(&lv, "queue"), 0);
    assert_eq!(level(&lv, "web"), 1);
}

#[test]
fn topo_detects_cycle() {
    let g = DeployGraph {
        nodes: vec![n("a", NodeKind::Compute), n("b", NodeKind::Compute)],
        edges: vec![Edge { from: "a", to: "b", label: "" }, Edge { from: "b", to: "a", label: "" }],
    };
    assert!(g.topo().is_err());
}

#[test]
fn model_graph_derivation() {
    let m = AppModel {
        routes: vec![RouteNode { pattern: "/".into(), strategy: Strategy::Ssr }],
        graphql: true,
        sse: false,
        database: Some("postgres".into()),
        jobs: vec!["j".into()],
        crons: vec![CronNode { name: "c".into(), interval_secs: 5 }],
    };
    let g = m.graph();
    let ids: Vec<&str> = g.nodes.iter().map(|n| n.id).collect();
    for want in ["database", "queue", "worker", "schedule", "web", "static"] {
        assert!(ids.contains(&want), "missing node {want}");
    }
    assert!(g.edges.iter().any(|e| e.from == "schedule" && e.to == "queue"));
    assert!(g.edges.iter().any(|e| e.from == "web" && e.to == "queue"));
    assert!(g.topo().is_ok());
}

#[test]
fn topo_exact_order_and_cycle_text() {
    let g = DeployGraph {
        nodes: vec![n("web", NodeKind::Compute), n("database", NodeKind::Database), n("queue", NodeKind::Queue)],
        edges: vec![Edge { from: "web", to: "database", label: "" }, Edge { from: "web", to: "queue", label: "" }],
    };
    let ids: Vec<&str> = g.topo().unwrap().iter().map(|n| n.id).collect();
    assert_eq!(ids, vec!["database", "queue", "web"]);
    let c = DeployGraph {
        nodes: vec![n("a", NodeKind::Compute), n("b", NodeKind::Compute), n("c", NodeKind::Compute)],
        edges: vec![
            Edge { from: "a", to: "b", label: "" },
            Edge { from: "b", to: "c", label: "" },
            Edge { from: "c", to: "b", label: "" },
        ],
    };
    assert_eq!(c.topo().err().unwrap(), "a → b → c → b");
    assert!(c.levels().is_empty());
}

#[test]
fn self_loop_is_a_cycle_and_duplicate_ids_listed_once() {
    let g = DeployGraph { nodes: vec![n("a", NodeKind::Compute)], edges: vec![Edge { from: "a", to: "a", label: "" }] };
    assert_eq!(g.topo().err().unwrap(), "a → a");
    let d = DeployGraph { nodes: vec![n("x", NodeKind::Compute), n("x", NodeKind::Queue)], edges: vec![] };
    let order = d.topo().unwrap();
    assert_eq!(order.len(), 1);
    assert!(order[0].kind == NodeKind::Compute);
}

#[test]
fn levels_follow_longest_dependency_chain() {
    let g = DeployGraph {
        nodes: vec![n("schedule", NodeKind::Schedule), n("web", NodeKind::Compute), n("queue", NodeKind::Queue), n("database", NodeKind::Database)],
        edges: vec![
            Edge { from: "schedule", to: "web", label: "" },
            Edge { from: "web", to: "queue", label: "" },
            Edge { from: "web", to: "database", label: "" },
            Edge { from: "schedule", to: "database", label: "" },
            Edge { from: "queue", to: "external", label: "" },
        ],
    };
    let lv = g.levels();
    assert_eq!(level(&lv, "database"), 0);
    assert_eq!(level(&lv, "queue"), 1);
    assert_eq!(level(&lv, "web"), 2);
    assert_eq!(level(&lv, "schedule"), 3);
}

#[test]
fn full_model_graph_edges_and_labels() {
    let m = AppModel {
        routes: vec![],
        graphql: true,
        sse: true,
        database: None,
        jobs: vec![],
        crons: vec![CronNode { name: "c".into(), interval_secs: 60 }, CronNode { name: "d".into(), interval_secs: 90 }],
    };
    let g = m.graph();
    let ids: Vec<&str> = g.nodes.iter().map(|n| n.id).collect();
    assert_eq!(ids, vec!["queue", "static", "web", "worker", "schedule"]);
    assert_eq!(g.nodes[2].label, "SSR/CSR 页面 + GraphQL + SSE");
    assert_eq!(g.nodes[4].label, "2 个定时任务");
    let es: Vec<(&str, &str)> = g.edges.iter().map(|e| (e.from, e.to)).collect();
    assert_eq!(es, vec![("worker", "queue"), ("schedule", "queue")]);
    let order: Vec<&str> = g.topo().unwrap().iter().map(|n| n.id).collect();
    assert_eq!(order, vec!["queue", "static", "web", "worker", "schedule"]);
}

#[test]
fn dot_text_and_helpers() {
    let g = DeployGraph { nodes: vec![n("web", NodeKind::Compute)], edges: vec![Edge { from: "web", to: "db", label: "rw" }] };
    assert_eq!(
        g.to_dot(),
        "digraph deploy {\n  rankdir=LR;\n  node [shape=box];\n  \"web\";\n  \"web\" -> \"db\" [label=\"rw\"];\n}\n"
    );
    assert_eq!(fmt_dur(86400), "1d");
    assert_eq!(fmt_dur(7200), "2h");
    assert_eq!(fmt_dur(120), "2m");
    assert_eq!(fmt_dur(90), "90s");
    assert_eq!(fmt_dur(0), "0d");
    assert_eq!(aws_of("database"), "RDS Postgres");
    assert_eq!(aws_of("nope"), "—");
    assert_eq!(strat_str(Strategy::Static), "static");
}

#[test]
fn plan_figures() {
    let routes = vec![
        RouteNode { pattern: "/".into(), strategy: Strategy::Ssr },
        RouteNode { pattern: "/a".into(), strategy: Strategy::Static },
        RouteNode { pattern: "/b".into(), strategy: Strategy::Ssr },
    ];
    assert_eq!(route_counts(&routes), (2, 0, 1));
    let crons = vec![
        CronNode { name: "sweep".into(), interval_secs: 3600 },
        CronNode { name: "tick".into(), interval_secs: 90 },
    ];
    assert_eq!(cron_labels(&crons), vec!["sweep(every 1h)".to_string(), "tick(every 90s)".to_string()]);
}

#[test]
fn level_layers_group_nodes_by_level() {
    let g = DeployGraph {
        nodes: vec![n("web", NodeKind::Compute), n("database", NodeKind::Database), n("queue", NodeKind::Queue), n("schedule", NodeKind::Schedule)],
        edges: vec![
            Edge { from: "web", to: "database", label: "" },
            Edge { from: "web", to: "queue", label: "" },
            Edge { from: "schedule", to: "queue", label: "" },
        ],
    };
    let lv = g.levels();
    assert_eq!(g.level_layers(&lv), vec![(0, vec!["database", "queue"]), (1, vec!["web", "schedule"])]);
    // a level that no node has is skipped; a node without a level counts as level 0
    assert_eq!(g.level_layers(&vec![("web", 2)]), vec![(0, vec!["database", "queue", "schedule"]), (2, vec!["web"])]);
}
