//! Deployment model: the application model declared by `platform!` becomes a deployment
//! graph (nodes = deployable resources, edges = "depends on").  A topological order of it
//! is the provisioning order (dependencies first); a cycle is a configuration error.
use vstd::prelude::*;
use crate::view::Strategy;
use crate::gql::value::{push_nat, nat_text};
use crate::text::{append_str, string_from};

verus! {

/// A route (page) and its rendering strategy.
pub struct RouteNode {
    pub pattern: String,
    pub strategy: Strategy,
}

/// An interval job.
pub struct CronNode {
    pub name: String,
    pub interval_secs: u64,
}

/// The application model: what `platform!` declares.
pub struct AppModel {
    pub routes: Vec<RouteNode>,
    pub graphql: bool,
    pub sse: bool,
    pub database: Option<String>,
    pub jobs: Vec<String>,
    pub crons: Vec<CronNode>,
}

/// What a graph node is (decides the cloud resource it maps to).
#[derive(Clone, Copy, PartialEq, Eq, Debug, Structural)]
pub enum NodeKind {
    Compute,
    Database,
    Queue,
    Schedule,
    Static,
}

/// A deployable resource; `id` is unique and stable.
pub struct Node {
    pub id: &'static str,
    pub label: String,
    pub kind: NodeKind,
}

/// `from` depends on `to` (`to` is provisioned first); `label` names the relation.
pub struct Edge {
    pub from: &'static str,
    pub to: &'static str,
    pub label: &'static str,
}

/// The deployment graph.
pub struct DeployGraph {
    pub nodes: Vec<Node>,
    pub edges: Vec<Edge>,
}

/// The model of a node: id, label, kind.
pub open spec fn node_m(n: Node) -> (Seq<char>, Seq<char>, NodeKind) {
    (n.id@, n.label@, n.kind)
}

/// The model of an edge: from, to, label.
pub open spec fn edge_m(e: Edge) -> (Seq<char>, Seq<char>, Seq<char>) {
    (e.from@, e.to@, e.label@)
}

pub open spec fn nodes_m(v: Seq<Node>) -> Seq<(Seq<char>, Seq<char>, NodeKind)> {
    Seq::new(v.len(), |i: int| node_m(v[i]))
}

pub open spec fn edges_m(v: Seq<Edge>) -> Seq<(Seq<char>, Seq<char>, Seq<char>)> {
    Seq::new(v.len(), |i: int| edge_m(v[i]))
}

/// The text of a strategy.
pub open spec fn strategy_text(s: Strategy) -> Seq<char> {
    match s {
        Strategy::Ssr => "ssr"@,
        Strategy::Csr => "csr"@,
        Strategy::Static => "static"@,
    }
}

/// The text of a strategy.
pub fn strat_str(s: Strategy) -> (r: &'static str)
    ensures
        r@ == strategy_text(s),
{
    match s {
        Strategy::Ssr => "ssr",
        Strategy::Csr => "csr",
        Strategy::Static => "static",
    }
}

/// A duration in the largest whole unit: days, hours, minutes or seconds.
pub open spec fn duration_text(secs: u64) -> Seq<char> {
    if secs % 86400 == 0 {
        nat_text((secs / 86400) as nat) + seq!['d']
    } else if secs % 3600 == 0 {
        nat_text((secs / 3600) as nat) + seq!['h']
    } else if secs % 60 == 0 {
        nat_text((secs / 60) as nat) + seq!['m']
    } else {
        nat_text(secs as nat) + seq!['s']
    }
}

/// A duration in the largest whole unit (`86400` → `1d`, `90` → `90s`, `0` → `0d`).
pub fn fmt_dur(secs: u64) -> (r: String)
    ensures
        r@ == duration_text(secs),
{
    let mut out: Vec<char> = Vec::new();
    if secs % 86400 == 0 {
        push_nat(&mut out, secs / 86400);
        out.push('d');
    } else if secs % 3600 == 0 {
        push_nat(&mut out, secs / 3600);
        out.push('h');
    } else if secs % 60 == 0 {
        push_nat(&mut out, secs / 60);
        out.push('m');
    } else {
        push_nat(&mut out, secs);
        out.push('s');
    }
    proof {
        assert(out@ =~= duration_text(secs));
    }
    string_from(&out)
}

/// The cloud resource (an AWS example) a node id maps to.
pub open spec fn aws_text(id: Seq<char>) -> Seq<char> {
    if id == "web"@ {
        "ECS Fargate + ALB"@
    } else if id == "worker"@ {
        "ECS Fargate(SQS consumer)"@
    } else if id == "database"@ {
        "RDS Postgres"@
    } else if id == "queue"@ {
        "SNS + SQS"@
    } else if id == "schedule"@ {
        "EventBridge Scheduler"@
    } else if id == "static"@ {
        "S3 + CloudFront"@
    } else {
        "—"@
    }
}

fn same(a: &str, b: &str) -> (r: bool)
    ensures
        r == (a@ == b@),
{
    a.to_owned() == b.to_owned()
}

/// The cloud resource (an AWS example) a node id maps to.
pub fn aws_of(id: &str) -> (r: &'static str)
    ensures
        r@ == aws_text(id@),
{
    if same(id, "web") {
        "ECS Fargate + ALB"
    } else if same(id, "worker") {
        "ECS Fargate(SQS consumer)"
    } else if same(id, "database") {
        "RDS Postgres"
    } else if same(id, "queue") {
        "SNS + SQS"
    } else if same(id, "schedule") {
        "EventBridge Scheduler"
    } else if same(id, "static") {
        "S3 + CloudFront"
    } else {
        "—"
    }
}

} // verus!

verus! {

// ───────────────────────────── deriving the graph ─────────────────────────────

/// The label of the web node: its pages, plus GraphQL and SSE when declared.
pub open spec fn web_label(graphql: bool, sse: bool) -> Seq<char> {
    "SSR/CSR 页面"@ + (if graphql { " + GraphQL"@ } else { Seq::empty() }) + (if sse { " + SSE"@ } else { Seq::empty() })
}

/// The nodes the model needs, in declaration order: leaves (database, queue, static) first,
/// then the compute units (web, worker) and the scheduler.
pub open spec fn model_nodes(database: Option<Seq<char>>, graphql: bool, sse: bool, n_jobs: nat, n_crons: nat) -> Seq<(Seq<char>, Seq<char>, NodeKind)> {
    let has_queue = n_jobs > 0 || n_crons > 0;
    (match database { Some(db) => seq![("database"@, db, NodeKind::Database)], None => Seq::empty() })
        + (if has_queue { seq![("queue"@, "jobs 队列"@, NodeKind::Queue)] } else { Seq::empty() })
        + seq![("static"@, "app.wasm / styles.css / static 页"@, NodeKind::Static)]
        + seq![("web"@, web_label(graphql, sse), NodeKind::Compute)]
        + (if has_queue { seq![("worker"@, "消费队列(jobs/crons 执行体)"@, NodeKind::Compute)] } else { Seq::empty() })
        + (if n_crons > 0 { seq![("schedule"@, nat_text(n_crons) + " 个定时任务"@, NodeKind::Schedule)] } else { Seq::empty() })
}

/// The dependencies the model implies: web reads the database and enqueues jobs; the
/// worker consumes the queue and reads the database; the scheduler feeds the queue.
pub open spec fn model_edges(has_db: bool, n_jobs: nat, n_crons: nat) -> Seq<(Seq<char>, Seq<char>, Seq<char>)> {
    let has_queue = n_jobs > 0 || n_crons > 0;
    (if has_db { seq![("web"@, "database"@, "读写"@)] } else { Seq::empty() })
        + (if n_jobs > 0 { seq![("web"@, "queue"@, "enqueue"@)] } else { Seq::empty() })
        + (if has_queue { seq![("worker"@, "queue"@, "消费"@)] } else { Seq::empty() })
        + (if has_queue && has_db { seq![("worker"@, "database"@, "读写"@)] } else { Seq::empty() })
        + (if n_crons > 0 { seq![("schedule"@, "queue"@, "定时触发"@)] } else { Seq::empty() })
}

fn lit(s: &str) -> (r: String)
    ensures
        r@ == s@,
{
    s.to_owned()
}

impl AppModel {
    /// Jobs or interval jobs are declared, so a queue is needed.
    pub open spec fn needs_queue_spec(&self) -> bool {
        self.jobs@.len() > 0 || self.crons@.len() > 0
    }

    fn needs_queue(&self) -> (r: bool)
        ensures
            r == self.needs_queue_spec(),
    {
        self.jobs.len() > 0 || self.crons.len() > 0
    }

    /// The deployment graph the declarations imply.
    pub fn graph(&self) -> (g: DeployGraph)
        ensures
            nodes_m(g.nodes@) == model_nodes(match self.database { Some(d) => Some(d@), None => None },
                self.graphql, self.sse, self.jobs@.len(), self.crons@.len()),
            edges_m(g.edges@) == model_edges(self.database is Some, self.jobs@.len(), self.crons@.len()),
    {
        let has_db = self.database.is_some();
        let has_queue = self.needs_queue();
        let has_cron = self.crons.len() > 0;
        let has_jobs = self.jobs.len() > 0;
        let mut nodes: Vec<Node> = Vec::new();
        let mut edges: Vec<Edge> = Vec::new();
        let ghost n0 = nodes_m(nodes@);
        match &self.database {
            Some(db) => {
                nodes.push(Node { id: "database", label: db.clone(), kind: NodeKind::Database });
            },
            None => {},
        }
        if has_queue {
            nodes.push(Node { id: "queue", label: lit("jobs 队列"), kind: NodeKind::Queue });
        }
        nodes.push(Node { id: "static", label: lit("app.wasm / styles.css / static 页"), kind: NodeKind::Static });
        let mut web: Vec<char> = Vec::new();
        append_str(&mut web, "SSR/CSR 页面");
        if self.graphql {
            append_str(&mut web, " + GraphQL");
        }
        if self.sse {
            append_str(&mut web, " + SSE");
        }
        proof {
            assert(web@ =~= web_label(self.graphql, self.sse));
        }
        nodes.push(Node { id: "web", label: string_from(&web), kind: NodeKind::Compute });
        if has_db {
            edges.push(Edge { from: "web", to: "database", label: "读写" });
        }
        if has_jobs {
            edges.push(Edge { from: "web", to: "queue", label: "enqueue" });
        }
        if has_queue {
            nodes.push(Node { id: "worker", label: lit("消费队列(jobs/crons 执行体)"), kind: NodeKind::Compute });
            edges.push(Edge { from: "worker", to: "queue", label: "消费" });
            if has_db {
                edges.push(Edge { from: "worker", to: "database", label: "读写" });
            }
        }
        if has_cron {
            let mut lab: Vec<char> = Vec::new();
            push_nat(&mut lab, self.crons.len() as u64);
            append_str(&mut lab, " 个定时任务");
            nodes.push(Node { id: "schedule", label: string_from(&lab), kind: NodeKind::Schedule });
            edges.push(Edge { from: "schedule", to: "queue", label: "定时触发" });
        }
        let g = DeployGraph { nodes, edges };
        proof {
            assert(nodes_m(g.nodes@) =~= model_nodes(match self.database { Some(d) => Some(d@), None => None },
                self.graphql, self.sse, self.jobs@.len(), self.crons@.len()));
            assert(edges_m(g.edges@) =~= model_edges(self.database is Some, self.jobs@.len(), self.crons@.len()));
        }
        g
    }
}

// ───────────────────────────── DOT text ─────────────────────────────

/// `  "id";` for each node.
pub open spec fn dot_nodes(ns: Seq<(Seq<char>, Seq<char>, NodeKind)>) -> Seq<char>
    decreases ns.len(),
{
    if ns.len() == 0 { Seq::empty() } else { dot_nodes(ns.drop_last()) + "  \""@ + ns.last().0 + "\";\n"@ }
}

/// `  "from" -> "to" [label="…"];` for each edge.
pub open spec fn dot_edges(es: Seq<(Seq<char>, Seq<char>, Seq<char>)>) -> Seq<char>
    decreases es.len(),
{
    if es.len() == 0 {
        Seq::empty()
    } else {
        dot_edges(es.drop_last()) + "  \""@ + es.last().0 + "\" -> \""@ + es.last().1 + "\" [label=\""@ + es.last().2 + "\"];\n"@
    }
}

/// The Graphviz text of a graph.
pub open spec fn dot_text(ns: Seq<(Seq<char>, Seq<char>, NodeKind)>, es: Seq<(Seq<char>, Seq<char>, Seq<char>)>) -> Seq<char> {
    "digraph deploy {\n  rankdir=LR;\n  node [shape=box];\n"@ + dot_nodes(ns) + dot_edges(es) + "}\n"@
}

impl DeployGraph {
    /// Graphviz DOT text of the graph.
    pub fn to_dot(&self) -> (r: String)
        ensures
            r@ == dot_text(nodes_m(self.nodes@), edges_m(self.edges@)),
    {
        let mut out: Vec<char> = Vec::new();
        append_str(&mut out, "digraph deploy {\n  rankdir=LR;\n  node [shape=box];\n");
        let ghost head = out@;
        let ghost ns = nodes_m(self.nodes@);
        let mut i: usize = 0;
        while i < self.nodes.len()
            invariant
                0 <= i <= self.nodes@.len(),
                ns == nodes_m(self.nodes@),
                out@ == head + dot_nodes(ns.take(i as int)),
            decreases self.nodes@.len() - i,
        {
            proof {
                assert(ns.take(i + 1).drop_last() =~= ns.take(i as int));
                assert(ns.take(i + 1).last() == node_m(self.nodes@[i as int]));
            }
            append_str(&mut out, "  \"");
            append_str(&mut out, self.nodes[i].id);
            append_str(&mut out, "\";\n");
            proof {
                assert(out@ =~= head + dot_nodes(ns.take(i + 1)));
            }
            i += 1;
        }
        proof {
            assert(ns.take(ns.len() as int) =~= ns);
        }
        let ghost mid = out@;
        let ghost es = edges_m(self.edges@);
        let mut k: usize = 0;
        while k < self.edges.len()
            invariant
                0 <= k <= self.edges@.len(),
                es == edges_m(self.edges@),
                out@ == mid + dot_edges(es.take(k as int)),
            decreases self.edges@.len() - k,
        {
            proof {
                assert(es.take(k + 1).drop_last() =~= es.take(k as int));
                assert(es.take(k + 1).last() == edge_m(self.edges@[k as int]));
            }
            let e = &self.edges[k];
            append_str(&mut out, "  \"");
            append_str(&mut out, e.from);
            append_str(&mut out, "\" -> \"");
            append_str(&mut out, e.to);
            append_str(&mut out, "\" [label=\"");
            append_str(&mut out, e.label);
            append_str(&mut out, "\"];\n");
            proof {
                assert(out@ =~= mid + dot_edges(es.take(k + 1)));
            }
            k += 1;
        }
        proof {
            assert(es.take(es.len() as int) =~= es);
        }
        append_str(&mut out, "}\n");
        proof {
            assert(out@ =~= dot_text(ns, es));
        }
        string_from(&out)
    }
}

} // verus!

verus! {

// ───────────────────────────── provisioning order ─────────────────────────────

/// Outcome of a walk: (no cycle met, marks per id, finished node indices in finishing
/// order, the path that closed a cycle).  A mark is 1 while the id is on the current
/// path and 2 once it is finished.
pub type Walk = (bool, Map<Seq<char>, u8>, Seq<int>, Seq<Seq<char>>);

/// The targets of the edges leaving `id`, in edge order.
pub open spec fn deps_spec(es: Seq<(Seq<char>, Seq<char>, Seq<char>)>, id: Seq<char>) -> Seq<Seq<char>>
    decreases es.len(),
{
    if es.len() == 0 {
        Seq::empty()
    } else {
        deps_spec(es.drop_last(), id) + (if es.last().0 == id { seq![es.last().1] } else { Seq::empty() })
    }
}

/// Index of the first node whose id is `id`.
pub open spec fn first_node(ns: Seq<(Seq<char>, Seq<char>, NodeKind)>, id: Seq<char>) -> Option<int>
    decreases ns.len(),
{
    if ns.len() == 0 {
        None
    } else {
        match first_node(ns.drop_last(), id) {
            Some(j) => Some(j),
            None => if ns.last().0 == id { Some(ns.len() - 1) } else { None },
        }
    }
}

/// `id` is finished: marked 2, and its node (if it names one) appended to the order.
pub open spec fn finish(ns: Seq<(Seq<char>, Seq<char>, NodeKind)>, id: Seq<char>, st: Map<Seq<char>, u8>, order: Seq<int>) -> Walk {
    (true, st.insert(id, 2u8), match first_node(ns, id) { Some(j) => order.push(j), None => order }, Seq::empty())
}

/// Depth-first visit of `id` (with `f` levels of depth available): a finished id is
/// skipped, an id on the current path closes a cycle, any other id is put on the path,
/// its dependencies are visited in edge order, and then it is finished.
pub open spec fn visit(
    ns: Seq<(Seq<char>, Seq<char>, NodeKind)>,
    es: Seq<(Seq<char>, Seq<char>, Seq<char>)>,
    f: nat,
    id: Seq<char>,
    st: Map<Seq<char>, u8>,
    order: Seq<int>,
    path: Seq<Seq<char>>,
) -> Walk
    decreases f, 0int,
{
    if f == 0 {
        (false, st, order, path)
    } else if st.contains_key(id) && st[id] == 2 {
        (true, st, order, Seq::empty())
    } else if st.contains_key(id) && st[id] == 1 {
        (false, st, order, path.push(id))
    } else {
        visit_deps(ns, es, (f - 1) as nat, id, deps_spec(es, id), 0, st.insert(id, 1u8), order, path.push(id))
    }
}

/// Visits `ds[k..]` in turn, stopping at the first cycle; then finishes `id`.
pub open spec fn visit_deps(
    ns: Seq<(Seq<char>, Seq<char>, NodeKind)>,
    es: Seq<(Seq<char>, Seq<char>, Seq<char>)>,
    f: nat,
    id: Seq<char>,
    ds: Seq<Seq<char>>,
    k: int,
    st: Map<Seq<char>, u8>,
    order: Seq<int>,
    path: Seq<Seq<char>>,
) -> Walk
    decreases f, ds.len() - k + 1,
{
    if k < 0 || k >= ds.len() {
        finish(ns, id, st, order)
    } else {
        let r = visit(ns, es, f, ds[k], st, order, path);
        if r.0 {
            visit_deps(ns, es, f, id, ds, k + 1, r.1, r.2, path)
        } else {
            r
        }
    }
}

/// Visits the nodes `ns[i..]` in turn, each from an empty path.
pub open spec fn topo_from(
    ns: Seq<(Seq<char>, Seq<char>, NodeKind)>,
    es: Seq<(Seq<char>, Seq<char>, Seq<char>)>,
    f: nat,
    i: int,
    st: Map<Seq<char>, u8>,
    order: Seq<int>,
) -> Walk
    decreases ns.len() - i,
{
    if i < 0 || i >= ns.len() {
        (true, st, order, Seq::empty())
    } else {
        let r = visit(ns, es, f, ns[i].0, st, order, Seq::empty());
        if r.0 {
            topo_from(ns, es, f, i + 1, r.1, r.2)
        } else {
            r
        }
    }
}

/// Every id a walk can reach: node ids and edge targets.
pub open spec fn universe(ns: Seq<(Seq<char>, Seq<char>, NodeKind)>, es: Seq<(Seq<char>, Seq<char>, Seq<char>)>) -> Seq<Seq<char>> {
    Seq::new(ns.len(), |i: int| ns[i].0) + Seq::new(es.len(), |i: int| es[i].1)
}

/// The walk over the whole graph; the depth bound is never reached, since each level
/// of depth puts a new id of the universe on the path.
pub open spec fn topo_spec(ns: Seq<(Seq<char>, Seq<char>, NodeKind)>, es: Seq<(Seq<char>, Seq<char>, Seq<char>)>) -> Walk {
    topo_from(ns, es, universe(ns, es).len() + 1, 0, Map::empty(), Seq::empty())
}

/// Ids joined by ` → `.
pub open spec fn arrow_join(s: Seq<Seq<char>>) -> Seq<char>
    decreases s.len(),
{
    if s.len() == 0 {
        Seq::empty()
    } else if s.len() == 1 {
        s[0]
    } else {
        arrow_join(s.drop_last()) + " → "@ + s.last()
    }
}

pub open spec fn marked(st: Map<Seq<char>, u8>, x: Seq<char>) -> bool {
    st.contains_key(x) && (st[x] == 1 || st[x] == 2)
}

/// How many entries of `u` are not yet marked.
pub open spec fn unvisited(u: Seq<Seq<char>>, st: Map<Seq<char>, u8>) -> nat
    decreases u.len(),
{
    if u.len() == 0 {
        0
    } else {
        unvisited(u.drop_last(), st) + (if marked(st, u.last()) { 0nat } else { 1nat })
    }
}

pub open spec fn marks_map(v: Seq<(&'static str, u8)>) -> Map<Seq<char>, u8>
    decreases v.len(),
{
    if v.len() == 0 {
        Map::empty()
    } else {
        marks_map(v.drop_last()).insert(v.last().0@, v.last().1)
    }
}

pub open spec fn strs_m(v: Seq<&'static str>) -> Seq<Seq<char>> {
    Seq::new(v.len(), |i: int| v[i]@)
}

pub open spec fn idx_m(v: Seq<usize>) -> Seq<int> {
    Seq::new(v.len(), |i: int| v[i] as int)
}

proof fn lemma_unvisited_bound(u: Seq<Seq<char>>, st: Map<Seq<char>, u8>)
    ensures
        unvisited(u, st) <= u.len(),
    decreases u.len(),
{
    if u.len() > 0 {
        lemma_unvisited_bound(u.drop_last(), st);
    }
}

proof fn lemma_unvisited_mono(u: Seq<Seq<char>>, s0: Map<Seq<char>, u8>, s1: Map<Seq<char>, u8>)
    requires
        forall|x: Seq<char>| marked(s0, x) ==> marked(s1, x),
    ensures
        unvisited(u, s1) <= unvisited(u, s0),
    decreases u.len(),
{
    if u.len() > 0 {
        lemma_unvisited_mono(u.drop_last(), s0, s1);
    }
}

proof fn lemma_unvisited_drops(u: Seq<Seq<char>>, s0: Map<Seq<char>, u8>, s1: Map<Seq<char>, u8>, x: Seq<char>)
    requires
        forall|y: Seq<char>| marked(s0, y) ==> marked(s1, y),
        u.contains(x),
        !marked(s0, x),
        marked(s1, x),
    ensures
        unvisited(u, s1) < unvisited(u, s0),
    decreases u.len(),
{
    if u.last() == x {
        lemma_unvisited_mono(u.drop_last(), s0, s1);
    } else {
        let i = choose|i: int| 0 <= i < u.len() && u[i] == x;
        assert(u.drop_last()[i] == x);
        lemma_unvisited_drops(u.drop_last(), s0, s1, x);
    }
}

/// The `k`-th dependency of `id` is the target of an edge leaving `id`.
pub proof fn lemma_dep_edge(es: Seq<(Seq<char>, Seq<char>, Seq<char>)>, id: Seq<char>, k: int) -> (j: int)
    requires
        0 <= k < deps_spec(es, id).len(),
    ensures
        0 <= j < es.len(),
        es[j].0 == id,
        es[j].1 == deps_spec(es, id)[k],
    decreases es.len(),
{
    let prev = deps_spec(es.drop_last(), id);
    if k < prev.len() {
        let j = lemma_dep_edge(es.drop_last(), id, k);
        j
    } else {
        (es.len() - 1) as int
    }
}

fn mark_of(marks: &Vec<(&'static str, u8)>, id: &str) -> (r: Option<u8>)
    ensures
        r == (if marks_map(marks@).contains_key(id@) { Some(marks_map(marks@)[id@]) } else { None::<u8> }),
{
    let mut r: Option<u8> = None;
    let mut i: usize = 0;
    while i < marks.len()
        invariant
            0 <= i <= marks@.len(),
            r == (if marks_map(marks@.take(i as int)).contains_key(id@) {
                Some(marks_map(marks@.take(i as int))[id@])
            } else {
                None::<u8>
            }),
        decreases marks@.len() - i,
    {
        proof {
            assert(marks@.take(i + 1).drop_last() =~= marks@.take(i as int));
        }
        if same(marks[i].0, id) {
            r = Some(marks[i].1);
        }
        i += 1;
    }
    proof {
        assert(marks@.take(marks@.len() as int) =~= marks@);
    }
    r
}

fn join_path(path: &Vec<&'static str>) -> (r: String)
    ensures
        r@ == arrow_join(strs_m(path@)),
{
    let mut out: Vec<char> = Vec::new();
    let ghost s = strs_m(path@);
    let mut i: usize = 0;
    while i < path.len()
        invariant
            0 <= i <= path@.len(),
            s == strs_m(path@),
            out@ == arrow_join(s.take(i as int)),
        decreases path@.len() - i,
    {
        proof {
            assert(s.take(i + 1).drop_last() =~= s.take(i as int));
            assert(s.take(i + 1).last() == path@[i as int]@);
        }
        if i > 0 {
            append_str(&mut out, " → ");
        }
        append_str(&mut out, path[i]);
        proof {
            if i == 0 {
                assert(s.take(1)[0] == path@[0]@);
            }
            assert(out@ =~= arrow_join(s.take(i + 1)));
        }
        i += 1;
    }
    proof {
        assert(s.take(s.len() as int) =~= s);
    }
    string_from(&out)
}

impl DeployGraph {
    /// The direct dependencies of `id` (targets of its outgoing edges, in edge order).
    fn deps_of(&self, id: &str) -> (r: Vec<&'static str>)
        ensures
            strs_m(r@) == deps_spec(edges_m(self.edges@), id@),
    {
        let ghost es = edges_m(self.edges@);
        let mut r: Vec<&'static str> = Vec::new();
        let mut i: usize = 0;
        while i < self.edges.len()
            invariant
                0 <= i <= self.edges@.len(),
                es == edges_m(self.edges@),
                strs_m(r@) == deps_spec(es.take(i as int), id@),
            decreases self.edges@.len() - i,
        {
            proof {
                assert(es.take(i + 1).drop_last() =~= es.take(i as int));
                assert(es.take(i + 1).last() == edge_m(self.edges@[i as int]));
            }
            if same(self.edges[i].from, id) {
                r.push(self.edges[i].to);
            }
            proof {
                assert(strs_m(r@) =~= deps_spec(es.take(i + 1), id@));
            }
            i += 1;
        }
        proof {
            assert(es.take(es.len() as int) =~= es);
        }
        r
    }

    /// Index of the first node with this id.
    fn find_node(&self, id: &str) -> (r: Option<usize>)
        ensures
            match r {
                Some(j) => first_node(nodes_m(self.nodes@), id@) == Some(j as int) && j < self.nodes@.len(),
                None => first_node(nodes_m(self.nodes@), id@) is None,
            },
    {
        let ghost ns = nodes_m(self.nodes@);
        let mut i: usize = 0;
        while i < self.nodes.len()
            invariant
                0 <= i <= self.nodes@.len(),
                ns == nodes_m(self.nodes@),
                first_node(ns.take(i as int), id@) is None,
            decreases self.nodes@.len() - i,
        {
            proof {
                assert(ns.take(i + 1).drop_last() =~= ns.take(i as int));
                assert(ns.take(i + 1).last() == node_m(self.nodes@[i as int]));
            }
            if same(self.nodes[i].id, id) {
                proof {
                    lemma_first_node_prefix(ns, i as int + 1, id@);
                }
                return Some(i);
            }
            i += 1;
        }
        proof {
            assert(ns.take(ns.len() as int) =~= ns);
        }
        None
    }
}

/// A first match within a prefix is the first match of the whole sequence.
proof fn lemma_first_node_prefix(ns: Seq<(Seq<char>, Seq<char>, NodeKind)>, n: int, id: Seq<char>)
    requires
        0 <= n <= ns.len(),
        first_node(ns.take(n), id) is Some,
    ensures
        first_node(ns, id) == first_node(ns.take(n), id),
    decreases ns.len() - n,
{
    if n < ns.len() {
        assert(ns.take(n + 1).drop_last() =~= ns.take(n));
        lemma_first_node_prefix(ns, n + 1, id);
    } else {
        assert(ns.take(n) =~= ns);
    }
}

} // verus!

verus! {

impl DeployGraph {
    /// Depth-first visit of `id`; on a cycle, the error is the path that closes it.
    fn dfs(
        &self,
        id: &'static str,
        marks: &mut Vec<(&'static str, u8)>,
        order: &mut Vec<usize>,
        path: &mut Vec<&'static str>,
        Ghost(f): Ghost<nat>,
    ) -> (r: Result<(), String>)
        requires
            universe(nodes_m(self.nodes@), edges_m(self.edges@)).contains(id@),
            unvisited(universe(nodes_m(self.nodes@), edges_m(self.edges@)), marks_map(old(marks)@)) < f,
            forall|j: int| 0 <= j < old(order)@.len() ==> old(order)@[j] < self.nodes@.len(),
        ensures
            ({
                let w = visit(nodes_m(self.nodes@), edges_m(self.edges@), f, id@, marks_map(old(marks)@),
                    idx_m(old(order)@), strs_m(old(path)@));
                &&& (r is Ok) == w.0
                &&& r is Ok ==> marks_map(final(marks)@) == w.1 && idx_m(final(order)@) == w.2
                    && final(path)@ == old(path)@
                &&& r is Err ==> r->Err_0@ == arrow_join(w.3)
            }),
            forall|x: Seq<char>| marked(marks_map(old(marks)@), x) ==> marked(marks_map(final(marks)@), x),
            forall|j: int| 0 <= j < final(order)@.len() ==> final(order)@[j] < self.nodes@.len(),
        decreases f,
    {
        let ghost ns = nodes_m(self.nodes@);
        let ghost es = edges_m(self.edges@);
        let ghost u = universe(ns, es);
        let ghost st0 = marks_map(marks@);
        let ghost o0 = idx_m(order@);
        let ghost p0 = path@;
        let m = mark_of(marks, id);
        match m {
            Some(2) => {
                return Ok(());
            },
            Some(1) => {
                path.push(id);
                proof {
                    assert(strs_m(path@) =~= strs_m(p0).push(id@));
                }
                return Err(join_path(path));
            },
            _ => {},
        }
        marks.push((id, 1u8));
        path.push(id);
        proof {
            assert(marks@.drop_last() =~= old(marks)@);
            assert(strs_m(path@) =~= strs_m(p0).push(id@));
            assert(marked(marks_map(marks@), id@));
            lemma_unvisited_drops(u, st0, marks_map(marks@), id@);
        }
        let ds = self.deps_of(id);
        let ghost stk = strs_m(path@);
        let ghost target = visit_deps(ns, es, (f - 1) as nat, id@, strs_m(ds@), 0, marks_map(marks@), o0, stk);
        proof {
            assert(marks_map(marks@) == st0.insert(id@, 1u8));
            assert(visit(ns, es, f, id@, st0, o0, strs_m(p0)) == target);
        }
        let mut k: usize = 0;
        while k < ds.len()
            invariant
                0 <= k <= ds@.len(),
                ns == nodes_m(self.nodes@),
                es == edges_m(self.edges@),
                u == universe(ns, es),
                strs_m(ds@) == deps_spec(es, id@),
                f >= 1,
                target == visit_deps(ns, es, (f - 1) as nat, id@, strs_m(ds@), k as int, marks_map(marks@),
                    idx_m(order@), stk),
                stk == strs_m(path@),
                path@ == p0.push(id),
                p0 == old(path)@,
                st0 == marks_map(old(marks)@),
                o0 == idx_m(old(order)@),
                visit(ns, es, f, id@, st0, o0, strs_m(p0)) == target,
                unvisited(u, marks_map(marks@)) < f - 1,
                forall|x: Seq<char>| marked(st0, x) ==> marked(marks_map(marks@), x),
                marked(marks_map(marks@), id@),
                forall|j: int| 0 <= j < order@.len() ==> order@[j] < self.nodes@.len(),
            decreases ds@.len() - k,
        {
            let d = ds[k];
            proof {
                assert(strs_m(ds@)[k as int] == d@);
                let j = lemma_dep_edge(es, id@, k as int);
                assert(u[ns.len() + j] == d@);
            }
            let ghost before = marks_map(marks@);
            match self.dfs(d, marks, order, path, Ghost((f - 1) as nat)) {
                Ok(()) => {},
                Err(e) => {
                    proof {
                        assert(forall|x: Seq<char>| marked(st0, x) ==> marked(before, x));
                    }
                    return Err(e);
                },
            }
            proof {
                lemma_unvisited_mono(u, before, marks_map(marks@));
            }
            k += 1;
        }
        path.pop();
        let ghost st1 = marks_map(marks@);
        let ghost mv1 = marks@;
        let ghost o1 = idx_m(order@);
        marks.push((id, 2u8));
        match self.find_node(id) {
            Some(j) => {
                order.push(j);
                proof {
                    assert(idx_m(order@) =~= o1.push(j as int));
                }
            },
            None => {},
        }
        proof {
            assert(marks@.drop_last() =~= mv1);
            assert(marks_map(marks@) == st1.insert(id@, 2u8));
            assert(path@ =~= p0);
            assert(marks_map(marks@) =~= finish(ns, id@, st1, o1).1);
            assert(idx_m(order@) =~= finish(ns, id@, st1, o1).2);
        }
        Ok(())
    }

    /// The walk over all nodes, as indices of finished first-nodes.
    fn topo_indices(&self) -> (r: Result<Vec<usize>, String>)
        ensures
            ({
                let w = topo_spec(nodes_m(self.nodes@), edges_m(self.edges@));
                &&& (r is Ok) == w.0
                &&& r is Ok ==> idx_m(r->Ok_0@) == w.2
                    && forall|j: int| 0 <= j < r->Ok_0@.len() ==> r->Ok_0@[j] < self.nodes@.len()
                &&& r is Err ==> r->Err_0@ == arrow_join(w.3)
            }),
    {
        let ghost ns = nodes_m(self.nodes@);
        let ghost es = edges_m(self.edges@);
        let ghost u = universe(ns, es);
        let ghost f: nat = u.len() + 1;
        let mut marks: Vec<(&'static str, u8)> = Vec::new();
        let mut order: Vec<usize> = Vec::new();
        let ghost target = topo_spec(ns, es);
        proof {
            assert(marks_map(marks@) =~= Map::<Seq<char>, u8>::empty());
            assert(idx_m(order@) =~= Seq::<int>::empty());
        }
        let mut i: usize = 0;
        while i < self.nodes.len()
            invariant
                0 <= i <= self.nodes@.len(),
                ns == nodes_m(self.nodes@),
                es == edges_m(self.edges@),
                u == universe(ns, es),
                f == u.len() + 1,
                target == topo_spec(ns, es),
                target == topo_from(ns, es, f, i as int, marks_map(marks@), idx_m(order@)),
                forall|j: int| 0 <= j < order@.len() ==> order@[j] < self.nodes@.len(),
            decreases self.nodes@.len() - i,
        {
            let mut path: Vec<&'static str> = Vec::new();
            proof {
                lemma_unvisited_bound(u, marks_map(marks@));
                assert(u[i as int] == ns[i as int].0);
                assert(ns[i as int].0 == self.nodes@[i as int].id@);
                assert(strs_m(path@) =~= Seq::<Seq<char>>::empty());
            }
            match self.dfs(self.nodes[i].id, &mut marks, &mut order, &mut path, Ghost(f)) {
                Ok(()) => {},
                Err(e) => {
                    return Err(e);
                },
            }
            i += 1;
        }
        Ok(order)
    }

    /// A provisioning order: each node after the nodes it depends on.  A dependency
    /// cycle is an error whose text is the path (` → `-joined ids) that closes it.
    pub fn topo(&self) -> (r: Result<Vec<&Node>, String>)
        ensures
            ({
                let w = topo_spec(nodes_m(self.nodes@), edges_m(self.edges@));
                &&& (r is Ok) == w.0
                &&& r is Ok ==> r->Ok_0@.len() == w.2.len() && forall|j: int|
                    0 <= j < w.2.len() ==> 0 <= w.2[j] < self.nodes@.len() && *#[trigger] r->Ok_0@[j] == self.nodes@[w.2[j]]
                &&& r is Err ==> r->Err_0@ == arrow_join(w.3)
            }),
    {
        match self.topo_indices() {
            Ok(order) => {
                let mut out: Vec<&Node> = Vec::new();
                let mut k: usize = 0;
                while k < order.len()
                    invariant
                        0 <= k <= order@.len(),
                        out@.len() == k,
                        forall|j: int| 0 <= j < order@.len() ==> order@[j] < self.nodes@.len(),
                        forall|j: int| 0 <= j < k ==> *out@[j] == self.nodes@[order@[j] as int],
                    decreases order@.len() - k,
                {
                    out.push(&self.nodes[order[k]]);
                    k += 1;
                }
                proof {
                    assert(idx_m(order@).len() == order@.len());
                    assert forall|j: int| 0 <= j < order@.len() implies idx_m(order@)[j] == order@[j] as int by {}
                }
                Ok(out)
            },
            Err(e) => Err(e),
        }
    }
}

} // verus!

verus! {

// ───────────────────────────── what the walk guarantees ─────────────────────────────

pub open spec fn black(st: Map<Seq<char>, u8>, x: Seq<char>) -> bool {
    st.contains_key(x) && st[x] == 2
}

pub open spec fn gray(st: Map<Seq<char>, u8>, x: Seq<char>) -> bool {
    st.contains_key(x) && st[x] == 1
}

/// What holds between visits: the order holds finished first-nodes, once each, every
/// finished first-node is in it, finished ids have finished dependencies, and each
/// entry's dependencies that name nodes come before it.
pub open spec fn walk_inv(
    ns: Seq<(Seq<char>, Seq<char>, NodeKind)>,
    es: Seq<(Seq<char>, Seq<char>, Seq<char>)>,
    st: Map<Seq<char>, u8>,
    order: Seq<int>,
) -> bool {
    &&& forall|p: int| 0 <= p < order.len() ==> 0 <= #[trigger] order[p] < ns.len()
        && first_node(ns, ns[order[p]].0) == Some(order[p]) && black(st, ns[order[p]].0)
    &&& forall|x: Seq<char>| #[trigger] black(st, x) && first_node(ns, x) is Some
        ==> order.contains(first_node(ns, x)->0)
    &&& forall|p: int, q: int| 0 <= p < q < order.len() ==> order[p] != order[q]
    &&& forall|x: Seq<char>, b: Seq<char>| #[trigger] black(st, x) && #[trigger] deps_spec(es, x).contains(b)
        ==> black(st, b)
    &&& forall|p: int, b: Seq<char>| 0 <= p < order.len() && #[trigger] deps_spec(es, ns[order[p]].0).contains(b)
        && first_node(ns, b) is Some ==> exists|q: int| 0 <= q < p && order[q] == first_node(ns, b)->0
}

/// Marks set before stay as they were; marks set since are finished ones.
pub open spec fn keeps_marks(st: Map<Seq<char>, u8>, st2: Map<Seq<char>, u8>) -> bool {
    &&& forall|x: Seq<char>| #[trigger] marked(st, x) ==> st2.contains_key(x) && st2[x] == st[x]
    &&& forall|x: Seq<char>| #[trigger] marked(st2, x) && !marked(st, x) ==> black(st2, x)
}

/// `first_node` finds the smallest index with the id.
pub proof fn lemma_first_node(ns: Seq<(Seq<char>, Seq<char>, NodeKind)>, id: Seq<char>)
    ensures
        match first_node(ns, id) {
            Some(j) => 0 <= j < ns.len() && ns[j].0 == id && forall|i: int| 0 <= i < j ==> ns[i].0 != id,
            None => forall|i: int| 0 <= i < ns.len() ==> ns[i].0 != id,
        },
    decreases ns.len(),
{
    if ns.len() > 0 {
        lemma_first_node(ns.drop_last(), id);
        assert forall|i: int| 0 <= i < ns.len() - 1 implies ns.drop_last()[i] == ns[i] by {}
    }
}

/// The node at the first index of an id is found at that index.
proof fn lemma_first_node_at(ns: Seq<(Seq<char>, Seq<char>, NodeKind)>, id: Seq<char>)
    requires
        first_node(ns, id) is Some,
    ensures
        first_node(ns, ns[first_node(ns, id)->0].0) == first_node(ns, id),
        0 <= first_node(ns, id)->0 < ns.len(),
        ns[first_node(ns, id)->0].0 == id,
{
    lemma_first_node(ns, id);
}

/// The target of every edge is among the dependencies of its source.
pub proof fn lemma_edge_dep(es: Seq<(Seq<char>, Seq<char>, Seq<char>)>, t: int)
    requires
        0 <= t < es.len(),
    ensures
        deps_spec(es, es[t].0).contains(es[t].1),
    decreases es.len(),
{
    let prev = deps_spec(es.drop_last(), es[t].0);
    let tail = if es.last().0 == es[t].0 { seq![es.last().1] } else { Seq::<Seq<char>>::empty() };
    assert(deps_spec(es, es[t].0) == prev + tail);
    if t < es.len() - 1 {
        assert(es.drop_last()[t] == es[t]);
        lemma_edge_dep(es.drop_last(), t);
        let i = choose|i: int| 0 <= i < prev.len() && prev[i] == es[t].1;
        assert((prev + tail)[i] == es[t].1);
    } else {
        assert((prev + tail)[prev.len() as int] == es[t].1);
    }
}

proof fn lemma_inv_gray(
    ns: Seq<(Seq<char>, Seq<char>, NodeKind)>,
    es: Seq<(Seq<char>, Seq<char>, Seq<char>)>,
    st: Map<Seq<char>, u8>,
    order: Seq<int>,
    id: Seq<char>,
)
    requires
        walk_inv(ns, es, st, order),
        !black(st, id),
    ensures
        walk_inv(ns, es, st.insert(id, 1u8), order),
{
    let st1 = st.insert(id, 1u8);
    assert forall|p: int| 0 <= p < order.len() implies 0 <= #[trigger] order[p] < ns.len()
        && first_node(ns, ns[order[p]].0) == Some(order[p]) && black(st1, ns[order[p]].0) by {
        assert(black(st, ns[order[p]].0));
    }
    assert forall|x: Seq<char>| #[trigger] black(st1, x) && first_node(ns, x) is Some implies order.contains(
        first_node(ns, x)->0) by {
        assert(black(st, x));
    }
    assert forall|x: Seq<char>, b: Seq<char>| #[trigger] black(st1, x) && #[trigger] deps_spec(es, x).contains(b)
        implies black(st1, b) by {
        assert(black(st, x));
        assert(black(st, b));
    }
}

proof fn lemma_inv_finish(
    ns: Seq<(Seq<char>, Seq<char>, NodeKind)>,
    es: Seq<(Seq<char>, Seq<char>, Seq<char>)>,
    st: Map<Seq<char>, u8>,
    order: Seq<int>,
    id: Seq<char>,
)
    requires
        walk_inv(ns, es, st, order),
        gray(st, id),
        forall|b: Seq<char>| #[trigger] deps_spec(es, id).contains(b) ==> black(st, b),
    ensures
        walk_inv(ns, es, finish(ns, id, st, order).1, finish(ns, id, st, order).2),
{
    let w = finish(ns, id, st, order);
    let st2 = w.1;
    let o2 = w.2;
    lemma_first_node(ns, id);
    assert forall|x: Seq<char>| black(st, x) implies #[trigger] black(st2, x) by {}
    assert forall|p: int| 0 <= p < o2.len() implies 0 <= #[trigger] o2[p] < ns.len()
        && first_node(ns, ns[o2[p]].0) == Some(o2[p]) && black(st2, ns[o2[p]].0) by {
        if p < order.len() {
            assert(o2[p] == order[p]);
        } else {
            lemma_first_node_at(ns, id);
        }
    }
    assert forall|x: Seq<char>| #[trigger] black(st2, x) && first_node(ns, x) is Some implies o2.contains(
        first_node(ns, x)->0) by {
        if x == id {
            assert(o2[order.len() as int] == first_node(ns, x)->0);
        } else {
            assert(black(st, x));
            let i = choose|i: int| 0 <= i < order.len() && order[i] == first_node(ns, x)->0;
            assert(o2[i] == order[i]);
        }
    }
    assert forall|p: int, q: int| 0 <= p < q < o2.len() implies o2[p] != o2[q] by {
        if q == order.len() {
            assert(o2[p] == order[p]);
            assert(black(st, ns[order[p]].0));
            lemma_first_node_at(ns, id);
        } else {
            assert(o2[p] == order[p] && o2[q] == order[q]);
        }
    }
    assert forall|x: Seq<char>, b: Seq<char>| #[trigger] black(st2, x) && #[trigger] deps_spec(es, x).contains(b)
        implies black(st2, b) by {
        if x == id {
            assert(black(st, b));
        } else {
            assert(black(st, x));
            assert(black(st, b));
        }
    }
    assert forall|p: int, b: Seq<char>| 0 <= p < o2.len() && #[trigger] deps_spec(es, ns[o2[p]].0).contains(b)
        && first_node(ns, b) is Some implies exists|q: int| 0 <= q < p && o2[q] == first_node(ns, b)->0 by {
        if p < order.len() {
            assert(o2[p] == order[p]);
            let q = choose|q: int| 0 <= q < p && order[q] == first_node(ns, b)->0;
            assert(o2[q] == order[q]);
        } else {
            lemma_first_node_at(ns, id);
            assert(ns[o2[p]].0 == id);
            assert(black(st, b));
            let q = choose|q: int| 0 <= q < order.len() && order[q] == first_node(ns, b)->0;
            assert(o2[q] == order[q]);
        }
    }
}

proof fn lemma_visit_ok(
    ns: Seq<(Seq<char>, Seq<char>, NodeKind)>,
    es: Seq<(Seq<char>, Seq<char>, Seq<char>)>,
    f: nat,
    id: Seq<char>,
    st: Map<Seq<char>, u8>,
    order: Seq<int>,
    path: Seq<Seq<char>>,
)
    requires
        walk_inv(ns, es, st, order),
        visit(ns, es, f, id, st, order, path).0,
    ensures
        walk_inv(ns, es, visit(ns, es, f, id, st, order, path).1, visit(ns, es, f, id, st, order, path).2),
        black(visit(ns, es, f, id, st, order, path).1, id),
        keeps_marks(st, visit(ns, es, f, id, st, order, path).1),
    decreases f, 0int,
{
    if f == 0 {
    } else if black(st, id) {
    } else if gray(st, id) {
    } else {
        let st1 = st.insert(id, 1u8);
        lemma_inv_gray(ns, es, st, order, id);
        lemma_visit_deps_ok(ns, es, (f - 1) as nat, id, deps_spec(es, id), 0, st1, order, path.push(id));
        let w = visit(ns, es, f, id, st, order, path);
        assert(w == visit_deps(ns, es, (f - 1) as nat, id, deps_spec(es, id), 0, st1, order, path.push(id)));
        assert forall|x: Seq<char>| #[trigger] marked(st, x) implies w.1.contains_key(x) && w.1[x] == st[x] by {
            assert(x != id);
            assert(marked(st1, x));
        }
        assert forall|x: Seq<char>| #[trigger] marked(w.1, x) && !marked(st, x) implies black(w.1, x) by {
            if x != id {
                assert(!marked(st1, x));
            }
        }
    }
}

proof fn lemma_visit_deps_ok(
    ns: Seq<(Seq<char>, Seq<char>, NodeKind)>,
    es: Seq<(Seq<char>, Seq<char>, Seq<char>)>,
    f: nat,
    id: Seq<char>,
    ds: Seq<Seq<char>>,
    k: int,
    st: Map<Seq<char>, u8>,
    order: Seq<int>,
    path: Seq<Seq<char>>,
)
    requires
        walk_inv(ns, es, st, order),
        gray(st, id),
        ds == deps_spec(es, id),
        0 <= k,
        forall|t: int| 0 <= t < k && t < ds.len() ==> black(st, #[trigger] ds[t]),
        visit_deps(ns, es, f, id, ds, k, st, order, path).0,
    ensures
        ({
            let w = visit_deps(ns, es, f, id, ds, k, st, order, path);
            &&& walk_inv(ns, es, w.1, w.2)
            &&& black(w.1, id)
            &&& forall|x: Seq<char>| #[trigger] marked(st, x) && x != id ==> w.1.contains_key(x) && w.1[x] == st[x]
            &&& forall|x: Seq<char>| #[trigger] marked(w.1, x) && !marked(st, x) ==> black(w.1, x)
        }),
    decreases f, ds.len() - k + 1,
{
    if k >= ds.len() {
        assert forall|b: Seq<char>| #[trigger] deps_spec(es, id).contains(b) implies black(st, b) by {
            let t = choose|t: int| 0 <= t < ds.len() && ds[t] == b;
        }
        lemma_inv_finish(ns, es, st, order, id);
    } else {
        let r = visit(ns, es, f, ds[k], st, order, path);
        lemma_visit_ok(ns, es, f, ds[k], st, order, path);
        assert(marked(st, id));
        assert(gray(r.1, id));
        assert forall|t: int| 0 <= t < k + 1 && t < ds.len() implies black(r.1, #[trigger] ds[t]) by {
            if t < k {
                assert(marked(st, ds[t]));
            }
        }
        lemma_visit_deps_ok(ns, es, f, id, ds, k + 1, r.1, r.2, path);
        let w = visit_deps(ns, es, f, id, ds, k + 1, r.1, r.2, path);
        assert forall|x: Seq<char>| #[trigger] marked(st, x) && x != id implies w.1.contains_key(x) && w.1[x]
            == st[x] by {
            assert(marked(r.1, x));
        }
        assert forall|x: Seq<char>| #[trigger] marked(w.1, x) && !marked(st, x) implies black(w.1, x) by {
            if marked(r.1, x) {
                assert(black(r.1, x));
                assert(x != id);
            }
        }
    }
}

} // verus!

verus! {

/// A dependency cycle met by the walk: it starts at a node, each id depends on the
/// next one, and the last id occurs earlier in it.
pub open spec fn is_cycle(
    ns: Seq<(Seq<char>, Seq<char>, NodeKind)>,
    es: Seq<(Seq<char>, Seq<char>, Seq<char>)>,
    c: Seq<Seq<char>>,
) -> bool {
    &&& c.len() >= 2
    &&& exists|i: int| 0 <= i < ns.len() && ns[i].0 == c[0]
    &&& forall|t: int| 0 <= t < c.len() - 1 ==> #[trigger] deps_spec(es, c[t]).contains(c[t + 1])
    &&& exists|t: int| 0 <= t < c.len() - 1 && c[t] == c.last()
}

/// The current path starts at a node, follows edges, and leads on to `id`.
pub open spec fn path_ok(
    ns: Seq<(Seq<char>, Seq<char>, NodeKind)>,
    es: Seq<(Seq<char>, Seq<char>, Seq<char>)>,
    path: Seq<Seq<char>>,
    id: Seq<char>,
) -> bool {
    &&& path.len() == 0 ==> exists|i: int| 0 <= i < ns.len() && ns[i].0 == id
    &&& path.len() > 0 ==> (exists|i: int| 0 <= i < ns.len() && ns[i].0 == path[0]) && deps_spec(es, path.last()).contains(id)
    &&& forall|t: int| 0 <= t < path.len() - 1 ==> #[trigger] deps_spec(es, path[t]).contains(path[t + 1])
}

proof fn lemma_visit_cycle(
    ns: Seq<(Seq<char>, Seq<char>, NodeKind)>,
    es: Seq<(Seq<char>, Seq<char>, Seq<char>)>,
    f: nat,
    id: Seq<char>,
    st: Map<Seq<char>, u8>,
    order: Seq<int>,
    path: Seq<Seq<char>>,
)
    requires
        walk_inv(ns, es, st, order),
        path_ok(ns, es, path, id),
        forall|x: Seq<char>| #[trigger] gray(st, x) ==> path.contains(x),
        universe(ns, es).contains(id),
        unvisited(universe(ns, es), st) < f,
        !visit(ns, es, f, id, st, order, path).0,
    ensures
        is_cycle(ns, es, visit(ns, es, f, id, st, order, path).3),
    decreases f, 0int,
{
    let u = universe(ns, es);
    if f == 0 {
    } else if black(st, id) {
    } else if gray(st, id) {
        let c = path.push(id);
        let t = choose|t: int| 0 <= t < path.len() && path[t] == id;
        assert(c[t] == c.last());
        assert(c[0] == path[0]);
        assert forall|s: int| 0 <= s < c.len() - 1 implies #[trigger] deps_spec(es, c[s]).contains(c[s + 1]) by {
            if s < path.len() - 1 {
                assert(deps_spec(es, path[s]).contains(path[s + 1]));
            }
        }
    } else {
        let st1 = st.insert(id, 1u8);
        let p1 = path.push(id);
        lemma_inv_gray(ns, es, st, order, id);
        lemma_unvisited_drops(u, st, st1, id);
        assert forall|x: Seq<char>| #[trigger] gray(st1, x) implies p1.contains(x) by {
            if x == id {
                assert(p1[path.len() as int] == id);
            } else {
                assert(gray(st, x));
                let t = choose|t: int| 0 <= t < path.len() && path[t] == x;
                assert(p1[t] == x);
            }
        }
        assert forall|t: int| 0 <= t < p1.len() - 1 implies #[trigger] deps_spec(es, p1[t]).contains(p1[t + 1]) by {
            if t < path.len() - 1 {
                assert(deps_spec(es, path[t]).contains(path[t + 1]));
            } else {
                assert(p1[t] == path.last());
            }
        }
        if path.len() == 0 {
            assert(p1[0] == id);
        } else {
            assert(p1[0] == path[0]);
        }
        lemma_visit_deps_cycle(ns, es, (f - 1) as nat, id, deps_spec(es, id), 0, st1, order, p1);
    }
}

proof fn lemma_visit_deps_cycle(
    ns: Seq<(Seq<char>, Seq<char>, NodeKind)>,
    es: Seq<(Seq<char>, Seq<char>, Seq<char>)>,
    f: nat,
    id: Seq<char>,
    ds: Seq<Seq<char>>,
    k: int,
    st: Map<Seq<char>, u8>,
    order: Seq<int>,
    path: Seq<Seq<char>>,
)
    requires
        walk_inv(ns, es, st, order),
        gray(st, id),
        ds == deps_spec(es, id),
        0 <= k,
        path.len() > 0,
        path.last() == id,
        exists|i: int| 0 <= i < ns.len() && ns[i].0 == path[0],
        forall|t: int| 0 <= t < path.len() - 1 ==> #[trigger] deps_spec(es, path[t]).contains(path[t + 1]),
        forall|x: Seq<char>| #[trigger] gray(st, x) ==> path.contains(x),
        unvisited(universe(ns, es), st) < f,
        !visit_deps(ns, es, f, id, ds, k, st, order, path).0,
    ensures
        is_cycle(ns, es, visit_deps(ns, es, f, id, ds, k, st, order, path).3),
    decreases f, ds.len() - k + 1,
{
    let u = universe(ns, es);
    if k >= ds.len() {
    } else {
        let r = visit(ns, es, f, ds[k], st, order, path);
        if r.0 {
            lemma_visit_ok(ns, es, f, ds[k], st, order, path);
            assert(marked(st, id));
            assert forall|x: Seq<char>| #[trigger] gray(r.1, x) implies path.contains(x) by {
                if marked(st, x) {
                    assert(gray(st, x));
                } else {
                    assert(marked(r.1, x));
                }
            }
            assert forall|x: Seq<char>| marked(st, x) implies #[trigger] marked(r.1, x) by {}
            lemma_unvisited_mono(u, st, r.1);
            lemma_visit_deps_cycle(ns, es, f, id, ds, k + 1, r.1, r.2, path);
        } else {
            let j = lemma_dep_edge(es, id, k);
            assert(u[ns.len() + j] == ds[k]);
            assert(deps_spec(es, path.last()).contains(ds[k])) by {
                assert(ds[k] == deps_spec(es, id)[k]);
            }
            lemma_visit_cycle(ns, es, f, ds[k], st, order, path);
        }
    }
}

proof fn lemma_topo_from_ok(
    ns: Seq<(Seq<char>, Seq<char>, NodeKind)>,
    es: Seq<(Seq<char>, Seq<char>, Seq<char>)>,
    f: nat,
    i: int,
    st: Map<Seq<char>, u8>,
    order: Seq<int>,
)
    requires
        walk_inv(ns, es, st, order),
        0 <= i,
        forall|t: int| 0 <= t < i && t < ns.len() ==> black(st, #[trigger] ns[t].0),
        topo_from(ns, es, f, i, st, order).0,
    ensures
        walk_inv(ns, es, topo_from(ns, es, f, i, st, order).1, topo_from(ns, es, f, i, st, order).2),
        forall|t: int| 0 <= t < ns.len() ==> black(topo_from(ns, es, f, i, st, order).1, #[trigger] ns[t].0),
    decreases ns.len() - i,
{
    if i < ns.len() {
        let r = visit(ns, es, f, ns[i].0, st, order, Seq::empty());
        lemma_visit_ok(ns, es, f, ns[i].0, st, order, Seq::empty());
        assert forall|t: int| 0 <= t < i + 1 && t < ns.len() implies black(r.1, #[trigger] ns[t].0) by {
            if t < i {
                assert(marked(st, ns[t].0));
            }
        }
        lemma_topo_from_ok(ns, es, f, i + 1, r.1, r.2);
    }
}

proof fn lemma_topo_from_cycle(
    ns: Seq<(Seq<char>, Seq<char>, NodeKind)>,
    es: Seq<(Seq<char>, Seq<char>, Seq<char>)>,
    f: nat,
    i: int,
    st: Map<Seq<char>, u8>,
    order: Seq<int>,
)
    requires
        walk_inv(ns, es, st, order),
        0 <= i,
        forall|x: Seq<char>| !#[trigger] gray(st, x),
        f == universe(ns, es).len() + 1,
        !topo_from(ns, es, f, i, st, order).0,
    ensures
        is_cycle(ns, es, topo_from(ns, es, f, i, st, order).3),
    decreases ns.len() - i,
{
    let u = universe(ns, es);
    if i < ns.len() {
        let r = visit(ns, es, f, ns[i].0, st, order, Seq::empty());
        if r.0 {
            lemma_visit_ok(ns, es, f, ns[i].0, st, order, Seq::empty());
            assert forall|x: Seq<char>| !#[trigger] gray(r.1, x) by {
                if marked(st, x) {
                    assert(!gray(st, x));
                } else if marked(r.1, x) {
                    assert(black(r.1, x));
                }
            }
            lemma_topo_from_cycle(ns, es, f, i + 1, r.1, r.2);
        } else {
            lemma_unvisited_bound(u, st);
            assert(u[i] == ns[i].0);
            lemma_visit_cycle(ns, es, f, ns[i].0, st, order, Seq::empty());
        }
    }
}

/// When the graph has no cycle, the provisioning order names every node id exactly once
/// (by the first node with that id), and for every edge between two nodes the node
/// depended on comes before the node that depends on it.
pub proof fn law_topo_order(ns: Seq<(Seq<char>, Seq<char>, NodeKind)>, es: Seq<(Seq<char>, Seq<char>, Seq<char>)>)
    requires
        topo_spec(ns, es).0,
    ensures
        ({
            let order = topo_spec(ns, es).2;
            &&& forall|p: int| 0 <= p < order.len() ==> 0 <= #[trigger] order[p] < ns.len()
                && first_node(ns, ns[order[p]].0) == Some(order[p])
            &&& forall|p: int, q: int| 0 <= p < q < order.len() ==> order[p] != order[q]
            &&& forall|i: int| 0 <= i < ns.len() ==> order.contains(#[trigger] first_node(ns, ns[i].0)->0)
            &&& forall|t: int, p: int, q: int|
                0 <= t < es.len() && 0 <= p < order.len() && 0 <= q < order.len()
                && ns[#[trigger] order[p]].0 == es[t].0 && ns[#[trigger] order[q]].0 == #[trigger] es[t].1 ==> q < p
        }),
{
    let w = topo_spec(ns, es);
    let order = w.2;
    let f = universe(ns, es).len() + 1;
    lemma_topo_from_ok(ns, es, f, 0, Map::empty(), Seq::empty());
    assert forall|i: int| 0 <= i < ns.len() implies order.contains(#[trigger] first_node(ns, ns[i].0)->0) by {
        lemma_first_node(ns, ns[i].0);
        assert(black(w.1, ns[i].0));
    }
    assert forall|t: int, p: int, q: int|
        0 <= t < es.len() && 0 <= p < order.len() && 0 <= q < order.len()
        && ns[#[trigger] order[p]].0 == es[t].0 && ns[#[trigger] order[q]].0 == #[trigger] es[t].1 implies q < p by {
        lemma_edge_dep(es, t);
        assert(deps_spec(es, ns[order[p]].0).contains(es[t].1));
        assert(first_node(ns, es[t].1) == Some(order[q]));
        let q2 = choose|q2: int| 0 <= q2 < p && order[q2] == first_node(ns, es[t].1)->0;
        if q2 != q {
            if q2 < q {
                assert(order[q2] != order[q]);
            } else {
                assert(order[q] != order[q2]);
            }
        }
    }
}

/// When the walk reports a cycle, the reported path is one: it starts at a node, each
/// id in it depends on the next, and its last id occurs earlier in it.
pub proof fn law_topo_cycle(ns: Seq<(Seq<char>, Seq<char>, NodeKind)>, es: Seq<(Seq<char>, Seq<char>, Seq<char>)>)
    requires
        !topo_spec(ns, es).0,
    ensures
        is_cycle(ns, es, topo_spec(ns, es).3),
{
    lemma_topo_from_cycle(ns, es, universe(ns, es).len() + 1, 0, Map::empty(), Seq::empty());
}

} // verus!

verus! {

// ───────────────────────────── levels ─────────────────────────────

/// One more than the largest level recorded for a dependency (a dependency with no
/// recorded level counts as 0); 0 for no dependencies.
pub open spec fn dep_level(ds: Seq<Seq<char>>, memo: Map<Seq<char>, nat>) -> nat
    decreases ds.len(),
{
    if ds.len() == 0 {
        0
    } else {
        let prev = dep_level(ds.drop_last(), memo);
        let here = (if memo.contains_key(ds.last()) { memo[ds.last()] } else { 0nat }) + 1;
        if here > prev { here } else { prev }
    }
}

/// Levels recorded so far, by id (a later entry for the same id replaces an earlier one).
pub open spec fn level_memo(ids: Seq<Seq<char>>, lv: Seq<nat>) -> Map<Seq<char>, nat>
    decreases ids.len(),
{
    if ids.len() == 0 || lv.len() == 0 {
        Map::empty()
    } else {
        level_memo(ids.drop_last(), lv.drop_last()).insert(ids.last(), lv.last())
    }
}

/// The ids of the nodes at the given indices.
pub open spec fn order_ids(ns: Seq<(Seq<char>, Seq<char>, NodeKind)>, order: Seq<int>) -> Seq<Seq<char>> {
    Seq::new(order.len(), |i: int| ns[order[i]].0)
}

/// The level of each entry of a provisioning order, computed in that order.
pub open spec fn level_seq(
    ns: Seq<(Seq<char>, Seq<char>, NodeKind)>,
    es: Seq<(Seq<char>, Seq<char>, Seq<char>)>,
    order: Seq<int>,
) -> Seq<nat>
    decreases order.len(),
{
    if order.len() == 0 {
        Seq::empty()
    } else {
        let prev = level_seq(ns, es, order.drop_last());
        prev.push(dep_level(deps_spec(es, ns[order.last()].0), level_memo(order_ids(ns, order.drop_last()), prev)))
    }
}

pub open spec fn levels_map(v: Seq<(&'static str, usize)>) -> Map<Seq<char>, nat>
    decreases v.len(),
{
    if v.len() == 0 {
        Map::empty()
    } else {
        levels_map(v.drop_last()).insert(v.last().0@, v.last().1 as nat)
    }
}

proof fn lemma_level_seq_len(
    ns: Seq<(Seq<char>, Seq<char>, NodeKind)>,
    es: Seq<(Seq<char>, Seq<char>, Seq<char>)>,
    order: Seq<int>,
)
    ensures
        level_seq(ns, es, order).len() == order.len(),
    decreases order.len(),
{
    if order.len() > 0 {
        lemma_level_seq_len(ns, es, order.drop_last());
    }
}

fn level_of(memo: &Vec<(&'static str, usize)>, id: &str) -> (r: Option<usize>)
    ensures
        r is Some <==> levels_map(memo@).contains_key(id@),
        r is Some ==> r->0 as nat == levels_map(memo@)[id@],
        r is Some ==> exists|j: int| 0 <= j < memo@.len() && memo@[j].1 == r->0,
{
    let mut r: Option<usize> = None;
    let mut i: usize = 0;
    while i < memo.len()
        invariant
            0 <= i <= memo@.len(),
            r is Some <==> levels_map(memo@.take(i as int)).contains_key(id@),
            r is Some ==> r->0 as nat == levels_map(memo@.take(i as int))[id@],
            r is Some ==> exists|j: int| 0 <= j < memo@.len() && memo@[j].1 == r->0,
        decreases memo@.len() - i,
    {
        proof {
            assert(memo@.take(i + 1).drop_last() =~= memo@.take(i as int));
        }
        if same(memo[i].0, id) {
            r = Some(memo[i].1);
        }
        i += 1;
    }
    proof {
        assert(memo@.take(memo@.len() as int) =~= memo@);
    }
    r
}

impl DeployGraph {
    /// The level of each node in provisioning order: 0 for a node with no dependencies,
    /// else one more than the largest level among its dependencies.  Nodes of one level
    /// can be provisioned together.  Empty when the graph has a cycle.
    pub fn levels(&self) -> (r: Vec<(&'static str, usize)>)
        ensures
            ({
                let w = topo_spec(nodes_m(self.nodes@), edges_m(self.edges@));
                &&& w.0 ==> r@.len() == w.2.len() && forall|i: int| 0 <= i < w.2.len() ==>
                    (#[trigger] r@[i]).0@ == nodes_m(self.nodes@)[w.2[i]].0
                    && r@[i].1 == level_seq(nodes_m(self.nodes@), edges_m(self.edges@), w.2)[i]
                &&& !w.0 ==> r@.len() == 0
            }),
    {
        let ghost ns = nodes_m(self.nodes@);
        let ghost es = edges_m(self.edges@);
        let mut memo: Vec<(&'static str, usize)> = Vec::new();
        match self.topo_indices() {
            Ok(order) => {
                let ghost w = topo_spec(ns, es);
                let ghost o = w.2;
                let mut k: usize = 0;
                proof {
                    assert(order@.len() == idx_m(order@).len());
                    assert(o.take(0) =~= Seq::<int>::empty());
                    assert(order_ids(ns, o.take(0)) =~= Seq::<Seq<char>>::empty());
                }
                while k < order.len()
                    invariant
                        0 <= k <= order@.len(),
                        ns == nodes_m(self.nodes@),
                        es == edges_m(self.edges@),
                        order@.len() == o.len(),
                        o == idx_m(order@),
                        forall|j: int| 0 <= j < order@.len() ==> order@[j] < self.nodes@.len(),
                        memo@.len() == k,
                        levels_map(memo@) == level_memo(order_ids(ns, o.take(k as int)), level_seq(ns, es, o.take(k as int))),
                        forall|j: int| 0 <= j < k ==> (#[trigger] memo@[j]).0@ == ns[o[j]].0
                            && memo@[j].1 == level_seq(ns, es, o.take(k as int))[j] && memo@[j].1 <= j + 1,
                    decreases order@.len() - k,
                {
                    let n = &self.nodes[order[k]];
                    proof {
                        assert(o[k as int] == order@[k as int] as int);
                    }
                    let ds = self.deps_of(n.id);
                    let ghost memo_m = levels_map(memo@);
                    let mut lvl: usize = 0;
                    let mut t: usize = 0;
                    while t < ds.len()
                        invariant
                            0 <= t <= ds@.len(),
                            memo_m == levels_map(memo@),
                            memo@.len() == k,
                            k < order@.len(),
                            forall|j: int| 0 <= j < k ==> (#[trigger] memo@[j]).1 <= j + 1,
                            lvl == dep_level(strs_m(ds@).take(t as int), memo_m),
                            lvl <= k + 1,
                            k + 1 <= usize::MAX,
                        decreases ds@.len() - t,
                    {
                        proof {
                            assert(strs_m(ds@).take(t + 1).drop_last() =~= strs_m(ds@).take(t as int));
                            assert(strs_m(ds@).take(t + 1).last() == ds@[t as int]@);
                        }
                        let found = level_of(&memo, ds[t]);
                        let v: usize = match found {
                            Some(x) => {
                                proof {
                                    let j = choose|j: int| 0 <= j < memo@.len() && memo@[j].1 == x;
                                    assert(memo@[j].1 <= j + 1);
                                }
                                x + 1
                            },
                            None => 1,
                        };
                        if v > lvl {
                            lvl = v;
                        }
                        t += 1;
                    }
                    proof {
                        assert(strs_m(ds@).take(ds@.len() as int) =~= strs_m(ds@));
                        let ok = o.take(k as int);
                        let ok1 = o.take(k + 1);
                        assert(ok1.drop_last() =~= ok);
                        assert(ok1.last() == o[k as int]);
                        lemma_level_seq_len(ns, es, ok);
                        assert(order_ids(ns, ok1).drop_last() =~= order_ids(ns, ok));
                        assert(n.id@ == ns[o[k as int]].0);
                    }
                    let ghost mv = memo@;
                    memo.push((n.id, lvl));
                    proof {
                        let ok = o.take(k as int);
                        let ok1 = o.take(k + 1);
                        assert(memo@.drop_last() =~= mv);
                        lemma_level_seq_len(ns, es, ok1);
                        assert(level_seq(ns, es, ok1).drop_last() =~= level_seq(ns, es, ok));
                        assert(levels_map(memo@) =~= level_memo(order_ids(ns, ok1), level_seq(ns, es, ok1)));
                        assert forall|j: int| 0 <= j < k + 1 implies (#[trigger] memo@[j]).0@ == ns[o[j]].0
                            && memo@[j].1 == level_seq(ns, es, ok1)[j] && memo@[j].1 <= j + 1 by {
                            if j < k {
                                assert(memo@[j] == mv[j]);
                            }
                        }
                    }
                    k += 1;
                }
                proof {
                    assert(o.take(o.len() as int) =~= o);
                }
            },
            Err(_) => {},
        }
        memo
    }
}

} // verus!

verus! {

proof fn lemma_level_seq_prefix(
    ns: Seq<(Seq<char>, Seq<char>, NodeKind)>,
    es: Seq<(Seq<char>, Seq<char>, Seq<char>)>,
    order: Seq<int>,
    n: int,
)
    requires
        0 <= n <= order.len(),
    ensures
        level_seq(ns, es, order.take(n)) == level_seq(ns, es, order).take(n),
    decreases order.len() - n,
{
    lemma_level_seq_len(ns, es, order);
    if n == order.len() {
        assert(order.take(n) =~= order);
        assert(level_seq(ns, es, order).take(n) =~= level_seq(ns, es, order));
    } else {
        lemma_level_seq_prefix(ns, es, order, n + 1);
        assert(order.take(n + 1).drop_last() =~= order.take(n));
        lemma_level_seq_len(ns, es, order.take(n + 1));
        assert(level_seq(ns, es, order.take(n + 1)).drop_last() == level_seq(ns, es, order.take(n)));
        assert(level_seq(ns, es, order).take(n + 1).drop_last() =~= level_seq(ns, es, order).take(n));
    }
}

proof fn lemma_level_memo_at(ids: Seq<Seq<char>>, lv: Seq<nat>, q: int)
    requires
        ids.len() == lv.len(),
        0 <= q < ids.len(),
        forall|i: int, j: int| 0 <= i < j < ids.len() ==> ids[i] != ids[j],
    ensures
        level_memo(ids, lv).contains_key(ids[q]),
        level_memo(ids, lv)[ids[q]] == lv[q],
    decreases ids.len(),
{
    if q < ids.len() - 1 {
        assert(ids.drop_last()[q] == ids[q]);
        assert(lv.drop_last()[q] == lv[q]);
        lemma_level_memo_at(ids.drop_last(), lv.drop_last(), q);
        assert(ids.last() != ids[q]);
    }
}

proof fn lemma_dep_level_ge(ds: Seq<Seq<char>>, memo: Map<Seq<char>, nat>, b: Seq<char>)
    requires
        ds.contains(b),
        memo.contains_key(b),
    ensures
        dep_level(ds, memo) >= memo[b] + 1,
    decreases ds.len(),
{
    if ds.last() != b {
        let i = choose|i: int| 0 <= i < ds.len() && ds[i] == b;
        assert(ds.drop_last()[i] == b);
        lemma_dep_level_ge(ds.drop_last(), memo, b);
    }
}

/// Along every edge between two nodes of a graph without cycles, the node that depends has
/// a greater level than the node it depends on; so the nodes of one level have no
/// dependency between them and can be provisioned together.
pub proof fn law_levels_increase_along_edges(
    ns: Seq<(Seq<char>, Seq<char>, NodeKind)>,
    es: Seq<(Seq<char>, Seq<char>, Seq<char>)>,
)
    requires
        topo_spec(ns, es).0,
    ensures
        ({
            let o = topo_spec(ns, es).2;
            let lv = level_seq(ns, es, o);
            forall|t: int, p: int, q: int|
                0 <= t < es.len() && 0 <= p < o.len() && 0 <= q < o.len()
                && ns[#[trigger] o[p]].0 == es[t].0 && ns[#[trigger] o[q]].0 == #[trigger] es[t].1 ==> lv[q] < lv[p]
        }),
{
    let o = topo_spec(ns, es).2;
    let lv = level_seq(ns, es, o);
    law_topo_order(ns, es);
    lemma_level_seq_len(ns, es, o);
    assert forall|t: int, p: int, q: int|
        0 <= t < es.len() && 0 <= p < o.len() && 0 <= q < o.len()
        && ns[#[trigger] o[p]].0 == es[t].0 && ns[#[trigger] o[q]].0 == #[trigger] es[t].1 implies lv[q] < lv[p] by {
        assert(q < p);
        let op = o.take(p);
        let op1 = o.take(p + 1);
        let ids = order_ids(ns, op);
        lemma_level_seq_prefix(ns, es, o, p);
        lemma_level_seq_prefix(ns, es, o, p + 1);
        lemma_level_seq_len(ns, es, op);
        assert(op1.drop_last() =~= op);
        assert(op1.last() == o[p]);
        let prev = level_seq(ns, es, op);
        assert(level_seq(ns, es, op1) == prev.push(
            dep_level(deps_spec(es, ns[o[p]].0), level_memo(order_ids(ns, op), prev)),
        ));
        assert(lv[p] == level_seq(ns, es, op1)[p]);
        assert forall|i: int, j: int| 0 <= i < j < ids.len() implies ids[i] != ids[j] by {
            assert(ids[i] == ns[o[i]].0 && ids[j] == ns[o[j]].0);
            if ids[i] == ids[j] {
                assert(first_node(ns, ns[o[i]].0) == Some(o[i]));
                assert(first_node(ns, ns[o[j]].0) == Some(o[j]));
                assert(o[i] != o[j]);
            }
        }
        assert(ids[q] == es[t].1);
        assert(prev[q] == lv[q]);
        lemma_level_memo_at(ids, prev, q);
        lemma_edge_dep(es, t);
        lemma_dep_level_ge(deps_spec(es, es[t].0), level_memo(ids, prev), es[t].1);
    }
}


// ───────────────────────── the figures of a printed plan ─────────────────────────

/// The number of routes rendered with strategy `s`.
pub open spec fn strategy_count(rs: Seq<RouteNode>, s: Strategy) -> nat
    decreases rs.len(),
{
    if rs.len() == 0 {
        0
    } else {
        strategy_count(rs.drop_last(), s) + if rs.last().strategy == s { 1nat } else { 0nat }
    }
}

/// How many routes are rendered `Ssr`, `Csr` and `Static`.
pub fn route_counts(routes: &Vec<RouteNode>) -> (r: (usize, usize, usize))
    ensures
        r.0 == strategy_count(routes@, Strategy::Ssr),
        r.1 == strategy_count(routes@, Strategy::Csr),
        r.2 == strategy_count(routes@, Strategy::Static),
{
    let mut ssr: usize = 0;
    let mut csr: usize = 0;
    let mut stat: usize = 0;
    let mut i: usize = 0;
    while i < routes.len()
        invariant
            0 <= i <= routes@.len(),
            ssr == strategy_count(routes@.take(i as int), Strategy::Ssr),
            csr == strategy_count(routes@.take(i as int), Strategy::Csr),
            stat == strategy_count(routes@.take(i as int), Strategy::Static),
            ssr + csr + stat == i,
        decreases routes@.len() - i,
    {
        proof {
            assert(routes@.take(i + 1).drop_last() =~= routes@.take(i as int));
            assert(routes@.take(i + 1).last() == routes@[i as int]);
        }
        match routes[i].strategy {
            Strategy::Ssr => ssr += 1,
            Strategy::Csr => csr += 1,
            Strategy::Static => stat += 1,
        }
        i += 1;
    }
    proof {
        assert(routes@.take(routes@.len() as int) =~= routes@);
    }
    (ssr, csr, stat)
}

/// `name(every <duration>)`: how a cron job is listed.
pub open spec fn cron_label(c: CronNode) -> Seq<char> {
    c.name@ + "(every "@ + duration_text(c.interval_secs) + ")"@
}

/// The listing of each cron job.
pub fn cron_labels(crons: &Vec<CronNode>) -> (r: Vec<String>)
    ensures
        r@.len() == crons@.len(),
        forall|i: int| 0 <= i < crons@.len() ==> (#[trigger] r@[i])@ == cron_label(crons@[i]),
{
    let mut r: Vec<String> = Vec::new();
    let mut i: usize = 0;
    while i < crons.len()
        invariant
            0 <= i <= crons@.len(),
            r@.len() == i,
            forall|k: int| 0 <= k < i ==> (#[trigger] r@[k])@ == cron_label(crons@[k]),
        decreases crons@.len() - i,
    {
        let c = &crons[i];
        let mut out: Vec<char> = Vec::new();
        append_str(&mut out, c.name.as_str());
        append_str(&mut out, "(every ");
        let d = fmt_dur(c.interval_secs);
        append_str(&mut out, d.as_str());
        append_str(&mut out, ")");
        proof {
            assert(out@ =~= cron_label(crons@[i as int]));
        }
        r.push(string_from(&out));
        i += 1;
    }
    r
}

/// The level recorded for `id`, 0 when none is.
pub open spec fn level_at(lv: Map<Seq<char>, nat>, id: Seq<char>) -> nat {
    if lv.contains_key(id) { lv[id] } else { 0 }
}

/// The ids of the nodes at level `l`, in node order.
pub open spec fn ids_at_level(ns: Seq<(Seq<char>, Seq<char>, NodeKind)>, lv: Map<Seq<char>, nat>, l: nat) -> Seq<Seq<char>>
    decreases ns.len(),
{
    if ns.len() == 0 {
        Seq::empty()
    } else {
        let p = ids_at_level(ns.drop_last(), lv, l);
        if level_at(lv, ns.last().0) == l { p.push(ns.last().0) } else { p }
    }
}

/// The largest level in a list of levels (0 for none).
pub open spec fn max_level(v: Seq<(&'static str, usize)>) -> nat
    decreases v.len(),
{
    if v.len() == 0 {
        0
    } else {
        let m = max_level(v.drop_last());
        if v.last().1 > m { v.last().1 as nat } else { m }
    }
}

/// The levels below `n` that some node has, each with its nodes, in increasing order.
pub open spec fn layers_below(ns: Seq<(Seq<char>, Seq<char>, NodeKind)>, lv: Map<Seq<char>, nat>, n: nat) -> Seq<(nat, Seq<Seq<char>>)>
    decreases n,
{
    if n == 0 {
        Seq::empty()
    } else {
        let p = layers_below(ns, lv, (n - 1) as nat);
        let g = ids_at_level(ns, lv, (n - 1) as nat);
        if g.len() > 0 { p.push(((n - 1) as nat, g)) } else { p }
    }
}

impl DeployGraph {
    /// The nodes grouped by level, for the levels from 0 to the largest one in `levels`
    /// that some node has (a node missing from `levels` counts as level 0).
    pub fn level_layers(&self, levels: &Vec<(&'static str, usize)>) -> (r: Vec<(usize, Vec<&'static str>)>)
        ensures
            ({
                let spec = layers_below(nodes_m(self.nodes@), levels_map(levels@), max_level(levels@) + 1);
                &&& r@.len() == spec.len()
                &&& forall|k: int| 0 <= k < spec.len() ==> (#[trigger] r@[k]).0 == spec[k].0
                    && strs_m(r@[k].1@) == spec[k].1
            }),
    {
        let ghost ns = nodes_m(self.nodes@);
        let ghost lv = levels_map(levels@);
        let mut maxl: usize = 0;
        let mut i: usize = 0;
        while i < levels.len()
            invariant
                0 <= i <= levels@.len(),
                maxl == max_level(levels@.take(i as int)),
            decreases levels@.len() - i,
        {
            proof {
                assert(levels@.take(i + 1).drop_last() =~= levels@.take(i as int));
            }
            if levels[i].1 > maxl {
                maxl = levels[i].1;
            }
            i += 1;
        }
        proof {
            assert(levels@.take(levels@.len() as int) =~= levels@);
        }
        let mut r: Vec<(usize, Vec<&'static str>)> = Vec::new();
        let mut l: usize = 0;
        loop
            invariant_except_break
                r@.len() == layers_below(ns, lv, l as nat).len(),
                forall|k: int| 0 <= k < r@.len() ==> (#[trigger] r@[k]).0 == layers_below(ns, lv, l as nat)[k].0
                    && strs_m(r@[k].1@) == layers_below(ns, lv, l as nat)[k].1,
            invariant
                0 <= l <= maxl,
                maxl == max_level(levels@),
                ns == nodes_m(self.nodes@),
                lv == levels_map(levels@),
            ensures
                r@.len() == layers_below(ns, lv, (maxl + 1) as nat).len(),
                forall|k: int| 0 <= k < r@.len() ==> (#[trigger] r@[k]).0 == layers_below(ns, lv, (maxl + 1) as nat)[k].0
                    && strs_m(r@[k].1@) == layers_below(ns, lv, (maxl + 1) as nat)[k].1,
            decreases maxl - l,
        {
            let mut here: Vec<&'static str> = Vec::new();
            let mut j: usize = 0;
            while j < self.nodes.len()
                invariant
                    0 <= j <= self.nodes@.len(),
                    ns == nodes_m(self.nodes@),
                    lv == levels_map(levels@),
                    strs_m(here@) == ids_at_level(ns.take(j as int), lv, l as nat),
                decreases self.nodes@.len() - j,
            {
                proof {
                    assert(ns.take(j + 1).drop_last() =~= ns.take(j as int));
                    assert(ns.take(j + 1).last() == ns[j as int]);
                }
                let id = self.nodes[j].id;
                let lvl: usize = match level_of(levels, id) {
                    Some(x) => x,
                    None => 0,
                };
                if lvl == l {
                    here.push(id);
                    proof {
                        assert(strs_m(here@) =~= ids_at_level(ns.take(j as int), lv, l as nat).push(id@));
                    }
                }
                j += 1;
            }
            proof {
                assert(ns.take(self.nodes@.len() as int) =~= ns);
            }
            let ghost prev = layers_below(ns, lv, l as nat);
            if here.len() > 0 {
                r.push((l, here));
                proof {
                    assert(layers_below(ns, lv, (l + 1) as nat) == prev.push((l as nat, ids_at_level(ns, lv, l as nat))));
                }
            }
            if l == maxl {
                break;
            }
            l += 1;
        }
        r
    }
}

} // verus!
