//! The server-side DOM: an arena of element and text nodes that components build through
//! `el` / `text` / `append` / `attr` / …, serialized to HTML with hydration anchors
//! (`data-h="N"` on elements, `<!--h:N-->` before text nodes), plus the record of the
//! GraphQL responses fetched while rendering (injected into the page for the client).
//!
//! Browser-only operations (events, timers, history, JS escape hatches) have nothing to
//! do on the server and are no-ops here, as they are in the server build of the framework.
use vstd::prelude::*;
use crate::text::{chars_of, string_from};
use crate::gql::value::{push_nat, nat_text, json_text, model, Value, Json};
use crate::runtime::{split_all, split_all_exec, rows_of, slice_chars, parse_i64, parse_i64_spec, parse_u64, parse_uint_spec};

verus! {

/// Metadata of a file chosen in a file input or dropped on an element.
#[derive(Clone, Default, Debug, PartialEq)]
pub struct FileMeta {
    pub name: String,
    pub size: u64,
    pub mime: String,
}

/// One DOM event as the browser glue encodes it: fields separated by U+001F in the order
/// value, checked, key, code, ctrl, shift, alt, meta, clientX, clientY, button, deltaY,
/// files; files separated by U+001D, each `name U+001E size U+001E type`.  The pointer
/// position and wheel delta are kept as the decimal text sent (the host reads them as
/// numbers); a missing or unparsable number reads as 0.
#[derive(Debug)]
pub struct Event {
    pub value: String,
    pub checked: bool,
    pub key: String,
    pub code: String,
    pub ctrl: bool,
    pub shift: bool,
    pub alt: bool,
    pub meta: bool,
    pub client_x: String,
    pub client_y: String,
    pub button: i32,
    pub delta_y: String,
    pub files: Vec<FileMeta>,
}

/// The `i`-th piece, or empty past the end.
pub open spec fn nth_piece(ps: Seq<Seq<char>>, i: int) -> Seq<char> {
    if 0 <= i < ps.len() { ps[i] } else { Seq::empty() }
}

/// The `i`-th field of an encoded event.
pub open spec fn event_field(s: Seq<char>, i: int) -> Seq<char> {
    nth_piece(split_all(s, '\u{1f}'), i)
}

/// A flag field is set when it is exactly `1`.
pub open spec fn flag(t: Seq<char>) -> bool {
    t == seq!['1']
}

/// `t.parse::<i32>().unwrap_or(0)`.
pub open spec fn button_of(t: Seq<char>) -> i32 {
    match parse_i64_spec(t) {
        Some(v) => if i32::MIN <= v <= i32::MAX { v as i32 } else { 0 },
        None => 0,
    }
}

/// `t.parse::<u64>().unwrap_or(0)`.
pub open spec fn size_of(t: Seq<char>) -> u64 {
    match parse_uint_spec(t, u64::MAX as int) {
        Some(v) => v as u64,
        None => 0,
    }
}

/// One encoded file: name, size, type.
pub open spec fn file_of(p: Seq<char>) -> (Seq<char>, u64, Seq<char>) {
    let q = split_all(p, '\u{1e}');
    (nth_piece(q, 0), size_of(nth_piece(q, 1)), nth_piece(q, 2))
}

/// The files of the files field (none when it is empty).
pub open spec fn files_of(raw: Seq<char>) -> Seq<Seq<char>> {
    if raw.len() == 0 { Seq::empty() } else { split_all(raw, '\u{1d}') }
}

pub open spec fn file_view(f: FileMeta) -> (Seq<char>, u64, Seq<char>) {
    (f.name@, f.size, f.mime@)
}

fn piece(parts: &Vec<Vec<char>>, i: usize) -> (r: Vec<char>)
    ensures
        r@ == nth_piece(rows_of(parts@), i as int),
{
    if i < parts.len() {
        let p = &parts[i];
        proof {
            assert(rows_of(parts@)[i as int] == p@);
        }
        let r = slice_chars(p, 0, p.len());
        proof {
            assert(r@ =~= p@);
        }
        r
    } else {
        Vec::new()
    }
}

fn is_one(v: &Vec<char>) -> (r: bool)
    ensures
        r == flag(v@),
{
    if v.len() == 1 && v[0] == '1' {
        proof {
            assert(v@ =~= seq!['1']);
        }
        true
    } else {
        false
    }
}

fn file_meta(p: &Vec<char>) -> (f: FileMeta)
    ensures
        file_view(f) == file_of(p@),
{
    let q = split_all_exec(p, '\u{1e}');
    let name = piece(&q, 0);
    let size_text = piece(&q, 1);
    let mime = piece(&q, 2);
    let size: u64 = match parse_u64(&size_text) {
        Some(v) => v,
        None => 0,
    };
    FileMeta { name: string_from(&name), size, mime: string_from(&mime) }
}

impl Event {
    /// Decodes an event sent by the browser glue; an empty text gives all defaults.
    pub fn decode(s: &str) -> (e: Event)
        ensures
            e.value@ == event_field(s@, 0),
            e.checked == flag(event_field(s@, 1)),
            e.key@ == event_field(s@, 2),
            e.code@ == event_field(s@, 3),
            e.ctrl == flag(event_field(s@, 4)),
            e.shift == flag(event_field(s@, 5)),
            e.alt == flag(event_field(s@, 6)),
            e.meta == flag(event_field(s@, 7)),
            e.client_x@ == event_field(s@, 8),
            e.client_y@ == event_field(s@, 9),
            e.button == button_of(event_field(s@, 10)),
            e.delta_y@ == event_field(s@, 11),
            e.files@.len() == files_of(event_field(s@, 12)).len(),
            forall|i: int| 0 <= i < e.files@.len() ==> file_view(#[trigger] e.files@[i]) == file_of(
                files_of(event_field(s@, 12))[i]),
    {
        let cs = chars_of(s);
        let parts = split_all_exec(&cs, '\u{1f}');
        let value = piece(&parts, 0);
        let checked = piece(&parts, 1);
        let key = piece(&parts, 2);
        let code = piece(&parts, 3);
        let ctrl = piece(&parts, 4);
        let shift = piece(&parts, 5);
        let alt = piece(&parts, 6);
        let meta = piece(&parts, 7);
        let cx = piece(&parts, 8);
        let cy = piece(&parts, 9);
        let button_text = string_from(&piece(&parts, 10));
        let dy = piece(&parts, 11);
        let files_raw = piece(&parts, 12);
        let button: i32 = match parse_i64(button_text.as_str()) {
            Some(v) => if i32::MIN as i64 <= v && v <= i32::MAX as i64 { v as i32 } else { 0 },
            None => 0,
        };
        let mut files: Vec<FileMeta> = Vec::new();
        if files_raw.len() > 0 {
            let items = split_all_exec(&files_raw, '\u{1d}');
            let mut k: usize = 0;
            while k < items.len()
                invariant
                    0 <= k <= items@.len(),
                    rows_of(items@) == split_all(files_raw@, '\u{1d}'),
                    files@.len() == k,
                    forall|i: int| 0 <= i < k ==> file_view(#[trigger] files@[i]) == file_of(rows_of(items@)[i]),
                decreases items@.len() - k,
            {
                let f = file_meta(&items[k]);
                proof {
                    assert(rows_of(items@)[k as int] == items@[k as int]@);
                }
                files.push(f);
                k += 1;
            }
        }
        Event {
            value: string_from(&value),
            checked: is_one(&checked),
            key: string_from(&key),
            code: string_from(&code),
            ctrl: is_one(&ctrl),
            shift: is_one(&shift),
            alt: is_one(&alt),
            meta: is_one(&meta),
            client_x: string_from(&cx),
            client_y: string_from(&cy),
            button,
            delta_y: string_from(&dy),
            files,
        }
    }
}

/// One arena node.
struct Node {
    tag: String,
    attrs: Vec<(String, String)>,
    children: Vec<u32>,
    text: Option<String>,
    hid: u32,
    is_text: bool,
}

/// The model of a node.
pub struct NodeView {
    pub tag: Seq<char>,
    pub attrs: Seq<(Seq<char>, Seq<char>)>,
    pub children: Seq<u32>,
    pub text: Option<Seq<char>>,
    pub hid: u32,
    pub is_text: bool,
}

/// The characters of each `(key, value)` pair.
pub open spec fn pairs_view(v: Seq<(String, String)>) -> Seq<(Seq<char>, Seq<char>)> {
    Seq::new(v.len(), |i: int| (v[i].0@, v[i].1@))
}

pub open spec fn opt_text(t: Option<String>) -> Option<Seq<char>> {
    match t {
        Some(s) => Some(s@),
        None => None,
    }
}

spec fn node_view(n: Node) -> NodeView {
    NodeView {
        tag: n.tag@,
        attrs: pairs_view(n.attrs@),
        children: n.children@,
        text: opt_text(n.text),
        hid: n.hid,
        is_text: n.is_text,
    }
}

/// The document under construction, with the GraphQL responses recorded while rendering
/// and the fetch-completion handlers (of type `H`).
pub struct Dom<H> {
    nodes: Vec<Node>,
    hid: u32,
    root: Option<u32>,
    responses: Vec<(String, String)>,
    fetch: Vec<Option<H>>,
}

impl<H> Dom<H> {
    /// The nodes, by index.
    pub closed spec fn nodes(&self) -> Seq<NodeView> {
        Seq::new(self.nodes@.len(), |i: int| node_view(self.nodes@[i]))
    }

    /// The hydration id the next created node gets.
    pub closed spec fn next_hid(&self) -> u32 {
        self.hid
    }

    /// The mounted document root.
    pub closed spec fn root(&self) -> Option<u32> {
        self.root
    }

    /// The `(query, response)` pairs fetched so far, in order.
    pub closed spec fn responses(&self) -> Seq<(Seq<char>, Seq<char>)> {
        pairs_view(self.responses@)
    }

    /// The fetch-completion handler slots (`None` once dropped).
    pub closed spec fn handlers(&self) -> Seq<Option<H>> {
        self.fetch@
    }

    /// Every child index and the root name an existing node.
    pub open spec fn wf(&self) -> bool {
        &&& (forall|i: int, j: int|
            0 <= i < self.nodes().len() && 0 <= j < self.nodes()[i].children.len()
                ==> #[trigger] self.nodes()[i].children[j] < self.nodes().len())
        &&& (self.root() matches Some(r) ==> r < self.nodes().len())
    }

    /// The number of nodes built so far (node ids are below it).
    pub fn node_count(&self) -> (n: usize)
        ensures
            n == self.nodes().len(),
    {
        self.nodes.len()
    }

    /// An empty document.
    pub fn new() -> (d: Dom<H>)
        ensures
            d.wf(),
            d.nodes().len() == 0,
            d.next_hid() == 0,
            d.root() is None,
            d.responses().len() == 0,
            d.handlers().len() == 0,
    {
        let d = Dom { nodes: Vec::new(), hid: 0, root: None, responses: Vec::new(), fetch: Vec::new() };
        proof {
            assert(d.nodes() =~= Seq::<NodeView>::empty());
            assert(d.responses() =~= Seq::<(Seq<char>, Seq<char>)>::empty());
        }
        d
    }

    proof fn lemma_nodes_push(old_d: &Dom<H>, new_d: &Dom<H>, n: Node)
        requires
            new_d.nodes@ == old_d.nodes@.push(n),
        ensures
            new_d.nodes() == old_d.nodes().push(node_view(n)),
    {
        assert(new_d.nodes() =~= old_d.nodes().push(node_view(n)));
    }

    proof fn lemma_nodes_update(old_d: &Dom<H>, new_d: &Dom<H>, i: int, n: Node)
        requires
            0 <= i < old_d.nodes@.len(),
            new_d.nodes@.len() == old_d.nodes@.len(),
            new_d.nodes@[i] == n,
            forall|j: int| 0 <= j < old_d.nodes@.len() && j != i ==> new_d.nodes@[j] == old_d.nodes@[j],
        ensures
            new_d.nodes() == old_d.nodes().update(i, node_view(n)),
    {
        assert(new_d.nodes() =~= old_d.nodes().update(i, node_view(n)));
    }
}

/// The node `is_text`-free element for `tag`, created with hydration id `hid`.
pub open spec fn element_view(tag: Seq<char>, hid: u32) -> NodeView {
    NodeView { tag, attrs: Seq::empty(), children: Seq::empty(), text: None, hid, is_text: false }
}

/// A text node holding `s`, created with hydration id `hid`.
pub open spec fn text_view(s: Seq<char>, hid: u32) -> NodeView {
    NodeView { tag: Seq::empty(), attrs: Seq::empty(), children: Seq::empty(), text: Some(s), hid, is_text: true }
}

/// Creates an element node; it takes the next hydration id.  Returns its index.
pub fn el<H>(dom: &mut Dom<H>, tag: &str) -> (id: u32)
    requires
        old(dom).wf(),
        old(dom).nodes().len() < u32::MAX,
        old(dom).next_hid() < u32::MAX,
    ensures
        final(dom).wf(),
        id == old(dom).nodes().len(),
        final(dom).nodes() == old(dom).nodes().push(element_view(tag@, old(dom).next_hid())),
        final(dom).next_hid() == old(dom).next_hid() + 1,
        final(dom).root() == old(dom).root(),
        final(dom).responses() == old(dom).responses(),
        final(dom).handlers() == old(dom).handlers(),
{
    let hid = dom.hid;
    dom.hid = hid + 1;
    let n = Node { tag: tag.to_string(), attrs: Vec::new(), children: Vec::new(), text: None, hid, is_text: false };
    let ghost before = *dom;
    dom.nodes.push(n);
    proof {
        Dom::lemma_nodes_push(&before, dom, n);
        assert(node_view(n).attrs =~= Seq::<(Seq<char>, Seq<char>)>::empty());
        assert(node_view(n) == element_view(tag@, hid));
        assert(dom.wf()) by {
            assert forall|i: int, j: int|
                0 <= i < dom.nodes().len() && 0 <= j < dom.nodes()[i].children.len()
                implies #[trigger] dom.nodes()[i].children[j] < dom.nodes().len() by {
                if i < before.nodes().len() {
                    assert(dom.nodes()[i] == before.nodes()[i]);
                }
            }
        }
    }
    (dom.nodes.len() - 1) as u32
}

/// Creates a text node holding `s`; it takes the next hydration id.  Returns its index.
pub fn text<H>(dom: &mut Dom<H>, s: &str) -> (id: u32)
    requires
        old(dom).wf(),
        old(dom).nodes().len() < u32::MAX,
        old(dom).next_hid() < u32::MAX,
    ensures
        final(dom).wf(),
        id == old(dom).nodes().len(),
        final(dom).nodes() == old(dom).nodes().push(text_view(s@, old(dom).next_hid())),
        final(dom).next_hid() == old(dom).next_hid() + 1,
        final(dom).root() == old(dom).root(),
        final(dom).responses() == old(dom).responses(),
        final(dom).handlers() == old(dom).handlers(),
{
    let hid = dom.hid;
    dom.hid = hid + 1;
    let n = Node { tag: String::new(), attrs: Vec::new(), children: Vec::new(), text: Some(s.to_string()), hid, is_text: true };
    let ghost before = *dom;
    dom.nodes.push(n);
    proof {
        Dom::lemma_nodes_push(&before, dom, n);
        assert(node_view(n).attrs =~= Seq::<(Seq<char>, Seq<char>)>::empty());
        assert(node_view(n) == text_view(s@, hid));
        assert(dom.wf()) by {
            assert forall|i: int, j: int|
                0 <= i < dom.nodes().len() && 0 <= j < dom.nodes()[i].children.len()
                implies #[trigger] dom.nodes()[i].children[j] < dom.nodes().len() by {
                if i < before.nodes().len() {
                    assert(dom.nodes()[i] == before.nodes()[i]);
                }
            }
        }
    }
    (dom.nodes.len() - 1) as u32
}

/// An empty placeholder node.
fn blank() -> (n: Node)
    ensures
        n.attrs@.len() == 0,
        n.children@.len() == 0,
{
    Node { tag: String::new(), attrs: Vec::new(), children: Vec::new(), text: None, hid: 0, is_text: false }
}

/// Takes node `i` out of the arena (a blank node stands in its place until `put_node`).
fn take_node<H>(dom: &mut Dom<H>, i: u32) -> (n: Node)
    requires
        i < old(dom).nodes@.len(),
    ensures
        n == old(dom).nodes@[i as int],
        final(dom).nodes@.len() == old(dom).nodes@.len(),
        forall|j: int| 0 <= j < old(dom).nodes@.len() && j != i ==> final(dom).nodes@[j] == old(dom).nodes@[j],
        final(dom).hid == old(dom).hid,
        final(dom).root == old(dom).root,
        final(dom).responses == old(dom).responses,
        final(dom).fetch == old(dom).fetch,
{
    let mut n = blank();
    dom.nodes.set_and_swap(i as usize, &mut n);
    n
}

/// Puts `n` back at index `i`.
fn put_node<H>(dom: &mut Dom<H>, i: u32, n: Node)
    requires
        i < old(dom).nodes@.len(),
    ensures
        final(dom).nodes@ == old(dom).nodes@.update(i as int, n),
        final(dom).hid == old(dom).hid,
        final(dom).root == old(dom).root,
        final(dom).responses == old(dom).responses,
        final(dom).fetch == old(dom).fetch,
{
    let mut n = n;
    dom.nodes.set_and_swap(i as usize, &mut n);
}

/// Replaces the text content of `node`.
pub fn set_text<H>(dom: &mut Dom<H>, node: u32, s: &str)
    requires
        old(dom).wf(),
        node < old(dom).nodes().len(),
    ensures
        final(dom).wf(),
        final(dom).nodes() == old(dom).nodes().update(node as int, NodeView { text: Some(s@), ..old(dom).nodes()[node as int] }),
        final(dom).next_hid() == old(dom).next_hid(),
        final(dom).root() == old(dom).root(),
        final(dom).responses() == old(dom).responses(),
        final(dom).handlers() == old(dom).handlers(),
{
    let ghost before = *dom;
    let mut n = take_node(dom, node);
    n.text = Some(s.to_string());
    put_node(dom, node, n);
    proof {
        let bn = before.nodes@[node as int];
        assert(n.attrs == bn.attrs);
        Dom::lemma_nodes_update(&before, dom, node as int, n);
        assert(node_view(n) == NodeView { text: Some(s@), ..before.nodes()[node as int] });
        lemma_wf_same_children(&before, dom, node as int);
    }
}

proof fn lemma_wf_same_children<H>(before: &Dom<H>, after: &Dom<H>, i: int)
    requires
        before.wf(),
        0 <= i < before.nodes().len(),
        after.nodes().len() == before.nodes().len(),
        after.root() == before.root(),
        after.nodes()[i].children == before.nodes()[i].children,
        forall|j: int| 0 <= j < before.nodes().len() && j != i ==> after.nodes()[j] == before.nodes()[j],
    ensures
        after.wf(),
{
    assert forall|a: int, b: int|
        0 <= a < after.nodes().len() && 0 <= b < after.nodes()[a].children.len()
        implies #[trigger] after.nodes()[a].children[b] < after.nodes().len() by {
        if a != i {
            assert(after.nodes()[a] == before.nodes()[a]);
        }
        assert(after.nodes()[a].children[b] == before.nodes()[a].children[b]);
    }
}

/// Appends `child` to the children of `parent`.
pub fn append<H>(dom: &mut Dom<H>, parent: u32, child: u32)
    requires
        old(dom).wf(),
        parent < old(dom).nodes().len(),
        child < old(dom).nodes().len(),
    ensures
        final(dom).wf(),
        final(dom).nodes() == old(dom).nodes().update(parent as int, NodeView {
            children: old(dom).nodes()[parent as int].children.push(child),
            ..old(dom).nodes()[parent as int]
        }),
        final(dom).next_hid() == old(dom).next_hid(),
        final(dom).root() == old(dom).root(),
        final(dom).responses() == old(dom).responses(),
        final(dom).handlers() == old(dom).handlers(),
{
    let ghost before = *dom;
    let mut n = take_node(dom, parent);
    n.children.push(child);
    put_node(dom, parent, n);
    proof {
        Dom::lemma_nodes_update(&before, dom, parent as int, n);
        let nv = NodeView { children: before.nodes()[parent as int].children.push(child), ..before.nodes()[parent as int] };
        assert(node_view(n) == nv);
        assert forall|a: int, b: int|
            0 <= a < dom.nodes().len() && 0 <= b < dom.nodes()[a].children.len()
            implies #[trigger] dom.nodes()[a].children[b] < dom.nodes().len() by {
            if a != parent {
                assert(dom.nodes()[a] == before.nodes()[a]);
            } else if b < before.nodes()[a].children.len() {
                assert(dom.nodes()[a].children[b] == before.nodes()[a].children[b]);
            }
        }
    }
}

/// Sets (appends) the attribute `k="v"` on `node`.
pub fn attr<H>(dom: &mut Dom<H>, node: u32, k: &str, v: &str)
    requires
        old(dom).wf(),
        node < old(dom).nodes().len(),
    ensures
        final(dom).wf(),
        final(dom).nodes() == old(dom).nodes().update(node as int, NodeView {
            attrs: old(dom).nodes()[node as int].attrs.push((k@, v@)),
            ..old(dom).nodes()[node as int]
        }),
        final(dom).next_hid() == old(dom).next_hid(),
        final(dom).root() == old(dom).root(),
        final(dom).responses() == old(dom).responses(),
        final(dom).handlers() == old(dom).handlers(),
{
    let ghost before = *dom;
    let mut n = take_node(dom, node);
    let ghost old_attrs = n.attrs@;
    n.attrs.push((k.to_string(), v.to_string()));
    put_node(dom, node, n);
    proof {
        Dom::lemma_nodes_update(&before, dom, node as int, n);
        assert(pairs_view(n.attrs@) =~= pairs_view(old_attrs).push((k@, v@)));
        lemma_wf_same_children(&before, dom, node as int);
    }
}

/// Removes every occurrence of `x`.
pub open spec fn without_id(s: Seq<u32>, x: u32) -> Seq<u32>
    decreases s.len(),
{
    if s.len() == 0 {
        s
    } else if s.last() == x {
        without_id(s.drop_last(), x)
    } else {
        without_id(s.drop_last(), x).push(s.last())
    }
}

proof fn lemma_without_id_sub(s: Seq<u32>, x: u32)
    ensures
        forall|j: int| 0 <= j < without_id(s, x).len() ==> s.contains(#[trigger] without_id(s, x)[j]),
    decreases s.len(),
{
    if s.len() > 0 {
        lemma_without_id_sub(s.drop_last(), x);
        let w = without_id(s.drop_last(), x);
        assert forall|j: int| 0 <= j < w.len() implies s.contains(#[trigger] w[j]) by {
            let k = choose|k: int| 0 <= k < s.drop_last().len() && s.drop_last()[k] == w[j];
            assert(s[k] == w[j]);
        }
        if s.last() != x {
            assert forall|j: int| 0 <= j < without_id(s, x).len() implies s.contains(#[trigger] without_id(s, x)[j]) by {
                if j < w.len() {
                    assert(without_id(s, x)[j] == w[j]);
                } else {
                    assert(s[s.len() - 1] == s.last());
                }
            }
        }
    }
}

/// Removes `child` from the children of `parent` (every occurrence).
pub fn remove_child<H>(dom: &mut Dom<H>, parent: u32, child: u32)
    requires
        old(dom).wf(),
        parent < old(dom).nodes().len(),
    ensures
        final(dom).wf(),
        final(dom).nodes() == old(dom).nodes().update(parent as int, NodeView {
            children: without_id(old(dom).nodes()[parent as int].children, child),
            ..old(dom).nodes()[parent as int]
        }),
        final(dom).next_hid() == old(dom).next_hid(),
        final(dom).root() == old(dom).root(),
        final(dom).responses() == old(dom).responses(),
        final(dom).handlers() == old(dom).handlers(),
{
    let ghost before = *dom;
    let mut n = take_node(dom, parent);
    let mut kept: Vec<u32> = Vec::new();
    let mut i: usize = 0;
    while i < n.children.len()
        invariant
            0 <= i <= n.children@.len(),
            kept@ == without_id(n.children@.take(i as int), child),
        decreases n.children@.len() - i,
    {
        proof {
            assert(n.children@.take(i + 1).drop_last() == n.children@.take(i as int));
        }
        if n.children[i] != child {
            kept.push(n.children[i]);
        }
        i += 1;
    }
    proof {
        assert(n.children@.take(i as int) == n.children@);
    }
    let ghost old_children = n.children@;
    n.children = kept;
    put_node(dom, parent, n);
    proof {
        Dom::lemma_nodes_update(&before, dom, parent as int, n);
        lemma_without_id_sub(old_children, child);
        assert forall|a: int, b: int|
            0 <= a < dom.nodes().len() && 0 <= b < dom.nodes()[a].children.len()
            implies #[trigger] dom.nodes()[a].children[b] < dom.nodes().len() by {
            if a != parent {
                assert(dom.nodes()[a] == before.nodes()[a]);
            } else {
                let c = dom.nodes()[a].children[b];
                assert(old_children.contains(c));
                let k = choose|k: int| 0 <= k < old_children.len() && old_children[k] == c;
                assert(before.nodes()[a].children[k] == c);
            }
        }
    }
}

/// Removes the children and the text of `node`.
pub fn clear<H>(dom: &mut Dom<H>, node: u32)
    requires
        old(dom).wf(),
        node < old(dom).nodes().len(),
    ensures
        final(dom).wf(),
        final(dom).nodes() == old(dom).nodes().update(node as int, NodeView {
            children: Seq::empty(),
            text: None,
            ..old(dom).nodes()[node as int]
        }),
        final(dom).next_hid() == old(dom).next_hid(),
        final(dom).root() == old(dom).root(),
        final(dom).responses() == old(dom).responses(),
        final(dom).handlers() == old(dom).handlers(),
{
    let ghost before = *dom;
    let mut n = take_node(dom, node);
    n.children = Vec::new();
    n.text = None;
    put_node(dom, node, n);
    proof {
        Dom::lemma_nodes_update(&before, dom, node as int, n);
        assert(n.children@ =~= Seq::<u32>::empty());
        assert forall|a: int, b: int|
            0 <= a < dom.nodes().len() && 0 <= b < dom.nodes()[a].children.len()
            implies #[trigger] dom.nodes()[a].children[b] < dom.nodes().len() by {
            assert(a != node);
            assert(dom.nodes()[a] == before.nodes()[a]);
        }
    }
}

/// Makes `node` the document root that `take_html` serializes.
pub fn mount<H>(dom: &mut Dom<H>, node: u32)
    requires
        old(dom).wf(),
        node < old(dom).nodes().len(),
    ensures
        final(dom).wf(),
        final(dom).root() == Some(node),
        final(dom).nodes() == old(dom).nodes(),
        final(dom).next_hid() == old(dom).next_hid(),
        final(dom).responses() == old(dom).responses(),
        final(dom).handlers() == old(dom).handlers(),
{
    dom.root = Some(node);
}

/// Empties the document, the hydration counter, the recorded responses and the handlers.
pub fn reset<H>(dom: &mut Dom<H>)
    ensures
        final(dom).wf(),
        final(dom).nodes().len() == 0,
        final(dom).next_hid() == 0,
        final(dom).root() is None,
        final(dom).responses().len() == 0,
        final(dom).handlers().len() == 0,
{
    *dom = Dom::new();
}

/// Each node's hydration id is its index, and the next id is the node count.
pub open spec fn hids_are_indices(nodes: Seq<NodeView>, next: u32) -> bool {
    &&& next == nodes.len()
    &&& forall|i: int| 0 <= i < nodes.len() ==> #[trigger] nodes[i].hid == i
}

/// Since a `reset`, a node's index and its hydration id agree: they agree on the empty
/// document `reset` leaves, `el` and `text` keep them agreeing, and so does any change
/// that leaves every node's hydration id as it was (attributes, classes, children, text).
pub proof fn law_hid_is_index(nodes: Seq<NodeView>, next: u32, tag: Seq<char>, s: Seq<char>, changed: Seq<NodeView>)
    requires
        hids_are_indices(nodes, next),
        changed.len() == nodes.len(),
        forall|i: int| 0 <= i < nodes.len() ==> #[trigger] changed[i].hid == nodes[i].hid,
    ensures
        hids_are_indices(Seq::empty(), 0),
        next < u32::MAX ==> hids_are_indices(nodes.push(element_view(tag, next)), (next + 1) as u32),
        next < u32::MAX ==> hids_are_indices(nodes.push(text_view(s, next)), (next + 1) as u32),
        hids_are_indices(changed, next),
{
    assert forall|i: int| 0 <= i < changed.len() implies #[trigger] changed[i].hid == i by {
        assert(nodes[i].hid == i);
    }
    if next < u32::MAX {
        let a = nodes.push(element_view(tag, next));
        assert forall|i: int| 0 <= i < a.len() implies #[trigger] a[i].hid == i by {
            if i < nodes.len() {
                assert(a[i] == nodes[i]);
            }
        }
        let b = nodes.push(text_view(s, next));
        assert forall|i: int| 0 <= i < b.len() implies #[trigger] b[i].hid == i by {
            if i < nodes.len() {
                assert(b[i] == nodes[i]);
            }
        }
    }
}

// ───────────────────────────── serialization ─────────────────────────────

/// HTML escape of one character of text content.
pub open spec fn esc_text_char(c: char) -> Seq<char> {
    if c == '&' {
        seq!['&', 'a', 'm', 'p', ';']
    } else if c == '<' {
        seq!['&', 'l', 't', ';']
    } else if c == '>' {
        seq!['&', 'g', 't', ';']
    } else {
        seq![c]
    }
}

/// HTML escape of one character of an attribute value.
pub open spec fn esc_attr_char(c: char) -> Seq<char> {
    if c == '&' {
        seq!['&', 'a', 'm', 'p', ';']
    } else if c == '"' {
        seq!['&', 'q', 'u', 'o', 't', ';']
    } else {
        seq![c]
    }
}

/// Text content with `&`, `<`, `>` escaped.
pub open spec fn esc_text(s: Seq<char>) -> Seq<char>
    decreases s.len(),
{
    if s.len() == 0 {
        Seq::empty()
    } else {
        esc_text(s.drop_last()) + esc_text_char(s.last())
    }
}

/// An attribute value with `&` and `"` escaped.
pub open spec fn esc_attr(s: Seq<char>) -> Seq<char>
    decreases s.len(),
{
    if s.len() == 0 {
        Seq::empty()
    } else {
        esc_attr(s.drop_last()) + esc_attr_char(s.last())
    }
}

/// ` k="v"` for each attribute, in order.
pub open spec fn attrs_text(attrs: Seq<(Seq<char>, Seq<char>)>) -> Seq<char>
    decreases attrs.len(),
{
    if attrs.len() == 0 {
        Seq::empty()
    } else {
        attrs_text(attrs.drop_last()) + seq![' '] + attrs.last().0 + seq!['=', '"'] + esc_attr(attrs.last().1) + seq!['"']
    }
}

/// The text of an optional text content (`""` when absent).
pub open spec fn text_or_empty(t: Option<Seq<char>>) -> Seq<char> {
    match t {
        Some(s) => s,
        None => Seq::empty(),
    }
}

/// `<!--h:N-->` followed by the escaped text: the HTML of a text node.
pub open spec fn text_node_html(n: NodeView) -> Seq<char> {
    seq!['<', '!', '-', '-', 'h', ':'] + nat_text(n.hid as nat) + seq!['-', '-', '>'] + esc_text(text_or_empty(n.text))
}

/// `<tag data-h="N" k="v"…>` followed by the escaped text content of an element.
pub open spec fn open_tag_html(n: NodeView) -> Seq<char> {
    seq!['<'] + n.tag + seq![' ', 'd', 'a', 't', 'a', '-', 'h', '=', '"'] + nat_text(n.hid as nat) + seq!['"']
        + attrs_text(n.attrs) + seq!['>'] + esc_text(text_or_empty(n.text))
}

/// `</tag>`.
pub open spec fn close_tag_html(n: NodeView) -> Seq<char> {
    seq!['<', '/'] + n.tag + seq!['>']
}

/// The HTML of node `id`, descending at most `fuel` levels (an index out of range gives `""`).
/// Text nodes are preceded by `<!--h:N-->`; elements carry `data-h="N"` before their attributes.
pub open spec fn node_html(nodes: Seq<NodeView>, id: u32, fuel: nat) -> Seq<char>
    decreases fuel, 0nat,
{
    if fuel == 0 || id >= nodes.len() {
        Seq::empty()
    } else {
        let n = nodes[id as int];
        if n.is_text {
            text_node_html(n)
        } else {
            open_tag_html(n) + children_html(nodes, n.children, (fuel - 1) as nat) + close_tag_html(n)
        }
    }
}

/// The HTML of the nodes `cs`, concatenated.
pub open spec fn children_html(nodes: Seq<NodeView>, cs: Seq<u32>, fuel: nat) -> Seq<char>
    decreases fuel, cs.len() + 1,
{
    if cs.len() == 0 {
        Seq::empty()
    } else {
        children_html(nodes, cs.drop_last(), fuel) + node_html(nodes, cs.last(), fuel)
    }
}

/// The HTML of the mounted root (`""` when nothing is mounted).  An acyclic document is
/// never deeper than its number of nodes, so that bound loses nothing.
pub open spec fn document_html(nodes: Seq<NodeView>, root: Option<u32>) -> Seq<char> {
    match root {
        Some(r) => node_html(nodes, r, nodes.len()),
        None => Seq::empty(),
    }
}

/// Appends the characters of `s`.
fn push_str(out: &mut Vec<char>, s: &str)
    ensures
        final(out)@ == old(out)@ + s@,
{
    let cs = chars_of(s);
    let ghost start = out@;
    let mut i: usize = 0;
    while i < cs.len()
        invariant
            0 <= i <= cs@.len(),
            out@ == start + cs@.take(i as int),
        decreases cs@.len() - i,
    {
        out.push(cs[i]);
        proof {
            assert(cs@.take(i + 1) == cs@.take(i as int).push(cs@[i as int]));
        }
        i += 1;
    }
    proof {
        assert(cs@.take(cs@.len() as int) == cs@);
        assert(cs@ == s@);
    }
}

/// Appends `s` escaped as text content.
fn push_esc_text(out: &mut Vec<char>, s: &str)
    ensures
        final(out)@ == old(out)@ + esc_text(s@),
{
    let cs = chars_of(s);
    let ghost start = out@;
    let mut i: usize = 0;
    while i < cs.len()
        invariant
            0 <= i <= cs@.len(),
            cs@ == s@,
            out@ == start + esc_text(cs@.take(i as int)),
        decreases cs@.len() - i,
    {
        let c = cs[i];
        proof {
            assert(cs@.take(i + 1).drop_last() == cs@.take(i as int));
            assert(cs@.take(i + 1).last() == c);
        }
        if c == '&' {
            out.push('&'); out.push('a'); out.push('m'); out.push('p'); out.push(';');
        } else if c == '<' {
            out.push('&'); out.push('l'); out.push('t'); out.push(';');
        } else if c == '>' {
            out.push('&'); out.push('g'); out.push('t'); out.push(';');
        } else {
            out.push(c);
        }
        proof {
            assert(out@ =~= start + esc_text(cs@.take(i + 1)));
        }
        i += 1;
    }
    proof {
        assert(cs@.take(cs@.len() as int) == cs@);
    }
}

/// Appends `s` escaped as an attribute value.
fn push_esc_attr(out: &mut Vec<char>, s: &str)
    ensures
        final(out)@ == old(out)@ + esc_attr(s@),
{
    let cs = chars_of(s);
    let ghost start = out@;
    let mut i: usize = 0;
    while i < cs.len()
        invariant
            0 <= i <= cs@.len(),
            cs@ == s@,
            out@ == start + esc_attr(cs@.take(i as int)),
        decreases cs@.len() - i,
    {
        let c = cs[i];
        proof {
            assert(cs@.take(i + 1).drop_last() == cs@.take(i as int));
            assert(cs@.take(i + 1).last() == c);
        }
        if c == '&' {
            out.push('&'); out.push('a'); out.push('m'); out.push('p'); out.push(';');
        } else if c == '"' {
            out.push('&'); out.push('q'); out.push('u'); out.push('o'); out.push('t'); out.push(';');
        } else {
            out.push(c);
        }
        proof {
            assert(out@ =~= start + esc_attr(cs@.take(i + 1)));
        }
        i += 1;
    }
    proof {
        assert(cs@.take(cs@.len() as int) == cs@);
    }
}

/// Appends the HTML of a text node.
fn push_text_node(out: &mut Vec<char>, n: &Node)
    ensures
        final(out)@ == old(out)@ + text_node_html(node_view(*n)),
{
    let ghost start = out@;
    out.push('<'); out.push('!'); out.push('-'); out.push('-'); out.push('h'); out.push(':');
    push_nat(out, n.hid as u64);
    out.push('-'); out.push('-'); out.push('>');
    match &n.text {
        Some(t) => push_esc_text(out, t.as_str()),
        None => {},
    }
    proof {
        assert(esc_text(Seq::<char>::empty()) == Seq::<char>::empty());
        assert(out@ =~= start + text_node_html(node_view(*n)));
    }
}

/// Appends the attributes ` k="v"` of a node.
fn push_attrs(out: &mut Vec<char>, attrs: &Vec<(String, String)>)
    ensures
        final(out)@ == old(out)@ + attrs_text(pairs_view(attrs@)),
{
    let ghost start = out@;
    let ghost pv = pairs_view(attrs@);
    let mut i: usize = 0;
    while i < attrs.len()
        invariant
            0 <= i <= attrs@.len(),
            pv == pairs_view(attrs@),
            out@ == start + attrs_text(pv.take(i as int)),
        decreases attrs@.len() - i,
    {
        proof {
            assert(pv.take(i + 1).drop_last() == pv.take(i as int));
            assert(pv.take(i + 1).last() == pv[i as int]);
        }
        out.push(' ');
        push_str(out, attrs[i].0.as_str());
        out.push('=');
        out.push('"');
        push_esc_attr(out, attrs[i].1.as_str());
        out.push('"');
        proof {
            assert(out@ =~= start + attrs_text(pv.take(i + 1)));
        }
        i += 1;
    }
    proof {
        assert(pv.take(pv.len() as int) == pv);
    }
}

/// Appends the opening tag and the escaped text content of an element.
fn push_open_tag(out: &mut Vec<char>, n: &Node)
    ensures
        final(out)@ == old(out)@ + open_tag_html(node_view(*n)),
{
    let ghost start = out@;
    out.push('<');
    push_str(out, n.tag.as_str());
    out.push(' '); out.push('d'); out.push('a'); out.push('t'); out.push('a'); out.push('-'); out.push('h'); out.push('='); out.push('"');
    push_nat(out, n.hid as u64);
    out.push('"');
    push_attrs(out, &n.attrs);
    out.push('>');
    match &n.text {
        Some(t) => push_esc_text(out, t.as_str()),
        None => {},
    }
    proof {
        assert(esc_text(Seq::<char>::empty()) == Seq::<char>::empty());
        assert(out@ =~= start + open_tag_html(node_view(*n)));
    }
}

/// Appends `</tag>`.
fn push_close_tag(out: &mut Vec<char>, n: &Node)
    ensures
        final(out)@ == old(out)@ + close_tag_html(node_view(*n)),
{
    let ghost start = out@;
    out.push('<');
    out.push('/');
    push_str(out, n.tag.as_str());
    out.push('>');
    proof {
        assert(out@ =~= start + close_tag_html(node_view(*n)));
    }
}

impl<H> Dom<H> {
    /// Appends the HTML of node `id` (at most `fuel` levels deep).
    fn serialize(&self, id: u32, fuel: usize, out: &mut Vec<char>)
        requires
            self.wf(),
            id < self.nodes().len(),
        ensures
            final(out)@ == old(out)@ + node_html(self.nodes(), id, fuel as nat),
        decreases fuel,
    {
        if fuel == 0 {
            proof {
                assert(out@ =~= old(out)@ + node_html(self.nodes(), id, fuel as nat));
            }
            return;
        }
        let n = &self.nodes[id as usize];
        let ghost nv = self.nodes()[id as int];
        assert(nv == node_view(*n));
        if n.is_text {
            push_text_node(out, n);
            return;
        }
        let ghost start = out@;
        push_open_tag(out, n);
        let ghost mid = out@;
        let mut k: usize = 0;
        while k < n.children.len()
            invariant
                0 <= k <= n.children@.len(),
                self.wf(),
                id < self.nodes().len(),
                fuel > 0,
                nv == node_view(*n),
                nv == self.nodes()[id as int],
                out@ == mid + children_html(self.nodes(), nv.children.take(k as int), (fuel - 1) as nat),
            decreases n.children@.len() - k,
        {
            proof {
                assert(nv.children.take(k + 1).drop_last() == nv.children.take(k as int));
                assert(nv.children.take(k + 1).last() == nv.children[k as int]);
                assert(self.nodes()[id as int].children[k as int] < self.nodes().len());
            }
            self.serialize(n.children[k], fuel - 1, out);
            k += 1;
        }
        proof {
            assert(nv.children.take(nv.children.len() as int) == nv.children);
        }
        push_close_tag(out, n);
        proof {
            assert(out@ =~= start + node_html(self.nodes(), id, fuel as nat));
        }
    }
}

/// The HTML of the mounted document (`""` when nothing is mounted).
pub fn take_html<H>(dom: &Dom<H>) -> (html: String)
    requires
        dom.wf(),
    ensures
        html@ == document_html(dom.nodes(), dom.root()),
{
    let mut out: Vec<char> = Vec::new();
    match dom.root {
        Some(r) => {
            dom.serialize(r, dom.nodes.len(), &mut out);
            proof {
                assert(out@ =~= document_html(dom.nodes(), dom.root()));
            }
        },
        None => {
            proof {
                assert(out@ =~= document_html(dom.nodes(), dom.root()));
            }
        },
    }
    string_from(&out)
}

// ───────────────────────────── attributes and classes ─────────────────────────────

/// `i` is the first index whose key is `k`.
pub open spec fn first_key_at(attrs: Seq<(Seq<char>, Seq<char>)>, k: Seq<char>, i: int) -> bool {
    &&& 0 <= i < attrs.len()
    &&& attrs[i].0 == k
    &&& forall|j: int| 0 <= j < i ==> attrs[j].0 != k
}

/// Some attribute has key `k`.
pub open spec fn has_key(attrs: Seq<(Seq<char>, Seq<char>)>, k: Seq<char>) -> bool {
    exists|i: int| first_key_at(attrs, k, i)
}

/// The index of the first attribute with key `k` (meaningful when `has_key`).
pub open spec fn first_key(attrs: Seq<(Seq<char>, Seq<char>)>, k: Seq<char>) -> int {
    choose|i: int| first_key_at(attrs, k, i)
}

/// Sets the value of the first attribute named `k`, or appends `k="v"` when there is none.
pub open spec fn with_attr_value(attrs: Seq<(Seq<char>, Seq<char>)>, k: Seq<char>, v: Seq<char>) -> Seq<(Seq<char>, Seq<char>)> {
    if has_key(attrs, k) {
        attrs.update(first_key(attrs, k), (k, v))
    } else {
        attrs.push((k, v))
    }
}

/// The attributes whose key is not `k`, in order.
pub open spec fn without_key(attrs: Seq<(Seq<char>, Seq<char>)>, k: Seq<char>) -> Seq<(Seq<char>, Seq<char>)>
    decreases attrs.len(),
{
    if attrs.len() == 0 {
        attrs
    } else if attrs.last().0 == k {
        without_key(attrs.drop_last(), k)
    } else {
        without_key(attrs.drop_last(), k).push(attrs.last())
    }
}

pub open spec fn value_key() -> Seq<char> {
    seq!['v', 'a', 'l', 'u', 'e']
}

pub open spec fn checked_key() -> Seq<char> {
    seq!['c', 'h', 'e', 'c', 'k', 'e', 'd']
}

pub open spec fn class_key() -> Seq<char> {
    seq!['c', 'l', 'a', 's', 's']
}

/// The attribute key `"value"`.
fn value_key_string() -> (s: String)
    ensures
        s@ == value_key(),
{
    let k = "value";
    proof {
        reveal_strlit("value");
    }
    k.to_owned()
}

/// The attribute key `"checked"`.
fn checked_key_string() -> (s: String)
    ensures
        s@ == checked_key(),
{
    let k = "checked";
    proof {
        reveal_strlit("checked");
    }
    k.to_owned()
}

/// The attribute key `"class"`.
fn class_key_string() -> (s: String)
    ensures
        s@ == class_key(),
{
    let k = "class";
    proof {
        reveal_strlit("class");
    }
    k.to_owned()
}

/// The index of the first attribute named `k`, if any.
fn find_key(attrs: &Vec<(String, String)>, k: &String) -> (r: Option<usize>)
    ensures
        r matches Some(i) ==> first_key_at(pairs_view(attrs@), k@, i as int) && first_key(pairs_view(attrs@), k@) == i,
        r is None <==> !has_key(pairs_view(attrs@), k@),
{
    let ghost pv = pairs_view(attrs@);
    let mut i: usize = 0;
    while i < attrs.len()
        invariant
            0 <= i <= attrs@.len(),
            pv == pairs_view(attrs@),
            forall|j: int| 0 <= j < i ==> pv[j].0 != k@,
        decreases attrs@.len() - i,
    {
        if attrs[i].0 == *k {
            proof {
                assert(first_key_at(pv, k@, i as int));
                let f = first_key(pv, k@);
                assert(first_key_at(pv, k@, f));
                if f < i {
                    assert(pv[f].0 != k@);
                } else if f > i {
                    assert(pv[i as int].0 != k@);
                }
            }
            return Some(i);
        }
        i += 1;
    }
    proof {
        if has_key(pv, k@) {
            let f = choose|f: int| first_key_at(pv, k@, f);
            assert(pv[f].0 != k@);
        }
    }
    None
}

/// Sets the first attribute named `k` to `v`, or appends it.
fn set_attr_value(attrs: &mut Vec<(String, String)>, k: String, v: String)
    ensures
        pairs_view(final(attrs)@) == with_attr_value(pairs_view(old(attrs)@), k@, v@),
{
    let ghost pv = pairs_view(attrs@);
    match find_key(attrs, &k) {
        Some(i) => {
            let mut slot = (k, v);
            attrs.set_and_swap(i, &mut slot);
            proof {
                assert(pairs_view(attrs@) =~= pv.update(i as int, (k@, v@)));
            }
        },
        None => {
            let ghost kv = (k@, v@);
            attrs.push((k, v));
            proof {
                assert(pairs_view(attrs@) =~= pv.push(kv));
            }
        },
    }
}

/// Replaces the attributes of `node` by `f(attrs)`: shared bookkeeping of the attribute writers.
fn replace_attrs<H>(dom: &mut Dom<H>, node: u32, attrs: Vec<(String, String)>)
    requires
        old(dom).wf(),
        node < old(dom).nodes().len(),
    ensures
        final(dom).wf(),
        final(dom).nodes() == old(dom).nodes().update(node as int, NodeView {
            attrs: pairs_view(attrs@),
            ..old(dom).nodes()[node as int]
        }),
        final(dom).next_hid() == old(dom).next_hid(),
        final(dom).root() == old(dom).root(),
        final(dom).responses() == old(dom).responses(),
        final(dom).handlers() == old(dom).handlers(),
{
    let ghost before = *dom;
    let mut n = take_node(dom, node);
    n.attrs = attrs;
    put_node(dom, node, n);
    proof {
        Dom::lemma_nodes_update(&before, dom, node as int, n);
        lemma_wf_same_children(&before, dom, node as int);
    }
}

/// Takes the attributes of `node` out (they are put back by `replace_attrs`).
fn attrs_of<H>(dom: &Dom<H>, node: u32) -> (a: Vec<(String, String)>)
    requires
        node < dom.nodes().len(),
    ensures
        pairs_view(a@) == dom.nodes()[node as int].attrs,
{
    let src = &dom.nodes[node as usize].attrs;
    let mut a: Vec<(String, String)> = Vec::new();
    let mut i: usize = 0;
    while i < src.len()
        invariant
            0 <= i <= src@.len(),
            a@.len() == i,
            pairs_view(a@) == pairs_view(src@).take(i as int),
        decreases src@.len() - i,
    {
        let k = src[i].0.clone();
        let v = src[i].1.clone();
        let ghost before = a@;
        a.push((k, v));
        proof {
            assert(a@ == before.push((k, v)));
            assert forall|j: int| 0 <= j < i + 1 implies #[trigger] pairs_view(a@)[j] == pairs_view(src@).take(i + 1)[j] by {
                if j < i {
                    assert(a@[j] == before[j]);
                    assert(pairs_view(before)[j] == pairs_view(src@).take(i as int)[j]);
                } else {
                    assert(a@[j] == (k, v));
                }
            }
            assert(pairs_view(a@) =~= pairs_view(src@).take(i + 1));
        }
        i += 1;
    }
    proof {
        assert(pairs_view(src@).take(src@.len() as int) == pairs_view(src@));
        assert(dom.nodes()[node as int] == node_view(dom.nodes@[node as int]));
    }
    a
}

/// Sets the `value` attribute of `node` (replacing the first one, else appending it): the
/// server-side rendering of a controlled input's value.
pub fn set_value<H>(dom: &mut Dom<H>, node: u32, s: &str)
    requires
        old(dom).wf(),
        node < old(dom).nodes().len(),
    ensures
        final(dom).wf(),
        final(dom).nodes() == old(dom).nodes().update(node as int, NodeView {
            attrs: with_attr_value(old(dom).nodes()[node as int].attrs, value_key(), s@),
            ..old(dom).nodes()[node as int]
        }),
        final(dom).next_hid() == old(dom).next_hid(),
        final(dom).root() == old(dom).root(),
        final(dom).responses() == old(dom).responses(),
        final(dom).handlers() == old(dom).handlers(),
{
    let mut a = attrs_of(dom, node);
    set_attr_value(&mut a, value_key_string(), s.to_string());
    replace_attrs(dom, node, a);
}

/// Drops every `checked` attribute of `node`, then adds `checked=""` when `on`.
pub fn set_checked<H>(dom: &mut Dom<H>, node: u32, on: bool)
    requires
        old(dom).wf(),
        node < old(dom).nodes().len(),
    ensures
        final(dom).wf(),
        final(dom).nodes() == old(dom).nodes().update(node as int, NodeView {
            attrs: if on {
                without_key(old(dom).nodes()[node as int].attrs, checked_key()).push((checked_key(), Seq::empty()))
            } else {
                without_key(old(dom).nodes()[node as int].attrs, checked_key())
            },
            ..old(dom).nodes()[node as int]
        }),
        final(dom).next_hid() == old(dom).next_hid(),
        final(dom).root() == old(dom).root(),
        final(dom).responses() == old(dom).responses(),
        final(dom).handlers() == old(dom).handlers(),
{
    let a = attrs_of(dom, node);
    let key = checked_key_string();
    let ghost pv = pairs_view(a@);
    let mut kept: Vec<(String, String)> = Vec::new();
    let mut i: usize = 0;
    while i < a.len()
        invariant
            0 <= i <= a@.len(),
            pv == pairs_view(a@),
            key@ == checked_key(),
            pairs_view(kept@) == without_key(pv.take(i as int), key@),
        decreases a@.len() - i,
    {
        proof {
            assert(pv.take(i + 1).drop_last() == pv.take(i as int));
            assert(pv.take(i + 1).last() == pv[i as int]);
        }
        if a[i].0 != key {
            let ghost before = pairs_view(kept@);
            kept.push((a[i].0.clone(), a[i].1.clone()));
            proof {
                assert(pairs_view(kept@) =~= before.push(pv[i as int]));
            }
        }
        i += 1;
    }
    proof {
        assert(pv.take(pv.len() as int) == pv);
    }
    if on {
        let ghost before = pairs_view(kept@);
        kept.push((key, String::new()));
        proof {
            assert(pairs_view(kept@) =~= before.push((checked_key(), Seq::empty())));
        }
    }
    replace_attrs(dom, node, kept);
}

/// Rust's `char::is_whitespace` (the Unicode `White_Space` property).
pub open spec fn is_ws(c: char) -> bool {
    let u = c as u32;
    (0x09 <= u <= 0x0d) || u == 0x20 || u == 0x85 || u == 0xa0 || u == 0x1680 || (0x2000 <= u <= 0x200a)
        || u == 0x2028 || u == 0x2029 || u == 0x202f || u == 0x205f || u == 0x3000
}

pub(crate) fn is_whitespace(c: char) -> (r: bool)
    ensures
        r == is_ws(c),
{
    let u = c as u32;
    (0x09 <= u && u <= 0x0d) || u == 0x20 || u == 0x85 || u == 0xa0 || u == 0x1680 || (0x2000 <= u && u <= 0x200a)
        || u == 0x2028 || u == 0x2029 || u == 0x202f || u == 0x205f || u == 0x3000
}

/// The maximal runs of non-whitespace characters of `s`, in order (`str::split_whitespace`).
pub open spec fn split_ws(s: Seq<char>) -> Seq<Seq<char>>
    decreases s.len(),
{
    if s.len() == 0 {
        Seq::empty()
    } else {
        let rest = split_ws(s.drop_last());
        let c = s.last();
        if is_ws(c) {
            rest
        } else if s.len() >= 2 && !is_ws(s[s.len() - 2]) {
            rest.drop_last().push(rest.last().push(c))
        } else {
            rest.push(seq![c])
        }
    }
}

/// The tokens other than `t`, in order.
pub open spec fn drop_token(toks: Seq<Seq<char>>, t: Seq<char>) -> Seq<Seq<char>>
    decreases toks.len(),
{
    if toks.len() == 0 {
        toks
    } else if toks.last() == t {
        drop_token(toks.drop_last(), t)
    } else {
        drop_token(toks.drop_last(), t).push(toks.last())
    }
}

/// The character sequences of a list of character vectors.
pub open spec fn char_rows(v: Seq<Vec<char>>) -> Seq<Seq<char>> {
    Seq::new(v.len(), |i: int| v[i]@)
}

/// `split_ws` of the characters of `s`.
pub(crate) fn split_whitespace(s: &Vec<char>) -> (toks: Vec<Vec<char>>)
    ensures
        char_rows(toks@) == split_ws(s@),
{
    let mut toks: Vec<Vec<char>> = Vec::new();
    let mut cur: Vec<char> = Vec::new();
    let mut i: usize = 0;
    while i < s.len()
        invariant
            0 <= i <= s@.len(),
            split_ws(s@.take(i as int)) == if cur@.len() > 0 { char_rows(toks@).push(cur@) } else { char_rows(toks@) },
            cur@.len() > 0 <==> (i > 0 && !is_ws(s@[i - 1])),
        decreases s@.len() - i,
    {
        let c = s[i];
        let ghost t = s@.take(i + 1);
        let ghost rows = char_rows(toks@);
        let ghost cv = cur@;
        proof {
            assert(t.drop_last() == s@.take(i as int));
            assert(t.last() == c);
            if i > 0 {
                assert(t[t.len() - 2] == s@[i - 1]);
            }
        }
        if is_whitespace(c) {
            if cur.len() > 0 {
                let mut done: Vec<char> = Vec::new();
                std::mem::swap(&mut done, &mut cur);
                toks.push(done);
                proof {
                    assert(char_rows(toks@) =~= rows.push(cv));
                }
            }
            proof {
                assert(split_ws(t) == split_ws(s@.take(i as int)));
            }
        } else {
            cur.push(c);
            proof {
                if cv.len() > 0 {
                    assert(rows.push(cv).drop_last() =~= rows);
                    assert(rows.push(cv).last() == cv);
                    assert(split_ws(t) == rows.push(cv).drop_last().push(rows.push(cv).last().push(c)));
                    assert(split_ws(t) == rows.push(cur@));
                } else {
                    assert(cur@ =~= seq![c]);
                    assert(split_ws(t) == rows.push(seq![c]));
                }
                assert(char_rows(toks@) == rows);
            }
        }
        i += 1;
    }
    proof {
        assert(s@.take(s@.len() as int) == s@);
    }
    if cur.len() > 0 {
        let ghost rows = char_rows(toks@);
        let ghost cv = cur@;
        toks.push(cur);
        proof {
            assert(char_rows(toks@) =~= rows.push(cv));
        }
    }
    toks
}

/// Whether two character vectors are equal.
fn chars_eq(a: &Vec<char>, b: &Vec<char>) -> (r: bool)
    ensures
        r == (a@ == b@),
{
    if a.len() != b.len() {
        return false;
    }
    let mut i: usize = 0;
    while i < a.len()
        invariant
            0 <= i <= a@.len(),
            a@.len() == b@.len(),
            forall|j: int| 0 <= j < i ==> a@[j] == b@[j],
        decreases a@.len() - i,
    {
        if a[i] != b[i] {
            return false;
        }
        i += 1;
    }
    proof {
        assert(a@ =~= b@);
    }
    true
}

/// The class attribute value after adding `cls`: unchanged when it already has that token,
/// otherwise `cls` appended after a space (no space when the value is empty).
pub open spec fn class_with(v: Seq<char>, cls: Seq<char>) -> Seq<char> {
    if split_ws(v).contains(cls) {
        v
    } else if v.len() == 0 {
        cls
    } else {
        v + seq![' '] + cls
    }
}

/// The class list after `add_class`.
pub open spec fn attrs_with_class(attrs: Seq<(Seq<char>, Seq<char>)>, cls: Seq<char>) -> Seq<(Seq<char>, Seq<char>)> {
    if has_key(attrs, class_key()) {
        let i = first_key(attrs, class_key());
        attrs.update(i, (class_key(), class_with(attrs[i].1, cls)))
    } else {
        attrs.push((class_key(), cls))
    }
}

/// The class list after `remove_class`: the other tokens, joined by single spaces.
pub open spec fn attrs_without_class(attrs: Seq<(Seq<char>, Seq<char>)>, cls: Seq<char>) -> Seq<(Seq<char>, Seq<char>)> {
    if has_key(attrs, class_key()) {
        let i = first_key(attrs, class_key());
        attrs.update(i, (class_key(), crate::gql::value::join(drop_token(split_ws(attrs[i].1), cls), seq![' '])))
    } else {
        attrs
    }
}

/// A class name: non-empty, without whitespace.
pub open spec fn is_token(t: Seq<char>) -> bool {
    t.len() > 0 && forall|i: int| 0 <= i < t.len() ==> !is_ws(#[trigger] t[i])
}

/// Appending the first `k` characters of token `t` after a text that is empty or ends in
/// whitespace adds them as one more token.
proof fn lemma_split_token_prefix(p: Seq<char>, t: Seq<char>, k: int)
    requires
        is_token(t),
        1 <= k <= t.len(),
        p.len() == 0 || is_ws(p.last()),
    ensures
        split_ws(p + t.take(k)) == split_ws(p).push(t.take(k)),
    decreases k,
{
    let s = p + t.take(k);
    assert(s.drop_last() =~= p + t.take(k - 1));
    assert(s.last() == t[k - 1]);
    if k == 1 {
        assert(t.take(0) =~= Seq::<char>::empty());
        assert(p + t.take(0) =~= p);
        if s.len() >= 2 {
            assert(s[s.len() - 2] == p.last());
        }
        assert(t.take(1) =~= seq![t[0]]);
    } else {
        lemma_split_token_prefix(p, t, k - 1);
        assert(s[s.len() - 2] == t[k - 2]);
        assert(t.take(k - 1).push(t[k - 1]) =~= t.take(k));
        let rest = split_ws(p).push(t.take(k - 1));
        assert(rest.drop_last() =~= split_ws(p));
    }
}

/// The class value after adding token `t` has `t` among its tokens.
proof fn lemma_class_with_has(v: Seq<char>, t: Seq<char>)
    requires
        is_token(t),
    ensures
        split_ws(class_with(v, t)).contains(t),
{
    if split_ws(v).contains(t) {
    } else if v.len() == 0 {
        lemma_split_token_prefix(Seq::empty(), t, t.len() as int);
        assert(Seq::<char>::empty() + t.take(t.len() as int) =~= t);
        assert(split_ws(Seq::<char>::empty()).push(t)[0] == t);
    } else {
        let p = v + seq![' '];
        assert(p.drop_last() =~= v);
        assert(is_ws(p.last())) by {
            assert(p.last() == ' ');
            assert((' ' as u32) == 0x20);
        }
        lemma_split_token_prefix(p, t, t.len() as int);
        assert(p + t.take(t.len() as int) =~= v + seq![' '] + t);
        assert(split_ws(p).push(t)[split_ws(p).len() as int] == t);
    }
}

/// The first attribute with a key is unique.
proof fn lemma_first_key_unique(attrs: Seq<(Seq<char>, Seq<char>)>, k: Seq<char>, i: int, j: int)
    requires
        first_key_at(attrs, k, i),
        first_key_at(attrs, k, j),
    ensures
        i == j,
{
    if i < j {
        assert(attrs[i].0 != k);
    } else if j < i {
        assert(attrs[j].0 != k);
    }
}

/// Adding a class twice is adding it once: for a class name `t`, the class list after two
/// `add_class` calls is the list after one.
pub proof fn law_add_class_idempotent(attrs: Seq<(Seq<char>, Seq<char>)>, t: Seq<char>)
    requires
        is_token(t),
    ensures
        attrs_with_class(attrs_with_class(attrs, t), t) == attrs_with_class(attrs, t),
{
    let a1 = attrs_with_class(attrs, t);
    if has_key(attrs, class_key()) {
        let i = first_key(attrs, class_key());
        assert(first_key_at(attrs, class_key(), i));
        assert(first_key_at(a1, class_key(), i)) by {
            assert forall|j: int| 0 <= j < i implies a1[j].0 != class_key() by {
                assert(a1[j] == attrs[j]);
            }
        }
        assert(has_key(a1, class_key()));
        let i1 = first_key(a1, class_key());
        lemma_first_key_unique(a1, class_key(), i, i1);
        lemma_class_with_has(attrs[i].1, t);
        assert(a1[i].1 == class_with(attrs[i].1, t));
        assert(class_with(a1[i].1, t) == a1[i].1);
        assert(a1.update(i, (class_key(), class_with(a1[i].1, t))) =~= a1);
    } else {
        let i = attrs.len() as int;
        assert(first_key_at(a1, class_key(), i)) by {
            assert forall|j: int| 0 <= j < i implies a1[j].0 != class_key() by {
                assert(a1[j] == attrs[j]);
                if attrs[j].0 == class_key() {
                    assert(exists|m: int| first_key_at(attrs, class_key(), m)) by {
                        lemma_some_first_key(attrs, class_key(), j);
                    }
                }
            }
        }
        assert(has_key(a1, class_key()));
        let i1 = first_key(a1, class_key());
        lemma_first_key_unique(a1, class_key(), i, i1);
        lemma_class_with_has(Seq::empty(), t);
        assert(class_with(Seq::empty(), t) == t);
        assert(class_with(t, t) == t);
        assert(a1.update(i, (class_key(), class_with(a1[i].1, t))) =~= a1);
    }
}

/// The tokens of the class value after adding token `t`: those before, then `t` unless it
/// was already there.
proof fn lemma_class_with_tokens(v: Seq<char>, t: Seq<char>)
    requires
        is_token(t),
    ensures
        split_ws(class_with(v, t)) == if split_ws(v).contains(t) { split_ws(v) } else { split_ws(v).push(t) },
{
    if split_ws(v).contains(t) {
    } else if v.len() == 0 {
        lemma_split_token_prefix(Seq::empty(), t, t.len() as int);
        assert(Seq::<char>::empty() + t.take(t.len() as int) =~= t);
        assert(split_ws(v) =~= Seq::<Seq<char>>::empty());
    } else {
        let p = v + seq![' '];
        assert(p.drop_last() =~= v);
        assert(is_ws(p.last())) by {
            assert(p.last() == ' ');
            assert((' ' as u32) == 0x20);
        }
        lemma_split_token_prefix(p, t, t.len() as int);
        assert(p + t.take(t.len() as int) =~= v + seq![' '] + t);
    }
}

/// Removing a class after adding it leaves what removing it alone leaves (for a class
/// name `t`, on a node that has a `class` attribute).
pub proof fn law_remove_after_add_class(attrs: Seq<(Seq<char>, Seq<char>)>, t: Seq<char>)
    requires
        is_token(t),
        has_key(attrs, class_key()),
    ensures
        attrs_without_class(attrs_with_class(attrs, t), t) == attrs_without_class(attrs, t),
{
    let a1 = attrs_with_class(attrs, t);
    let i = first_key(attrs, class_key());
    assert(first_key_at(attrs, class_key(), i));
    assert(first_key_at(a1, class_key(), i)) by {
        assert forall|j: int| 0 <= j < i implies a1[j].0 != class_key() by {
            assert(a1[j] == attrs[j]);
        }
    }
    assert(has_key(a1, class_key()));
    let i1 = first_key(a1, class_key());
    lemma_first_key_unique(a1, class_key(), i, i1);
    let v = attrs[i].1;
    lemma_class_with_tokens(v, t);
    let toks = split_ws(v);
    if !toks.contains(t) {
        assert(toks.push(t).drop_last() =~= toks);
        assert(drop_token(toks.push(t), t) == drop_token(toks, t));
    }
    assert(split_ws(a1[i].1) == split_ws(class_with(v, t)));
    assert(drop_token(split_ws(a1[i].1), t) == drop_token(toks, t));
    assert(a1.update(i, (class_key(), crate::gql::value::join(drop_token(split_ws(a1[i].1), t), seq![' '])))
        =~= attrs.update(i, (class_key(), crate::gql::value::join(drop_token(split_ws(attrs[i].1), t), seq![' ']))));
}

/// When some attribute has key `k`, a first one exists.
proof fn lemma_some_first_key(attrs: Seq<(Seq<char>, Seq<char>)>, k: Seq<char>, j: int)
    requires
        0 <= j < attrs.len(),
        attrs[j].0 == k,
    ensures
        exists|m: int| first_key_at(attrs, k, m),
    decreases j,
{
    if forall|m: int| 0 <= m < j ==> attrs[m].0 != k {
        assert(first_key_at(attrs, k, j));
    } else {
        let m = choose|m: int| 0 <= m < j && attrs[m].0 == k;
        lemma_some_first_key(attrs, k, m);
    }
}

/// Adds the class `cls` to `node` (creating the `class` attribute when needed).
pub fn add_class<H>(dom: &mut Dom<H>, node: u32, cls: &str)
    requires
        old(dom).wf(),
        node < old(dom).nodes().len(),
    ensures
        final(dom).wf(),
        final(dom).nodes() == old(dom).nodes().update(node as int, NodeView {
            attrs: attrs_with_class(old(dom).nodes()[node as int].attrs, cls@),
            ..old(dom).nodes()[node as int]
        }),
        final(dom).next_hid() == old(dom).next_hid(),
        final(dom).root() == old(dom).root(),
        final(dom).responses() == old(dom).responses(),
        final(dom).handlers() == old(dom).handlers(),
{
    let mut a = attrs_of(dom, node);
    let key = class_key_string();
    let ghost pv = pairs_view(a@);
    match find_key(&a, &key) {
        Some(i) => {
            let cur = chars_of(a[i].1.as_str());
            let want = chars_of(cls);
            let toks = split_whitespace(&cur);
            let mut found = false;
            let mut j: usize = 0;
            while j < toks.len()
                invariant
                    0 <= j <= toks@.len(),
                    found == (exists|k: int| 0 <= k < j && #[trigger] char_rows(toks@)[k] == want@),
                decreases toks@.len() - j,
            {
                if chars_eq(&toks[j], &want) {
                    found = true;
                    proof {
                        assert(char_rows(toks@)[j as int] == want@);
                    }
                }
                j += 1;
            }
            proof {
                assert(found == char_rows(toks@).contains(want@));
                assert(cur@ == pv[i as int].1);
            }
            if !found {
                let mut v: Vec<char> = cur;
                if v.len() > 0 {
                    v.push(' ');
                }
                let mut k: usize = 0;
                let ghost base = v@;
                while k < want.len()
                    invariant
                        0 <= k <= want@.len(),
                        v@ == base + want@.take(k as int),
                    decreases want@.len() - k,
                {
                    v.push(want[k]);
                    proof {
                        assert(want@.take(k + 1) == want@.take(k as int).push(want@[k as int]));
                    }
                    k += 1;
                }
                proof {
                    assert(want@.take(want@.len() as int) == want@);
                }
                let nv = string_from(&v);
                proof {
                    assert(nv@ == class_with(pv[i as int].1, cls@));
                }
                let ghost before = a@;
                let mut slot = (key, nv);
                a.set_and_swap(i, &mut slot);
                proof {
                    assert(a@ == before.update(i as int, (key, nv)));
                    assert(pairs_view(a@) =~= pv.update(i as int, (class_key(), class_with(pv[i as int].1, cls@))));
                }
            } else {
                proof {
                    assert(pv.update(i as int, (class_key(), pv[i as int].1)) =~= pv);
                }
            }
        },
        None => {
            let ghost before = pairs_view(a@);
            a.push((key, cls.to_string()));
            proof {
                assert(pairs_view(a@) =~= before.push((class_key(), cls@)));
            }
        },
    }
    replace_attrs(dom, node, a);
}

proof fn lemma_join_push(parts: Seq<Seq<char>>, x: Seq<char>, sep: Seq<char>)
    ensures
        crate::gql::value::join(parts.push(x), sep) == if parts.len() == 0 { x } else { crate::gql::value::join(parts, sep) + sep + x },
{
    assert(parts.push(x).drop_last() =~= parts);
    if parts.len() == 0 {
        assert(parts.push(x)[0] == x);
    }
}

/// Removes the class `cls` from `node`: its `class` attribute becomes the remaining
/// tokens joined by single spaces.
pub fn remove_class<H>(dom: &mut Dom<H>, node: u32, cls: &str)
    requires
        old(dom).wf(),
        node < old(dom).nodes().len(),
    ensures
        final(dom).wf(),
        final(dom).nodes() == old(dom).nodes().update(node as int, NodeView {
            attrs: attrs_without_class(old(dom).nodes()[node as int].attrs, cls@),
            ..old(dom).nodes()[node as int]
        }),
        final(dom).next_hid() == old(dom).next_hid(),
        final(dom).root() == old(dom).root(),
        final(dom).responses() == old(dom).responses(),
        final(dom).handlers() == old(dom).handlers(),
{
    let mut a = attrs_of(dom, node);
    let key = class_key_string();
    let ghost pv = pairs_view(a@);
    match find_key(&a, &key) {
        Some(i) => {
            let cur = chars_of(a[i].1.as_str());
            let want = chars_of(cls);
            let toks = split_whitespace(&cur);
            let ghost rows = char_rows(toks@);
            let mut out: Vec<char> = Vec::new();
            let mut any = false;
            let mut j: usize = 0;
            while j < toks.len()
                invariant
                    0 <= j <= toks@.len(),
                    rows == char_rows(toks@),
                    any == (drop_token(rows.take(j as int), want@).len() > 0),
                    out@ == crate::gql::value::join(drop_token(rows.take(j as int), want@), seq![' ']),
                decreases toks@.len() - j,
            {
                proof {
                    assert(rows.take(j + 1).drop_last() =~= rows.take(j as int));
                    assert(rows.take(j + 1).last() == toks@[j as int]@);
                }
                if !chars_eq(&toks[j], &want) {
                    let ghost kept = drop_token(rows.take(j as int), want@);
                    proof {
                        lemma_join_push(kept, toks@[j as int]@, seq![' ']);
                    }
                    if any {
                        out.push(' ');
                    }
                    any = true;
                    let t = &toks[j];
                    let mut k: usize = 0;
                    let ghost base = out@;
                    while k < t.len()
                        invariant
                            0 <= k <= t@.len(),
                            out@ == base + t@.take(k as int),
                        decreases t@.len() - k,
                    {
                        out.push(t[k]);
                        proof {
                            assert(t@.take(k + 1) == t@.take(k as int).push(t@[k as int]));
                        }
                        k += 1;
                    }
                    proof {
                        assert(t@.take(t@.len() as int) == t@);
                    }
                }
                j += 1;
            }
            proof {
                assert(rows.take(rows.len() as int) == rows);
            }
            let nv = string_from(&out);
            let mut slot = (key, nv);
            a.set_and_swap(i, &mut slot);
            proof {
                assert(pairs_view(a@) =~= attrs_without_class(pv, cls@));
            }
        },
        None => {},
    }
    replace_attrs(dom, node, a);
}

// ───────────────────────────── fetches made while rendering ─────────────────────────────

/// Every live handler accepts `text`.
pub open spec fn handlers_accept<H: Fn(&str)>(hs: Seq<Option<H>>, text: &str) -> bool {
    forall|i: int| 0 <= i < hs.len() && (#[trigger] hs[i]) is Some ==> call_requires(hs[i]->0, (text,))
}

/// Registers a fetch-completion handler; returns its id.
pub fn on_fetch_handler<H>(dom: &mut Dom<H>, f: H) -> (id: u32)
    requires
        old(dom).handlers().len() < u32::MAX,
    ensures
        id == old(dom).handlers().len(),
        final(dom).handlers() == old(dom).handlers().push(Some(f)),
        final(dom).nodes() == old(dom).nodes(),
        final(dom).next_hid() == old(dom).next_hid(),
        final(dom).root() == old(dom).root(),
        final(dom).responses() == old(dom).responses(),
{
    dom.fetch.push(Some(f));
    (dom.fetch.len() - 1) as u32
}

/// Releases handler `id` (an unknown id is ignored); a later `run_fetch` on it does nothing.
pub fn drop_fetch_handler<H>(dom: &mut Dom<H>, id: u32)
    ensures
        final(dom).handlers() == if id < old(dom).handlers().len() {
            old(dom).handlers().update(id as int, None)
        } else {
            old(dom).handlers()
        },
        final(dom).nodes() == old(dom).nodes(),
        final(dom).next_hid() == old(dom).next_hid(),
        final(dom).root() == old(dom).root(),
        final(dom).responses() == old(dom).responses(),
{
    if (id as usize) < dom.fetch.len() {
        let mut slot: Option<H> = None;
        dom.fetch.set_and_swap(id as usize, &mut slot);
    }
}

/// Delivers `text` to handler `id` when it is registered and not dropped (otherwise does nothing).
pub fn run_fetch<H: Fn(&str)>(dom: &Dom<H>, id: u32, text: &str)
    requires
        handlers_accept(dom.handlers(), text),
    ensures
        id < dom.handlers().len() && dom.handlers()[id as int] is Some ==>
            call_ensures(dom.handlers()[id as int]->0, (text,), ()),
{
    if (id as usize) < dom.fetch.len() {
        match &dom.fetch[id as usize] {
            Some(f) => {
                proof {
                    assert(dom.handlers()[id as int] is Some);
                }
                f(text);
                proof {
                    assert(*f == dom.handlers()[id as int]->0);
                }
            },
            None => {},
        }
    }
}

/// Server-side query: records `(query, response)` for the page and delivers the response
/// (the local execution of `query`) to handler `handler` at once.
pub fn gql<H: Fn(&str)>(dom: &mut Dom<H>, query: &str, handler: u32, response: &str)
    requires
        handlers_accept(old(dom).handlers(), response),
    ensures
        final(dom).responses() == old(dom).responses().push((query@, response@)),
        final(dom).nodes() == old(dom).nodes(),
        final(dom).next_hid() == old(dom).next_hid(),
        final(dom).root() == old(dom).root(),
        final(dom).handlers() == old(dom).handlers(),
        final(dom).wf() == old(dom).wf(),
        handler < old(dom).handlers().len() && old(dom).handlers()[handler as int] is Some ==>
            call_ensures(old(dom).handlers()[handler as int]->0, (response,), ()),
{
    let ghost before = pairs_view(dom.responses@);
    dom.responses.push((query.to_string(), response.to_string()));
    proof {
        assert(pairs_view(dom.responses@) =~= before.push((query@, response@)));
    }
    run_fetch(dom, handler, response);
}

/// Server-side subscription: only the current value is resolved, recorded and delivered,
/// exactly as `gql` does.
pub fn subscribe<H: Fn(&str)>(dom: &mut Dom<H>, query: &str, handler: u32, response: &str)
    requires
        handlers_accept(old(dom).handlers(), response),
    ensures
        final(dom).responses() == old(dom).responses().push((query@, response@)),
        final(dom).nodes() == old(dom).nodes(),
        final(dom).next_hid() == old(dom).next_hid(),
        final(dom).root() == old(dom).root(),
        final(dom).handlers() == old(dom).handlers(),
        final(dom).wf() == old(dom).wf(),
        handler < old(dom).handlers().len() && old(dom).handlers()[handler as int] is Some ==>
            call_ensures(old(dom).handlers()[handler as int]->0, (response,), ()),
{
    gql(dom, query, handler, response);
}

/// The recorded responses as a JSON object `{query: response-string, …}`.
pub open spec fn responses_json(rs: Seq<(Seq<char>, Seq<char>)>) -> Json {
    Json::Object(Seq::new(rs.len(), |i: int| (rs[i].0, Json::Str(rs[i].1))))
}

/// The JSON text injected into the page so that the client reuses the server's responses.
pub fn dehydrate_responses<H>(dom: &Dom<H>) -> (s: String)
    ensures
        s@ == json_text(responses_json(dom.responses())),
{
    let mut fs: Vec<(String, Value)> = Vec::new();
    let mut i: usize = 0;
    while i < dom.responses.len()
        invariant
            0 <= i <= dom.responses@.len(),
            fs@.len() == i,
            forall|j: int| 0 <= j < i ==> (#[trigger] fs@[j]).0@ == dom.responses@[j].0@
                && model(fs@[j].1) == Json::Str(dom.responses@[j].1@),
        decreases dom.responses@.len() - i,
    {
        fs.push((dom.responses[i].0.clone(), Value::Str(dom.responses[i].1.clone())));
        i += 1;
    }
    let v = Value::Object(fs);
    proof {
        if let Json::Object(m) = v@ {
            if let Json::Object(w) = responses_json(dom.responses()) {
                assert forall|j: int| 0 <= j < m.len() implies m[j] == w[j] by {
                    assert(m[j] == (fs@[j].0@, model(fs@[j].1)));
                    assert(dom.responses()[j] == (dom.responses@[j].0@, dom.responses@[j].1@));
                }
                assert(m =~= w);
            }
        }
    }
    v.to_json()
}

/// The event being handled.  Events are handled in the browser only, so on the server no
/// event is ever current and this is the empty event: empty texts, no flags, button 0,
/// no files.
pub fn event() -> (e: Event)
    ensures
        e.value@.len() == 0,
        !e.checked,
        e.key@.len() == 0,
        e.code@.len() == 0,
        !e.ctrl && !e.shift && !e.alt && !e.meta,
        e.client_x@.len() == 0,
        e.client_y@.len() == 0,
        e.button == 0,
        e.delta_y@.len() == 0,
        e.files@.len() == 0,
{
    Event {
        value: String::new(),
        checked: false,
        key: String::new(),
        code: String::new(),
        ctrl: false,
        shift: false,
        alt: false,
        meta: false,
        client_x: String::new(),
        client_y: String::new(),
        button: 0,
        delta_y: String::new(),
        files: Vec::new(),
    }
}

/// The client seeds its response cache from the injected JSON; the server has none to seed.
pub fn seed_responses(json: &str) {
}

// ───────────── browser-only operations: nothing to do when rendering on the server ─────────────

/// Hydration mode exists only in the browser.
pub fn set_hydrate(on: bool) {
}

/// Events are bound by the client after hydration.
pub fn run_handler(id: u32, encoded: &str) {
}

/// Events are bound by the client after hydration.
pub fn on<F: Fn(&str)>(node: u32, event: &str, f: F) {
}

/// Events are bound by the client after hydration.
pub fn on_click<F: Fn()>(node: u32, f: F) {
}

/// Takes the shown page down: nothing is mounted any more and every fetch handler is
/// released (the nodes stay, unreachable from the root).
pub fn clear_page<H>(dom: &mut Dom<H>)
    requires
        old(dom).wf(),
    ensures
        final(dom).wf(),
        final(dom).root() is None,
        final(dom).handlers().len() == 0,
        final(dom).nodes() == old(dom).nodes(),
        final(dom).next_hid() == old(dom).next_hid(),
        final(dom).responses() == old(dom).responses(),
{
    dom.root = None;
    dom.fetch = Vec::new();
}

/// There is no page to clear on the server.
pub fn clear_app() {
}

/// No event handlers are registered on the server.
pub fn clear_handlers() {
}

/// There is no browser history on the server.
pub fn push_url(url: &str) {
}

/// There is no focus on the server.
pub fn focus(node: u32) {
}

/// There is no viewport on the server.
pub fn scroll_into_view(node: u32) {
}

/// There are no timers on the server: the callback never runs and the timer id is 0.
pub fn set_interval<F: Fn()>(ms: u32, f: F) -> (timer: u32)
    ensures
        timer == 0,
{
    0
}

/// There are no timers on the server.
pub fn clear_interval(timer: u32) {
}

/// There are no timers on the server.
pub fn run_interval(hid: u32) {
}

/// There are no timers on the server: the callback never runs.
pub fn set_timeout<F: FnOnce()>(ms: u32, f: F) {
}

/// There are no timers on the server.
pub fn run_oneshot(id: u32) {
}

/// There is no JavaScript runtime on the server.
pub fn run_js(code: &str) {
}

/// There is no JavaScript runtime on the server.
pub fn run_js_on(node: u32, code: &str) {
}

/// There is no JavaScript runtime on the server: the callback never runs.
pub fn eval<F: Fn(Result<&str, &str>)>(code: &str, f: F) {
}

} // verus!

verus! {

// ───────────────────────────── text escaping laws ─────────────────────────────

/// HTML text decoding: `&amp;`, `&lt;` and `&gt;` read as `&`, `<` and `>`; every other
/// character reads as itself.
pub open spec fn unescape_text(s: Seq<char>) -> Seq<char>
    decreases s.len(),
{
    if s.len() == 0 {
        Seq::empty()
    } else if s.len() >= 5 && s.subrange(0, 5) == seq!['&', 'a', 'm', 'p', ';'] {
        seq!['&'] + unescape_text(s.subrange(5, s.len() as int))
    } else if s.len() >= 4 && s.subrange(0, 4) == seq!['&', 'l', 't', ';'] {
        seq!['<'] + unescape_text(s.subrange(4, s.len() as int))
    } else if s.len() >= 4 && s.subrange(0, 4) == seq!['&', 'g', 't', ';'] {
        seq!['>'] + unescape_text(s.subrange(4, s.len() as int))
    } else {
        seq![s[0]] + unescape_text(s.drop_first())
    }
}

proof fn lemma_esc_text_front(c: char, t: Seq<char>)
    ensures
        esc_text(seq![c] + t) == esc_text_char(c) + esc_text(t),
    decreases t.len(),
{
    if t.len() == 0 {
        assert(seq![c] + t =~= seq![c]);
        assert(seq![c].drop_last() =~= Seq::<char>::empty());
        assert(esc_text_char(c) + esc_text(t) =~= esc_text_char(c));
        assert(esc_text(Seq::<char>::empty()) + esc_text_char(c) =~= esc_text_char(c));
    } else {
        lemma_esc_text_front(c, t.drop_last());
        assert((seq![c] + t).drop_last() =~= seq![c] + t.drop_last());
        assert((seq![c] + t).last() == t.last());
        assert(esc_text_char(c) + esc_text(t.drop_last()) + esc_text_char(t.last())
            =~= esc_text_char(c) + (esc_text(t.drop_last()) + esc_text_char(t.last())));
    }
}

proof fn lemma_unescape_char(c: char, r: Seq<char>)
    ensures
        unescape_text(esc_text_char(c) + r) == seq![c] + unescape_text(r),
{
    let s = esc_text_char(c) + r;
    if c == '&' {
        assert(s.subrange(0, 5) =~= seq!['&', 'a', 'm', 'p', ';']);
        assert(s.subrange(5, s.len() as int) =~= r);
    } else if c == '<' {
        if s.len() >= 5 {
            assert(s.subrange(0, 5)[1] == 'l');
        }
        assert(s.subrange(0, 4) =~= seq!['&', 'l', 't', ';']);
        assert(s.subrange(4, s.len() as int) =~= r);
    } else if c == '>' {
        if s.len() >= 5 {
            assert(s.subrange(0, 5)[1] == 'g');
        }
        assert(s.subrange(0, 4)[1] == 'g');
        assert(s.subrange(0, 4) =~= seq!['&', 'g', 't', ';']);
        assert(s.subrange(4, s.len() as int) =~= r);
    } else {
        assert(s[0] == c);
        if s.len() >= 5 {
            assert(s.subrange(0, 5)[0] == c);
        }
        if s.len() >= 4 {
            assert(s.subrange(0, 4)[0] == c);
        }
        assert(s.drop_first() =~= r);
    }
}

/// Decoding the escaped text gives the text back.
pub proof fn law_unescape_esc_text(t: Seq<char>)
    ensures
        unescape_text(esc_text(t)) == t,
    decreases t.len(),
{
    if t.len() > 0 {
        let c = t[0];
        let r = t.drop_first();
        assert(t =~= seq![c] + r);
        lemma_esc_text_front(c, r);
        lemma_unescape_char(c, esc_text(r));
        law_unescape_esc_text(r);
    }
}

/// Escaped text holds no `<` and no `>`.
pub proof fn lemma_esc_text_no_angle(t: Seq<char>)
    ensures
        forall|i: int| 0 <= i < esc_text(t).len() ==> #[trigger] esc_text(t)[i] != '<' && esc_text(t)[i] != '>',
    decreases t.len(),
{
    if t.len() > 0 {
        lemma_esc_text_no_angle(t.drop_last());
        let a = esc_text(t.drop_last());
        let b = esc_text_char(t.last());
        assert forall|i: int| 0 <= i < (a + b).len() implies (a + b)[i] != '<' && (a + b)[i] != '>' by {
            if i >= a.len() {
                assert((a + b)[i] == b[i - a.len()]);
            } else {
                assert((a + b)[i] == a[i]);
            }
        }
    }
}

/// An element's HTML carries its text content escaped, exactly as a text node does: after
/// the open tag of the element without text comes a tail that holds no `<` and no `>`,
/// that decodes back to the text, and that is the same tail a text node with that text
/// carries after its anchor.  So no raw `<` or `&` of text content reaches the document.
pub proof fn law_element_text_escaped(n: NodeView)
    ensures
        ({
            let bare = open_tag_html(NodeView { text: None, ..n });
            let h = open_tag_html(n);
            let tail = h.subrange(bare.len() as int, h.len() as int);
            let anchor = text_node_html(NodeView { text: None, ..n });
            let tn = text_node_html(n);
            &&& bare.len() <= h.len()
            &&& h.subrange(0, bare.len() as int) == bare
            &&& forall|i: int| 0 <= i < tail.len() ==> #[trigger] tail[i] != '<' && tail[i] != '>'
            &&& unescape_text(tail) == text_or_empty(n.text)
            &&& anchor.len() <= tn.len()
            &&& tn.subrange(anchor.len() as int, tn.len() as int) == tail
        }),
{
    let t = text_or_empty(n.text);
    let bare = open_tag_html(NodeView { text: None, ..n });
    let h = open_tag_html(n);
    assert(esc_text(Seq::<char>::empty()) =~= Seq::<char>::empty());
    assert(bare =~= open_tag_html(NodeView { text: None, ..n }).subrange(0, bare.len() as int));
    assert(h =~= bare + esc_text(t));
    let tail = h.subrange(bare.len() as int, h.len() as int);
    assert(tail =~= esc_text(t));
    assert(h.subrange(0, bare.len() as int) =~= bare);
    lemma_esc_text_no_angle(t);
    law_unescape_esc_text(t);
    let anchor = text_node_html(NodeView { text: None, ..n });
    let tn = text_node_html(n);
    assert(tn =~= anchor + esc_text(t));
    assert(tn.subrange(anchor.len() as int, tn.len() as int) =~= esc_text(t));
}

/// HTML attribute-value decoding: `&amp;` and `&quot;` read as `&` and `"`; every other
/// character reads as itself.
pub open spec fn unescape_attr(s: Seq<char>) -> Seq<char>
    decreases s.len(),
{
    if s.len() == 0 {
        Seq::empty()
    } else if s.len() >= 5 && s.subrange(0, 5) == seq!['&', 'a', 'm', 'p', ';'] {
        seq!['&'] + unescape_attr(s.subrange(5, s.len() as int))
    } else if s.len() >= 6 && s.subrange(0, 6) == seq!['&', 'q', 'u', 'o', 't', ';'] {
        seq!['"'] + unescape_attr(s.subrange(6, s.len() as int))
    } else {
        seq![s[0]] + unescape_attr(s.drop_first())
    }
}

proof fn lemma_esc_attr_front(c: char, t: Seq<char>)
    ensures
        esc_attr(seq![c] + t) == esc_attr_char(c) + esc_attr(t),
    decreases t.len(),
{
    if t.len() == 0 {
        assert(seq![c] + t =~= seq![c]);
        assert(seq![c].drop_last() =~= Seq::<char>::empty());
        assert(esc_attr_char(c) + esc_attr(t) =~= esc_attr_char(c));
        assert(esc_attr(Seq::<char>::empty()) + esc_attr_char(c) =~= esc_attr_char(c));
    } else {
        lemma_esc_attr_front(c, t.drop_last());
        assert((seq![c] + t).drop_last() =~= seq![c] + t.drop_last());
        assert((seq![c] + t).last() == t.last());
        assert(esc_attr_char(c) + esc_attr(t.drop_last()) + esc_attr_char(t.last())
            =~= esc_attr_char(c) + (esc_attr(t.drop_last()) + esc_attr_char(t.last())));
    }
}

proof fn lemma_unescape_attr_char(c: char, r: Seq<char>)
    ensures
        unescape_attr(esc_attr_char(c) + r) == seq![c] + unescape_attr(r),
{
    let s = esc_attr_char(c) + r;
    if c == '&' {
        assert(s.subrange(0, 5) =~= seq!['&', 'a', 'm', 'p', ';']);
        assert(s.subrange(5, s.len() as int) =~= r);
    } else if c == '"' {
        assert(s.subrange(0, 5)[1] == 'q');
        assert(s.subrange(0, 6) =~= seq!['&', 'q', 'u', 'o', 't', ';']);
        assert(s.subrange(6, s.len() as int) =~= r);
    } else {
        assert(s[0] == c);
        if s.len() >= 5 {
            assert(s.subrange(0, 5)[0] == c);
        }
        if s.len() >= 6 {
            assert(s.subrange(0, 6)[0] == c);
        }
        assert(s.drop_first() =~= r);
    }
}

proof fn lemma_esc_attr_props(t: Seq<char>)
    ensures
        unescape_attr(esc_attr(t)) == t,
        forall|i: int| 0 <= i < esc_attr(t).len() ==> #[trigger] esc_attr(t)[i] != '"',
    decreases t.len(),
{
    if t.len() > 0 {
        let c = t[0];
        let r = t.drop_first();
        assert(t =~= seq![c] + r);
        lemma_esc_attr_front(c, r);
        lemma_unescape_attr_char(c, esc_attr(r));
        lemma_esc_attr_props(r);
        let a = esc_attr_char(c);
        let b = esc_attr(r);
        assert forall|i: int| 0 <= i < (a + b).len() implies (a + b)[i] != '"' by {
            if i >= a.len() {
                assert((a + b)[i] == b[i - a.len()]);
            } else {
                assert((a + b)[i] == a[i]);
            }
        }
    }
}

/// Each attribute is written as ` k="q"` after the earlier ones, where the quoted part `q`
/// holds no `"` (so the value cannot end the attribute early) and decodes back to the value.
pub proof fn law_attribute_value_escaped(attrs: Seq<(Seq<char>, Seq<char>)>)
    requires
        attrs.len() > 0,
    ensures
        exists|q: Seq<char>| {
            &&& #[trigger] unescape_attr(q) == attrs.last().1
            &&& (forall|i: int| 0 <= i < q.len() ==> q[i] != '"')
            &&& attrs_text(attrs) == attrs_text(attrs.drop_last()) + seq![' '] + attrs.last().0 + seq!['=', '"'] + q + seq!['"']
        },
{
    let q = esc_attr(attrs.last().1);
    lemma_esc_attr_props(attrs.last().1);
    assert(unescape_attr(q) == attrs.last().1);
}

} // verus!
