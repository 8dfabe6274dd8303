//! The view-value model: rendering strategies, element references, built views, values
//! rendered as document nodes and updated in place, and the decisions of enter/leave
//! transitions and of keyed list reconciliation.
use vstd::prelude::*;
use vstd::view::View as _;
use crate::dom::{Dom, NodeView, add_class, remove_class, append, attrs_with_class, attrs_without_class, el, text, clear, set_text,
    element_view, text_view, remove_child, without_id};
use crate::reactive::{Runtime, Scope, keeps_graph, cleanups_invoked, lemma_keeps_refl, lookup_frames, use_context};
use crate::text::{append_str, string_from};
use crate::gql::value::{push_int, push_nat, int_text, nat_text};
use crate::seqs::no_dup;

verus! {

/// How a page is rendered: on every request and hydrated (`Ssr`), in the browser only
/// (`Csr`), or once and cached (`Static`).
#[derive(Clone, Copy, PartialEq, Eq, Debug, Structural)]
pub enum Strategy {
    Ssr,
    Csr,
    Static,
}

/// The cells behind element references.  A [`NodeRef`] names one cell; copies of a
/// `NodeRef` name the same cell, so a reference handed to a view and a copy kept for
/// `on_mount` see the same element id.
pub struct NodeRefs {
    cells: Vec<u32>,
}

impl vstd::view::View for NodeRefs {
    type V = Seq<u32>;

    /// The element id held by each cell, by cell.
    closed spec fn view(&self) -> Seq<u32> {
        self.cells@
    }
}

impl NodeRefs {
    /// No cells yet.
    pub fn new() -> (r: NodeRefs)
        ensures
            r@ == Seq::<u32>::empty(),
    {
        NodeRefs { cells: Vec::new() }
    }
}

/// A reference to an element, filled in when the element is built (0 until then).  It
/// names a cell of a [`NodeRefs`]; every copy of it reads and writes that one cell.
#[derive(Clone, Copy, PartialEq, Eq, Debug, Structural)]
pub struct NodeRef {
    pub cell: usize,
}

impl NodeRef {
    /// The element id in this reference's cell.
    pub fn get(&self, refs: &NodeRefs) -> (r: u32)
        requires
            self.cell < refs@.len(),
        ensures
            r == refs@[self.cell as int],
    {
        refs.cells[self.cell]
    }

    /// Fills this reference's cell (seen by every copy of the reference); no other cell
    /// changes.
    pub fn set(&self, refs: &mut NodeRefs, id: u32)
        requires
            self.cell < old(refs)@.len(),
        ensures
            final(refs)@ == old(refs)@.update(self.cell as int, id),
    {
        refs.cells.set(self.cell, id);
    }
}

/// A new, unfilled element reference: a fresh cell holding 0.
pub fn node_ref(refs: &mut NodeRefs) -> (r: NodeRef)
    ensures
        r.cell == old(refs)@.len(),
        final(refs)@ == old(refs)@.push(0),
{
    let cell = refs.cells.len();
    refs.cells.push(0);
    NodeRef { cell }
}

/// Copies of a reference share its cell: after `r.set(refs, id)` (which makes the cells
/// `refs@.update(r.cell, id)`), every copy of `r` reads `id`, and a reference to any
/// other cell reads what it read before.
pub proof fn law_node_ref_shared(refs: Seq<u32>, r: NodeRef, copy: NodeRef, other: NodeRef, id: u32)
    requires
        r.cell < refs.len(),
        other.cell < refs.len(),
        copy == r,
    ensures
        ({
            let after = refs.update(r.cell as int, id);
            &&& after[copy.cell as int] == id
            &&& other.cell != r.cell ==> after[other.cell as int] == refs[other.cell as int]
        }),
{
}

/// A built view: the id of its root node.
#[derive(Clone, Copy, PartialEq, Eq, Debug, Structural)]
pub struct View(pub u32);

impl View {
    pub fn node(self) -> (r: u32)
        ensures
            r == self.0,
    {
        self.0
    }
}

// ───────────────────────────── transitions ─────────────────────────────

/// Where an enter/leave transition stands: whether the child is shown, and the number of
/// switches so far (wrapping), which tells a delayed removal whether it is still current.
#[derive(Clone, Copy, PartialEq, Eq, Debug, Structural)]
pub struct TransitionState {
    pub shown: bool,
    pub gen: u32,
}

/// What a change of the condition asks for.
#[derive(Clone, Copy, PartialEq, Eq, Debug, Structural)]
pub enum TransitionStep {
    /// The condition did not change: nothing to do (no animation replayed).
    Unchanged,
    /// Shown: drop the leave class, (re)attach the child, add the enter class.
    Enter,
    /// Hidden: drop the enter class, add the leave class, and remove the child after the
    /// duration unless another switch happens first (the switch count it carries).
    Leave(u32),
}

impl TransitionState {
    /// Not shown, no switch yet.
    pub fn new() -> (st: TransitionState)
        ensures
            !st.shown,
            st.gen == 0,
    {
        TransitionState { shown: false, gen: 0 }
    }
}

/// The switch count after one more switch (wrapping at `u32::MAX`).
pub open spec fn next_gen(g: u32) -> u32 {
    if g == u32::MAX { 0 } else { (g + 1) as u32 }
}

/// Reacts to the condition's current value.
pub fn transition_step(st: &mut TransitionState, on: bool) -> (r: TransitionStep)
    ensures
        on == old(st).shown ==> r == TransitionStep::Unchanged && *final(st) == *old(st),
        on != old(st).shown ==> final(st).shown == on && final(st).gen == next_gen(old(st).gen)
            && r == (if on { TransitionStep::Enter } else { TransitionStep::Leave(final(st).gen) }),
{
    if on == st.shown {
        return TransitionStep::Unchanged;
    }
    st.shown = on;
    st.gen = if st.gen == u32::MAX { 0 } else { st.gen + 1 };
    if on {
        TransitionStep::Enter
    } else {
        TransitionStep::Leave(st.gen)
    }
}

/// A delayed removal scheduled at switch `gen` still applies: no switch happened since.
pub fn leave_current(st: &TransitionState, gen: u32) -> (r: bool)
    ensures
        r == (st.gen == gen),
{
    st.gen == gen
}

/// `name` followed by `suffix`.
fn suffixed(name: &str, suffix: &str) -> (r: String)
    ensures
        r@ == name@ + suffix@,
{
    let mut out: Vec<char> = Vec::new();
    append_str(&mut out, name);
    append_str(&mut out, suffix);
    string_from(&out)
}

pub open spec fn with_class(ns: Seq<NodeView>, node: int, cls: Seq<char>) -> Seq<NodeView> {
    ns.update(node, NodeView { attrs: attrs_with_class(ns[node].attrs, cls), ..ns[node] })
}

pub open spec fn without_class(ns: Seq<NodeView>, node: int, cls: Seq<char>) -> Seq<NodeView> {
    ns.update(node, NodeView { attrs: attrs_without_class(ns[node].attrs, cls), ..ns[node] })
}

pub open spec fn with_child(ns: Seq<NodeView>, parent: int, child: u32) -> Seq<NodeView> {
    ns.update(parent, NodeView { children: ns[parent].children.push(child), ..ns[parent] })
}

/// The nodes after a transition step on `child` under `anchor`, with classes
/// `{name}-enter` / `{name}-leave`.
pub open spec fn transition_nodes(ns: Seq<NodeView>, anchor: u32, child: u32, name: Seq<char>, step: TransitionStep) -> Seq<NodeView> {
    match step {
        TransitionStep::Unchanged => ns,
        TransitionStep::Enter => with_class(
            with_child(without_class(ns, child as int, name + "-leave"@), anchor as int, child),
            child as int,
            name + "-enter"@,
        ),
        TransitionStep::Leave(_) => with_class(without_class(ns, child as int, name + "-enter"@), child as int, name + "-leave"@),
    }
}

/// Carries out a transition step on the document.
pub fn transition_apply<H>(dom: &mut Dom<H>, anchor: u32, child: u32, name: &str, step: TransitionStep)
    requires
        old(dom).wf(),
        anchor < old(dom).nodes().len(),
        child < old(dom).nodes().len(),
    ensures
        final(dom).wf(),
        final(dom).nodes() == transition_nodes(old(dom).nodes(), anchor, child, name@, step),
        final(dom).next_hid() == old(dom).next_hid(),
        final(dom).root() == old(dom).root(),
        final(dom).responses() == old(dom).responses(),
        final(dom).handlers() == old(dom).handlers(),
{
    let enter = suffixed(name, "-enter");
    let leave = suffixed(name, "-leave");
    match step {
        TransitionStep::Unchanged => {},
        TransitionStep::Enter => {
            remove_class(dom, child, leave.as_str());
            append(dom, anchor, child);
            add_class(dom, child, enter.as_str());
        },
        TransitionStep::Leave(_) => {
            remove_class(dom, child, enter.as_str());
            add_class(dom, child, leave.as_str());
        },
    }
}

// ───────────────────────────── keyed lists ─────────────────────────────

/// The indices below `n` of old rows whose key occurs in `new` (`keep`) or does not.
pub open spec fn rows_split(old: Seq<u64>, new: Seq<u64>, n: int, keep: bool) -> Seq<usize>
    decreases n,
{
    if n <= 0 {
        Seq::empty()
    } else {
        rows_split(old, new, n - 1, keep) + (if new.contains(old[n - 1]) == keep { seq![(n - 1) as usize] } else {
            Seq::empty()
        })
    }
}

/// The position in `keep` of the first row whose key is `k`, or -1.
pub open spec fn first_row(keep: Seq<usize>, old: Seq<u64>, k: u64) -> int
    decreases keep.len(),
{
    if keep.len() == 0 {
        -1
    } else if old[keep[0] as int] == k {
        0
    } else {
        let r = first_row(keep.drop_first(), old, k);
        if r < 0 { -1 } else { r + 1 }
    }
}

/// New items `j..` in order each take over the first remaining row with their key (or
/// get a new row); the rows nobody took are left over.
pub open spec fn assign(old: Seq<u64>, new: Seq<u64>, keep: Seq<usize>, j: int) -> (Seq<Option<usize>>, Seq<usize>)
    decreases new.len() - j,
{
    if j < 0 || j >= new.len() {
        (Seq::empty(), keep)
    } else {
        let p = first_row(keep, old, new[j]);
        let rest = assign(old, new, if p >= 0 { keep.remove(p) } else { keep }, j + 1);
        (seq![if p >= 0 { Some(keep[p]) } else { None }] + rest.0, rest.1)
    }
}

/// The rows taken over, in the order of the new items.
pub open spec fn taken(rows: Seq<Option<usize>>) -> Seq<usize>
    decreases rows.len(),
{
    if rows.len() == 0 {
        Seq::empty()
    } else {
        (if rows[0] is Some { seq![rows[0]->0] } else { Seq::empty() }) + taken(rows.drop_first())
    }
}

/// What becomes of the rows of a keyed list when it changes (keys as integers).
pub struct KeyedPlan {
    /// Old rows whose key no longer occurs, in old order (removed first).
    pub removed: Vec<usize>,
    /// For each new item, the old row with its key that it takes over, or `None` for a
    /// new row.  A taken-over row is kept as is when its item is unchanged, else rebuilt.
    pub rows: Vec<Option<usize>>,
    /// Old rows whose key occurs but that no item took (a repeated key), removed last.
    pub leftover: Vec<usize>,
}

fn contains_u64(v: &Vec<u64>, x: u64) -> (r: bool)
    ensures
        r == v@.contains(x),
{
    let mut i: usize = 0;
    while i < v.len()
        invariant
            0 <= i <= v@.len(),
            forall|k: int| 0 <= k < i ==> v@[k] != x,
        decreases v@.len() - i,
    {
        if v[i] == x {
            return true;
        }
        i += 1;
    }
    false
}

proof fn lemma_first_row(keep: Seq<usize>, old: Seq<u64>, k: u64, p: int)
    requires
        0 <= p <= keep.len(),
        forall|q: int| 0 <= q < p ==> old[#[trigger] keep[q] as int] != k,
        p == keep.len() || old[keep[p] as int] == k,
    ensures
        first_row(keep, old, k) == if p == keep.len() { -1 } else { p },
    decreases p,
{
    if p > 0 {
        assert forall|q: int| 0 <= q < p - 1 implies old[#[trigger] keep.drop_first()[q] as int] != k by {
            assert(keep.drop_first()[q] == keep[q + 1]);
        }
        if p < keep.len() {
            assert(keep.drop_first()[p - 1] == keep[p]);
        }
        assert(old[keep[0] as int] != k);
        lemma_first_row(keep.drop_first(), old, k, p - 1);
    }
}

/// Plans the reconciliation of a keyed list: rows whose key is gone are removed; each new
/// item, in order, takes over the first remaining row with its key or gets a new row; rows
/// left over are removed at the end.
pub fn keyed_plan(old_keys: &Vec<u64>, new_keys: &Vec<u64>) -> (p: KeyedPlan)
    ensures
        p.removed@ == rows_split(old_keys@, new_keys@, old_keys@.len() as int, false),
        (p.rows@, p.leftover@) == assign(old_keys@, new_keys@, rows_split(old_keys@, new_keys@, old_keys@.len() as int, true), 0),
{
    let ghost ov = old_keys@;
    let ghost nv = new_keys@;
    let mut removed: Vec<usize> = Vec::new();
    let mut keep: Vec<usize> = Vec::new();
    let mut i: usize = 0;
    while i < old_keys.len()
        invariant
            0 <= i <= ov.len(),
            ov == old_keys@,
            nv == new_keys@,
            removed@ == rows_split(ov, nv, i as int, false),
            keep@ == rows_split(ov, nv, i as int, true),
            forall|t: int| 0 <= t < keep@.len() ==> #[trigger] keep@[t] < i,
        decreases ov.len() - i,
    {
        if contains_u64(new_keys, old_keys[i]) {
            keep.push(i);
        } else {
            removed.push(i);
        }
        proof {
            assert(removed@ =~= rows_split(ov, nv, i + 1, false));
            assert(keep@ =~= rows_split(ov, nv, i + 1, true));
        }
        i += 1;
    }
    let ghost target = assign(ov, nv, keep@, 0);
    let mut rows: Vec<Option<usize>> = Vec::new();
    let mut j: usize = 0;
    proof {
        assert(rows@ + assign(ov, nv, keep@, 0).0 =~= assign(ov, nv, keep@, 0).0);
    }
    while j < new_keys.len()
        invariant
            0 <= j <= nv.len(),
            ov == old_keys@,
            nv == new_keys@,
            forall|t: int| 0 <= t < keep@.len() ==> #[trigger] keep@[t] < ov.len(),
            target == (rows@ + assign(ov, nv, keep@, j as int).0, assign(ov, nv, keep@, j as int).1),
        decreases nv.len() - j,
    {
        let k = new_keys[j];
        let mut q: usize = 0;
        while q < keep.len()
            invariant
                0 <= q <= keep@.len(),
                ov == old_keys@,
                forall|t: int| 0 <= t < keep@.len() ==> #[trigger] keep@[t] < ov.len(),
                forall|t: int| 0 <= t < q ==> ov[#[trigger] keep@[t] as int] != k,
            ensures
                0 <= q <= keep@.len(),
                forall|t: int| 0 <= t < q ==> ov[#[trigger] keep@[t] as int] != k,
                q == keep@.len() || ov[keep@[q as int] as int] == k,
            decreases keep@.len() - q,
        {
            if old_keys[keep[q]] == k {
                break;
            }
            q += 1;
        }
        proof {
            lemma_first_row(keep@, ov, k, q as int);
        }
        let ghost kv = keep@;
        let ghost rv = rows@;
        if q < keep.len() {
            let taken_row = keep.remove(q);
            rows.push(Some(taken_row));
            proof {
                assert(rows@ + assign(ov, nv, keep@, j + 1).0 =~= rv + assign(ov, nv, kv, j as int).0);
                assert forall|t: int| 0 <= t < keep@.len() implies #[trigger] keep@[t] < ov.len() by {
                    if t < q {
                        assert(keep@[t] == kv[t]);
                    } else {
                        assert(keep@[t] == kv[t + 1]);
                    }
                }
            }
        } else {
            rows.push(None);
            proof {
                assert(rows@ + assign(ov, nv, keep@, j + 1).0 =~= rv + assign(ov, nv, kv, j as int).0);
            }
        }
        j += 1;
    }
    proof {
        assert(rows@ + Seq::<Option<usize>>::empty() =~= rows@);
    }
    KeyedPlan { removed, rows, leftover: keep }
}


proof fn lemma_rows_split(old: Seq<u64>, new: Seq<u64>, n: int, keep: bool)
    requires
        0 <= n <= old.len(),
        old.len() <= usize::MAX,
    ensures
        ({
            let r = rows_split(old, new, n, keep);
            &&& forall|t: int| 0 <= t < r.len() ==> (#[trigger] r[t]) < n && new.contains(old[r[t] as int]) == keep
            &&& forall|a: int, b: int| 0 <= a < b < r.len() ==> r[a] < r[b]
            &&& forall|i: int| 0 <= i < n ==> (r.contains(i as usize) <==> (new.contains(#[trigger] old[i]) == keep))
        }),
    decreases n,
{
    if n > 0 {
        lemma_rows_split(old, new, n - 1, keep);
        let prev = rows_split(old, new, n - 1, keep);
        let r = rows_split(old, new, n, keep);
        assert forall|i: int| 0 <= i < n implies (r.contains(i as usize) <==> (new.contains(#[trigger] old[i]) == keep)) by {
            if i < n - 1 {
                if prev.contains(i as usize) {
                    let t = choose|t: int| 0 <= t < prev.len() && prev[t] == i as usize;
                    assert(r[t] == prev[t]);
                }
                if r.contains(i as usize) {
                    let t = choose|t: int| 0 <= t < r.len() && r[t] == i as usize;
                    if t < prev.len() {
                        assert(r[t] == prev[t]);
                    }
                }
            } else {
                if new.contains(old[i]) == keep {
                    assert(r[prev.len() as int] == i as usize);
                } else {
                    assert(r =~= prev);
                    if r.contains(i as usize) {
                        let t = choose|t: int| 0 <= t < r.len() && r[t] == i as usize;
                    }
                }
            }
        }
    }
}

proof fn lemma_first_row_spec(keep: Seq<usize>, old: Seq<u64>, k: u64)
    ensures
        first_row(keep, old, k) >= 0 ==> first_row(keep, old, k) < keep.len() && old[keep[first_row(keep, old, k)] as int] == k,
        first_row(keep, old, k) < 0 ==> forall|q: int| 0 <= q < keep.len() ==> old[#[trigger] keep[q] as int] != k,
    decreases keep.len(),
{
    if keep.len() > 0 && old[keep[0] as int] != k {
        lemma_first_row_spec(keep.drop_first(), old, k);
        assert forall|q: int| 1 <= q < keep.len() implies keep[q] == keep.drop_first()[q - 1] by {}
    }
}

proof fn lemma_remove_contains(keep: Seq<usize>, p: int)
    requires
        no_dup(keep),
        0 <= p < keep.len(),
    ensures
        no_dup(keep.remove(p)),
        forall|x: usize| keep.remove(p).contains(x) <==> (keep.contains(x) && x != keep[p]),
{
    let r = keep.remove(p);
    assert forall|x: usize| r.contains(x) <==> (keep.contains(x) && x != keep[p]) by {
        if r.contains(x) {
            let t = choose|t: int| 0 <= t < r.len() && r[t] == x;
            if t < p {
                assert(keep[t] == x);
            } else {
                assert(keep[t + 1] == x);
            }
        }
        if keep.contains(x) && x != keep[p] {
            let t = choose|t: int| 0 <= t < keep.len() && keep[t] == x;
            if t < p {
                assert(r[t] == x);
            } else {
                assert(r[t - 1] == x);
            }
        }
    }
    assert forall|a: int, b: int| 0 <= a < r.len() && 0 <= b < r.len() && a != b implies r[a] != r[b] by {
        let ia = if a < p { a } else { a + 1 };
        let ib = if b < p { b } else { b + 1 };
        assert(r[a] == keep[ia] && r[b] == keep[ib]);
    }
}

proof fn lemma_assign(old: Seq<u64>, new: Seq<u64>, keep: Seq<usize>, j: int)
    requires
        no_dup(keep),
        0 <= j <= new.len(),
    ensures
        ({
            let (rows, left) = assign(old, new, keep, j);
            let all = taken(rows) + left;
            &&& rows.len() == new.len() - j
            &&& no_dup(all)
            &&& forall|x: usize| all.contains(x) <==> keep.contains(x)
            &&& forall|x: usize| left.contains(x) ==> keep.contains(x)
            &&& forall|t: int| 0 <= t < rows.len() && (#[trigger] rows[t]) is Some ==> old[rows[t]->0 as int] == new[j + t]
        }),
    decreases new.len() - j,
{
    if j < new.len() {
        let p = first_row(keep, old, new[j]);
        lemma_first_row_spec(keep, old, new[j]);
        let nk = if p >= 0 { keep.remove(p) } else { keep };
        if p >= 0 {
            lemma_remove_contains(keep, p);
        }
        lemma_assign(old, new, nk, j + 1);
        let rest = assign(old, new, nk, j + 1);
        let (rows, left) = assign(old, new, keep, j);
        assert(rows == seq![if p >= 0 { Some(keep[p]) } else { None }] + rest.0);
        assert(left == rest.1);
        assert(rows.drop_first() =~= rest.0);
        let tail = taken(rest.0) + left;
        if p >= 0 {
            assert(taken(rows) == seq![keep[p]] + taken(rest.0));
            assert(taken(rows) + left =~= seq![keep[p]] + tail);
            let all = seq![keep[p]] + tail;
            assert(!tail.contains(keep[p]));
            assert forall|a: int, b: int| 0 <= a < all.len() && 0 <= b < all.len() && a != b implies all[a] != all[b] by {
                if a == 0 {
                    assert(all[b] == tail[b - 1]);
                } else if b == 0 {
                    assert(all[a] == tail[a - 1]);
                } else {
                    assert(all[a] == tail[a - 1] && all[b] == tail[b - 1]);
                }
            }
            assert forall|x: usize| all.contains(x) <==> keep.contains(x) by {
                if all.contains(x) {
                    let t = choose|t: int| 0 <= t < all.len() && all[t] == x;
                    if t > 0 {
                        assert(tail[t - 1] == x);
                    }
                }
                if keep.contains(x) {
                    if x == keep[p] {
                        assert(all[0] == x);
                    } else {
                        let t = choose|t: int| 0 <= t < tail.len() && tail[t] == x;
                        assert(all[t + 1] == x);
                    }
                }
            }
        } else {
            assert(taken(rows) == taken(rest.0));
        }
        assert forall|t: int| 0 <= t < rows.len() && (#[trigger] rows[t]) is Some implies old[rows[t]->0 as int] == new[j + t] by {
            if t > 0 {
                assert(rows[t] == rest.0[t - 1]);
            }
        }
    }
}

/// Every old row is accounted for exactly once: removed because its key is gone, taken
/// over by a new item with the same key, or removed at the end because no item took it.
/// Rows removed first have keys no new item has; left-over rows have keys that occur.
pub proof fn law_keyed_plan_partition(old: Seq<u64>, new: Seq<u64>)
    requires
        old.len() <= usize::MAX,
    ensures
        ({
            let dropped = rows_split(old, new, old.len() as int, false);
            let (rows, left) = assign(old, new, rows_split(old, new, old.len() as int, true), 0);
            let all = dropped + taken(rows) + left;
            &&& rows.len() == new.len()
            &&& no_dup(all)
            &&& forall|x: usize| all.contains(x) <==> x < old.len()
            &&& forall|t: int| 0 <= t < rows.len() && (#[trigger] rows[t]) is Some ==> old[rows[t]->0 as int] == new[t]
            &&& forall|x: usize| dropped.contains(x) ==> !new.contains(old[x as int])
            &&& forall|x: usize| left.contains(x) ==> new.contains(old[x as int])
        }),
{
    let n = old.len() as int;
    let dropped = rows_split(old, new, n, false);
    let kept = rows_split(old, new, n, true);
    lemma_rows_split(old, new, n, false);
    lemma_rows_split(old, new, n, true);
    assert(no_dup(kept)) by {
        assert forall|a: int, b: int| 0 <= a < kept.len() && 0 <= b < kept.len() && a != b implies kept[a] != kept[b] by {
            if a < b {
                assert(kept[a] < kept[b]);
            } else {
                assert(kept[b] < kept[a]);
            }
        }
    }
    lemma_assign(old, new, kept, 0);
    let (rows, left) = assign(old, new, kept, 0);
    let tail = taken(rows) + left;
    let all = dropped + taken(rows) + left;
    assert(all =~= dropped + tail);
    assert forall|x: usize| dropped.contains(x) implies !new.contains(old[x as int]) && x < n by {
        let t = choose|t: int| 0 <= t < dropped.len() && dropped[t] == x;
    }
    assert forall|x: usize| kept.contains(x) implies new.contains(old[x as int]) && x < n by {
        let t = choose|t: int| 0 <= t < kept.len() && kept[t] == x;
    }
    assert forall|a: int, b: int| 0 <= a < all.len() && 0 <= b < all.len() && a != b implies all[a] != all[b] by {
        let dl = dropped.len() as int;
        if a < dl && b < dl {
            if a < b {
                assert(dropped[a] < dropped[b]);
            } else {
                assert(dropped[b] < dropped[a]);
            }
        } else if a >= dl && b >= dl {
            assert(all[a] == tail[a - dl] && all[b] == tail[b - dl]);
        } else if a < dl {
            assert(all[a] == dropped[a] && all[b] == tail[b - dl]);
            assert(dropped.contains(all[a]));
            assert(tail.contains(all[b]));
        } else {
            assert(all[b] == dropped[b] && all[a] == tail[a - dl]);
            assert(dropped.contains(all[b]));
            assert(tail.contains(all[a]));
        }
    }
    assert forall|x: usize| x < old.len() implies all.contains(x) by {
        let i = x as int;
        if new.contains(old[i]) {
            assert(kept.contains(i as usize));
            assert(tail.contains(i as usize));
            let t = choose|t: int| 0 <= t < tail.len() && tail[t] == i as usize;
            assert(all[dropped.len() + t] == i as usize);
        } else {
            assert(dropped.contains(i as usize));
            let t = choose|t: int| 0 <= t < dropped.len() && dropped[t] == i as usize;
            assert(all[t] == i as usize);
        }
    }
    assert forall|x: usize| all.contains(x) implies x < old.len() by {
        let t = choose|t: int| 0 <= t < all.len() && all[t] == x;
        if t < dropped.len() {
            assert(dropped[t] == x);
        } else {
            assert(tail[t - dropped.len()] == x);
            assert(tail.contains(x));
        }
    }
}


// ───────────────────────── values rendered as nodes ─────────────────────────

/// What building or rebuilding leaves alone: the document stays well formed, grows by at
/// most `room` nodes (and hydration ids), and keeps its root, responses and handlers.
pub open spec fn grows_by<H>(before: Dom<H>, after: Dom<H>, room: nat) -> bool {
    &&& after.wf()
    &&& before.nodes().len() <= after.nodes().len() <= before.nodes().len() + room
    &&& before.next_hid() <= after.next_hid() <= before.next_hid() + room
    &&& after.root() == before.root()
    &&& after.responses() == before.responses()
    &&& after.handlers() == before.handlers()
}

/// A value rendered as document nodes and updated in place afterwards: `build` makes its
/// node (returning it and what a later update needs), `rebuild` updates that node to a
/// new value (text in place; a subtree replaced under its anchor).
pub trait IntoView: Sized {
    type State;

    /// The most nodes building this value adds.
    spec fn room(&self) -> nat;

    /// The document nodes this value refers to are below `n`.
    spec fn refers_below(&self, n: nat) -> bool;

    /// The update state refers to nodes below `n`.
    spec fn state_below(state: &Self::State, n: nat) -> bool;

    /// Referring below `a` is referring below any larger `b`.
    proof fn lemma_refers_grow(&self, a: nat, b: nat)
        requires
            self.refers_below(a),
            a <= b,
        ensures
            self.refers_below(b),
    ;

    fn build<H>(self, dom: &mut Dom<H>) -> (r: (u32, Self::State))
        requires
            old(dom).wf(),
            self.refers_below(old(dom).nodes().len()),
            old(dom).nodes().len() + self.room() < u32::MAX,
            old(dom).next_hid() + self.room() < u32::MAX,
        ensures
            grows_by(*old(dom), *final(dom), self.room()),
            final(dom).nodes().subrange(0, old(dom).nodes().len() as int) == old(dom).nodes(),
            r.0 < final(dom).nodes().len(),
            Self::state_below(&r.1, final(dom).nodes().len()),
    ;

    fn rebuild<H>(self, dom: &mut Dom<H>, state: &mut Self::State)
        requires
            old(dom).wf(),
            self.refers_below(old(dom).nodes().len()),
            Self::state_below(old(state), old(dom).nodes().len()),
            old(dom).nodes().len() + self.room() < u32::MAX,
            old(dom).next_hid() + self.room() < u32::MAX,
        ensures
            grows_by(*old(dom), *final(dom), self.room()),
            Self::state_below(final(state), final(dom).nodes().len()),
    ;
}

/// A built view goes under a `rui-slot` anchor; rebuilding puts the new view there instead.
impl IntoView for View {
    type State = u32;

    open spec fn room(&self) -> nat {
        1
    }

    open spec fn refers_below(&self, n: nat) -> bool {
        self.0 < n
    }

    open spec fn state_below(state: &u32, n: nat) -> bool {
        *state < n
    }

    proof fn lemma_refers_grow(&self, a: nat, b: nat) {
    }

    fn build<H>(self, dom: &mut Dom<H>) -> (r: (u32, u32))
        ensures
            r.0 == old(dom).nodes().len(),
            r.1 == r.0,
            final(dom).nodes()[r.0 as int].children == seq![self.0],
            final(dom).nodes()[r.0 as int].tag == "rui-slot"@,
    {
        let anchor = el(dom, "rui-slot");
        append(dom, anchor, self.0);
        (anchor, anchor)
    }

    fn rebuild<H>(self, dom: &mut Dom<H>, anchor: &mut u32)
        ensures
            *final(anchor) == *old(anchor),
            final(dom).nodes()[*old(anchor) as int].children == seq![self.0],
    {
        clear(dom, *anchor);
        append(dom, *anchor, self.0);
    }
}

/// Nothing renders as an empty text node.
impl IntoView for () {
    type State = u32;

    open spec fn room(&self) -> nat {
        1
    }

    open spec fn refers_below(&self, n: nat) -> bool {
        true
    }

    open spec fn state_below(state: &u32, n: nat) -> bool {
        *state < n
    }

    proof fn lemma_refers_grow(&self, a: nat, b: nat) {
    }

    fn build<H>(self, dom: &mut Dom<H>) -> (r: (u32, u32))
        ensures
            r.0 == old(dom).nodes().len(),
            r.1 == r.0,
            final(dom).nodes() == old(dom).nodes().push(text_view(Seq::empty(), old(dom).next_hid())),
    {
        proof {
            reveal_strlit("");
            assert(""@ =~= Seq::<char>::empty());
        }
        let t = text(dom, "");
        (t, t)
    }

    fn rebuild<H>(self, dom: &mut Dom<H>, state: &mut u32)
        ensures
            *final(dom) == *old(dom),
            *final(state) == *old(state),
    {
    }
}

/// A string renders as a text node; rebuilding sets the node's text in place.
impl IntoView for String {
    type State = u32;

    open spec fn room(&self) -> nat {
        1
    }

    open spec fn refers_below(&self, n: nat) -> bool {
        true
    }

    open spec fn state_below(state: &u32, n: nat) -> bool {
        *state < n
    }

    proof fn lemma_refers_grow(&self, a: nat, b: nat) {
    }

    fn build<H>(self, dom: &mut Dom<H>) -> (r: (u32, u32))
        ensures
            r.0 == old(dom).nodes().len(),
            r.1 == r.0,
            final(dom).nodes() == old(dom).nodes().push(text_view(self@, old(dom).next_hid())),
    {
        let t = text(dom, self.as_str());
        (t, t)
    }

    fn rebuild<H>(self, dom: &mut Dom<H>, node: &mut u32)
        ensures
            *final(node) == *old(node),
            final(dom).nodes()[*old(node) as int].text == Some(self@),
    {
        set_text(dom, *node, self.as_str());
    }
}


/// The decimal text of a signed integer.
fn int_string(n: i64) -> (r: String)
    ensures
        r@ == int_text(n as int),
{
    let mut out: Vec<char> = Vec::new();
    push_int(&mut out, n);
    proof {
        assert(out@ =~= int_text(n as int));
    }
    string_from(&out)
}

/// The decimal text of an unsigned integer.
fn nat_string(n: u64) -> (r: String)
    ensures
        r@ == nat_text(n as nat),
{
    let mut out: Vec<char> = Vec::new();
    push_nat(&mut out, n);
    proof {
        assert(out@ =~= nat_text(n as nat));
    }
    string_from(&out)
}

/// The text of one character.
fn char_string(c: char) -> (r: String)
    ensures
        r@ == seq![c],
{
    let mut out: Vec<char> = Vec::new();
    out.push(c);
    proof {
        assert(out@ =~= seq![c]);
    }
    string_from(&out)
}

// Text values (strings, integers, booleans, characters) render as a text node holding
// their display text; rebuilding sets that node's text in place.

impl<'a> IntoView for &'a str {
    type State = u32;

    open spec fn room(&self) -> nat {
        1
    }

    open spec fn refers_below(&self, n: nat) -> bool {
        true
    }

    open spec fn state_below(state: &u32, n: nat) -> bool {
        *state < n
    }

    proof fn lemma_refers_grow(&self, a: nat, b: nat) {
    }

    fn build<H>(self, dom: &mut Dom<H>) -> (r: (u32, u32))
        ensures
            r.0 == old(dom).nodes().len(),
            r.1 == r.0,
            final(dom).nodes() == old(dom).nodes().push(text_view(self@, old(dom).next_hid())),
    {
        let s = self.to_owned();
        let t = text(dom, s.as_str());
        (t, t)
    }

    fn rebuild<H>(self, dom: &mut Dom<H>, node: &mut u32)
        ensures
            *final(node) == *old(node),
            final(dom).nodes()[*old(node) as int].text == Some(self@),
    {
        let s = self.to_owned();
        set_text(dom, *node, s.as_str());
    }
}

impl<'a> IntoView for &'a String {
    type State = u32;

    open spec fn room(&self) -> nat {
        1
    }

    open spec fn refers_below(&self, n: nat) -> bool {
        true
    }

    open spec fn state_below(state: &u32, n: nat) -> bool {
        *state < n
    }

    proof fn lemma_refers_grow(&self, a: nat, b: nat) {
    }

    fn build<H>(self, dom: &mut Dom<H>) -> (r: (u32, u32))
        ensures
            r.0 == old(dom).nodes().len(),
            r.1 == r.0,
            final(dom).nodes() == old(dom).nodes().push(text_view(self@, old(dom).next_hid())),
    {
        let s = self.clone();
        let t = text(dom, s.as_str());
        (t, t)
    }

    fn rebuild<H>(self, dom: &mut Dom<H>, node: &mut u32)
        ensures
            *final(node) == *old(node),
            final(dom).nodes()[*old(node) as int].text == Some(self@),
    {
        let s = self.clone();
        set_text(dom, *node, s.as_str());
    }
}

impl IntoView for i8 {
    type State = u32;

    open spec fn room(&self) -> nat {
        1
    }

    open spec fn refers_below(&self, n: nat) -> bool {
        true
    }

    open spec fn state_below(state: &u32, n: nat) -> bool {
        *state < n
    }

    proof fn lemma_refers_grow(&self, a: nat, b: nat) {
    }

    fn build<H>(self, dom: &mut Dom<H>) -> (r: (u32, u32))
        ensures
            r.0 == old(dom).nodes().len(),
            r.1 == r.0,
            final(dom).nodes() == old(dom).nodes().push(text_view(int_text(self as int), old(dom).next_hid())),
    {
        let s = int_string(self as i64);
        let t = text(dom, s.as_str());
        (t, t)
    }

    fn rebuild<H>(self, dom: &mut Dom<H>, node: &mut u32)
        ensures
            *final(node) == *old(node),
            final(dom).nodes()[*old(node) as int].text == Some(int_text(self as int)),
    {
        let s = int_string(self as i64);
        set_text(dom, *node, s.as_str());
    }
}

impl IntoView for i16 {
    type State = u32;

    open spec fn room(&self) -> nat {
        1
    }

    open spec fn refers_below(&self, n: nat) -> bool {
        true
    }

    open spec fn state_below(state: &u32, n: nat) -> bool {
        *state < n
    }

    proof fn lemma_refers_grow(&self, a: nat, b: nat) {
    }

    fn build<H>(self, dom: &mut Dom<H>) -> (r: (u32, u32))
        ensures
            r.0 == old(dom).nodes().len(),
            r.1 == r.0,
            final(dom).nodes() == old(dom).nodes().push(text_view(int_text(self as int), old(dom).next_hid())),
    {
        let s = int_string(self as i64);
        let t = text(dom, s.as_str());
        (t, t)
    }

    fn rebuild<H>(self, dom: &mut Dom<H>, node: &mut u32)
        ensures
            *final(node) == *old(node),
            final(dom).nodes()[*old(node) as int].text == Some(int_text(self as int)),
    {
        let s = int_string(self as i64);
        set_text(dom, *node, s.as_str());
    }
}

impl IntoView for i32 {
    type State = u32;

    open spec fn room(&self) -> nat {
        1
    }

    open spec fn refers_below(&self, n: nat) -> bool {
        true
    }

    open spec fn state_below(state: &u32, n: nat) -> bool {
        *state < n
    }

    proof fn lemma_refers_grow(&self, a: nat, b: nat) {
    }

    fn build<H>(self, dom: &mut Dom<H>) -> (r: (u32, u32))
        ensures
            r.0 == old(dom).nodes().len(),
            r.1 == r.0,
            final(dom).nodes() == old(dom).nodes().push(text_view(int_text(self as int), old(dom).next_hid())),
    {
        let s = int_string(self as i64);
        let t = text(dom, s.as_str());
        (t, t)
    }

    fn rebuild<H>(self, dom: &mut Dom<H>, node: &mut u32)
        ensures
            *final(node) == *old(node),
            final(dom).nodes()[*old(node) as int].text == Some(int_text(self as int)),
    {
        let s = int_string(self as i64);
        set_text(dom, *node, s.as_str());
    }
}

impl IntoView for i64 {
    type State = u32;

    open spec fn room(&self) -> nat {
        1
    }

    open spec fn refers_below(&self, n: nat) -> bool {
        true
    }

    open spec fn state_below(state: &u32, n: nat) -> bool {
        *state < n
    }

    proof fn lemma_refers_grow(&self, a: nat, b: nat) {
    }

    fn build<H>(self, dom: &mut Dom<H>) -> (r: (u32, u32))
        ensures
            r.0 == old(dom).nodes().len(),
            r.1 == r.0,
            final(dom).nodes() == old(dom).nodes().push(text_view(int_text(self as int), old(dom).next_hid())),
    {
        let s = int_string(self as i64);
        let t = text(dom, s.as_str());
        (t, t)
    }

    fn rebuild<H>(self, dom: &mut Dom<H>, node: &mut u32)
        ensures
            *final(node) == *old(node),
            final(dom).nodes()[*old(node) as int].text == Some(int_text(self as int)),
    {
        let s = int_string(self as i64);
        set_text(dom, *node, s.as_str());
    }
}

impl IntoView for isize {
    type State = u32;

    open spec fn room(&self) -> nat {
        1
    }

    open spec fn refers_below(&self, n: nat) -> bool {
        true
    }

    open spec fn state_below(state: &u32, n: nat) -> bool {
        *state < n
    }

    proof fn lemma_refers_grow(&self, a: nat, b: nat) {
    }

    fn build<H>(self, dom: &mut Dom<H>) -> (r: (u32, u32))
        ensures
            r.0 == old(dom).nodes().len(),
            r.1 == r.0,
            final(dom).nodes() == old(dom).nodes().push(text_view(int_text(self as int), old(dom).next_hid())),
    {
        let s = int_string(self as i64);
        let t = text(dom, s.as_str());
        (t, t)
    }

    fn rebuild<H>(self, dom: &mut Dom<H>, node: &mut u32)
        ensures
            *final(node) == *old(node),
            final(dom).nodes()[*old(node) as int].text == Some(int_text(self as int)),
    {
        let s = int_string(self as i64);
        set_text(dom, *node, s.as_str());
    }
}

impl IntoView for u8 {
    type State = u32;

    open spec fn room(&self) -> nat {
        1
    }

    open spec fn refers_below(&self, n: nat) -> bool {
        true
    }

    open spec fn state_below(state: &u32, n: nat) -> bool {
        *state < n
    }

    proof fn lemma_refers_grow(&self, a: nat, b: nat) {
    }

    fn build<H>(self, dom: &mut Dom<H>) -> (r: (u32, u32))
        ensures
            r.0 == old(dom).nodes().len(),
            r.1 == r.0,
            final(dom).nodes() == old(dom).nodes().push(text_view(nat_text(self as nat), old(dom).next_hid())),
    {
        let s = nat_string(self as u64);
        let t = text(dom, s.as_str());
        (t, t)
    }

    fn rebuild<H>(self, dom: &mut Dom<H>, node: &mut u32)
        ensures
            *final(node) == *old(node),
            final(dom).nodes()[*old(node) as int].text == Some(nat_text(self as nat)),
    {
        let s = nat_string(self as u64);
        set_text(dom, *node, s.as_str());
    }
}

impl IntoView for u16 {
    type State = u32;

    open spec fn room(&self) -> nat {
        1
    }

    open spec fn refers_below(&self, n: nat) -> bool {
        true
    }

    open spec fn state_below(state: &u32, n: nat) -> bool {
        *state < n
    }

    proof fn lemma_refers_grow(&self, a: nat, b: nat) {
    }

    fn build<H>(self, dom: &mut Dom<H>) -> (r: (u32, u32))
        ensures
            r.0 == old(dom).nodes().len(),
            r.1 == r.0,
            final(dom).nodes() == old(dom).nodes().push(text_view(nat_text(self as nat), old(dom).next_hid())),
    {
        let s = nat_string(self as u64);
        let t = text(dom, s.as_str());
        (t, t)
    }

    fn rebuild<H>(self, dom: &mut Dom<H>, node: &mut u32)
        ensures
            *final(node) == *old(node),
            final(dom).nodes()[*old(node) as int].text == Some(nat_text(self as nat)),
    {
        let s = nat_string(self as u64);
        set_text(dom, *node, s.as_str());
    }
}

impl IntoView for u32 {
    type State = u32;

    open spec fn room(&self) -> nat {
        1
    }

    open spec fn refers_below(&self, n: nat) -> bool {
        true
    }

    open spec fn state_below(state: &u32, n: nat) -> bool {
        *state < n
    }

    proof fn lemma_refers_grow(&self, a: nat, b: nat) {
    }

    fn build<H>(self, dom: &mut Dom<H>) -> (r: (u32, u32))
        ensures
            r.0 == old(dom).nodes().len(),
            r.1 == r.0,
            final(dom).nodes() == old(dom).nodes().push(text_view(nat_text(self as nat), old(dom).next_hid())),
    {
        let s = nat_string(self as u64);
        let t = text(dom, s.as_str());
        (t, t)
    }

    fn rebuild<H>(self, dom: &mut Dom<H>, node: &mut u32)
        ensures
            *final(node) == *old(node),
            final(dom).nodes()[*old(node) as int].text == Some(nat_text(self as nat)),
    {
        let s = nat_string(self as u64);
        set_text(dom, *node, s.as_str());
    }
}

impl IntoView for u64 {
    type State = u32;

    open spec fn room(&self) -> nat {
        1
    }

    open spec fn refers_below(&self, n: nat) -> bool {
        true
    }

    open spec fn state_below(state: &u32, n: nat) -> bool {
        *state < n
    }

    proof fn lemma_refers_grow(&self, a: nat, b: nat) {
    }

    fn build<H>(self, dom: &mut Dom<H>) -> (r: (u32, u32))
        ensures
            r.0 == old(dom).nodes().len(),
            r.1 == r.0,
            final(dom).nodes() == old(dom).nodes().push(text_view(nat_text(self as nat), old(dom).next_hid())),
    {
        let s = nat_string(self as u64);
        let t = text(dom, s.as_str());
        (t, t)
    }

    fn rebuild<H>(self, dom: &mut Dom<H>, node: &mut u32)
        ensures
            *final(node) == *old(node),
            final(dom).nodes()[*old(node) as int].text == Some(nat_text(self as nat)),
    {
        let s = nat_string(self as u64);
        set_text(dom, *node, s.as_str());
    }
}

impl IntoView for usize {
    type State = u32;

    open spec fn room(&self) -> nat {
        1
    }

    open spec fn refers_below(&self, n: nat) -> bool {
        true
    }

    open spec fn state_below(state: &u32, n: nat) -> bool {
        *state < n
    }

    proof fn lemma_refers_grow(&self, a: nat, b: nat) {
    }

    fn build<H>(self, dom: &mut Dom<H>) -> (r: (u32, u32))
        ensures
            r.0 == old(dom).nodes().len(),
            r.1 == r.0,
            final(dom).nodes() == old(dom).nodes().push(text_view(nat_text(self as nat), old(dom).next_hid())),
    {
        let s = nat_string(self as u64);
        let t = text(dom, s.as_str());
        (t, t)
    }

    fn rebuild<H>(self, dom: &mut Dom<H>, node: &mut u32)
        ensures
            *final(node) == *old(node),
            final(dom).nodes()[*old(node) as int].text == Some(nat_text(self as nat)),
    {
        let s = nat_string(self as u64);
        set_text(dom, *node, s.as_str());
    }
}

impl IntoView for bool {
    type State = u32;

    open spec fn room(&self) -> nat {
        1
    }

    open spec fn refers_below(&self, n: nat) -> bool {
        true
    }

    open spec fn state_below(state: &u32, n: nat) -> bool {
        *state < n
    }

    proof fn lemma_refers_grow(&self, a: nat, b: nat) {
    }

    fn build<H>(self, dom: &mut Dom<H>) -> (r: (u32, u32))
        ensures
            r.0 == old(dom).nodes().len(),
            r.1 == r.0,
            final(dom).nodes() == old(dom).nodes().push(text_view(if self { "true"@ } else { "false"@ }, old(dom).next_hid())),
    {
        let s = if self { "true".to_owned() } else { "false".to_owned() };
        let t = text(dom, s.as_str());
        (t, t)
    }

    fn rebuild<H>(self, dom: &mut Dom<H>, node: &mut u32)
        ensures
            *final(node) == *old(node),
            final(dom).nodes()[*old(node) as int].text == Some(if self { "true"@ } else { "false"@ }),
    {
        let s = if self { "true".to_owned() } else { "false".to_owned() };
        set_text(dom, *node, s.as_str());
    }
}

impl IntoView for char {
    type State = u32;

    open spec fn room(&self) -> nat {
        1
    }

    open spec fn refers_below(&self, n: nat) -> bool {
        true
    }

    open spec fn state_below(state: &u32, n: nat) -> bool {
        *state < n
    }

    proof fn lemma_refers_grow(&self, a: nat, b: nat) {
    }

    fn build<H>(self, dom: &mut Dom<H>) -> (r: (u32, u32))
        ensures
            r.0 == old(dom).nodes().len(),
            r.1 == r.0,
            final(dom).nodes() == old(dom).nodes().push(text_view(seq![self], old(dom).next_hid())),
    {
        let s = char_string(self);
        let t = text(dom, s.as_str());
        (t, t)
    }

    fn rebuild<H>(self, dom: &mut Dom<H>, node: &mut u32)
        ensures
            *final(node) == *old(node),
            final(dom).nodes()[*old(node) as int].text == Some(seq![self]),
    {
        let s = char_string(self);
        set_text(dom, *node, s.as_str());
    }
}


/// A present value goes under a `rui-slot` anchor, an absent one leaves it empty;
/// rebuilding empties the anchor and builds the new value there.
impl<T: IntoView> IntoView for Option<T> {
    type State = u32;

    open spec fn room(&self) -> nat {
        1 + match self {
            Some(v) => v.room(),
            None => 0,
        }
    }

    open spec fn refers_below(&self, n: nat) -> bool {
        match self {
            Some(v) => v.refers_below(n),
            None => true,
        }
    }

    open spec fn state_below(state: &u32, n: nat) -> bool {
        *state < n
    }

    proof fn lemma_refers_grow(&self, a: nat, b: nat) {
        if let Some(v) = self {
            v.lemma_refers_grow(a, b);
        }
    }

    fn build<H>(self, dom: &mut Dom<H>) -> (r: (u32, u32))
        ensures
            r.0 == old(dom).nodes().len(),
            r.1 == r.0,
            final(dom).nodes()[r.0 as int].tag == "rui-slot"@,
            final(dom).nodes()[r.0 as int].children.len() == if self is Some { 1int } else { 0int },
    {
        let anchor = el(dom, "rui-slot");
        let ghost d1 = *dom;
        match self {
            Some(v) => {
                proof {
                    v.lemma_refers_grow((d1.nodes().len() - 1) as nat, d1.nodes().len());
                }
                let (n, _s) = v.build(dom);
                let ghost d2 = *dom;
                proof {
                    assert(dom.nodes()[anchor as int] == dom.nodes().subrange(0, d1.nodes().len() as int)[anchor as int]);
                }
                append(dom, anchor, n);
                proof {
                    assert forall|i: int| 0 <= i < old(dom).nodes().len() implies dom.nodes()[i] == old(dom).nodes()[i] by {
                        assert(d2.nodes()[i] == d2.nodes().subrange(0, d1.nodes().len() as int)[i]);
                        assert(d1.nodes()[i] == old(dom).nodes()[i]);
                    }
                    assert(dom.nodes().subrange(0, old(dom).nodes().len() as int) =~= old(dom).nodes());
                }
            },
            None => {},
        }
        (anchor, anchor)
    }

    fn rebuild<H>(self, dom: &mut Dom<H>, anchor: &mut u32)
        ensures
            *final(anchor) == *old(anchor),
            final(dom).nodes()[*old(anchor) as int].children.len() == if self is Some { 1int } else { 0int },
    {
        clear(dom, *anchor);
        let ghost d1 = *dom;
        match self {
            Some(v) => {
                let (n, _s) = v.build(dom);
                proof {
                    assert(dom.nodes()[*anchor as int] == dom.nodes().subrange(0, d1.nodes().len() as int)[*anchor as int]);
                }
                append(dom, *anchor, n);
            },
            None => {},
        }
    }
}

/// The rooms of a sequence of values, summed.
pub open spec fn rooms<T: IntoView>(s: Seq<T>) -> nat
    decreases s.len(),
{
    if s.len() == 0 { 0 } else { rooms(s.drop_last()) + s.last().room() }
}

/// Builds `items`, in order, under `anchor`, appending each built node to it.
fn build_all<T: IntoView, H>(dom: &mut Dom<H>, anchor: u32, items: Vec<T>)
    requires
        old(dom).wf(),
        anchor < old(dom).nodes().len(),
        forall|i: int| 0 <= i < items@.len() ==> (#[trigger] items@[i]).refers_below(old(dom).nodes().len()),
        old(dom).nodes().len() + rooms(items@) < u32::MAX,
        old(dom).next_hid() + rooms(items@) < u32::MAX,
    ensures
        grows_by(*old(dom), *final(dom), rooms(items@)),
        final(dom).nodes()[anchor as int].children.len() == old(dom).nodes()[anchor as int].children.len() + items@.len(),
        final(dom).nodes()[anchor as int].tag == old(dom).nodes()[anchor as int].tag,
        forall|i: int| 0 <= i < old(dom).nodes().len() && i != anchor ==> final(dom).nodes()[i] == old(dom).nodes()[i],
{
    let ghost all = items@;
    let total = items.len();
    let mut items = items;
    let mut rev: Vec<T> = Vec::new();
    while items.len() > 0
        invariant
            rev@.len() + items@.len() == all.len(),
            forall|k: int| 0 <= k < items@.len() ==> #[trigger] items@[k] == all[k],
            forall|k: int| 0 <= k < rev@.len() ==> #[trigger] rev@[k] == all[all.len() - 1 - k],
        decreases items@.len(),
    {
        let v = items.pop().unwrap();
        rev.push(v);
    }
    let ghost d0 = *dom;
    let mut done: usize = 0;
    assert(all.len() == total);
    proof {
        assert(all.take(0) =~= Seq::<T>::empty());
    }
    while rev.len() > 0
        invariant
            done + rev@.len() == all.len(),
            all.len() <= usize::MAX,
            forall|k: int| 0 <= k < rev@.len() ==> #[trigger] rev@[k] == all[all.len() - 1 - k],
            anchor < d0.nodes().len(),
            dom.nodes()[anchor as int].tag == d0.nodes()[anchor as int].tag,
            d0.wf(),
            forall|i: int| 0 <= i < all.len() ==> (#[trigger] all[i]).refers_below(d0.nodes().len()),
            d0.nodes().len() + rooms(all) < u32::MAX,
            d0.next_hid() + rooms(all) < u32::MAX,
            grows_by(d0, *dom, rooms(all.take(done as int))),
            dom.nodes()[anchor as int].children.len() == d0.nodes()[anchor as int].children.len() + done,
            forall|i: int| 0 <= i < d0.nodes().len() && i != anchor ==> dom.nodes()[i] == d0.nodes()[i],
        decreases rev@.len(),
    {
        let v = rev.pop().unwrap();
        let ghost d1 = *dom;
        proof {
            assert(v == all[done as int]);
            lemma_rooms_take(all, done as int);
            lemma_rooms_take_le(all, done as int + 1);
            v.lemma_refers_grow(d0.nodes().len(), d1.nodes().len());
        }
        let (n, _s) = v.build(dom);
        proof {
            assert(dom.nodes()[anchor as int] == dom.nodes().subrange(0, d1.nodes().len() as int)[anchor as int]);
            assert forall|i: int| 0 <= i < d0.nodes().len() && i != anchor implies dom.nodes()[i] == d0.nodes()[i] by {
                assert(dom.nodes()[i] == dom.nodes().subrange(0, d1.nodes().len() as int)[i]);
            }
        }
        append(dom, anchor, n);
        done += 1;
    }
    proof {
        assert(all.take(all.len() as int) =~= all);
    }
}

proof fn lemma_rooms_take<T: IntoView>(s: Seq<T>, k: int)
    requires
        0 <= k < s.len(),
    ensures
        rooms(s.take(k + 1)) == rooms(s.take(k)) + s[k].room(),
{
    assert(s.take(k + 1).drop_last() =~= s.take(k));
}

proof fn lemma_rooms_take_le<T: IntoView>(s: Seq<T>, k: int)
    requires
        0 <= k <= s.len(),
    ensures
        rooms(s.take(k)) <= rooms(s),
    decreases s.len() - k,
{
    if k < s.len() {
        lemma_rooms_take(s, k);
        lemma_rooms_take_le(s, k + 1);
    } else {
        assert(s.take(k) =~= s);
    }
}

/// A list goes under a `rui-slot` anchor, each element's node in order (a keyed list that
/// keeps its rows is `keyed_plan`'s part); rebuilding empties the anchor and builds the
/// new list there.
impl<T: IntoView> IntoView for Vec<T> {
    type State = u32;

    open spec fn room(&self) -> nat {
        1 + rooms(self@)
    }

    open spec fn refers_below(&self, n: nat) -> bool {
        forall|i: int| 0 <= i < self@.len() ==> (#[trigger] self@[i]).refers_below(n)
    }

    open spec fn state_below(state: &u32, n: nat) -> bool {
        *state < n
    }

    proof fn lemma_refers_grow(&self, a: nat, b: nat) {
        assert forall|i: int| 0 <= i < self@.len() implies (#[trigger] self@[i]).refers_below(b) by {
            self@[i].lemma_refers_grow(a, b);
        }
    }

    fn build<H>(self, dom: &mut Dom<H>) -> (r: (u32, u32))
        ensures
            r.0 == old(dom).nodes().len(),
            r.1 == r.0,
            final(dom).nodes()[r.0 as int].tag == "rui-slot"@,
            final(dom).nodes()[r.0 as int].children.len() == self@.len(),
    {
        let ghost items = self@;
        let anchor = el(dom, "rui-slot");
        proof {
            self.lemma_refers_grow(old(dom).nodes().len(), dom.nodes().len());
        }
        build_all(dom, anchor, self);
        proof {
            assert(dom.nodes().subrange(0, old(dom).nodes().len() as int) =~= old(dom).nodes());
        }
        (anchor, anchor)
    }

    fn rebuild<H>(self, dom: &mut Dom<H>, anchor: &mut u32)
        ensures
            *final(anchor) == *old(anchor),
            final(dom).nodes()[*old(anchor) as int].children.len() == self@.len(),
    {
        clear(dom, *anchor);
        build_all(dom, *anchor, self);
    }
}


// ───────────────────────────── error boundaries ─────────────────────────────

/// The context key under which an error boundary provides its error sink.
pub open spec fn error_sink_key() -> Seq<char> {
    seq!['E', 'r', 'r', 'o', 'r', 'S', 'i', 'n', 'k']
}

/// The nearest enclosing error boundary's sink (the innermost binding of the sink key),
/// or `None` outside every boundary: where `error_reporter` and `throw_error` report.
pub fn error_sink<V: Clone + PartialEq + 'static>(rt: &Runtime<V>) -> (r: Option<V>)
    requires
        rt.wf(),
    ensures
        r is Some <==> lookup_frames(rt.context_frames(), error_sink_key()) is Some,
        r matches Some(x) ==> cloned(lookup_frames(rt.context_frames(), error_sink_key())->0, x),
{
    let k = "ErrorSink";
    proof {
        reveal_strlit("ErrorSink");
        assert(k@ =~= error_sink_key());
    }
    use_context(rt, k)
}

/// What an error boundary shows.
#[derive(Clone, PartialEq, Eq, Debug)]
pub enum BoundaryView {
    /// The children.
    Children,
    /// The fallback, for this error.
    Fallback(String),
}

/// What a boundary shows for the error its sink holds: the fallback exactly when it holds
/// one.  (It is asked again after the children are built, so an error reported while
/// building them also shows the fallback.)
pub fn boundary_view(held: &Option<String>) -> (r: BoundaryView)
    ensures
        held is None ==> r is Children,
        held matches Some(e) ==> r matches BoundaryView::Fallback(f) && f@ == e@,
{
    match held {
        Some(e) => BoundaryView::Fallback(e.clone()),
        None => BoundaryView::Children,
    }
}

/// Whether `reset` writes `None` into the sink: only when it holds an error (writing `None`
/// over `None` would rebuild the children for nothing).
pub fn reset_writes(held: &Option<String>) -> (r: bool)
    ensures
        r == held is Some,
{
    held.is_some()
}

// ───────────────────────────── reactive blocks ─────────────────────────────

/// One rebuild of a reactive block: the scope of the previous build (if any) is disposed,
/// then the anchor's children become exactly the new build's node.
pub fn block_rebuild<V: Clone + PartialEq + 'static, H>(rt: &mut Runtime<V>, dom: &mut Dom<H>, anchor: u32, prev: Option<Scope>, built: u32)
    requires
        old(rt).wf(),
        old(dom).wf(),
        anchor < old(dom).nodes().len(),
        built < old(dom).nodes().len(),
    ensures
        keeps_graph(*old(rt), *final(rt)),
        prev is None ==> *final(rt) == *old(rt),
        prev matches Some(sc) ==> {
            &&& cleanups_invoked(*old(rt), *final(rt), sc.cleanups@)
            &&& forall|k: int| 0 <= k < sc.ids@.len() && sc.ids@[k] < old(rt).n_effects()
                ==> !final(rt).is_alive(#[trigger] sc.ids@[k] as int)
        },
        final(dom).wf(),
        final(dom).nodes() == old(dom).nodes().update(anchor as int, NodeView {
            children: seq![built],
            text: None,
            ..old(dom).nodes()[anchor as int]
        }),
        final(dom).root() == old(dom).root(),
        final(dom).handlers() == old(dom).handlers(),
        final(dom).responses() == old(dom).responses(),
{
    match prev {
        Some(sc) => sc.dispose(rt),
        None => {
            proof {
                lemma_keeps_refl(*rt);
            }
        },
    }
    clear(dom, anchor);
    append(dom, anchor, built);
    proof {
        assert(Seq::<u32>::empty().push(built) =~= seq![built]);
    }
}

// ───────────────────────────── keyed lists ─────────────────────────────

/// The children ids left after removing every occurrence of each id in `ids`.
pub open spec fn without_ids(s: Seq<u32>, ids: Seq<u32>) -> Seq<u32>
    decreases ids.len(),
{
    if ids.len() == 0 {
        s
    } else {
        without_id(without_ids(s, ids.drop_last()), ids.last())
    }
}

/// The node of each new row: its fresh build, or else the node of the old row it takes over.
pub open spec fn keyed_nodes(old_nodes: Seq<u32>, rows: Seq<Option<usize>>, built: Seq<Option<u32>>) -> Seq<u32> {
    Seq::new(rows.len(), |i: int| match built[i] {
        Some(n) => n,
        None => old_nodes[rows[i]->0 as int],
    })
}

/// Applies a keyed plan to the list under `parent`: every old row's node leaves the list,
/// then the rows are appended in the new order, each the node built for it (a new key, or
/// a kept key whose item changed) or else the node of the old row it takes over (a kept
/// key whose item is unchanged keeps its node).
pub fn keyed_apply<H>(dom: &mut Dom<H>, parent: u32, old_nodes: &Vec<u32>, plan: &KeyedPlan, built: &Vec<Option<u32>>)
    requires
        old(dom).wf(),
        parent < old(dom).nodes().len(),
        built@.len() == plan.rows@.len(),
        forall|i: int| 0 <= i < old_nodes@.len() ==> #[trigger] old_nodes@[i] < old(dom).nodes().len(),
        forall|i: int| 0 <= i < built@.len() ==> match #[trigger] built@[i] {
            Some(n) => n < old(dom).nodes().len(),
            None => plan.rows@[i] matches Some(r) && r < old_nodes@.len(),
        },
    ensures
        final(dom).wf(),
        final(dom).nodes() == old(dom).nodes().update(parent as int, NodeView {
            children: without_ids(old(dom).nodes()[parent as int].children, old_nodes@)
                + keyed_nodes(old_nodes@, plan.rows@, built@),
            ..old(dom).nodes()[parent as int]
        }),
        final(dom).root() == old(dom).root(),
        final(dom).handlers() == old(dom).handlers(),
        final(dom).responses() == old(dom).responses(),
{
    let ghost d0 = *dom;
    let ghost pv = d0.nodes()[parent as int];
    let mut i: usize = 0;
    while i < old_nodes.len()
        invariant
            dom.wf(),
            0 <= i <= old_nodes@.len(),
            parent < dom.nodes().len(),
            parent < d0.nodes().len(),
            pv == d0.nodes()[parent as int],
            dom.nodes() == d0.nodes().update(parent as int, NodeView {
                children: without_ids(pv.children, old_nodes@.take(i as int)),
                ..pv
            }),
            dom.root() == d0.root(),
            dom.handlers() == d0.handlers(),
            dom.responses() == d0.responses(),
        decreases old_nodes@.len() - i,
    {
        let ghost before = dom.nodes();
        remove_child(dom, parent, old_nodes[i]);
        proof {
            assert(old_nodes@.take(i + 1).drop_last() =~= old_nodes@.take(i as int));
            assert(old_nodes@.take(i + 1).last() == old_nodes@[i as int]);
            let c1 = without_ids(pv.children, old_nodes@.take(i + 1));
            assert(c1 == without_id(without_ids(pv.children, old_nodes@.take(i as int)), old_nodes@[i as int]));
            assert(before[parent as int] == NodeView { children: without_ids(pv.children, old_nodes@.take(i as int)), ..pv });
            assert(dom.nodes() =~= d0.nodes().update(parent as int, NodeView { children: c1, ..pv }));
        }
        i += 1;
    }
    proof {
        assert(old_nodes@.take(old_nodes@.len() as int) =~= old_nodes@);
    }
    let ghost base = without_ids(pv.children, old_nodes@);
    let ghost want = keyed_nodes(old_nodes@, plan.rows@, built@);
    let mut j: usize = 0;
    while j < built.len()
        invariant
            dom.wf(),
            0 <= j <= built@.len(),
            built@.len() == plan.rows@.len(),
            parent < dom.nodes().len(),
            parent < d0.nodes().len(),
            pv == d0.nodes()[parent as int],
            dom.nodes().len() == d0.nodes().len(),
            want == keyed_nodes(old_nodes@, plan.rows@, built@),
            forall|t: int| 0 <= t < old_nodes@.len() ==> #[trigger] old_nodes@[t] < d0.nodes().len(),
            forall|t: int| 0 <= t < built@.len() ==> match #[trigger] built@[t] {
                Some(n) => n < d0.nodes().len(),
                None => plan.rows@[t] matches Some(r) && r < old_nodes@.len(),
            },
            dom.nodes() == d0.nodes().update(parent as int, NodeView {
                children: base + want.take(j as int),
                ..pv
            }),
            dom.root() == d0.root(),
            dom.handlers() == d0.handlers(),
            dom.responses() == d0.responses(),
        decreases built@.len() - j,
    {
        let node = match built[j] {
            Some(n) => n,
            None => {
                let r = match plan.rows[j] {
                    Some(r) => r,
                    None => 0,
                };
                old_nodes[r]
            },
        };
        proof {
            assert(node == want[j as int]);
        }
        append(dom, parent, node);
        proof {
            assert(want.take(j + 1) =~= want.take(j as int).push(want[j as int]));
            assert(base + want.take(j + 1) =~= (base + want.take(j as int)).push(node));
        }
        j += 1;
    }
    proof {
        assert(want.take(built@.len() as int) =~= want);
    }
}
} // verus!
