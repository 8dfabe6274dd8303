//! Reactive core: signals (state), effects (re-run when what they read changes) and
//! memos (derived signals), with dynamic dependency tracking, height-ordered
//! glitch-free flushing, batching, owner scopes and a context stack.
//!
//! All bookkeeping lives in [`Runtime`] and is verified: which effect is subscribed to
//! which signal, who is scheduled, in which order scheduled effects run, what a scope
//! owns and which context value a lookup finds.  The user's effect, memo and cleanup
//! bodies are closures.  A closure run at once (`scope`, `batch`, `untrack`, ...) is
//! called from verified code; one stored for later runs is kept in a closure table and
//! invoked through the two trusted items at the bottom of this file (Verus cannot hold
//! `dyn Fn` values).  Every function that takes a closure asks that it accept any
//! well-formed runtime and keep it ([`keeps_graph`]), which is what those two items state
//! of the closures they call.
use vstd::prelude::*;
use std::rc::Rc;
use vstd::std_specs::cmp::PartialEqSpec;
use crate::seqs::{no_dup, all_below, without, contains_usize, remove_usize, lemma_without_props, lemma_contains_push};

verus! {

/// Upper bound on effect runs in one flush: a graph that has not settled by then has a
/// self-triggering effect without a convergence guard.
pub const FLUSH_STEP_LIMIT: usize = 1_000_000;

/// Handle of a signal (a reactive state cell) inside a [`Runtime`].
#[derive(Clone, Copy, PartialEq, Eq, Debug)]
pub struct Signal {
    pub id: usize,
}

/// Handle of an effect or memo, used to dispose it.
#[derive(Clone, Copy, PartialEq, Eq, Debug)]
pub struct EffectHandle {
    pub id: usize,
}

/// What a `scope` collected: the effects created in it and the cleanup callbacks
/// registered in it.  `dispose` runs the cleanups and then disposes the effects.
pub struct Scope {
    pub ids: Vec<usize>,
    pub cleanups: Vec<usize>,
}

/// The context stack as captured by `capture_contexts` (frames from outermost to innermost).
pub type ContextSnapshot<V> = Vec<Vec<(String, V)>>;

/// The reactive graph.
#[verifier::reject_recursive_types(V)]
pub struct Runtime<V> {
    // per signal
    values: Vec<V>,
    subs: Vec<Vec<usize>>,
    src: Vec<Option<usize>>,
    // per effect
    alive: Vec<bool>,
    deps: Vec<Vec<usize>>,
    scheduled: Vec<bool>,
    height: Vec<usize>,
    memo_out: Vec<Option<usize>>,
    slot: Vec<usize>,
    // global
    current: Option<usize>,
    pending: Vec<(usize, usize)>,
    flushing: bool,
    batch: u32,
    owners: Vec<Vec<usize>>,
    cleanup_frames: Vec<Vec<usize>>,
    contexts: Vec<Vec<(String, V)>>,
    closures: Closures<V>,
    // the effects run so far, in order
    runs: Ghost<Seq<usize>>,
    // the cleanup slots invoked so far, in order
    cleaned: Ghost<Seq<usize>>,
    // each step of a flush so far: the entry taken and the queue it was taken from
    steps: Ghost<Seq<((usize, usize), Seq<(usize, usize)>)>>,
}

/// The effect ids of a pending queue.
pub open spec fn ids_of(p: Seq<(usize, usize)>) -> Seq<usize> {
    p.map_values(|x: (usize, usize)| x.1)
}

/// `(h1, i1)` comes no later than `(h2, i2)`: lower height first, then lower id.
pub open spec fn runs_before(a: (usize, usize), b: (usize, usize)) -> bool {
    a.0 < b.0 || (a.0 == b.0 && a.1 <= b.1)
}

/// A flush step took `step.0` from the queue `step.1`, and that entry runs first in the
/// queue: no other queued effect has a lower height, nor the same height and a lower id.
pub open spec fn taken_first(step: ((usize, usize), Seq<(usize, usize)>)) -> bool {
    &&& step.1.contains(step.0)
    &&& forall|j: int| 0 <= j < step.1.len() ==> runs_before(step.0, #[trigger] step.1[j])
}

/// The value found for `key` when searching `frames` from the innermost (last) frame outwards.
pub open spec fn lookup_frames<V>(frames: Seq<Seq<(String, V)>>, key: Seq<char>) -> Option<V>
    decreases frames.len(),
{
    if frames.len() == 0 {
        None
    } else {
        match lookup_frame(frames.last(), key) {
            Some(v) => Some(v),
            None => lookup_frames(frames.drop_last(), key),
        }
    }
}

/// The value bound to `key` in one frame (the first binding).
pub open spec fn lookup_frame<V>(frame: Seq<(String, V)>, key: Seq<char>) -> Option<V>
    decreases frame.len(),
{
    if frame.len() == 0 {
        None
    } else if frame[0].0@ == key {
        Some(frame[0].1)
    } else {
        lookup_frame(frame.drop_first(), key)
    }
}

impl<V> Runtime<V> {
    // ── abstract view ──

    pub closed spec fn n_signals(&self) -> nat {
        self.values@.len()
    }

    pub closed spec fn n_effects(&self) -> nat {
        self.alive@.len()
    }

    /// All signal values, by signal id.
    pub closed spec fn signal_values(&self) -> Seq<V> {
        self.values@
    }

    /// Current value of signal `s`.
    pub closed spec fn value(&self, s: int) -> V {
        self.values@[s]
    }

    /// Effects subscribed to signal `s`.
    pub closed spec fn subscribers(&self, s: int) -> Seq<usize> {
        self.subs@[s]@
    }

    /// Signals that effect `e` read in its latest run.
    pub closed spec fn deps_of(&self, e: int) -> Seq<usize> {
        self.deps@[e]@
    }

    pub closed spec fn is_alive(&self, e: int) -> bool {
        self.alive@[e]
    }

    pub closed spec fn is_scheduled(&self, e: int) -> bool {
        self.scheduled@[e]
    }

    /// Height of effect `e`: one more than the deepest memo it reads.
    pub closed spec fn height_of(&self, e: int) -> usize {
        self.height@[e]
    }

    /// Source height of signal `s`: 0 for a plain signal, the height of its memo's effect otherwise.
    pub closed spec fn src_height(&self, s: int) -> usize {
        match self.src@[s] {
            Some(e) => self.height@[e as int],
            None => 0,
        }
    }

    /// The effect whose output signal `s` is, if any.
    pub closed spec fn source_of(&self, s: int) -> Option<usize> {
        self.src@[s]
    }

    /// Output signal of memo effect `e`.
    pub closed spec fn memo_of(&self, e: int) -> Option<usize> {
        self.memo_out@[e]
    }

    /// Scheduled `(height, effect)` entries, in insertion order.
    pub closed spec fn pending(&self) -> Seq<(usize, usize)> {
        self.pending@
    }

    /// The effect currently running (whose reads subscribe it), if any.
    pub closed spec fn tracking(&self) -> Option<usize> {
        self.current
    }

    /// A signal's value is its entry in `signal_values`.
    pub proof fn lemma_values(&self)
        ensures
            self.n_signals() == self.signal_values().len(),
            forall|i: int| 0 <= i < self.n_signals() ==> #[trigger] self.value(i) == self.signal_values()[i],
            self.untracked().signal_values() == self.signal_values(),
    {
    }

    /// The running effect is one of the runtime's effects.
    pub proof fn lemma_tracking_bound(&self)
        requires
            self.wf(),
        ensures
            self.tracking() matches Some(e) ==> e < self.n_effects(),
    {
    }

    /// This runtime with no effect running (what an untracked read sees).
    pub closed spec fn untracked(&self) -> Runtime<V> {
        Runtime { current: None, ..*self }
    }

    /// The effects run so far, in the order their runs began.
    pub closed spec fn run_log(&self) -> Seq<usize> {
        self.runs@
    }

    /// Each step of a flush so far, in order: the `(height, effect)` entry taken from the
    /// queue, and the queue as it was when the entry was taken.
    pub closed spec fn flush_steps(&self) -> Seq<((usize, usize), Seq<(usize, usize)>)> {
        self.steps@
    }

    /// The cleanup slots invoked so far (by `Scope::dispose`), in order.
    pub closed spec fn cleanup_log(&self) -> Seq<usize> {
        self.cleaned@
    }

    pub closed spec fn is_flushing(&self) -> bool {
        self.flushing
    }

    pub closed spec fn batch_depth(&self) -> u32 {
        self.batch
    }

    pub closed spec fn owner_frames(&self) -> Seq<Seq<usize>> {
        self.owners@.map_values(|f: Vec<usize>| f@)
    }

    pub closed spec fn cleanup_frames(&self) -> Seq<Seq<usize>> {
        self.cleanup_frames@.map_values(|f: Vec<usize>| f@)
    }

    pub closed spec fn context_frames(&self) -> Seq<Seq<(String, V)>> {
        self.contexts@.map_values(|f: Vec<(String, V)>| f@)
    }

    // ── well-formedness ──

    pub closed spec fn lens_ok(&self) -> bool {
        let ns = self.values@.len();
        let ne = self.alive@.len();
        &&& self.subs@.len() == ns
        &&& self.src@.len() == ns
        &&& self.deps@.len() == ne
        &&& self.scheduled@.len() == ne
        &&& self.height@.len() == ne
        &&& self.memo_out@.len() == ne
        &&& self.slot@.len() == ne
    }

    /// Every subscriber of a signal is a live effect that lists the signal among its deps.
    pub closed spec fn subs_ok(&self) -> bool {
        &&& forall|s: int| 0 <= s < self.subs@.len() ==> no_dup(#[trigger] self.subs@[s]@)
        &&& forall|s: int, k: int|
            0 <= s < self.subs@.len() && 0 <= k < self.subs@[s]@.len() ==> {
                let e = #[trigger] self.subs@[s]@[k];
                &&& e < self.alive@.len()
                &&& self.alive@[e as int]
                &&& self.deps@[e as int]@.contains(s as usize)
            }
    }

    /// Every dep of an effect is a signal that lists the effect among its subscribers;
    /// dead effects have no deps.
    pub closed spec fn deps_ok(&self) -> bool {
        &&& forall|e: int| 0 <= e < self.deps@.len() ==> no_dup(#[trigger] self.deps@[e]@)
        &&& forall|e: int| 0 <= e < self.deps@.len() && !self.alive@[e] ==> (#[trigger] self.deps@[e]@).len() == 0
        &&& forall|e: int, k: int|
            0 <= e < self.deps@.len() && 0 <= k < self.deps@[e]@.len() ==> {
                let s = #[trigger] self.deps@[e]@[k];
                &&& s < self.subs@.len()
                &&& self.subs@[s as int]@.contains(e as usize)
            }
    }

    pub closed spec fn links_ok(&self) -> bool {
        &&& forall|s: int| 0 <= s < self.src@.len() && (#[trigger] self.src@[s]) is Some
            ==> self.src@[s]->0 < self.alive@.len()
        &&& forall|e: int| 0 <= e < self.memo_out@.len() && (#[trigger] self.memo_out@[e]) is Some
            ==> self.memo_out@[e]->0 < self.values@.len()
        &&& self.current is Some ==> self.current->0 < self.alive@.len()
        &&& forall|f: int| 0 <= f < self.owners@.len() ==> all_below(#[trigger] self.owners@[f]@, self.alive@.len())
    }

    /// The pending queue holds each scheduled effect exactly once, and nothing else.
    pub closed spec fn pending_ok(&self) -> bool {
        &&& no_dup(ids_of(self.pending@))
        &&& forall|k: int| 0 <= k < self.pending@.len() ==> (#[trigger] self.pending@[k]).1 < self.alive@.len()
        &&& forall|e: usize| e < self.scheduled@.len() ==>
            (#[trigger] self.scheduled@[e as int] <==> ids_of(self.pending@).contains(e))
    }

    /// Every flush step took the entry that runs first in its queue.
    pub closed spec fn steps_ok(&self) -> bool {
        forall|k: int| 0 <= k < self.steps@.len() ==> taken_first(#[trigger] self.steps@[k])
    }

    pub closed spec fn wf(&self) -> bool {
        &&& self.steps_ok()
        &&& self.lens_ok()
        &&& self.subs_ok()
        &&& self.deps_ok()
        &&& self.links_ok()
        &&& self.pending_ok()
    }
}

/// Facts about `ids_of` under push and removal.
proof fn lemma_ids_of_push(p: Seq<(usize, usize)>, x: (usize, usize))
    ensures
        ids_of(p.push(x)) == ids_of(p).push(x.1),
{
    assert(ids_of(p.push(x)) =~= ids_of(p).push(x.1));
}

proof fn lemma_ids_of_remove(p: Seq<(usize, usize)>, i: int)
    requires
        0 <= i < p.len(),
    ensures
        ids_of(p.remove(i)) == ids_of(p).remove(i),
{
    assert(ids_of(p.remove(i)) =~= ids_of(p).remove(i));
}

impl<V: Clone + PartialEq + 'static> Runtime<V> {
    /// An empty graph: no signals, no effects, nothing pending, no frames.
    pub fn new() -> (rt: Runtime<V>)
        ensures
            rt.wf(),
            rt.n_signals() == 0,
            rt.n_effects() == 0,
            rt.pending().len() == 0,
            rt.tracking() is None,
            !rt.is_flushing(),
            rt.batch_depth() == 0,
            rt.owner_frames().len() == 0,
            rt.cleanup_frames().len() == 0,
            rt.context_frames().len() == 0,
    {
        let rt = Runtime {
            values: Vec::new(),
            subs: Vec::new(),
            src: Vec::new(),
            alive: Vec::new(),
            deps: Vec::new(),
            scheduled: Vec::new(),
            height: Vec::new(),
            memo_out: Vec::new(),
            slot: Vec::new(),
            current: None,
            pending: Vec::new(),
            flushing: false,
            batch: 0,
            owners: Vec::new(),
            cleanup_frames: Vec::new(),
            contexts: Vec::new(),
            closures: Closures::new(),
            runs: Ghost(Seq::empty()),
            cleaned: Ghost(Seq::empty()),
            steps: Ghost(Seq::empty()),
        };
        proof {
            assert(ids_of(rt.pending@) =~= Seq::<usize>::empty());
        }
        rt
    }
}



/// Appends `x` to row `i` of a table of rows.
fn push_at(v: &mut Vec<Vec<usize>>, i: usize, x: usize)
    requires
        i < old(v).len(),
    ensures
        final(v).len() == old(v).len(),
        final(v)@[i as int]@ == old(v)@[i as int]@.push(x),
        forall|j: int| 0 <= j < old(v).len() && j != i ==> final(v)@[j] == old(v)@[j],
{
    let mut row: Vec<usize> = Vec::new();
    v.set_and_swap(i, &mut row);
    row.push(x);
    v.set_and_swap(i, &mut row);
}

/// `new` continues the run log `old`.
pub open spec fn log_extends(old: Seq<usize>, new: Seq<usize>) -> bool {
    old.len() <= new.len() && new.subrange(0, old.len() as int) == old
}

/// The effects run between `before` and `after`, in order.
pub open spec fn new_runs<V: Clone + PartialEq + 'static>(before: Runtime<V>, after: Runtime<V>) -> Seq<usize> {
    after.run_log().subrange(before.run_log().len() as int, after.run_log().len() as int)
}

/// How the graph may change between two moments: it stays well formed, no signal or
/// effect goes away, the run log is only extended, a disposed effect stays disposed and
/// never runs, and every queued effect stays queued until it runs or is disposed.
pub open spec fn graph_grows<V: Clone + PartialEq + 'static>(before: Runtime<V>, after: Runtime<V>) -> bool {
    &&& after.wf()
    &&& after.n_signals() >= before.n_signals()
    &&& after.n_effects() >= before.n_effects()
    &&& log_extends(before.run_log(), after.run_log())
    &&& log_extends(before.cleanup_log(), after.cleanup_log())
    &&& forall|e: int| 0 <= e < before.n_effects() && !before.is_alive(e) ==> !#[trigger] after.is_alive(e)
    &&& forall|k: int| before.run_log().len() <= k < after.run_log().len() ==>
            #[trigger] after.run_log()[k] >= before.n_effects() || before.is_alive(after.run_log()[k] as int)
    &&& forall|e: int| 0 <= e < before.n_effects() && #[trigger] before.is_scheduled(e) ==>
            after.is_scheduled(e) || !after.is_alive(e) || new_runs(before, after).contains(e as usize)
}

/// Cleanup slots `slots` were invoked in this order between `before` and `after` (other
/// invocations, such as those of nested scopes disposed by a cleanup, may come between).
pub open spec fn cleanups_invoked<V: Clone + PartialEq + 'static>(before: Runtime<V>, after: Runtime<V>, slots: Seq<usize>) -> bool {
    exists|pos: Seq<int>| {
        &&& pos.len() == slots.len()
        &&& forall|k: int| 0 <= k < pos.len() ==> {
            &&& before.cleanup_log().len() <= #[trigger] pos[k] < after.cleanup_log().len()
            &&& after.cleanup_log()[pos[k]] == slots[k]
        }
        &&& forall|k: int, l: int| 0 <= k < l < pos.len() ==> pos[k] < pos[l]
    }
}

/// What a closure handed the runtime must leave of it: the graph only grows (see
/// [`graph_grows`]), the batch depth and flushing flag are as they were, and the context
/// stack keeps its frames (it may provide into the top one).
pub open spec fn keeps_graph<V: Clone + PartialEq + 'static>(before: Runtime<V>, after: Runtime<V>) -> bool {
    &&& graph_grows(before, after)
    &&& after.batch_depth() == before.batch_depth()
    &&& after.is_flushing() == before.is_flushing()
    &&& frames_kept(before.context_frames(), after.context_frames())
}

/// The context stack has the same frames, but for what was provided into the top one.
pub open spec fn frames_kept<V>(before: Seq<Seq<(String, V)>>, after: Seq<Seq<(String, V)>>) -> bool {
    &&& after.len() == before.len()
    &&& after.drop_last() == before.drop_last()
}

/// A closure the runtime may call accepts every well-formed runtime.  (The functions that
/// take a closure also ask that it keep the runtime, see [`keeps_graph`]: closures that
/// read and write signals through this module's functions do; one that puts another
/// runtime in place of the one it is handed does not.)
pub open spec fn accepts_graph<V: Clone + PartialEq + 'static, R, F: FnOnce(&mut Runtime<V>) -> R>(f: F) -> bool {
    forall|a: &mut Runtime<V>| a.wf() ==> #[trigger] call_requires(f, (a,))
}

proof fn lemma_log_refl(a: Seq<usize>)
    ensures
        log_extends(a, a),
{
    assert(a.subrange(0, a.len() as int) =~= a);
}

proof fn lemma_log_at(a: Seq<usize>, b: Seq<usize>, k: int)
    requires
        log_extends(a, b),
        0 <= k < a.len(),
    ensures
        b[k] == a[k],
{
    assert(b.subrange(0, a.len() as int)[k] == b[k]);
}

proof fn lemma_log_trans(a: Seq<usize>, b: Seq<usize>, c: Seq<usize>)
    requires
        log_extends(a, b),
        log_extends(b, c),
    ensures
        log_extends(a, c),
{
    assert(c.subrange(0, a.len() as int) =~= b.subrange(0, a.len() as int));
}

/// Glitch-free scheduling: every effect a flush has run so far was, when it was taken
/// from the queue, the queued effect that runs first (least height, then least id).  An
/// effect that reads a memo gets, when it reads it, a height above the memo's effect, so
/// while both are queued the memo is recomputed first.
pub proof fn law_flush_takes_first<V: Clone + PartialEq + 'static>(rt: Runtime<V>)
    requires
        rt.wf(),
    ensures
        forall|k: int| 0 <= k < rt.flush_steps().len() ==> taken_first(#[trigger] rt.flush_steps()[k]),
{
}

/// The flush queue holds each scheduled effect exactly once: an effect is queued by the
/// first write to one of its signals, and later writes before it runs leave the queue as
/// it is, so a flush takes it once for all of them.
pub proof fn law_queue_once<V: Clone + PartialEq + 'static>(rt: Runtime<V>)
    requires
        rt.wf(),
    ensures
        no_dup(ids_of(rt.pending())),
        forall|e: int| 0 <= e < rt.n_effects() ==>
            (#[trigger] rt.is_scheduled(e) <==> ids_of(rt.pending()).contains(e as usize)),
{
    assert forall|e: int| 0 <= e < rt.n_effects() implies
        (#[trigger] rt.is_scheduled(e) <==> ids_of(rt.pending()).contains(e as usize)) by {
        assert(rt.alive.len() == rt.alive@.len());
        let u = e as usize;
        assert(u as int == e);
        assert(rt.scheduled@[u as int] <==> ids_of(rt.pending@).contains(u));
    }
}

/// `graph_grows` is reflexive on well-formed graphs.
proof fn lemma_grows_refl<V: Clone + PartialEq + 'static>(a: Runtime<V>)
    requires
        a.wf(),
    ensures
        graph_grows(a, a),
{
    lemma_log_refl(a.run_log());
    lemma_log_refl(a.cleanup_log());
    lemma_log_refl(a.cleanup_log());
    assert(new_runs(a, a) =~= Seq::<usize>::empty());
}

/// Every well-formed runtime keeps itself.
pub proof fn lemma_keeps_refl<V: Clone + PartialEq + 'static>(a: Runtime<V>)
    requires
        a.wf(),
    ensures
        keeps_graph(a, a),
{
    lemma_grows_refl(a);
}

/// Keeping the graph is transitive: a closure that calls several functions that each keep
/// the runtime keeps it too.
pub proof fn lemma_keeps_trans<V: Clone + PartialEq + 'static>(a: Runtime<V>, b: Runtime<V>, c: Runtime<V>)
    requires
        keeps_graph(a, b),
        keeps_graph(b, c),
    ensures
        keeps_graph(a, c),
{
    lemma_grows_trans(a, b, c);
}

/// `graph_grows` is transitive.
proof fn lemma_grows_trans<V: Clone + PartialEq + 'static>(a: Runtime<V>, b: Runtime<V>, c: Runtime<V>)
    requires
        graph_grows(a, b),
        graph_grows(b, c),
    ensures
        graph_grows(a, c),
{
    lemma_log_trans(a.run_log(), b.run_log(), c.run_log());
    lemma_log_trans(a.cleanup_log(), b.cleanup_log(), c.cleanup_log());
    assert forall|k: int| a.run_log().len() <= k < c.run_log().len() implies
        #[trigger] c.run_log()[k] >= a.n_effects() || a.is_alive(c.run_log()[k] as int) by {
        if k < b.run_log().len() {
            lemma_log_at(b.run_log(), c.run_log(), k);
        } else {
            let x = c.run_log()[k];
            if x < a.n_effects() && !a.is_alive(x as int) {
                assert(!b.is_alive(x as int));
            }
        }
    }
    assert forall|e: int| 0 <= e < a.n_effects() && #[trigger] a.is_scheduled(e) implies
        c.is_scheduled(e) || !c.is_alive(e) || new_runs(a, c).contains(e as usize) by {
        if b.is_scheduled(e) {
            if new_runs(b, c).contains(e as usize) {
                let k = choose|k: int| 0 <= k < new_runs(b, c).len() && new_runs(b, c)[k] == e as usize;
                assert(new_runs(a, c)[k + b.run_log().len() - a.run_log().len()] == e as usize);
            }
        } else if !b.is_alive(e) {
        } else {
            let k = choose|k: int| 0 <= k < new_runs(a, b).len() && new_runs(a, b)[k] == e as usize;
            lemma_log_at(b.run_log(), c.run_log(), k + a.run_log().len());
            assert(new_runs(a, c)[k] == e as usize);
        }
    }
}

/// Adding a new live, unscheduled effect keeps the graph growing.
proof fn lemma_grows_push<V: Clone + PartialEq + 'static>(a: Runtime<V>, b: Runtime<V>)
    requires
        a.wf(),
        b.wf(),
        b.alive@ == a.alive@.push(true),
        b.scheduled@ == a.scheduled@.push(false),
        b.runs == a.runs,
        b.cleaned == a.cleaned,
        b.values@.len() >= a.values@.len(),
    ensures
        graph_grows(a, b),
{
    lemma_log_refl(a.run_log());
    lemma_log_refl(a.cleanup_log());
    assert forall|e: int| 0 <= e < a.n_effects() && !a.is_alive(e) implies !#[trigger] b.is_alive(e) by {
        assert(b.alive@[e] == a.alive@[e]);
    }
    assert forall|e: int| 0 <= e < a.n_effects() && #[trigger] a.is_scheduled(e) implies
        b.is_scheduled(e) || !b.is_alive(e) || new_runs(a, b).contains(e as usize) by {
        assert(b.scheduled@[e] == a.scheduled@[e]);
    }
}

/// Disposing effect `x` keeps the graph growing.
proof fn lemma_grows_kill<V: Clone + PartialEq + 'static>(a: Runtime<V>, b: Runtime<V>, x: int)
    requires
        a.wf(),
        b.wf(),
        0 <= x < a.alive@.len(),
        b.alive@ == a.alive@.update(x, false),
        b.scheduled@ == a.scheduled@,
        b.runs == a.runs,
        b.cleaned == a.cleaned,
        b.values@.len() == a.values@.len(),
    ensures
        graph_grows(a, b),
{
    lemma_log_refl(a.run_log());
    lemma_log_refl(a.cleanup_log());
    assert forall|e: int| 0 <= e < a.n_effects() && #[trigger] a.is_scheduled(e) implies
        b.is_scheduled(e) || !b.is_alive(e) || new_runs(a, b).contains(e as usize) by {
        assert(b.scheduled@[e] == a.scheduled@[e]);
    }
}

/// `graph_grows` across a step that changes none of the effect tables nor the run log.
proof fn lemma_grows_same<V: Clone + PartialEq + 'static>(a: Runtime<V>, b: Runtime<V>)
    requires
        a.wf(),
        b.wf(),
        b.alive@ == a.alive@,
        b.scheduled@ == a.scheduled@,
        b.runs == a.runs,
        b.cleaned == a.cleaned,
        b.values@.len() >= a.values@.len(),
    ensures
        graph_grows(a, b),
{
    lemma_log_refl(a.run_log());
    lemma_log_refl(a.cleanup_log());
}

impl<V: Clone + PartialEq + 'static> Runtime<V> {
    /// Everything but the subscriber/dependency tables is as in `old`.
    pub closed spec fn same_except_links(&self, old: &Runtime<V>) -> bool {
        &&& self.steps == old.steps
        &&& self.values@ == old.values@
        &&& self.src@ == old.src@
        &&& self.alive@ == old.alive@
        &&& self.scheduled@ == old.scheduled@
        &&& self.memo_out@ == old.memo_out@
        &&& self.slot@ == old.slot@
        &&& self.current == old.current
        &&& self.pending@ == old.pending@
        &&& self.flushing == old.flushing
        &&& self.batch == old.batch
        &&& self.owners@ == old.owners@
        &&& self.cleanup_frames@ == old.cleanup_frames@
        &&& self.contexts@ == old.contexts@
        &&& self.runs == old.runs
        &&& self.cleaned == old.cleaned
    }

    /// Records that the running effect (if any, and alive) read signal `s`: it becomes a
    /// subscriber of `s`, `s` joins its deps, and its height rises to at least one more
    /// than the source height of `s`.
    fn track(&mut self, s: usize)
        requires
            old(self).wf(),
            s < old(self).n_signals(),
        ensures
            final(self).wf(),
            final(self).same_except_links(old(self)),
            forall|e: usize| e < old(self).n_effects() && old(self).tracking() != Some(e)
                ==> final(self).height_of(e as int) == old(self).height_of(e as int),
            match old(self).tracking() {
                Some(e) => {
                    if old(self).is_alive(e as int) {
                        &&& final(self).subscribers(s as int).contains(e)
                        &&& final(self).deps_of(e as int).contains(s)
                        &&& final(self).height_of(e as int) >= old(self).height_of(e as int)
                        &&& (old(self).src_height(s as int) < usize::MAX ==>
                                final(self).height_of(e as int) > old(self).src_height(s as int))
                    } else {
                        final(self).subs@ == old(self).subs@ && final(self).deps@ == old(self).deps@
                    }
                },
                None => final(self).subs@ == old(self).subs@ && final(self).deps@ == old(self).deps@
                    && final(self).height@ == old(self).height@,
            },
            forall|s2: int| 0 <= s2 < old(self).n_signals() && s2 != s ==>
                final(self).subscribers(s2) == old(self).subscribers(s2),
    {
        if let Some(e) = self.current {
            if self.alive[e] {
                if !contains_usize(&self.subs[s], e) {
                    let ghost old_self = *self;
                    proof {
                        // e does not list s yet either
                        if self.deps@[e as int]@.contains(s) {
                            let k = choose|k: int| 0 <= k < self.deps@[e as int]@.len() && self.deps@[e as int]@[k] == s;
                            assert(self.subs@[s as int]@.contains(e));
                        }
                    }
                    push_at(&mut self.subs, s, e);
                    push_at(&mut self.deps, e, s);
                    let sh: usize = match self.src[s] {
                        Some(m) => self.height[m],
                        None => 0,
                    };
                    let want: usize = if sh < usize::MAX { sh + 1 } else { sh };
                    if want > self.height[e] {
                        self.height.set(e, want);
                    }
                    proof {
                        self.lemma_track_wf(old_self, s, e);
                        lemma_contains_push(old_self.subs@[s as int]@, e, e);
                        lemma_contains_push(old_self.deps@[e as int]@, s, s);
                    }
                } else {
                    proof {
                        let k = choose|k: int| 0 <= k < self.subs@[s as int]@.len() && self.subs@[s as int]@[k] == e;
                        assert(self.subs@[s as int]@[k] == e);
                        assert(self.deps@[e as int]@.contains(s));
                    }
                    let sh: usize = match self.src[s] {
                        Some(m) => self.height[m],
                        None => 0,
                    };
                    let want: usize = if sh < usize::MAX { sh + 1 } else { sh };
                    if want > self.height[e] {
                        self.height.set(e, want);
                    }
                }
            }
        }
    }

    proof fn lemma_track_wf(&self, old_self: Runtime<V>, s: usize, e: usize)
        requires
            old_self.wf(),
            s < old_self.n_signals(),
            e < old_self.n_effects(),
            old_self.alive@[e as int],
            !old_self.subs@[s as int]@.contains(e),
            !old_self.deps@[e as int]@.contains(s),
            self.same_except_links(&old_self),
            self.height@.len() == old_self.height@.len(),
            self.subs@.len() == old_self.subs@.len(),
            self.deps@.len() == old_self.deps@.len(),
            self.subs@[s as int]@ == old_self.subs@[s as int]@.push(e),
            self.deps@[e as int]@ == old_self.deps@[e as int]@.push(s),
            forall|j: int| 0 <= j < old_self.subs@.len() && j != s ==> self.subs@[j] == old_self.subs@[j],
            forall|j: int| 0 <= j < old_self.deps@.len() && j != e ==> self.deps@[j] == old_self.deps@[j],
        ensures
            self.wf(),
    {
        assert(self.lens_ok());
        assert forall|t: int| 0 <= t < self.subs@.len() implies no_dup(#[trigger] self.subs@[t]@) by {
            if t == s {
                let r = self.subs@[t]@;
                assert forall|i: int, j: int| 0 <= i < r.len() && 0 <= j < r.len() && i != j implies r[i] != r[j] by {
                    if i == r.len() - 1 {
                        assert(old_self.subs@[s as int]@.contains(r[j]));
                    } else if j == r.len() - 1 {
                        assert(old_self.subs@[s as int]@.contains(r[i]));
                    }
                }
            }
        }
        assert forall|t: int, k: int| 0 <= t < self.subs@.len() && 0 <= k < self.subs@[t]@.len() implies {
            let x = #[trigger] self.subs@[t]@[k];
            &&& x < self.alive@.len()
            &&& self.alive@[x as int]
            &&& self.deps@[x as int]@.contains(t as usize)
        } by {
            let x = self.subs@[t]@[k];
            if t == s && k == self.subs@[t]@.len() - 1 {
                lemma_contains_push(old_self.deps@[e as int]@, s, s);
            } else {
                assert(old_self.subs@[t]@[k] == x);
                assert(old_self.deps@[x as int]@.contains(t as usize));
                if x == e {
                    lemma_contains_push(old_self.deps@[e as int]@, s, t as usize);
                }
            }
        }
        assert(self.subs_ok());
        assert forall|f: int| 0 <= f < self.deps@.len() implies no_dup(#[trigger] self.deps@[f]@) by {
            if f == e {
                let r = self.deps@[f]@;
                assert forall|i: int, j: int| 0 <= i < r.len() && 0 <= j < r.len() && i != j implies r[i] != r[j] by {
                    if i == r.len() - 1 {
                        assert(old_self.deps@[e as int]@.contains(r[j]));
                    } else if j == r.len() - 1 {
                        assert(old_self.deps@[e as int]@.contains(r[i]));
                    }
                }
            }
        }
        assert forall|f: int, k: int| 0 <= f < self.deps@.len() && 0 <= k < self.deps@[f]@.len() implies {
            let x = #[trigger] self.deps@[f]@[k];
            &&& x < self.subs@.len()
            &&& self.subs@[x as int]@.contains(f as usize)
        } by {
            let x = self.deps@[f]@[k];
            if f == e && k == self.deps@[f]@.len() - 1 {
                lemma_contains_push(old_self.subs@[s as int]@, e, e);
            } else {
                assert(old_self.deps@[f]@[k] == x);
                assert(old_self.subs@[x as int]@.contains(f as usize));
                if x == s {
                    lemma_contains_push(old_self.subs@[s as int]@, e, f as usize);
                }
            }
        }
        assert forall|f: int| 0 <= f < self.deps@.len() && !self.alive@[f] implies (#[trigger] self.deps@[f]@).len() == 0 by {
            assert(f != e);
        }
        assert(self.deps_ok());
    }
}


impl<V: Clone + PartialEq + 'static> Runtime<V> {
    /// Subscriber tables are consistent except that effect `e` may still be listed under
    /// the signals in `rest` (while `e` itself lists nothing).
    closed spec fn subs_ok_except(&self, e: usize, rest: Seq<usize>) -> bool {
        &&& forall|s: int| 0 <= s < self.subs@.len() ==> no_dup(#[trigger] self.subs@[s]@)
        &&& forall|s: int, k: int|
            0 <= s < self.subs@.len() && 0 <= k < self.subs@[s]@.len() ==> {
                let x = #[trigger] self.subs@[s]@[k];
                &&& x < self.alive@.len()
                &&& self.alive@[x as int]
                &&& (x == e ==> rest.contains(s as usize))
                &&& (x != e ==> self.deps@[x as int]@.contains(s as usize))
            }
    }

    proof fn lemma_remove_step(before: Runtime<V>, after: Runtime<V>, t: usize, e: usize, rest0: Seq<usize>)
        requires
            rest0.len() > 0,
            rest0[0] == t,
            t < before.subs@.len(),
            before.subs@.len() <= usize::MAX,
            before.subs_ok_except(e, rest0),
            after.subs@.len() == before.subs@.len(),
            after.subs@[t as int]@ == without(before.subs@[t as int]@, e),
            forall|u: int| 0 <= u < before.subs@.len() && u != t ==> after.subs@[u] == before.subs@[u],
            after.alive@ == before.alive@,
            after.deps@ == before.deps@,
            forall|y: usize| without(before.subs@[t as int]@, e).contains(y) <==> (before.subs@[t as int]@.contains(y) && y != e),
            no_dup(before.subs@[t as int]@) ==> no_dup(without(before.subs@[t as int]@, e)),
        ensures
            after.subs_ok_except(e, rest0.drop_first()),
    {
        let rest = rest0.drop_first();
        assert forall|u: int| 0 <= u < after.subs@.len() implies no_dup(#[trigger] after.subs@[u]@) by {
            if u != t {
                assert(after.subs@[u] == before.subs@[u]);
            }
        }
        assert forall|u: int, k: int| 0 <= u < after.subs@.len() && 0 <= k < after.subs@[u]@.len() implies {
            let x = #[trigger] after.subs@[u]@[k];
            &&& x < after.alive@.len()
            &&& after.alive@[x as int]
            &&& (x == e ==> rest.contains(u as usize))
            &&& (x != e ==> after.deps@[x as int]@.contains(u as usize))
        } by {
            let x = after.subs@[u]@[k];
            if u == t {
                assert(after.subs@[u]@.contains(x));
                assert(before.subs@[u]@.contains(x));
                assert(x != e);
                let k2 = choose|k2: int| 0 <= k2 < before.subs@[u]@.len() && before.subs@[u]@[k2] == x;
                assert(before.subs@[u]@[k2] == x);
            } else {
                assert(after.subs@[u] == before.subs@[u]);
                assert(before.subs@[u]@[k] == x);
                if x == e {
                    assert(rest0.contains(u as usize));
                    let j = choose|j: int| 0 <= j < rest0.len() && rest0[j] == u as usize;
                    assert(j != 0);
                    assert(rest[j - 1] == rest0[j]);
                    assert(rest.contains(u as usize));
                }
            }
        }
    }

    /// Unsubscribes effect `e` from every signal it read and empties its deps
    /// (the start of every re-run, and part of disposal).
    fn clear_deps(&mut self, e: usize)
        requires
            old(self).wf(),
            e < old(self).n_effects(),
        ensures
            final(self).wf(),
            final(self).same_except_links(old(self)),
            final(self).height@ == old(self).height@,
            final(self).deps_of(e as int).len() == 0,
            forall|s: int| 0 <= s < final(self).n_signals() ==> !final(self).subscribers(s).contains(e),
            forall|s: int, f: usize| 0 <= s < final(self).n_signals() && f != e ==>
                (final(self).subscribers(s).contains(f) <==> old(self).subscribers(s).contains(f)),
            forall|f: int| 0 <= f < final(self).n_effects() && f != e ==>
                final(self).deps_of(f) == old(self).deps_of(f),
    {
        let ghost old_self = *self;
        let mut ds: Vec<usize> = Vec::new();
        self.deps.set_and_swap(e, &mut ds);
        let ghost emptyv = self.deps@[e as int];
        proof {
            assert forall|t: int, k: int| 0 <= t < self.subs@.len() && 0 <= k < self.subs@[t]@.len() implies {
                let x = #[trigger] self.subs@[t]@[k];
                &&& x < self.alive@.len()
                &&& self.alive@[x as int]
                &&& (x == e ==> ds@.contains(t as usize))
                &&& (x != e ==> self.deps@[x as int]@.contains(t as usize))
            } by {
                let x = self.subs@[t]@[k];
                assert(old_self.deps@[x as int]@.contains(t as usize));
            }
            assert(ds@.subrange(0, ds@.len() as int) == ds@);
            assert(self.subs_ok_except(e, ds@));
            assert(ds@.subrange(0, 0) =~= Seq::<usize>::empty());
        }
        let mut i: usize = 0;
        while i < ds.len()
            invariant
                old_self.wf(),
                e < old_self.alive@.len(),
                ds@ == old_self.deps@[e as int]@,
                0 <= i <= ds.len(),
                self.same_except_links(&old_self),
                self.height@ == old_self.height@,
                self.subs@.len() == old_self.subs@.len(),
                self.deps@ == old_self.deps@.update(e as int, emptyv),
                emptyv@.len() == 0,
                self.subs_ok_except(e, ds@.subrange(i as int, ds@.len() as int)),
                forall|t: int, f: usize| 0 <= t < self.subs@.len() && f != e ==>
                    (self.subs@[t]@.contains(f) <==> old_self.subs@[t]@.contains(f)),
            decreases ds.len() - i,
        {
            let t = ds[i];
            proof {
                assert(old_self.deps@[e as int]@[i as int] == t);
            }
            let row = remove_usize(&self.subs[t], e);
            let ghost before = *self;
            self.subs.set(t, row);
            proof {
                lemma_without_props(before.subs@[t as int]@, e);
                assert(ds@.subrange(i as int, ds@.len() as int)[0] == t);
                assert(ds@.subrange(i as int, ds@.len() as int).drop_first() == ds@.subrange(i + 1, ds@.len() as int));
                assert(before.subs@.len() <= usize::MAX) by {
                    assert(before.subs.len() == before.subs@.len());
                }
                Self::lemma_remove_step(before, *self, t, e, ds@.subrange(i as int, ds@.len() as int));
                assert forall|u: int, f: usize| 0 <= u < self.subs@.len() && f != e implies
                    (self.subs@[u]@.contains(f) <==> old_self.subs@[u]@.contains(f)) by {
                    if u != t {
                        assert(self.subs@[u] == before.subs@[u]);
                    }
                }
            }
            i += 1;
        }
        proof {
            assert(self.subs@.len() <= usize::MAX) by {
                assert(self.subs.len() == self.subs@.len());
            }
            assert(self.deps@.len() <= usize::MAX) by {
                assert(self.deps.len() == self.deps@.len());
            }
            assert forall|t: int| 0 <= t < self.subs@.len() implies !(#[trigger] self.subs@[t]@).contains(e) by {
                if self.subs@[t]@.contains(e) {
                    let k = choose|k: int| 0 <= k < self.subs@[t]@.len() && self.subs@[t]@[k] == e;
                    assert(self.subs@[t]@[k] == e);
                    assert(ds@.subrange(ds@.len() as int, ds@.len() as int).contains(t as usize));
                }
            }
            assert forall|t: int, k: int| 0 <= t < self.subs@.len() && 0 <= k < self.subs@[t]@.len() implies {
                let x = #[trigger] self.subs@[t]@[k];
                &&& x < self.alive@.len()
                &&& self.alive@[x as int]
                &&& self.deps@[x as int]@.contains(t as usize)
            } by {
                let x = self.subs@[t]@[k];
                if x == e {
                    assert(self.subs@[t]@.contains(e));
                }
            }
            assert forall|f: int, k: int| 0 <= f < self.deps@.len() && 0 <= k < self.deps@[f]@.len() implies {
                let x = #[trigger] self.deps@[f]@[k];
                &&& x < self.subs@.len()
                &&& self.subs@[x as int]@.contains(f as usize)
            } by {
                let x = self.deps@[f]@[k];
                assert(f != e);
                assert(old_self.deps@[f]@[k] == x);
                assert(old_self.subs@[x as int]@.contains(f as usize));
                assert(x < self.subs@.len());
                assert(self.subs@[x as int]@.contains(f as usize) <==> old_self.subs@[x as int]@.contains(f as usize));
            }
            assert forall|f: int| 0 <= f < self.deps@.len() implies no_dup(#[trigger] self.deps@[f]@) by {
                if f != e {
                    assert(self.deps@[f] == old_self.deps@[f]);
                } else {
                    assert(self.deps@[f]@ =~= Seq::<usize>::empty());
                }
            }
            assert forall|f: int| 0 <= f < self.deps@.len() && !self.alive@[f] implies (#[trigger] self.deps@[f]@).len() == 0 by {
                if f != e {
                    assert(self.deps@[f] == old_self.deps@[f]);
                }
            }
            assert(self.subs_ok());
            assert(self.deps_ok());
            assert(self.lens_ok());
        }
    }
}


impl<V: Clone + PartialEq + 'static> Runtime<V> {
    /// Everything but the scheduling state is as in `old`.
    pub closed spec fn same_except_schedule(&self, old: &Runtime<V>) -> bool {
        &&& self.values@ == old.values@
        &&& self.subs@ == old.subs@
        &&& self.src@ == old.src@
        &&& self.alive@ == old.alive@
        &&& self.deps@ == old.deps@
        &&& self.height@ == old.height@
        &&& self.memo_out@ == old.memo_out@
        &&& self.slot@ == old.slot@
        &&& self.current == old.current
        &&& self.flushing == old.flushing
        &&& self.batch == old.batch
        &&& self.owners@ == old.owners@
        &&& self.cleanup_frames@ == old.cleanup_frames@
        &&& self.contexts@ == old.contexts@
        &&& self.runs == old.runs
        &&& self.cleaned == old.cleaned
    }

    /// Queues effect `e` at its current height, unless it is dead or already queued.
    fn schedule(&mut self, e: usize)
        requires
            old(self).wf(),
            e < old(self).n_effects(),
        ensures
            final(self).wf(),
            final(self).same_except_schedule(old(self)),
            if old(self).is_alive(e as int) && !old(self).is_scheduled(e as int) {
                &&& final(self).pending() == old(self).pending().push((old(self).height_of(e as int), e))
                &&& final(self).scheduled@ == old(self).scheduled@.update(e as int, true)
            } else {
                &&& final(self).pending() == old(self).pending()
                &&& final(self).scheduled@ == old(self).scheduled@
            },
    {
        if self.alive[e] && !self.scheduled[e] {
            let ghost old_self = *self;
            let h = self.height[e];
            self.scheduled.set(e, true);
            self.pending.push((h, e));
            proof {
                lemma_ids_of_push(old_self.pending@, (h, e));
                let ids0 = ids_of(old_self.pending@);
                let ids = ids_of(self.pending@);
                assert(!ids0.contains(e));
                assert forall|i: int, j: int| 0 <= i < ids.len() && 0 <= j < ids.len() && i != j implies ids[i] != ids[j] by {
                    if i == ids.len() - 1 {
                        assert(ids0.contains(ids[j]));
                    } else if j == ids.len() - 1 {
                        assert(ids0.contains(ids[i]));
                    }
                }
                assert forall|f: usize| f < self.scheduled@.len() implies
                    (#[trigger] self.scheduled@[f as int] <==> ids.contains(f)) by {
                    lemma_contains_push(ids0, e, f);
                    if f != e {
                        assert(self.scheduled@[f as int] == old_self.scheduled@[f as int]);
                    }
                }
                assert forall|k: int| 0 <= k < self.pending@.len() implies (#[trigger] self.pending@[k]).1 < self.alive@.len() by {
                    if k < old_self.pending@.len() {
                        assert(self.pending@[k] == old_self.pending@[k]);
                    }
                }
            }
        }
    }

    /// Sets signal `s` to `v` and queues its live subscribers that are not queued yet,
    /// in subscription order.  Runs nothing.
    fn write(&mut self, s: usize, v: V)
        requires
            old(self).wf(),
            s < old(self).n_signals(),
        ensures
            final(self).wf(),
            final(self).run_log() == old(self).run_log(),
            final(self).cleaned == old(self).cleaned,
            final(self).values@ == old(self).values@.update(s as int, v),
            final(self).subs@ == old(self).subs@,
            final(self).deps@ == old(self).deps@,
            final(self).height@ == old(self).height@,
            final(self).alive@ == old(self).alive@,
            final(self).current == old(self).current,
            final(self).flushing == old(self).flushing,
            final(self).batch == old(self).batch,
            final(self).owners@ == old(self).owners@,
            final(self).cleanup_frames@ == old(self).cleanup_frames@,
            final(self).contexts@ == old(self).contexts@,
            final(self).src@ == old(self).src@,
            final(self).memo_out@ == old(self).memo_out@,
            final(self).slot@ == old(self).slot@,
            forall|e: usize| e < old(self).n_effects() ==>
                (final(self).is_scheduled(e as int) <==> (old(self).is_scheduled(e as int)
                    || old(self).subscribers(s as int).contains(e))),
            final(self).pending().len() >= old(self).pending().len(),
            final(self).pending().subrange(0, old(self).pending().len() as int) == old(self).pending(),
            forall|k: int| old(self).pending().len() <= k < final(self).pending().len() ==> {
                let p = #[trigger] final(self).pending()[k];
                &&& old(self).subscribers(s as int).contains(p.1)
                &&& !old(self).is_scheduled(p.1 as int)
                &&& p.0 == old(self).height_of(p.1 as int)
            },
    {
        let ghost old_self = *self;
        self.values.set(s, v);
        let n = self.subs[s].len();
        let mut i: usize = 0;
        while i < n
            invariant
                old_self.wf(),
                self.wf(),
                s < old_self.values@.len(),
                n == old_self.subs@[s as int]@.len(),
                0 <= i <= n,
                self.runs == old_self.runs,
                self.cleaned == old_self.cleaned,
                self.values@ == old_self.values@.update(s as int, v),
                self.subs@ == old_self.subs@,
                self.deps@ == old_self.deps@,
                self.height@ == old_self.height@,
                self.alive@ == old_self.alive@,
                self.current == old_self.current,
                self.flushing == old_self.flushing,
                self.batch == old_self.batch,
                self.owners@ == old_self.owners@,
                self.cleanup_frames@ == old_self.cleanup_frames@,
                self.contexts@ == old_self.contexts@,
                self.src@ == old_self.src@,
                self.memo_out@ == old_self.memo_out@,
                self.slot@ == old_self.slot@,
                self.scheduled@.len() == old_self.scheduled@.len(),
                forall|e: usize| e < old_self.alive@.len() ==>
                    (#[trigger] self.scheduled@[e as int] <==> (old_self.scheduled@[e as int]
                        || old_self.subs@[s as int]@.subrange(0, i as int).contains(e))),
                self.pending@.len() >= old_self.pending@.len(),
                self.pending@.subrange(0, old_self.pending@.len() as int) == old_self.pending@,
                forall|k: int| old_self.pending@.len() <= k < self.pending@.len() ==> {
                    let p = #[trigger] self.pending@[k];
                    &&& old_self.subs@[s as int]@.contains(p.1)
                    &&& !old_self.scheduled@[p.1 as int]
                    &&& p.0 == old_self.height@[p.1 as int]
                },
            decreases n - i,
        {
            let e = self.subs[s][i];
            let ghost before = *self;
            proof {
                assert(old_self.subs@[s as int]@[i as int] == e);
            }
            self.schedule(e);
            proof {
                let pre = old_self.subs@[s as int]@.subrange(0, i as int);
                let post = old_self.subs@[s as int]@.subrange(0, i + 1);
                assert(post == pre.push(e));
                assert(before.alive@[e as int]);
                assert forall|f: usize| f < old_self.alive@.len() implies
                    (self.scheduled@[f as int] <==> (old_self.scheduled@[f as int] || post.contains(f))) by {
                    lemma_contains_push(pre, e, f);
                    assert(before.scheduled@[f as int] <==> (old_self.scheduled@[f as int] || pre.contains(f)));
                    if f != e {
                        assert(self.scheduled@[f as int] == before.scheduled@[f as int]);
                    } else {
                        assert(self.scheduled@[f as int]);
                    }
                }
                assert(self.pending@.subrange(0, old_self.pending@.len() as int) == old_self.pending@) by {
                    assert(before.pending@.subrange(0, old_self.pending@.len() as int) == old_self.pending@);
                    if self.pending@ != before.pending@ {
                        assert(self.pending@.subrange(0, before.pending@.len() as int) == before.pending@);
                    }
                }
                assert forall|k: int| old_self.pending@.len() <= k < self.pending@.len() implies {
                    let p = #[trigger] self.pending@[k];
                    &&& old_self.subs@[s as int]@.contains(p.1)
                    &&& !old_self.scheduled@[p.1 as int]
                    &&& p.0 == old_self.height@[p.1 as int]
                } by {
                    if k < before.pending@.len() {
                        assert(self.pending@[k] == before.pending@[k]);
                    } else {
                        assert(self.pending@[k] == (old_self.height@[e as int], e));
                        assert(old_self.subs@[s as int]@[i as int] == e);
                        assert(!before.scheduled@[e as int]);
                        assert(!pre.contains(e)) by {
                            if pre.contains(e) {
                                let j = choose|j: int| 0 <= j < pre.len() && pre[j] == e;
                                assert(old_self.subs@[s as int]@[j] == e);
                            }
                        }
                    }
                }
            }
            i += 1;
        }
        proof {
            assert(old_self.subs@[s as int]@.subrange(0, n as int) == old_self.subs@[s as int]@);
            assert forall|e: usize| e < old_self.alive@.len() implies
                (self.scheduled@[e as int] <==> (old_self.scheduled@[e as int]
                    || old_self.subs@[s as int]@.contains(e))) by {
                assert(self.scheduled@[e as int] <==> (old_self.scheduled@[e as int]
                    || old_self.subs@[s as int]@.subrange(0, n as int).contains(e)));
            }
        }
    }

    /// `e` was the first entry of `old`'s queue in run order and is the one removed in `new`.
    pub closed spec fn popped(old: Runtime<V>, new: Runtime<V>, e: usize) -> bool {
        exists|i: int| {
            &&& 0 <= i < old.pending@.len()
            &&& old.pending@[i].1 == e
            &&& (forall|j: int| 0 <= j < old.pending@.len() ==>
                    runs_before(old.pending@[i], #[trigger] old.pending@[j]))
            &&& new.pending@ == old.pending@.remove(i)
            &&& new.scheduled@ == old.scheduled@.update(e as int, false)
            &&& e < old.alive@.len()
        }
    }

    /// Removes and returns the queued effect that runs first: least height, then least id.
    fn pop_next(&mut self) -> (r: Option<usize>)
        requires
            old(self).wf(),
        ensures
            final(self).wf(),
            r is None ==> old(self).pending().len() == 0 && *final(self) == *old(self),
            r matches Some(e) ==> Self::popped(*old(self), *final(self), e),
            r is Some ==> final(self).same_except_schedule(old(self)),
    {
        if self.pending.len() == 0 {
            return None;
        }
        let ghost old_self = *self;
        let mut best: usize = 0;
        let mut i: usize = 1;
        while i < self.pending.len()
            invariant
                self.pending@ == old_self.pending@,
                old_self.pending@.len() > 0,
                best < old_self.pending@.len(),
                1 <= i <= old_self.pending@.len(),
                forall|j: int| 0 <= j < i ==> runs_before(old_self.pending@[best as int], #[trigger] old_self.pending@[j]),
            decreases self.pending@.len() - i,
        {
            let (h, id) = self.pending[i];
            let (bh, bid) = self.pending[best];
            if h < bh || (h == bh && id < bid) {
                best = i;
            }
            i += 1;
        }
        let (_, e) = self.pending.remove(best);
        self.scheduled.set(e, false);
        proof {
            lemma_ids_of_remove(old_self.pending@, best as int);
            let ids0 = ids_of(old_self.pending@);
            let ids = ids_of(self.pending@);
            assert(ids0[best as int] == e);
            assert forall|a: int, b: int| 0 <= a < ids.len() && 0 <= b < ids.len() && a != b implies ids[a] != ids[b] by {
                let a0 = if a < best { a } else { a + 1 };
                let b0 = if b < best { b } else { b + 1 };
                assert(ids[a] == ids0[a0]);
                assert(ids[b] == ids0[b0]);
            }
            assert forall|f: usize| f < self.scheduled@.len() implies
                (#[trigger] self.scheduled@[f as int] <==> ids.contains(f)) by {
                if ids.contains(f) {
                    let a = choose|a: int| 0 <= a < ids.len() && ids[a] == f;
                    let a0 = if a < best { a } else { a + 1 };
                    assert(ids[a] == ids0[a0]);
                    assert(a0 != best);
                    assert(ids0.contains(f));
                }
                if f != e && ids0.contains(f) {
                    let a0 = choose|a0: int| 0 <= a0 < ids0.len() && ids0[a0] == f;
                    assert(a0 != best);
                    let a = if a0 < best { a0 } else { a0 - 1 };
                    assert(ids[a] == ids0[a0]);
                }
                if f == e && ids.contains(e) {
                    let a = choose|a: int| 0 <= a < ids.len() && ids[a] == e;
                    let a0 = if a < best { a } else { a + 1 };
                    assert(ids[a] == ids0[a0]);
                }
                if f != e {
                    assert(self.scheduled@[f as int] == old_self.scheduled@[f as int]);
                }
            }
            assert forall|k: int| 0 <= k < self.pending@.len() implies (#[trigger] self.pending@[k]).1 < self.alive@.len() by {
                let k0 = if k < best { k } else { k + 1 };
                assert(self.pending@[k] == old_self.pending@[k0]);
            }
            assert(self.scheduled@.len() == old_self.scheduled@.len());
            assert(old_self.pending@[best as int].1 == e);
            assert(self.pending@ == old_self.pending@.remove(best as int));
            assert(e < old_self.alive@.len());
            assert(forall|j: int| 0 <= j < old_self.pending@.len() ==>
                runs_before(old_self.pending@[best as int], #[trigger] old_self.pending@[j]));
            assert(self.same_except_schedule(&old_self));
            let bi = best as int;
            assert(0 <= bi < old_self.pending@.len() && old_self.pending@[bi].1 == e);
            assert(Self::popped(old_self, *self, e));
        }
        Some(e)
    }
}


impl<V: Clone + PartialEq + 'static> Runtime<V> {
    /// Adds a signal holding `v`; `src` is the memo effect producing it, if any.
    fn new_signal(&mut self, v: V, src: Option<usize>) -> (s: usize)
        requires
            old(self).wf(),
            src matches Some(e) ==> e < old(self).n_effects(),
        ensures
            final(self).wf(),
            s == old(self).n_signals(),
            final(self).values@ == old(self).values@.push(v),
            final(self).src@ == old(self).src@.push(src),
            final(self).subscribers(s as int).len() == 0,
            forall|t: int| 0 <= t < old(self).n_signals() ==> final(self).subs@[t] == old(self).subs@[t],
            final(self).subs@.len() == old(self).subs@.len() + 1,
            final(self).alive@ == old(self).alive@,
            final(self).deps@ == old(self).deps@,
            final(self).scheduled@ == old(self).scheduled@,
            final(self).height@ == old(self).height@,
            final(self).memo_out@ == old(self).memo_out@,
            final(self).slot@ == old(self).slot@,
            final(self).pending@ == old(self).pending@,
            final(self).current == old(self).current,
            final(self).flushing == old(self).flushing,
            final(self).batch == old(self).batch,
            final(self).owners@ == old(self).owners@,
            final(self).cleanup_frames@ == old(self).cleanup_frames@,
            final(self).contexts@ == old(self).contexts@,
            final(self).runs == old(self).runs,
            final(self).cleaned == old(self).cleaned,
    {
        let ghost old_self = *self;
        let s = self.values.len();
        self.values.push(v);
        self.subs.push(Vec::new());
        self.src.push(src);
        proof {
            assert forall|t: int| 0 <= t < self.subs@.len() implies no_dup(#[trigger] self.subs@[t]@) by {
                if t < old_self.subs@.len() {
                    assert(self.subs@[t] == old_self.subs@[t]);
                }
            }
            assert forall|t: int, k: int| 0 <= t < self.subs@.len() && 0 <= k < self.subs@[t]@.len() implies {
                let x = #[trigger] self.subs@[t]@[k];
                &&& x < self.alive@.len()
                &&& self.alive@[x as int]
                &&& self.deps@[x as int]@.contains(t as usize)
            } by {
                assert(t < old_self.subs@.len());
                assert(self.subs@[t] == old_self.subs@[t]);
            }
            assert forall|e: int, k: int| 0 <= e < self.deps@.len() && 0 <= k < self.deps@[e]@.len() implies {
                let x = #[trigger] self.deps@[e]@[k];
                &&& x < self.subs@.len()
                &&& self.subs@[x as int]@.contains(e as usize)
            } by {
                let x = self.deps@[e]@[k];
                assert(self.subs@[x as int] == old_self.subs@[x as int]);
            }
            assert forall|t: int| 0 <= t < self.src@.len() && (#[trigger] self.src@[t]) is Some implies
                self.src@[t]->0 < self.alive@.len() by {
                if t < old_self.src@.len() {
                    assert(self.src@[t] == old_self.src@[t]);
                }
            }
        }
        s
    }

    /// Adds a live effect with no deps, registered in the innermost owner frame.
    fn new_effect(&mut self, slot: usize, memo_out: Option<usize>) -> (e: usize)
        requires
            old(self).wf(),
            memo_out matches Some(s) ==> s < old(self).n_signals(),
        ensures
            final(self).wf(),
            e == old(self).n_effects(),
            final(self).n_effects() == old(self).n_effects() + 1,
            final(self).n_signals() == old(self).n_signals(),
            final(self).is_alive(e as int),
            final(self).deps_of(e as int).len() == 0,
            !final(self).is_scheduled(e as int),
            final(self).height_of(e as int) == 0,
            final(self).memo_of(e as int) == memo_out,
            forall|t: int| 0 <= t < old(self).n_signals() ==> final(self).subscribers(t) == old(self).subscribers(t),
            final(self).values@ == old(self).values@,
            final(self).pending() == old(self).pending(),
            final(self).tracking() == old(self).tracking(),
            final(self).is_flushing() == old(self).is_flushing(),
            final(self).batch_depth() == old(self).batch_depth(),
            final(self).context_frames() == old(self).context_frames(),
            final(self).cleanup_frames() == old(self).cleanup_frames(),
            final(self).alive@ == old(self).alive@.push(true),
            final(self).scheduled@ == old(self).scheduled@.push(false),
            final(self).runs == old(self).runs,
            final(self).cleaned == old(self).cleaned,
            old(self).owner_frames().len() == 0 ==> final(self).owner_frames() == old(self).owner_frames(),
            old(self).owner_frames().len() > 0 ==> final(self).owner_frames() == old(self).owner_frames().update(
                old(self).owner_frames().len() - 1, old(self).owner_frames().last().push(e)),
    {
        let ghost old_self = *self;
        let e = self.alive.len();
        self.alive.push(true);
        self.deps.push(Vec::new());
        self.scheduled.push(false);
        self.height.push(0);
        self.memo_out.push(memo_out);
        self.slot.push(slot);
        let nf = self.owners.len();
        if nf > 0 {
            push_at(&mut self.owners, nf - 1, e);
        }
        proof {
            assert forall|t: int, k: int| 0 <= t < self.subs@.len() && 0 <= k < self.subs@[t]@.len() implies {
                let x = #[trigger] self.subs@[t]@[k];
                &&& x < self.alive@.len()
                &&& self.alive@[x as int]
                &&& self.deps@[x as int]@.contains(t as usize)
            } by {
                let x = self.subs@[t]@[k];
                assert(self.deps@[x as int] == old_self.deps@[x as int]);
            }
            assert forall|f: int| 0 <= f < self.deps@.len() implies no_dup(#[trigger] self.deps@[f]@) by {
                if f < old_self.deps@.len() {
                    assert(self.deps@[f] == old_self.deps@[f]);
                }
            }
            assert forall|f: int| 0 <= f < self.deps@.len() && !self.alive@[f] implies (#[trigger] self.deps@[f]@).len() == 0 by {
                assert(f < old_self.deps@.len());
                assert(self.deps@[f] == old_self.deps@[f]);
            }
            assert forall|f: int, k: int| 0 <= f < self.deps@.len() && 0 <= k < self.deps@[f]@.len() implies {
                let x = #[trigger] self.deps@[f]@[k];
                &&& x < self.subs@.len()
                &&& self.subs@[x as int]@.contains(f as usize)
            } by {
                assert(f < old_self.deps@.len());
                assert(self.deps@[f] == old_self.deps@[f]);
            }
            assert forall|f: int| 0 <= f < self.memo_out@.len() && (#[trigger] self.memo_out@[f]) is Some implies
                self.memo_out@[f]->0 < self.values@.len() by {
                if f < old_self.memo_out@.len() {
                    assert(self.memo_out@[f] == old_self.memo_out@[f]);
                }
            }
            assert forall|f: int| 0 <= f < self.owners@.len() implies all_below(#[trigger] self.owners@[f]@, self.alive@.len()) by {
                if nf > 0 && f == nf - 1 {
                    let r = self.owners@[f]@;
                    assert forall|i: int| 0 <= i < r.len() implies (#[trigger] r[i]) < self.alive@.len() by {
                        if i < r.len() - 1 {
                            assert(r[i] == old_self.owners@[f]@[i]);
                        }
                    }
                } else {
                    assert(self.owners@[f] == old_self.owners@[f]);
                }
            }
            assert forall|e2: usize| e2 < self.scheduled@.len() implies
                (#[trigger] self.scheduled@[e2 as int] <==> ids_of(self.pending@).contains(e2)) by {
                if e2 < old_self.scheduled@.len() {
                    assert(self.scheduled@[e2 as int] == old_self.scheduled@[e2 as int]);
                } else {
                    if ids_of(self.pending@).contains(e2) {
                        let k = choose|k: int| 0 <= k < ids_of(self.pending@).len() && ids_of(self.pending@)[k] == e2;
                        assert(self.pending@[k].1 == e2);
                    }
                }
            }
            assert(self.owner_frames() =~= (if old_self.owners@.len() == 0 { old_self.owner_frames() } else {
                old_self.owner_frames().update(old_self.owner_frames().len() - 1, old_self.owner_frames().last().push(e))
            }));
        }
        e
    }

    /// Disposes effect `e`: unsubscribes it everywhere; it never runs again.
    fn dispose_effect(&mut self, e: usize)
        requires
            old(self).wf(),
            e < old(self).n_effects(),
        ensures
            final(self).wf(),
            !final(self).is_alive(e as int),
            final(self).deps_of(e as int).len() == 0,
            forall|s: int| 0 <= s < final(self).n_signals() ==> !final(self).subscribers(s).contains(e),
            forall|f: int| 0 <= f < final(self).n_effects() && f != e ==> final(self).is_alive(f) == old(self).is_alive(f),
            final(self).n_effects() == old(self).n_effects(),
            final(self).values@ == old(self).values@,
            final(self).pending() == old(self).pending(),
            final(self).tracking() == old(self).tracking(),
            final(self).is_flushing() == old(self).is_flushing(),
            final(self).batch_depth() == old(self).batch_depth(),
            final(self).owner_frames() == old(self).owner_frames(),
            final(self).cleanup_frames() == old(self).cleanup_frames(),
            final(self).context_frames() == old(self).context_frames(),
            final(self).alive@ == old(self).alive@.update(e as int, false),
            final(self).scheduled@ == old(self).scheduled@,
            final(self).runs == old(self).runs,
            final(self).cleaned == old(self).cleaned,
            final(self).values@.len() == old(self).values@.len(),
    {
        self.clear_deps(e);
        let ghost mid = *self;
        self.alive.set(e, false);
        proof {
            assert forall|t: int, k: int| 0 <= t < self.subs@.len() && 0 <= k < self.subs@[t]@.len() implies {
                let x = #[trigger] self.subs@[t]@[k];
                &&& x < self.alive@.len()
                &&& self.alive@[x as int]
                &&& self.deps@[x as int]@.contains(t as usize)
            } by {
                let x = self.subs@[t]@[k];
                assert(mid.subs@[t]@.contains(x));
                assert(x != e);
            }
            assert forall|f: int| 0 <= f < self.deps@.len() && !self.alive@[f] implies (#[trigger] self.deps@[f]@).len() == 0 by {
                if f != e {
                    assert(!mid.alive@[f]);
                }
            }
            assert(self.subs_ok());
            assert(self.deps_ok());
        }
    }
}


impl<V: Clone + PartialEq + 'static> Runtime<V> {
    /// `new` is `old` after `write(s, v)`: value set, live unscheduled subscribers queued.
    pub closed spec fn written(old: Runtime<V>, new: Runtime<V>, s: usize, v: V) -> bool {
        &&& new.values@ == old.values@.update(s as int, v)
        &&& new.subs@ == old.subs@
        &&& new.deps@ == old.deps@
        &&& new.alive@ == old.alive@
        &&& new.current == old.current
        &&& new.flushing == old.flushing
        &&& new.batch == old.batch
        &&& new.contexts@ == old.contexts@
        &&& forall|e: usize| e < old.alive@.len() ==>
            (new.scheduled@[e as int] <==> (old.scheduled@[e as int] || old.subs@[s as int]@.contains(e)))
        &&& new.pending@.len() >= old.pending@.len()
        &&& new.pending@.subrange(0, old.pending@.len() as int) == old.pending@
        &&& new.runs == old.runs
        &&& new.cleaned == old.cleaned
    }

    /// With an empty queue no effect is scheduled, and the other way round.
    proof fn lemma_empty_queue(&self)
        requires
            self.wf(),
        ensures
            self.pending().len() == 0 <==> (forall|e: int| 0 <= e < self.n_effects() ==> !#[trigger] self.is_scheduled(e)),
    {
        if self.pending().len() == 0 {
            assert(ids_of(self.pending@) =~= Seq::<usize>::empty());
            assert forall|e: int| 0 <= e < self.n_effects() implies !#[trigger] self.is_scheduled(e) by {
                assert(self.alive.len() == self.alive@.len());
                let u = e as usize;
                assert(u as int == e);
                assert(!ids_of(self.pending@).contains(u));
                assert(self.scheduled@[u as int] <==> ids_of(self.pending@).contains(u));
            }
        } else {
            let x = self.pending@[0].1;
            assert(ids_of(self.pending@)[0] == x);
            assert(self.is_scheduled(x as int));
        }
    }

    /// A write only adds to the queue, so the graph grows across it.
    proof fn lemma_grows_write(a: Runtime<V>, b: Runtime<V>)
        requires
            a.wf(),
            b.wf(),
            b.alive@ == a.alive@,
            b.runs == a.runs,
            b.cleaned == a.cleaned,
        b.cleaned == a.cleaned,
            b.values@.len() == a.values@.len(),
            forall|e: int| 0 <= e < a.n_effects() && a.is_scheduled(e) ==> b.is_scheduled(e),
        ensures
            graph_grows(a, b),
    {
        lemma_log_refl(a.run_log());
        lemma_log_refl(a.cleanup_log());
    }

    /// Sets the current tracker back to `prev` when it still names an effect.
    fn restore_tracking(&mut self, prev: Option<usize>)
        requires
            old(self).wf(),
        ensures
            final(self).wf(),
            final(self).run_log() == old(self).run_log(),
            final(self).tracking() == (match prev {
                Some(p) => if p < old(self).n_effects() { Some(p) } else { None },
                None => None,
            }),
            final(self).n_effects() == old(self).n_effects(),
            final(self).n_signals() == old(self).n_signals(),
            *final(self) == (Runtime { current: final(self).current, ..*old(self) }),
    {
        self.current = match prev {
            Some(p) => if p < self.alive.len() { Some(p) } else { None },
            None => None,
        };
    }

    /// Re-runs effect `e`: drops its old subscriptions, runs its body with `e` as the
    /// tracker (so what it reads becomes its new deps), then, for a memo, publishes the
    /// new value if it differs from the current one.
    fn run_effect(&mut self, e: usize, allow_flush: bool)
        requires
            old(self).wf(),
        ensures
            keeps_graph(*old(self), *final(self)),
            e < old(self).n_effects() && old(self).is_alive(e as int) ==> {
                &&& final(self).run_log().len() > old(self).run_log().len()
                &&& final(self).run_log()[old(self).run_log().len() as int] == e
            },
            !(e < old(self).n_effects() && old(self).is_alive(e as int)) ==> *final(self) == *old(self),
        decreases (if allow_flush { 2int } else { 0int }),
    {
        if e >= self.alive.len() || !self.alive[e] {
            proof {
                lemma_grows_refl(*self);
            }
            return;
        }
        self.clear_deps(e);
        let prev = self.current;
        self.current = Some(e);
        let ghost before_run = self.runs@;
        let ghost cleared = *self;
        proof {
            lemma_grows_same(*old(self), cleared);
        }
        self.runs = Ghost(self.runs@.push(e));
        let ghost pushed = *self;
        proof {
            lemma_log_refl(before_run);
            assert(log_extends(cleared.run_log(), pushed.run_log())) by {
                assert(pushed.run_log().subrange(0, before_run.len() as int) =~= before_run);
            }
            assert(new_runs(cleared, pushed) =~= seq![e]);
            assert(graph_grows(cleared, pushed));
            lemma_grows_trans(*old(self), cleared, pushed);
        }
        let slot = self.slot[e];
        let r = call_effect_slot(self, slot);
        let ghost called = *self;
        self.restore_tracking(prev);
        proof {
            lemma_grows_same(called, *self);
            lemma_grows_trans(pushed, called, *self);
            lemma_grows_trans(*old(self), pushed, *self);
            lemma_log_at(pushed.run_log(), self.run_log(), before_run.len() as int);
        }
        let ghost mid = *self;
        if let Some(v) = r {
            if e < self.memo_out.len() {
                if let Some(out) = self.memo_out[e] {
                    if self.values[out] != v {
                        self.write(out, v);
                        let ghost wrote = *self;
                        proof {
                            lemma_log_refl(mid.run_log());
                            assert(new_runs(mid, wrote) =~= Seq::<usize>::empty());
                            assert(graph_grows(mid, wrote));
                            lemma_grows_trans(*old(self), mid, wrote);
                        }
                        if allow_flush && self.batch == 0 && !self.flushing {
                            let _ = self.flush();
                            proof {
                                lemma_grows_trans(*old(self), wrote, *self);
                                lemma_log_at(mid.run_log(), self.run_log(), before_run.len() as int);
                            }
                        }
                    }
                }
            }
        }
    }

    /// Runs queued effects, least height first (ties: least id), until none is queued.
    /// A flush already in progress absorbs the request (returns `true` at once).
    /// Returns `false` when `FLUSH_STEP_LIMIT` runs did not empty the queue.
    fn flush(&mut self) -> (converged: bool)
        requires
            old(self).wf(),
        ensures
            keeps_graph(*old(self), *final(self)),
            old(self).is_flushing() ==> converged && *final(self) == *old(self),
            !old(self).is_flushing() && converged ==> final(self).pending().len() == 0,
            !old(self).is_flushing() && old(self).pending().len() == 0 ==> converged && *final(self) == *old(self),
        decreases 1int,
    {
        if self.flushing {
            proof {
                lemma_grows_refl(*self);
            }
            return true;
        }
        self.flushing = true;
        let ghost start = *self;
        proof {
            lemma_grows_refl(start);
        }
        let mut steps: usize = 0;
        while steps < FLUSH_STEP_LIMIT
            invariant
                self.wf(),
                !old(self).flushing,
                start == (Runtime { flushing: true, ..*old(self) }),
                graph_grows(start, *self),
                self.flushing,
                self.batch == old(self).batch,
                steps == 0 ==> *self == start,
                old(self).pending().len() == 0 ==> steps == 0,
                frames_kept(old(self).context_frames(), self.context_frames()),
            decreases FLUSH_STEP_LIMIT - steps,
        {
            let ghost before = *self;
            match self.pop_next() {
                None => {
                    self.flushing = false;
                    proof {
                        Self::lemma_grows_unflag(start, before, *old(self), *self);
                    }
                    return true;
                },
                Some(e) => {
                    let ghost popped_state = *self;
                    let ghost taken = choose|i: int| {
                        &&& 0 <= i < before.pending@.len()
                        &&& before.pending@[i].1 == e
                        &&& (forall|j: int| 0 <= j < before.pending@.len() ==>
                                runs_before(before.pending@[i], #[trigger] before.pending@[j]))
                        &&& popped_state.pending@ == before.pending@.remove(i)
                        &&& popped_state.scheduled@ == before.scheduled@.update(e as int, false)
                        &&& e < before.alive@.len()
                    };
                    self.steps = Ghost(self.steps@.push((before.pending@[taken], before.pending@)));
                    let ghost stepped = *self;
                    proof {
                        assert(before.pending@.contains(before.pending@[taken]));
                        assert(taken_first((before.pending@[taken], before.pending@)));
                        assert forall|k: int| 0 <= k < self.steps@.len() implies taken_first(#[trigger] self.steps@[k]) by {
                            if k < popped_state.steps@.len() {
                                assert(self.steps@[k] == popped_state.steps@[k]);
                            }
                        }
                        assert(stepped.wf());
                        assert(Self::popped(before, stepped, e));
                        assert(stepped.same_except_schedule(&before));
                    }
                    self.run_effect(e, false);
                    proof {
                        Self::lemma_pop_run(before, stepped, *self, e);
                        lemma_grows_trans(start, before, *self);
                    }
                },
            }
            steps += 1;
        }
        let ghost last = *self;
        self.flushing = false;
        proof {
            Self::lemma_grows_unflag(start, last, *old(self), *self);
        }
        false
    }

    /// Clearing the flushing flag on both ends keeps `graph_grows`.
    proof fn lemma_grows_unflag(a: Runtime<V>, b: Runtime<V>, a2: Runtime<V>, b2: Runtime<V>)
        requires
            graph_grows(a, b),
            a2 == (Runtime { flushing: a2.flushing, ..a }),
            b2 == (Runtime { flushing: b2.flushing, ..b }),
        ensures
            graph_grows(a2, b2),
    {
        assert(a2.run_log() == a.run_log());
        assert(b2.run_log() == b.run_log());
        assert(new_runs(a2, b2) == new_runs(a, b));
        assert(b2.alive == b.alive && b2.values == b.values && b2.subs == b.subs && b2.deps == b.deps);
        assert(b2.scheduled == b.scheduled && b2.pending == b.pending && b2.src == b.src);
        assert(b2.memo_out == b.memo_out && b2.owners == b.owners && b2.current == b.current);
        assert(b2.lens_ok() && b2.subs_ok() && b2.deps_ok() && b2.links_ok() && b2.pending_ok());
        assert(a2.alive == a.alive && a2.scheduled == a.scheduled && a2.values == a.values);
        assert forall|e: int| 0 <= e < a2.n_effects() && !a2.is_alive(e) implies !#[trigger] b2.is_alive(e) by {
            assert(!b.is_alive(e));
        }
        assert forall|k: int| a2.run_log().len() <= k < b2.run_log().len() implies
            #[trigger] b2.run_log()[k] >= a2.n_effects() || a2.is_alive(b2.run_log()[k] as int) by {
            assert(b.run_log()[k] >= a.n_effects() || a.is_alive(b.run_log()[k] as int));
        }
        assert forall|e: int| 0 <= e < a2.n_effects() && #[trigger] a2.is_scheduled(e) implies
            b2.is_scheduled(e) || !b2.is_alive(e) || new_runs(a2, b2).contains(e as usize) by {
            assert(a.is_scheduled(e));
        }
    }

    /// Popping `e` and then running it keeps the graph growing.
    proof fn lemma_pop_run(b0: Runtime<V>, b1: Runtime<V>, b2: Runtime<V>, e: usize)
        requires
            b0.wf(),
            Self::popped(b0, b1, e),
            b1.same_except_schedule(&b0),
            graph_grows(b1, b2),
            e < b1.n_effects() && b1.is_alive(e as int) ==> {
                &&& b2.run_log().len() > b1.run_log().len()
                &&& b2.run_log()[b1.run_log().len() as int] == e
            },
        ensures
            graph_grows(b0, b2),
    {
        assert(b1.run_log() == b0.run_log());
        assert forall|x: int| 0 <= x < b0.n_effects() && #[trigger] b0.is_scheduled(x) implies
            b2.is_scheduled(x) || !b2.is_alive(x) || new_runs(b0, b2).contains(x as usize) by {
            if x == e as int {
                if b1.is_alive(x) {
                    assert(new_runs(b0, b2)[0] == e);
                } else {
                    assert(!b2.is_alive(x));
                }
            } else {
                assert(b1.scheduled@[x] == b0.scheduled@[x]);
                assert(b1.is_scheduled(x));
                assert(new_runs(b1, b2) == new_runs(b0, b2));
                if new_runs(b1, b2).contains(x as usize) {
                    let k = choose|k: int| 0 <= k < new_runs(b1, b2).len() && new_runs(b1, b2)[k] == x as usize;
                    assert(new_runs(b0, b2)[k] == x as usize);
                }
            }
        }
        assert forall|k: int| b0.run_log().len() <= k < b2.run_log().len() implies
            #[trigger] b2.run_log()[k] >= b0.n_effects() || b0.is_alive(b2.run_log()[k] as int) by {
            assert(b1.alive@ == b0.alive@);
        }
    }

    /// Links memo output signal `s` to its effect `e` (its source height is `e`'s height).
    fn link_memo(&mut self, s: usize, e: usize)
        requires
            old(self).wf(),
            s < old(self).n_signals(),
            e < old(self).n_effects(),
        ensures
            final(self).wf(),
            final(self).source_of(s as int) == Some(e),
            final(self).n_signals() == old(self).n_signals(),
            final(self).n_effects() == old(self).n_effects(),
            *final(self) == (Runtime { src: final(self).src, ..*old(self) }),
    {
        let ghost old_self = *self;
        self.src.set(s, Some(e));
        proof {
            assert forall|t: int| 0 <= t < self.src@.len() && (#[trigger] self.src@[t]) is Some implies
                self.src@[t]->0 < self.alive@.len() by {
                if t != s {
                    assert(self.src@[t] == old_self.src@[t]);
                }
            }
        }
    }
}

impl Signal {
    /// A new signal holding `v` (reading it from an effect subscribes that effect).
    pub fn new<V: Clone + PartialEq + 'static>(rt: &mut Runtime<V>, v: V) -> (s: Signal)
        requires
            old(rt).wf(),
        ensures
            final(rt).wf(),
            s.id == old(rt).n_signals(),
            final(rt).n_signals() == old(rt).n_signals() + 1,
            final(rt).value(s.id as int) == v,
            final(rt).signal_values() == old(rt).signal_values().push(v),
            forall|t: int| 0 <= t < old(rt).n_signals() ==> #[trigger] final(rt).value(t) == old(rt).value(t),
            final(rt).subscribers(s.id as int).len() == 0,
            final(rt).source_of(s.id as int) is None,
            final(rt).n_effects() == old(rt).n_effects(),
            final(rt).pending() == old(rt).pending(),
            final(rt).tracking() == old(rt).tracking(),
            keeps_graph(*old(rt), *final(rt)),
            forall|e: int| 0 <= e < old(rt).n_effects() ==> #[trigger] final(rt).is_alive(e) == old(rt).is_alive(e),
    {
        let id = rt.new_signal(v, None);
        proof {
            lemma_grows_same(*old(rt), *rt);
        }
        Signal { id }
    }

    /// Reads the value.  Inside a running effect this subscribes the effect (dependency
    /// tracking); outside any effect, or under `untrack`, it subscribes nothing.
    pub fn get<V: Clone + PartialEq + 'static>(self, rt: &mut Runtime<V>) -> (r: V)
        requires
            old(rt).wf(),
            self.id < old(rt).n_signals(),
        ensures
            final(rt).wf(),
            cloned(old(rt).value(self.id as int), r),
            final(rt).signal_values() == old(rt).signal_values(),
            final(rt).n_effects() == old(rt).n_effects(),
            final(rt).pending() == old(rt).pending(),
            final(rt).tracking() == old(rt).tracking(),
            keeps_graph(*old(rt), *final(rt)),
            match old(rt).tracking() {
                Some(e) => old(rt).is_alive(e as int) ==> {
                    &&& final(rt).subscribers(self.id as int).contains(e)
                    &&& final(rt).deps_of(e as int).contains(self.id)
                },
                None => forall|t: int| 0 <= t < old(rt).n_signals() ==>
                    final(rt).subscribers(t) == old(rt).subscribers(t),
            },
    {
        rt.track(self.id);
        proof {
            lemma_grows_same(*old(rt), *rt);
        }
        rt.values[self.id].clone()
    }

    /// Whether this signal belongs to `rt` (so that `get`, `peek` and `set` may be called).
    pub fn is_in<V: Clone + PartialEq + 'static>(self, rt: &Runtime<V>) -> (r: bool)
        requires
            rt.wf(),
        ensures
            r == (self.id < rt.n_signals()),
    {
        self.id < rt.values.len()
    }

    /// Reads the value without subscribing anything (what `untrack(|| s.get())` reads).
    pub fn peek<V: Clone + PartialEq + 'static>(self, rt: &Runtime<V>) -> (r: V)
        requires
            rt.wf(),
            self.id < rt.n_signals(),
        ensures
            cloned(rt.value(self.id as int), r),
    {
        rt.values[self.id].clone()
    }

    /// Writes the value and queues the live subscribers; outside a batch and outside a
    /// running flush it then flushes (runs the queued effects, lowest height first).
    /// Returns `false` only when that flush hit `FLUSH_STEP_LIMIT`.
    pub fn set<V: Clone + PartialEq + 'static>(self, rt: &mut Runtime<V>, v: V) -> (converged: bool)
        requires
            old(rt).wf(),
            self.id < old(rt).n_signals(),
        ensures
            keeps_graph(*old(rt), *final(rt)),
            (old(rt).batch_depth() > 0 || old(rt).is_flushing()) ==> {
                &&& converged
                &&& Runtime::written(*old(rt), *final(rt), self.id, v)
                &&& final(rt).value(self.id as int) == v
                &&& final(rt).n_signals() == old(rt).n_signals()
            },
            (old(rt).batch_depth() == 0 && !old(rt).is_flushing()) ==> exists|mid: Runtime<V>| {
                &&& Runtime::written(*old(rt), mid, self.id, v)
                &&& graph_grows(mid, *final(rt))
                &&& (mid.pending().len() == 0 ==> *final(rt) == mid)
            },
            (old(rt).batch_depth() == 0 && !old(rt).is_flushing() && converged) ==> {
                &&& final(rt).pending().len() == 0
                &&& forall|e: int| 0 <= e < old(rt).n_effects()
                    && (old(rt).is_scheduled(e) || #[trigger] old(rt).subscribers(self.id as int).contains(e as usize))
                    ==> new_runs(*old(rt), *final(rt)).contains(e as usize) || !final(rt).is_alive(e)
            },
            (old(rt).batch_depth() == 0 && !old(rt).is_flushing() && old(rt).pending().len() == 0
                && old(rt).subscribers(self.id as int).len() == 0) ==> {
                &&& converged
                &&& final(rt).value(self.id as int) == v
                &&& final(rt).signal_values() == old(rt).signal_values().update(self.id as int, v)
                &&& final(rt).run_log() == old(rt).run_log()
            },
    {
        let ghost old_rt = *rt;
        rt.write(self.id, v);
        let ghost mid = *rt;
        proof {
            assert forall|e: usize| e < old_rt.alive@.len() implies
                (rt.scheduled@[e as int] <==> (old_rt.scheduled@[e as int] || old_rt.subs@[self.id as int]@.contains(e))) by {
                assert(rt.is_scheduled(e as int) <==> (old_rt.is_scheduled(e as int) || old_rt.subscribers(self.id as int).contains(e)));
            }
            assert(Runtime::written(old_rt, *rt, self.id, v));
            assert forall|e: int| 0 <= e < old_rt.n_effects() && old_rt.is_scheduled(e) implies mid.is_scheduled(e) by {
                assert(old_rt.alive.len() == old_rt.alive@.len());
                let u = e as usize;
                assert(u as int == e);
                assert(mid.scheduled@[u as int] <==> (old_rt.scheduled@[u as int] || old_rt.subs@[self.id as int]@.contains(u)));
            }
            Runtime::lemma_grows_write(old_rt, mid);
            old_rt.lemma_empty_queue();
            mid.lemma_empty_queue();
            if old_rt.pending().len() == 0 && old_rt.subscribers(self.id as int).len() == 0 {
                assert forall|e: int| 0 <= e < mid.n_effects() implies !#[trigger] mid.is_scheduled(e) by {
                    assert(mid.alive.len() == mid.alive@.len());
                    let u = e as usize;
                    assert(u as int == e);
                    assert(!old_rt.is_scheduled(e));
                    assert(!old_rt.subs@[self.id as int]@.contains(u));
                    assert(mid.scheduled@[u as int] <==> (old_rt.scheduled@[u as int] || old_rt.subs@[self.id as int]@.contains(u)));
                }
            }
        }
        if rt.batch == 0 && !rt.flushing {
            let c = rt.flush();
            proof {
                lemma_grows_trans(old_rt, mid, *rt);
                assert(new_runs(mid, *rt) == new_runs(old_rt, *rt));
                if c {
                    rt.lemma_empty_queue();
                    assert forall|e: int| 0 <= e < old_rt.n_effects()
                        && (old_rt.is_scheduled(e) || #[trigger] old_rt.subscribers(self.id as int).contains(e as usize))
                        implies new_runs(old_rt, *rt).contains(e as usize) || !rt.is_alive(e) by {
                        assert(old_rt.alive.len() == old_rt.alive@.len());
                        let u = e as usize;
                        assert(u as int == e);
                        assert(mid.scheduled@[u as int] <==> (old_rt.scheduled@[u as int] || old_rt.subs@[self.id as int]@.contains(u)));
                        assert(mid.is_scheduled(e));
                        assert(!rt.is_scheduled(e));
                    }
                }
                if old_rt.pending().len() == 0 && old_rt.subscribers(self.id as int).len() == 0 {
                    assert(rt.signal_values() =~= old_rt.signal_values().update(self.id as int, v));
                }
            }
            c
        } else {
            proof {
                assert(rt.batch == old_rt.batch && rt.flushing == old_rt.flushing);
            }
            true
        }
    }
}

/// `a` is `before` with effect `e` added and started, apart from its first signal: a
/// live effect with the next id and no dependencies yet, owned by the innermost scope,
/// running (it is the tracker) and the latest entry of the run log; no queue entry, no
/// subscription of an existing signal and no context frame changed.
pub open spec fn starts_effect<V: Clone + PartialEq + 'static>(before: Runtime<V>, a: Runtime<V>, e: usize) -> bool {
    &&& e == before.n_effects()
    &&& a.n_effects() == before.n_effects() + 1
    &&& a.is_alive(e as int)
    &&& a.deps_of(e as int).len() == 0
    &&& a.tracking() == Some(e)
    &&& a.run_log() == before.run_log().push(e)
    &&& forall|t: int| 0 <= t < before.n_signals() ==> #[trigger] a.subscribers(t) == before.subscribers(t)
    &&& a.pending() == before.pending()
    &&& a.context_frames() == before.context_frames()
    &&& a.batch_depth() == before.batch_depth()
    &&& a.is_flushing() == before.is_flushing()
    &&& before.owner_frames().len() > 0 ==> a.owner_frames() == before.owner_frames().update(
            before.owner_frames().len() - 1, before.owner_frames().last().push(e))
    &&& before.owner_frames().len() == 0 ==> a.owner_frames() == before.owner_frames()
}

/// `a` is `before` with effect `e` added and started (see [`starts_effect`]) and no signal
/// changed: the state an effect's first run starts from.
pub open spec fn starts_run<V: Clone + PartialEq + 'static>(before: Runtime<V>, a: Runtime<V>, e: usize) -> bool {
    &&& starts_effect(before, a, e)
    &&& a.signal_values() == before.signal_values()
}

/// Registers `f` as an effect and runs it once; afterwards it re-runs whenever a signal
/// it read in its latest run is set.  The effect joins the innermost `scope`.  The first
/// run applies `f` to the runtime with the new effect registered and running.
pub fn effect<V: Clone + PartialEq + 'static, F: Fn(&mut Runtime<V>) + 'static>(rt: &mut Runtime<V>, f: F) -> (h: EffectHandle)
    requires
        old(rt).wf(),
        accepts_graph::<V, (), F>(f),
        forall|a: &mut Runtime<V>, x: ()| #[trigger] call_ensures(f, (a,), x) ==> keeps_graph(*a, *final(a)),
    ensures
        keeps_graph(*old(rt), *final(rt)),
        h.id == old(rt).n_effects(),
        h.id < final(rt).n_effects(),
        final(rt).run_log().len() > old(rt).run_log().len(),
        final(rt).run_log()[old(rt).run_log().len() as int] == h.id,
        exists|a: &mut Runtime<V>| {
            &&& #[trigger] starts_run(*old(rt), *a, h.id)
            &&& call_ensures(f, (a,), ())
            &&& graph_grows(*final(a), *final(rt))
        },
{
    let g = Rc::new(f);
    let slot = rt.closures.add_effect(g.clone());
    let ghost g0 = *rt;
    let e = rt.new_effect(slot, None);
    let ghost g1 = *rt;
    let outer = rt.current;
    rt.current = Some(e);
    rt.runs = Ghost(rt.runs@.push(e));
    let ghost g2 = *rt;
    proof {
        lemma_grows_same(*old(rt), g0);
        lemma_grows_push(g0, g1);
        lemma_log_refl(g1.cleanup_log());
        assert(log_extends(g1.run_log(), g2.run_log())) by {
            assert(g2.run_log().subrange(0, g1.run_log().len() as int) =~= g1.run_log());
        }
        assert(new_runs(g1, g2) =~= seq![e]);
        assert(graph_grows(g1, g2));
        lemma_grows_trans(g0, g1, g2);
        assert(g2.signal_values() =~= g0.signal_values());
        assert(starts_run(g0, g2, e));
    }
    call_fn(rt, &*g);
    let ghost g3 = *rt;
    rt.restore_tracking(outer);
    proof {
        lemma_grows_same(g3, *rt);
        lemma_grows_trans(g0, g2, g3);
        lemma_grows_trans(g0, g3, *rt);
        lemma_log_at(g2.run_log(), rt.run_log(), g1.run_log().len() as int);
    }
    let h = EffectHandle { id: e };
    proof {
        let a = choose|a: &mut Runtime<V>| *a == g2 && *final(a) == g3 && #[trigger] call_ensures(*g, (a,), ());
        assert(starts_run(*old(rt), *a, h.id) && call_ensures(f, (a,), ()) && graph_grows(*final(a), *rt));
    }
    h
}

/// `a` is `before` with memo output `s` (holding `v0`, fed by the next effect) added and
/// the memo's effect started (see [`starts_effect`]).
pub open spec fn memo_starts<V: Clone + PartialEq + 'static>(before: Runtime<V>, a: Runtime<V>, s: usize, v0: V) -> bool {
    &&& s == before.n_signals()
    &&& starts_effect(before, a, before.n_effects() as usize)
    &&& a.signal_values() == before.signal_values().push(v0)
    &&& a.subscribers(s as int).len() == 0
    &&& a.source_of(s as int) == Some(before.n_effects() as usize)
    &&& a.memo_of(before.n_effects() as int) == Some(s)
}

/// After `before` (the end of the memo's first tracked run, which returned `v1`), `mid`
/// holds in memo output `s` the value `v1`, or still the value it held at `before` when
/// `==` finds that equal to `v1` (the memo publishes only what compares different).
pub open spec fn publishes<V: Clone + PartialEq + 'static>(before: Runtime<V>, mid: Runtime<V>, s: int, v1: V) -> bool {
    &&& graph_grows(before, mid)
    &&& 0 <= s < mid.n_signals()
    &&& (mid.value(s) == v1 || (mid.value(s) == before.value(s) && (V::obeys_eq_spec() ==> mid.value(s).eq_spec(&v1))))
}

/// A derived signal: holds `f`'s value, recomputed whenever a signal `f` read changes,
/// and republished only when the new value differs (`!=`) from the held one.  Its
/// effect's height exceeds that of every memo it reads, so a flush recomputes it before
/// anything that reads it.
pub fn memo<V: Clone + PartialEq + 'static, F: Fn(&mut Runtime<V>) -> V + 'static>(rt: &mut Runtime<V>, f: F) -> (s: Signal)
    requires
        old(rt).wf(),
        accepts_graph::<V, V, F>(f),
        forall|a: &mut Runtime<V>, x: V| #[trigger] call_ensures(f, (a,), x) ==> keeps_graph(*a, *final(a)),
    ensures
        keeps_graph(*old(rt), *final(rt)),
        old(rt).n_signals() <= s.id < final(rt).n_signals(),
        old(rt).n_effects() < final(rt).n_effects(),
        exists|k: int| old(rt).run_log().len() <= k < final(rt).run_log().len()
            && #[trigger] final(rt).run_log()[k] >= old(rt).n_effects(),
        exists|a0: &mut Runtime<V>, v0: V| {
            &&& *a0 == old(rt).untracked()
            &&& #[trigger] call_ensures(f, (a0,), v0)
            &&& exists|a1: &mut Runtime<V>, v1: V| {
                &&& memo_starts(*final(a0), *a1, s.id, v0)
                &&& #[trigger] call_ensures(f, (a1,), v1)
                &&& exists|mid: Runtime<V>| {
                    &&& #[trigger] publishes(*final(a1), mid, s.id as int, v1)
                    &&& keeps_graph(mid, *final(rt))
                    &&& (mid.pending().len() == 0 ==> *final(rt) == mid)
                }
            }
        },
{
    let g = Rc::new(f);
    // first value, untracked so that it does not subscribe an enclosing effect
    let prev = rt.current;
    rt.current = None;
    let ghost g0 = *rt;
    proof {
        lemma_grows_same(*old(rt), g0);
        assert(g0 == old(rt).untracked());
    }
    let v0 = call_fn(rt, &*g);
    let ghost g1 = *rt;
    let slot = rt.closures.add_memo(g.clone());
    rt.restore_tracking(prev);
    let ghost g2 = *rt;
    let s = rt.new_signal(v0, None);
    let ghost g3 = *rt;
    let e = rt.new_effect(slot, Some(s));
    let ghost g4 = *rt;
    rt.link_memo(s, e);
    let ghost g5 = *rt;
    proof {
        lemma_grows_trans(*old(rt), g0, g1);
        lemma_grows_same(g1, g2);
        lemma_grows_trans(*old(rt), g1, g2);
        lemma_grows_same(g2, g3);
        lemma_grows_trans(*old(rt), g2, g3);
        lemma_grows_push(g3, g4);
        lemma_grows_trans(*old(rt), g3, g4);
        lemma_grows_same(g4, g5);
        lemma_grows_trans(*old(rt), g4, g5);
        assert(g5.is_alive(e as int));
    }
    // the first tracked run: what `f` reads now subscribes the memo's effect
    rt.current = Some(e);
    rt.runs = Ghost(rt.runs@.push(e));
    let ghost g6 = *rt;
    proof {
        lemma_log_refl(g5.cleanup_log());
        assert(log_extends(g5.run_log(), g6.run_log())) by {
            assert(g6.run_log().subrange(0, g5.run_log().len() as int) =~= g5.run_log());
        }
        assert(new_runs(g5, g6) =~= seq![e]);
        assert(graph_grows(g5, g6));
        lemma_grows_trans(*old(rt), g5, g6);
        assert(g6.signal_values() =~= g1.signal_values().push(v0));
        assert forall|t: int| 0 <= t < g1.n_signals() implies #[trigger] g6.subscribers(t) == g1.subscribers(t) by {
            assert(g6.subscribers(t) == g4.subscribers(t));
            assert(g3.subs@[t] == g2.subs@[t]);
        }
        assert(s == g1.n_signals());
        assert(g6.signal_values() == g1.signal_values().push(v0));
        assert(g6.subscribers(s as int).len() == 0);
        assert(g6.source_of(s as int) == Some(g1.n_effects() as usize));
        assert(g6.memo_of(g1.n_effects() as int) == Some(s));
        assert(starts_effect(g1, g6, g1.n_effects() as usize));
        assert(memo_starts(g1, g6, s, v0));
    }
    let v1 = call_fn(rt, &*g);
    let ghost g7 = *rt;
    rt.restore_tracking(prev);
    let ghost g8 = *rt;
    proof {
        lemma_grows_same(g7, g8);
        lemma_grows_trans(g6, g7, g8);
        lemma_grows_trans(*old(rt), g6, g8);
        lemma_log_at(g6.run_log(), g8.run_log(), g5.run_log().len() as int);
        assert(g8.run_log()[g5.run_log().len() as int] == e);
    }
    let ghost mut mid = g8;
    if rt.values[s] != v1 {
        rt.write(s, v1);
        let ghost wrote = *rt;
        proof {
            assert forall|x: int| 0 <= x < g8.n_effects() && g8.is_scheduled(x) implies wrote.is_scheduled(x) by {
                assert(wrote.alive.len() == wrote.alive@.len());
                let u = x as usize;
                assert(u as int == x);
                assert(wrote.scheduled@[u as int] <==> (g8.scheduled@[u as int] || g8.subs@[s as int]@.contains(u)));
            }
            Runtime::lemma_grows_write(g8, wrote);
            lemma_grows_trans(*old(rt), g8, wrote);
            lemma_grows_trans(g7, g8, wrote);
            assert(wrote.value(s as int) == v1);
            lemma_keeps_refl(wrote);
            mid = wrote;
        }
        if rt.batch == 0 && !rt.flushing {
            let _ = rt.flush();
            proof {
                lemma_grows_trans(*old(rt), wrote, *rt);
                lemma_log_at(wrote.run_log(), rt.run_log(), g5.run_log().len() as int);
            }
        }
    } else {
        proof {
            lemma_keeps_refl(g8);
            assert(g8.value(s as int) == g7.value(s as int));
        }
    }
    let res = Signal { id: s };
    proof {
        assert(publishes(g7, mid, res.id as int, v1) && keeps_graph(mid, *rt) && (mid.pending().len() == 0 ==> *rt == mid));
        let a1 = choose|a: &mut Runtime<V>| *a == g6 && *final(a) == g7 && #[trigger] call_ensures(f, (a,), v1);
        assert(memo_starts(g1, *a1, res.id, v0) && call_ensures(f, (a1,), v1));
        let a0 = choose|a: &mut Runtime<V>| *a == g0 && *final(a) == g1 && #[trigger] call_ensures(f, (a,), v0);
        assert(*a0 == old(rt).untracked() && call_ensures(f, (a0,), v0) && *final(a0) == g1);
    }
    res
}

/// Runs `f` with tracking off: signals read inside subscribe no effect.
pub fn untrack<V: Clone + PartialEq + 'static, R, F: FnOnce(&mut Runtime<V>) -> R>(rt: &mut Runtime<V>, f: F) -> (r: R)
    requires
        old(rt).wf(),
        accepts_graph::<V, R, F>(f),
        forall|a: &mut Runtime<V>, x: R| #[trigger] call_ensures(f, (a,), x) ==> keeps_graph(*a, *final(a)),
    ensures
        keeps_graph(*old(rt), *final(rt)),
        final(rt).tracking() == old(rt).tracking(),
        exists|a: &mut Runtime<V>| a.tracking() is None && #[trigger] call_ensures(f, (a,), r),
{
    let prev = rt.current;
    rt.current = None;
    let ghost g1 = *rt;
    proof {
        lemma_grows_same(*old(rt), g1);
    }
    let r = call_with(rt, f);
    let ghost g2 = *rt;
    rt.restore_tracking(prev);
    proof {
        lemma_grows_same(g2, *rt);
        lemma_grows_trans(*old(rt), g1, g2);
        lemma_grows_trans(*old(rt), g2, *rt);
    }
    r
}

/// Runs `f` with writes batched: effects queued by `set` inside `f` run once, after `f`,
/// in one flush (nested batches flush only when the outermost ends).
pub fn batch<V: Clone + PartialEq + 'static, R, F: FnOnce(&mut Runtime<V>) -> R>(rt: &mut Runtime<V>, f: F) -> (r: R)
    requires
        old(rt).wf(),
        accepts_graph::<V, R, F>(f),
        forall|a: &mut Runtime<V>, x: R| #[trigger] call_ensures(f, (a,), x) ==> keeps_graph(*a, *final(a)),
    ensures
        keeps_graph(*old(rt), *final(rt)),
        exists|a: &mut Runtime<V>| {
            &&& a.batch_depth() > 0
            &&& a.batch_depth() >= old(rt).batch_depth()
            &&& #[trigger] call_ensures(f, (a,), r)
            &&& graph_grows(*final(a), *final(rt))
            &&& (old(rt).batch_depth() == 0 && !old(rt).is_flushing() && final(rt).pending().len() == 0) ==>
                forall|e: int| 0 <= e < final(a).n_effects() && #[trigger] final(a).is_scheduled(e) ==>
                    new_runs(*final(a), *final(rt)).contains(e as usize) || !final(rt).is_alive(e)
        },
{
    let raised = rt.batch < u32::MAX;
    if raised {
        rt.batch = rt.batch + 1;
    }
    let ghost g1 = *rt;
    proof {
        lemma_grows_same(*old(rt), g1);
    }
    let r = call_with(rt, f);
    let ghost g2 = *rt;
    if raised {
        rt.batch = rt.batch - 1;
    }
    let ghost g3 = *rt;
    proof {
        lemma_grows_same(g2, g3);
        lemma_grows_trans(*old(rt), g1, g2);
        lemma_grows_trans(*old(rt), g2, g3);
    }
    if rt.batch == 0 {
        let _ = rt.flush();
        proof {
            lemma_grows_trans(*old(rt), g3, *rt);
        }
    }
    proof {
        lemma_grows_trans(g2, g3, *rt);
        let a = choose|a: &mut Runtime<V>| *a == g1 && *final(a) == g2 && #[trigger] call_ensures(f, (a,), r);
        assert(*a == g1 && *final(a) == g2 && call_ensures(f, (a,), r));
        if old(rt).batch_depth() == 0 && !old(rt).is_flushing() && rt.pending().len() == 0 {
            rt.lemma_empty_queue();
        }
    }
    r
}

impl EffectHandle {
    /// Disposes the effect: it is unsubscribed from everything and never runs again.
    pub fn dispose<V: Clone + PartialEq + 'static>(self, rt: &mut Runtime<V>)
        requires
            old(rt).wf(),
        ensures
            final(rt).wf(),
            keeps_graph(*old(rt), *final(rt)),
            final(rt).n_effects() == old(rt).n_effects(),
            forall|f: int| 0 <= f < old(rt).n_effects() && f != self.id ==>
                #[trigger] final(rt).is_alive(f) == old(rt).is_alive(f),
            final(rt).run_log() == old(rt).run_log(),
            self.id < old(rt).n_effects() ==> {
                &&& !final(rt).is_alive(self.id as int)
                &&& forall|s: int| 0 <= s < final(rt).n_signals() ==> !final(rt).subscribers(s).contains(self.id)
            },
    {
        if self.id < rt.alive.len() {
            rt.dispose_effect(self.id);
            proof {
                lemma_grows_kill(*old(rt), *rt, self.id as int);
            }
        } else {
            proof {
                lemma_grows_refl(*rt);
            }
        }
    }
}

/// Runs `f` in a new owner scope: effects/memos created and cleanups registered during
/// `f` are collected into the returned [`Scope`]; a new context frame is visible to `f`
/// and dropped afterwards.
pub fn scope<V: Clone + PartialEq + 'static, R, F: FnOnce(&mut Runtime<V>) -> R>(rt: &mut Runtime<V>, f: F) -> (res: (R, Scope))
    requires
        old(rt).wf(),
        accepts_graph::<V, R, F>(f),
        forall|a: &mut Runtime<V>, x: R| #[trigger] call_ensures(f, (a,), x) ==> keeps_graph(*a, *final(a)),
    ensures
        keeps_graph(*old(rt), *final(rt)),
        final(rt).context_frames() == old(rt).context_frames(),
        exists|a: &mut Runtime<V>| {
            &&& a.owner_frames() == old(rt).owner_frames().push(Seq::empty())
            &&& a.cleanup_frames() == old(rt).cleanup_frames().push(Seq::empty())
            &&& a.context_frames() == old(rt).context_frames().push(Seq::empty())
            &&& #[trigger] call_ensures(f, (a,), res.0)
            &&& (final(a).owner_frames().len() > 0 ==> res.1.ids@ == final(a).owner_frames().last())
            &&& (final(a).cleanup_frames().len() > 0 ==> res.1.cleanups@ == final(a).cleanup_frames().last())
        },
        forall|i: int| 0 <= i < res.1.ids@.len() ==> res.1.ids@[i] < final(rt).n_effects(),
{
    let ghost g0 = *rt;
    rt.owners.push(Vec::new());
    rt.cleanup_frames.push(Vec::new());
    rt.contexts.push(Vec::new());
    proof {
        assert forall|f: int| 0 <= f < rt.owners@.len() implies all_below(#[trigger] rt.owners@[f]@, rt.alive@.len()) by {
            if f < g0.owners@.len() {
                assert(rt.owners@[f] == g0.owners@[f]);
            }
        }
    }
    let ghost g1 = *rt;
    proof {
        assert(rt.owner_frames() =~= g0.owner_frames().push(Seq::empty()));
        assert(rt.cleanup_frames() =~= g0.cleanup_frames().push(Seq::empty()));
        assert(rt.context_frames() =~= g0.context_frames().push(Seq::empty()));
        lemma_grows_same(g0, g1);
    }
    let r = call_with(rt, f);
    let ghost g2 = *rt;
    let ids = match rt.owners.pop() {
        Some(v) => v,
        None => Vec::new(),
    };
    let cleanups = match rt.cleanup_frames.pop() {
        Some(v) => v,
        None => Vec::new(),
    };
    let _ = rt.contexts.pop();
    proof {
        assert(rt.context_frames() =~= g2.context_frames().drop_last());
        assert(g0.context_frames().push(Seq::empty()).drop_last() =~= g0.context_frames());
        assert(rt.context_frames() == g0.context_frames());
        if g2.owners@.len() > 0 {
            assert(ids@ == g2.owners@[g2.owners@.len() - 1]@);
            assert(all_below(g2.owners@[g2.owners@.len() - 1]@, g2.alive@.len()));
            assert(g2.owner_frames().last() == g2.owners@.last()@);
        }
        if g2.cleanup_frames@.len() > 0 {
            assert(g2.cleanup_frames().last() == g2.cleanup_frames@.last()@);
        }
        assert forall|f: int| 0 <= f < rt.owners@.len() implies all_below(#[trigger] rt.owners@[f]@, rt.alive@.len()) by {
            assert(rt.owners@[f] == g2.owners@[f]);
        }
        lemma_grows_same(g2, *rt);
        lemma_grows_trans(g0, g1, g2);
        lemma_grows_trans(g0, g2, *rt);
        let a = choose|a: &mut Runtime<V>| *a == g1 && *final(a) == g2 && #[trigger] call_ensures(f, (a,), r);
        assert(*a == g1 && *final(a) == g2 && call_ensures(f, (a,), r));
    }
    let ghost rv = r;
    let res = (r, Scope { ids, cleanups });
    proof {
        assert(res.0 == rv);
        assert(g0 == *old(rt));
    }
    res
}

impl Scope {
    /// Runs the scope's cleanups (in registration order), then disposes its effects.
    pub fn dispose<V: Clone + PartialEq + 'static>(self, rt: &mut Runtime<V>)
        requires
            old(rt).wf(),
        ensures
            keeps_graph(*old(rt), *final(rt)),
            exists|mid: Runtime<V>| {
                &&& keeps_graph(*old(rt), mid)
                &&& cleanups_invoked(*old(rt), mid, self.cleanups@)
                &&& (self.cleanups@.len() == 0 ==> mid == *old(rt))
                &&& keeps_graph(mid, *final(rt))
                &&& final(rt).n_effects() == mid.n_effects()
                &&& final(rt).run_log() == mid.run_log()
                &&& final(rt).cleanup_log() == mid.cleanup_log()
                &&& forall|f: int| 0 <= f < mid.n_effects() ==>
                    (#[trigger] final(rt).is_alive(f) <==> (mid.is_alive(f) && !self.ids@.contains(f as usize)))
            },
            cleanups_invoked(*old(rt), *final(rt), self.cleanups@),
            forall|k: int| 0 <= k < self.ids@.len() && self.ids@[k] < old(rt).n_effects()
                ==> !final(rt).is_alive(#[trigger] self.ids@[k] as int),
            (self.ids@.len() == 0 && self.cleanups@.len() == 0) ==> {
                &&& final(rt).cleanup_log() == old(rt).cleanup_log()
                &&& final(rt).run_log() == old(rt).run_log()
                &&& forall|f: int| 0 <= f < old(rt).n_effects() ==> #[trigger] final(rt).is_alive(f) == old(rt).is_alive(f)
            },
    {
        let mut i: usize = 0;
        proof {
            lemma_grows_refl(*rt);
        }
        let ghost mut pos: Seq<int> = Seq::empty();
        while i < self.cleanups.len()
            invariant
                rt.wf(),
                keeps_graph(*old(rt), *rt),
                0 <= i <= self.cleanups@.len(),
                pos.len() == i,
                forall|k: int| 0 <= k < pos.len() ==> {
                    &&& old(rt).cleanup_log().len() <= #[trigger] pos[k] < rt.cleanup_log().len()
                    &&& rt.cleanup_log()[pos[k]] == self.cleanups@[k]
                },
                forall|k: int, l: int| 0 <= k < l < pos.len() ==> pos[k] < pos[l],
                i == 0 ==> *rt == *old(rt),
            decreases self.cleanups.len() - i,
        {
            let slot = self.cleanups[i];
            let ghost before = *rt;
            rt.cleaned = Ghost(rt.cleaned@.push(slot));
            let ghost noted = *rt;
            proof {
                pos = pos.push(before.cleaned@.len() as int);
                lemma_log_refl(before.run_log());
                assert(log_extends(before.cleanup_log(), noted.cleanup_log())) by {
                    assert(noted.cleanup_log().subrange(0, before.cleanup_log().len() as int) =~= before.cleanup_log());
                }
                assert(new_runs(before, noted) =~= Seq::<usize>::empty());
                assert(graph_grows(before, noted));
                lemma_grows_trans(*old(rt), before, noted);
            }
            call_cleanup_slot(rt, slot);
            proof {
                lemma_grows_trans(*old(rt), noted, *rt);
                assert forall|k: int| 0 <= k < pos.len() implies {
                    &&& old(rt).cleanup_log().len() <= #[trigger] pos[k] < rt.cleanup_log().len()
                    &&& rt.cleanup_log()[pos[k]] == self.cleanups@[k]
                } by {
                    lemma_log_at(noted.cleanup_log(), rt.cleanup_log(), pos[k]);
                    if k < i {
                        lemma_log_at(before.cleanup_log(), noted.cleanup_log(), pos[k]);
                    }
                }
            }
            i += 1;
        }
        let ghost mid = *rt;
        proof {
            assert(cleanups_invoked(*old(rt), mid, self.cleanups@));
        }
        proof {
            lemma_grows_refl(mid);
        }
        let mut j: usize = 0;
        while j < self.ids.len()
            invariant
                rt.wf(),
                0 <= j <= self.ids@.len(),
                keeps_graph(*old(rt), mid),
                keeps_graph(mid, *rt),
                rt.n_effects() == mid.n_effects(),
                rt.run_log() == mid.run_log(),
                rt.cleanup_log() == mid.cleanup_log(),
                rt.n_effects() >= old(rt).n_effects(),
                forall|f: int| 0 <= f < mid.n_effects() ==>
                    (#[trigger] rt.is_alive(f) <==> (mid.is_alive(f) && !self.ids@.take(j as int).contains(f as usize))),
            decreases self.ids.len() - j,
        {
            let id = self.ids[j];
            let ghost before = *rt;
            if id < rt.alive.len() {
                rt.dispose_effect(id);
                proof {
                    lemma_grows_kill(before, *rt, id as int);
                    lemma_grows_trans(mid, before, *rt);
                }
            }
            proof {
                assert(self.ids@.take(j + 1) =~= self.ids@.take(j as int).push(id));
                assert forall|f: int| 0 <= f < mid.n_effects() implies
                    (#[trigger] rt.is_alive(f) <==> (mid.is_alive(f) && !self.ids@.take(j + 1).contains(f as usize))) by {
                    assert(mid.alive.len() == mid.alive@.len());
                    let t = self.ids@.take(j as int);
                    let u = f as usize;
                    assert(u as int == f);
                    assert(t.push(id)[t.len() as int] == id);
                    if t.contains(u) {
                        let k = choose|k: int| 0 <= k < t.len() && t[k] == u;
                        assert(t.push(id)[k] == u);
                    }
                    if t.push(id).contains(u) && u != id {
                        let k = choose|k: int| 0 <= k < t.push(id).len() && t.push(id)[k] == u;
                        assert(t[k] == u);
                    }
                    assert(self.ids@.take(j + 1).contains(u) <==> (t.contains(u) || f == id as int));
                    if f != id as int {
                        assert(before.is_alive(f) == rt.is_alive(f));
                    }
                }
            }
            j += 1;
        }
        proof {
            assert(self.ids@.take(self.ids@.len() as int) =~= self.ids@);
            lemma_grows_trans(*old(rt), mid, *rt);
            assert(cleanups_invoked(*old(rt), mid, self.cleanups@));
            assert(cleanups_invoked(*old(rt), *rt, self.cleanups@));
            assert forall|k: int| 0 <= k < self.ids@.len() && self.ids@[k] < old(rt).n_effects()
                implies !rt.is_alive(#[trigger] self.ids@[k] as int) by {
                assert(self.ids@.contains(self.ids@[k]));
            }
            if self.ids@.len() == 0 && self.cleanups@.len() == 0 {
                assert(mid == *old(rt));
                assert forall|f: int| 0 <= f < old(rt).n_effects() implies #[trigger] rt.is_alive(f) == old(rt).is_alive(f) by {
                    assert(!self.ids@.contains(f as usize));
                }
            }
        }
    }

    /// Takes the collected effect ids and cleanups out, leaving the scope empty.
    pub fn take_parts(&mut self) -> (r: (Vec<usize>, Vec<usize>))
        ensures
            r.0@ == old(self).ids@,
            r.1@ == old(self).cleanups@,
            final(self).ids@.len() == 0,
            final(self).cleanups@.len() == 0,
    {
        let mut ids: Vec<usize> = Vec::new();
        let mut cleanups: Vec<usize> = Vec::new();
        std::mem::swap(&mut ids, &mut self.ids);
        std::mem::swap(&mut cleanups, &mut self.cleanups);
        (ids, cleanups)
    }

    /// Adds more effect ids and cleanups to this scope (after its own).
    pub fn absorb_parts(&mut self, ids: Vec<usize>, cleanups: Vec<usize>)
        ensures
            final(self).ids@ == old(self).ids@ + ids@,
            final(self).cleanups@ == old(self).cleanups@ + cleanups@,
    {
        let mut ids = ids;
        let mut cleanups = cleanups;
        self.ids.append(&mut ids);
        self.cleanups.append(&mut cleanups);
    }
}

/// Registers `f` to run when the innermost scope is disposed (ignored outside any scope).
pub fn on_cleanup<V: Clone + PartialEq + 'static, F: FnOnce(&mut Runtime<V>) + 'static>(rt: &mut Runtime<V>, f: F)
    requires
        old(rt).wf(),
        accepts_graph::<V, (), F>(f),
        forall|a: &mut Runtime<V>, x: ()| #[trigger] call_ensures(f, (a,), x) ==> keeps_graph(*a, *final(a)),
    ensures
        final(rt).wf(),
        final(rt).n_effects() == old(rt).n_effects(),
        final(rt).cleanup_frames().len() == old(rt).cleanup_frames().len(),
        old(rt).cleanup_frames().len() > 0 ==> {
            &&& final(rt).cleanup_frames().last().len() == old(rt).cleanup_frames().last().len() + 1
            &&& final(rt).cleanup_frames().last().drop_last() == old(rt).cleanup_frames().last()
            &&& final(rt).cleanup_frames().drop_last() == old(rt).cleanup_frames().drop_last()
        },
        old(rt).cleanup_frames().len() == 0 ==> final(rt).cleanup_frames() == old(rt).cleanup_frames(),
        keeps_graph(*old(rt), *final(rt)),
{
    let ghost g0 = *rt;
    proof {
        lemma_grows_refl(g0);
    }
    let n = rt.cleanup_frames.len();
    if n > 0 {
        let slot = rt.closures.add_cleanup(f);
        push_at(&mut rt.cleanup_frames, n - 1, slot);
        proof {
            assert(rt.cleanup_frames() =~= rt.cleanup_frames@.map_values(|f: Vec<usize>| f@));
            assert(rt.cleanup_frames().last() == rt.cleanup_frames@[n - 1]@);
            assert(g0.cleanup_frames().last() == g0.cleanup_frames@[n - 1]@);
            assert(rt.cleanup_frames().last().drop_last() =~= g0.cleanup_frames().last());
            assert(rt.cleanup_frames().drop_last() =~= g0.cleanup_frames().drop_last());
            lemma_grows_same(g0, *rt);
        }
    }
}


/// `lookup_frame` finds the first binding of `key`.
proof fn lemma_lookup_frame<V>(f: Seq<(String, V)>, key: Seq<char>, i: int)
    requires
        0 <= i <= f.len(),
        forall|j: int| 0 <= j < i ==> (#[trigger] f[j]).0@ != key,
    ensures
        i < f.len() && f[i].0@ == key ==> lookup_frame(f, key) == Some(f[i].1),
        i == f.len() ==> lookup_frame(f, key) is None,
    decreases i,
{
    if f.len() > 0 {
        if i > 0 {
            let g = f.drop_first();
            assert forall|j: int| 0 <= j < i - 1 implies (#[trigger] g[j]).0@ != key by {
                assert(g[j] == f[j + 1]);
            }
            assert(f[0].0@ != key);
            lemma_lookup_frame(g, key, i - 1);
            if i < f.len() {
                assert(g[i - 1] == f[i]);
            }
        }
    }
}

/// `lookup_frames` looks in the last frame first, then the frames below it.
proof fn lemma_lookup_frames_top<V>(frames: Seq<Seq<(String, V)>>, key: Seq<char>)
    requires
        frames.len() > 0,
    ensures
        lookup_frames(frames, key) == (match lookup_frame(frames.last(), key) {
            Some(v) => Some(v),
            None => lookup_frames(frames.drop_last(), key),
        }),
{
}

/// Binds `key` to `value` in the innermost context frame (overwriting an earlier binding
/// of the same key there); ignored when there is no frame.
pub fn provide_context<V: Clone + PartialEq + 'static>(rt: &mut Runtime<V>, key: &str, value: V)
    requires
        old(rt).wf(),
    ensures
        final(rt).wf(),
        final(rt).context_frames().len() == old(rt).context_frames().len(),
        old(rt).context_frames().len() > 0 ==> lookup_frames(final(rt).context_frames(), key@) == Some(value),
        old(rt).context_frames().len() > 0 ==> final(rt).context_frames().drop_last()
            == old(rt).context_frames().drop_last(),
        old(rt).context_frames().len() == 0 ==> final(rt).context_frames() == old(rt).context_frames(),
        final(rt).n_effects() == old(rt).n_effects(),
        final(rt).signal_values() == old(rt).signal_values(),
        keeps_graph(*old(rt), *final(rt)),
{
    let ghost g0 = *rt;
    let n = rt.contexts.len();
    if n == 0 {
        proof {
            lemma_grows_refl(g0);
        }
        return;
    }
    let k: String = key.to_owned();
    let mut frame: Vec<(String, V)> = Vec::new();
    rt.contexts.set_and_swap(n - 1, &mut frame);
    let ghost f0 = frame@;
    let mut i: usize = 0;
    let mut found = false;
    while i < frame.len() && !found
        invariant
            frame@ == f0,
            0 <= i <= frame.len(),
            k@ == key@,
            found ==> i < frame.len() && f0[i as int].0@ == key@,
            forall|j: int| 0 <= j < i ==> (#[trigger] f0[j]).0@ != key@,
        decreases frame.len() - i + (if found { 0int } else { 1int }),
    {
        if frame[i].0 == k {
            found = true;
        } else {
            i += 1;
        }
    }
    proof {
        lemma_lookup_frame(f0, key@, i as int);
    }
    if found {
        let name = frame[i].0.clone();
        frame.set(i, (name, value));
        proof {
            assert forall|j: int| 0 <= j < i implies (#[trigger] frame@[j]).0@ != key@ by {
                assert(frame@[j] == f0[j]);
            }
            lemma_lookup_frame(frame@, key@, i as int);
        }
    } else {
        frame.push((k, value));
        proof {
            assert forall|j: int| 0 <= j < i implies (#[trigger] frame@[j]).0@ != key@ by {
                assert(frame@[j] == f0[j]);
            }
            lemma_lookup_frame(frame@, key@, i as int);
        }
    }
    rt.contexts.set_and_swap(n - 1, &mut frame);
    proof {
        let fr = rt.context_frames();
        assert(fr.last() == rt.contexts@[n - 1]@);
        lemma_lookup_frames_top(fr, key@);
        assert(fr.drop_last() =~= g0.context_frames().drop_last());
        lemma_grows_same(g0, *rt);
    }
}

/// The innermost binding of `key`, searching context frames from the innermost outwards.
pub fn use_context<V: Clone + PartialEq + 'static>(rt: &Runtime<V>, key: &str) -> (r: Option<V>)
    requires
        rt.wf(),
    ensures
        r is Some <==> lookup_frames(rt.context_frames(), key@) is Some,
        r matches Some(x) ==> cloned(lookup_frames(rt.context_frames(), key@)->0, x),
{
    let k: String = key.to_owned();
    let ghost frames = rt.context_frames();
    let mut fi: usize = rt.contexts.len();
    proof {
        assert(frames.subrange(0, fi as int) == frames);
    }
    while fi > 0
        invariant
            fi <= rt.contexts@.len(),
            frames == rt.context_frames(),
            k@ == key@,
            lookup_frames(frames, key@) == lookup_frames(frames.subrange(0, fi as int), key@),
        decreases fi,
    {
        let ghost sub = frames.subrange(0, fi as int);
        proof {
            lemma_lookup_frames_top(sub, key@);
            assert(sub.last() == rt.contexts@[fi - 1]@);
            assert(sub.drop_last() == frames.subrange(0, fi - 1));
        }
        let frame = &rt.contexts[fi - 1];
        let mut i: usize = 0;
        while i < frame.len()
            invariant
                fi > 0,
                fi <= rt.contexts@.len(),
                frame@ == rt.contexts@[fi - 1]@,
                frames == rt.context_frames(),
                lookup_frames(frames, key@) == (match lookup_frame(frame@, key@) {
                    Some(v) => Some(v),
                    None => lookup_frames(frames.subrange(0, fi - 1), key@),
                }),
                0 <= i <= frame.len(),
                k@ == key@,
                forall|j: int| 0 <= j < i ==> (#[trigger] frame@[j]).0@ != key@,
            decreases frame.len() - i,
        {
            if frame[i].0 == k {
                proof {
                    lemma_lookup_frame(frame@, key@, i as int);
                    assert(lookup_frames(frames, key@) == Some(frame@[i as int].1));
                }
                return Some(frame[i].1.clone());
            }
            i += 1;
        }
        proof {
            lemma_lookup_frame(frame@, key@, i as int);
        }
        fi -= 1;
    }
    proof {
        assert(frames.subrange(0, 0) =~= Seq::<Seq<(String, V)>>::empty());
    }
    None
}

/// Runs `f` inside a fresh context frame that is dropped afterwards, so contexts it
/// provides reach only what it builds; the caller's context stack is restored as it was.
pub fn provider<V: Clone + PartialEq + 'static, R, F: FnOnce(&mut Runtime<V>) -> R>(rt: &mut Runtime<V>, f: F) -> (r: R)
    requires
        old(rt).wf(),
        accepts_graph::<V, R, F>(f),
        forall|a: &mut Runtime<V>, x: R| #[trigger] call_ensures(f, (a,), x) ==> keeps_graph(*a, *final(a)),
    ensures
        keeps_graph(*old(rt), *final(rt)),
        final(rt).context_frames() == old(rt).context_frames(),
        exists|a: &mut Runtime<V>| {
            &&& a.context_frames() == old(rt).context_frames().push(Seq::empty())
            &&& #[trigger] call_ensures(f, (a,), r)
        },
{
    rt.contexts.push(Vec::new());
    let ghost g1 = *rt;
    proof {
        lemma_grows_same(*old(rt), g1);
        assert(g1.context_frames() =~= old(rt).context_frames().push(Seq::empty()));
    }
    let r = call_with(rt, f);
    let ghost g2 = *rt;
    let _ = rt.contexts.pop();
    proof {
        assert(rt.context_frames() =~= g2.context_frames().drop_last());
        assert(old(rt).context_frames().push(Seq::empty()).drop_last() =~= old(rt).context_frames());
        assert(rt.context_frames() == old(rt).context_frames());
        assert(old(rt).context_frames().push(Seq::empty()).drop_last() =~= old(rt).context_frames());
        assert(rt.context_frames() == old(rt).context_frames());
        lemma_grows_same(g2, *rt);
        lemma_grows_trans(*old(rt), g1, g2);
        lemma_grows_trans(*old(rt), g2, *rt);
    }
    r
}

/// `dst` is a copy of `src`: the same frames, the same keys in the same places, and each
/// value a clone of the one it copies.
pub open spec fn frames_copied<V: Clone>(src: Seq<Seq<(String, V)>>, dst: Seq<Seq<(String, V)>>) -> bool {
    &&& dst.len() == src.len()
    &&& forall|i: int| 0 <= i < src.len() ==> #[trigger] dst[i].len() == src[i].len()
    &&& forall|i: int, j: int| 0 <= i < src.len() && 0 <= j < src[i].len() ==> {
        &&& (#[trigger] dst[i][j]).0 == src[i][j].0
        &&& cloned::<V>(src[i][j].1, dst[i][j].1)
    }
}

/// In a copied frame, `key` is bound exactly where it was, to a clone of its value.
proof fn lemma_lookup_frame_copied<V: Clone>(src: Seq<(String, V)>, dst: Seq<(String, V)>, key: Seq<char>)
    requires
        dst.len() == src.len(),
        forall|j: int| 0 <= j < src.len() ==> (#[trigger] dst[j]).0 == src[j].0 && cloned::<V>(src[j].1, dst[j].1),
    ensures
        lookup_frame(dst, key) is Some <==> lookup_frame(src, key) is Some,
        lookup_frame(src, key) is Some ==> cloned::<V>(lookup_frame(src, key)->0, lookup_frame(dst, key)->0),
    decreases src.len(),
{
    if src.len() > 0 {
        assert(dst[0].0 == src[0].0);
        assert forall|j: int| 0 <= j < src.drop_first().len() implies
            (#[trigger] dst.drop_first()[j]).0 == src.drop_first()[j].0 && cloned::<V>(src.drop_first()[j].1, dst.drop_first()[j].1) by {
            assert(dst.drop_first()[j] == dst[j + 1]);
            assert(src.drop_first()[j] == src[j + 1]);
        }
        lemma_lookup_frame_copied(src.drop_first(), dst.drop_first(), key);
    }
}

/// A lookup in a copied context stack finds a clone of what the lookup in the original
/// finds, and finds nothing exactly when the original has no binding.
pub proof fn lemma_lookup_copied<V: Clone>(src: Seq<Seq<(String, V)>>, dst: Seq<Seq<(String, V)>>, key: Seq<char>)
    requires
        frames_copied(src, dst),
    ensures
        lookup_frames(dst, key) is Some <==> lookup_frames(src, key) is Some,
        lookup_frames(src, key) is Some ==> cloned::<V>(lookup_frames(src, key)->0, lookup_frames(dst, key)->0),
    decreases src.len(),
{
    if src.len() > 0 {
        let n = src.len() - 1;
        assert(dst[n].len() == src[n].len());
        assert forall|j: int| 0 <= j < src[n].len() implies
            (#[trigger] dst[n][j]).0 == src[n][j].0 && cloned::<V>(src[n][j].1, dst[n][j].1) by {
        }
        lemma_lookup_frame_copied(src.last(), dst.last(), key);
        assert forall|i: int| 0 <= i < src.drop_last().len() implies #[trigger] dst.drop_last()[i].len() == src.drop_last()[i].len() by {
            assert(dst.drop_last()[i] == dst[i]);
        }
        assert forall|i: int, j: int| 0 <= i < src.drop_last().len() && 0 <= j < src.drop_last()[i].len() implies {
            &&& (#[trigger] dst.drop_last()[i][j]).0 == src.drop_last()[i][j].0
            &&& cloned::<V>(src.drop_last()[i][j].1, dst.drop_last()[i][j].1)
        } by {
            assert(dst.drop_last()[i] == dst[i]);
            assert(src.drop_last()[i] == src[i]);
        }
        lemma_lookup_copied(src.drop_last(), dst.drop_last(), key);
    }
}

/// A copy of a context stack: each key cloned (an equal `String`) and each value cloned.
fn copy_frames<V: Clone>(frames: &Vec<Vec<(String, V)>>) -> (r: Vec<Vec<(String, V)>>)
    ensures
        frames_copied(frames@.map_values(|f: Vec<(String, V)>| f@), r@.map_values(|f: Vec<(String, V)>| f@)),
{
    let ghost src = frames@.map_values(|f: Vec<(String, V)>| f@);
    let mut out: Vec<Vec<(String, V)>> = Vec::new();
    let mut i: usize = 0;
    while i < frames.len()
        invariant
            0 <= i <= frames@.len(),
            src == frames@.map_values(|f: Vec<(String, V)>| f@),
            out@.len() == i,
            forall|a: int| 0 <= a < i ==> #[trigger] out@[a]@.len() == src[a].len(),
            forall|a: int, b: int| 0 <= a < i && 0 <= b < src[a].len() ==> {
                &&& (#[trigger] out@[a]@[b]).0 == src[a][b].0
                &&& cloned::<V>(src[a][b].1, out@[a]@[b].1)
            },
        decreases frames@.len() - i,
    {
        let mut row: Vec<(String, V)> = Vec::new();
        let mut j: usize = 0;
        while j < frames[i].len()
            invariant
                0 <= i < frames@.len(),
                0 <= j <= frames@[i as int]@.len(),
                src == frames@.map_values(|f: Vec<(String, V)>| f@),
                row@.len() == j,
                forall|b: int| 0 <= b < j ==> {
                    &&& (#[trigger] row@[b]).0 == src[i as int][b].0
                    &&& cloned::<V>(src[i as int][b].1, row@[b].1)
                },
            decreases frames@[i as int]@.len() - j,
        {
            let k = frames[i][j].0.clone();
            let v = frames[i][j].1.clone();
            row.push((k, v));
            j += 1;
        }
        out.push(row);
        i += 1;
    }
    proof {
        let dst = out@.map_values(|f: Vec<(String, V)>| f@);
        assert forall|a: int| 0 <= a < src.len() implies #[trigger] dst[a].len() == src[a].len() by {
            assert(dst[a] == out@[a]@);
        }
        assert forall|a: int, b: int| 0 <= a < src.len() && 0 <= b < src[a].len() implies {
            &&& (#[trigger] dst[a][b]).0 == src[a][b].0
            &&& cloned::<V>(src[a][b].1, dst[a][b].1)
        } by {
            assert(dst[a] == out@[a]@);
        }
    }
    out
}

/// A copy of the context stack (for running deferred work with today's contexts).
pub fn capture_contexts<V: Clone + PartialEq + 'static>(rt: &Runtime<V>) -> (snap: ContextSnapshot<V>)
    requires
        rt.wf(),
    ensures
        frames_copied(rt.context_frames(), snap@.map_values(|f: Vec<(String, V)>| f@)),
{
    copy_frames(&rt.contexts)
}

/// Runs `f` with the context stack replaced by `snap`, restoring the current stack after.
pub fn with_contexts<V: Clone + PartialEq + 'static, R, F: FnOnce(&mut Runtime<V>) -> R>(
    rt: &mut Runtime<V>,
    snap: &ContextSnapshot<V>,
    f: F,
) -> (r: R)
    requires
        old(rt).wf(),
        accepts_graph::<V, R, F>(f),
        forall|a: &mut Runtime<V>, x: R| #[trigger] call_ensures(f, (a,), x) ==> keeps_graph(*a, *final(a)),
    ensures
        keeps_graph(*old(rt), *final(rt)),
        final(rt).context_frames() == old(rt).context_frames(),
        exists|a: &mut Runtime<V>| {
            &&& frames_copied(snap@.map_values(|f: Vec<(String, V)>| f@), a.context_frames())
            &&& #[trigger] call_ensures(f, (a,), r)
        },
{
    let mut saved: Vec<Vec<(String, V)>> = copy_frames(snap);
    std::mem::swap(&mut saved, &mut rt.contexts);
    let ghost g1 = *rt;
    proof {
        lemma_grows_same(*old(rt), g1);
    }
    let r = call_with(rt, f);
    let ghost g2 = *rt;
    std::mem::swap(&mut saved, &mut rt.contexts);
    proof {
        lemma_grows_same(g2, *rt);
        lemma_grows_trans(*old(rt), g1, g2);
        lemma_grows_trans(*old(rt), g2, *rt);
        let a = choose|a: &mut Runtime<V>| *a == g1 && *final(a) == g2 && #[trigger] call_ensures(f, (a,), r);
        assert(*a == g1 && call_ensures(f, (a,), r));
    }
    r
}

// ── the closure table (trusted) ──

/// The user's effect, memo and cleanup closures, indexed by slot.  Hidden from Verus,
/// which cannot hold `dyn Fn` values.
#[verifier::external_body]
#[verifier::reject_recursive_types(V)]
pub struct Closures<V> {
    effects: Vec<Rc<dyn Fn(&mut Runtime<V>) -> Option<V>>>,
    cleanups: Vec<Option<Box<dyn FnOnce(&mut Runtime<V>)>>>,
}

impl<V: 'static> Closures<V> {
    /// An empty table (std `Vec::new`).
    #[verifier::external_body]
    fn new() -> Closures<V> {
        Closures { effects: Vec::new(), cleanups: Vec::new() }
    }

    /// Stores an effect body (std `Vec::push` of the shared closure); returns its slot.
    #[verifier::external_body]
    fn add_effect<F: Fn(&mut Runtime<V>) + 'static>(&mut self, f: Rc<F>) -> usize {
        let slot = self.effects.len();
        self.effects.push(Rc::new(move |rt: &mut Runtime<V>| {
            f(rt);
            None
        }));
        slot
    }

    /// Stores a memo computation (std `Vec::push` of the shared closure); running its slot
    /// yields `Some(value)`.
    #[verifier::external_body]
    fn add_memo<F: Fn(&mut Runtime<V>) -> V + 'static>(&mut self, f: Rc<F>) -> usize {
        let slot = self.effects.len();
        self.effects.push(Rc::new(move |rt: &mut Runtime<V>| Some(f(rt))));
        slot
    }

    /// Stores a cleanup callback (std `Vec::push`); returns its slot.
    #[verifier::external_body]
    fn add_cleanup<F: FnOnce(&mut Runtime<V>) + 'static>(&mut self, f: F) -> usize {
        let slot = self.cleanups.len();
        self.cleanups.push(Some(Box::new(f)));
        slot
    }
}

/// Runs the closure in effect slot `slot` on `rt` (a missing slot does nothing) and returns
/// what it returns (`Some(value)` for a memo, `None` for an effect).  The table is private
/// and filled only by `effect` and `memo`, whose `requires` ask of each closure that it
/// accept every well-formed runtime and keep it (`keeps_graph`); this states that of the
/// stored closure.  What the closure computes is not stated.
#[verifier::external_body]
fn call_effect_slot<V: Clone + PartialEq + 'static>(rt: &mut Runtime<V>, slot: usize) -> (r: Option<V>)
    requires
        old(rt).wf(),
    ensures
        keeps_graph(*old(rt), *final(rt)),
{
    match rt.closures.effects.get(slot) {
        Some(f) => f.clone()(rt),
        None => None,
    }
}

/// Takes the cleanup in `slot` out of the table and runs it once (a used or missing slot
/// does nothing).  Cleanups enter the private table only through `on_cleanup`, whose
/// `requires` ask that the closure accept every well-formed runtime and keep it
/// (`keeps_graph`); this states that of the stored closure.
#[verifier::external_body]
fn call_cleanup_slot<V: Clone + PartialEq + 'static>(rt: &mut Runtime<V>, slot: usize)
    requires
        old(rt).wf(),
    ensures
        keeps_graph(*old(rt), *final(rt)),
{
    let f = match rt.closures.cleanups.get_mut(slot) {
        Some(s) => s.take(),
        None => None,
    };
    if let Some(f) = f {
        f(rt)
    }
}

/// Calls `f` on the runtime and returns what it returns.
fn call_with<V: Clone + PartialEq + 'static, R, F: FnOnce(&mut Runtime<V>) -> R>(rt: &mut Runtime<V>, f: F) -> (r: R)
    requires
        old(rt).wf(),
        accepts_graph::<V, R, F>(f),
        forall|a: &mut Runtime<V>, x: R| #[trigger] call_ensures(f, (a,), x) ==> keeps_graph(*a, *final(a)),
    ensures
        keeps_graph(*old(rt), *final(rt)),
        exists|a: &mut Runtime<V>| *a == *old(rt) && *final(a) == *final(rt) && #[trigger] call_ensures(f, (a,), r),
{
    f(rt)
}

/// Calls a borrowed closure (the first runs of an effect or memo, before it is stored).
fn call_fn<V: Clone + PartialEq + 'static, R, F: Fn(&mut Runtime<V>) -> R>(rt: &mut Runtime<V>, f: &F) -> (r: R)
    requires
        old(rt).wf(),
        accepts_graph::<V, R, F>(*f),
        forall|a: &mut Runtime<V>, x: R| #[trigger] call_ensures(*f, (a,), x) ==> keeps_graph(*a, *final(a)),
    ensures
        keeps_graph(*old(rt), *final(rt)),
        exists|a: &mut Runtime<V>| *a == *old(rt) && *final(a) == *final(rt) && #[trigger] call_ensures(*f, (a,), r),
{
    f(rt)
}

} // verus!
