//! The engine: profiling counters, the compiled caches, the dependency graph
//! between inlined functions, quarantine, and clock-based eviction.
use vstd::prelude::*;
use crate::cache::{BaselineVariant, CompiledCodePolymorphic, CompiledOSR, CompiledView, OptimizedVariant, OsrView, Tier, VariantView};
use crate::value::{Val, VVal};
use crate::collections::{clone_strings, strs, StrMap, StrSet};
use crate::text::{contains_str, sorted_keys};
use crate::invoke::{lemma_bookkeeping_keeps_deopt_counts, room};
use crate::model::{map_entries, set_map_entries, lemma_evict_shrinks, capped, compiled_bytes, compiled_total_bytes, lemma_capped_add, memo_bytes, memo_entry_bytes, variant_bytes, variants_bytes, lemma_keep_members, lemma_invalidation_keeps_deopt_counts, lemma_cleaning_keeps_deopt_counts, ClockSweep, EngineView, JitLimits, clock_sweep, first_least_in, keep, rank_in, below_max, fresh_compiled, fresh_variant, memo_with, bumped, bumped_all, deopt_compiled, deopt_gone, set_at, unlink};

verus! {

/// The engine's tables.
pub struct EngineState {
    polymorphic_counters: StrMap<StrMap<usize>>,
    global_invocation_counters: StrMap<usize>,
    blacklisted_polymorphic_functions: StrSet,
    deopt_counters: StrMap<usize>,
    loop_counters: StrMap<usize>,
    compiled_cache: StrMap<CompiledCodePolymorphic>,
    osr_cache: StrMap<CompiledOSR>,
    error_counters: StrMap<usize>,
    quarantined_functions: StrSet,
    parent_to_children: StrMap<StrSet>,
    child_to_parents: StrMap<StrSet>,
    active_invocations: StrMap<usize>,
    clock_queue: Vec<String>,
    clock_hand: usize,
    clock_use_bits: StrMap<bool>,
}

/// The engine: its tables and its tuning limits.
pub struct AdvancedJITEngine {
    pub state: EngineState,
    pub max_cache_size: usize,
    pub jit_threshold: usize,
    pub osr_threshold: usize,
    pub max_error_threshold: usize,
    pub max_polymorphic_slots: usize,
    pub max_memo_cache_size: usize,
    pub max_global_slow_path_attempts: usize,
    pub max_deopt_threshold: usize,
    pub max_stack_depth: usize,
}

impl View for EngineState {
    type V = EngineView;

    closed spec fn view(&self) -> EngineView {
        EngineView {
            polymorphic_counters: self.polymorphic_counters@,
            global_invocation_counters: self.global_invocation_counters@,
            blacklisted: self.blacklisted_polymorphic_functions@,
            deopt_counters: self.deopt_counters@,
            loop_counters: self.loop_counters@,
            compiled: self.compiled_cache@,
            osr: self.osr_cache@,
            error_counters: self.error_counters@,
            quarantined: self.quarantined_functions@,
            parent_to_children: self.parent_to_children@,
            child_to_parents: self.child_to_parents@,
            active: self.active_invocations@,
            clock_queue: self.clock_queue@.map_values(|s: String| s@),
            clock_hand: self.clock_hand,
            clock_use_bits: self.clock_use_bits@,
        }
    }
}

impl View for AdvancedJITEngine {
    type V = EngineView;

    open spec fn view(&self) -> EngineView {
        self.state@
    }
}

impl AdvancedJITEngine {
    /// The tuning limits.
    pub open spec fn limits(&self) -> JitLimits {
        JitLimits {
            max_cache_size: self.max_cache_size,
            jit_threshold: self.jit_threshold,
            osr_threshold: self.osr_threshold,
            max_error_threshold: self.max_error_threshold,
            max_polymorphic_slots: self.max_polymorphic_slots,
            max_memo_cache_size: self.max_memo_cache_size,
            max_global_slow_path_attempts: self.max_global_slow_path_attempts,
            max_deopt_threshold: self.max_deopt_threshold,
            max_stack_depth: self.max_stack_depth,
        }
    }

    /// Well-formedness of the state, and room for one more deoptimization of
    /// every optimized function.
    pub open spec fn wf(&self) -> bool {
        self@.wf() && self@.deopt_counts_ok()
    }

    /// An engine with empty tables and the default limits.
    pub fn new() -> (e: Self)
        ensures
            e.wf(),
            e@ == EngineView::empty(),
            e.max_cache_size == 10,
            e.jit_threshold == 3,
            e.osr_threshold == 3,
            e.max_error_threshold == 2,
            e.max_polymorphic_slots == 2,
            e.max_memo_cache_size == 5,
            e.max_global_slow_path_attempts == 10,
            e.max_deopt_threshold == 2,
            e.max_stack_depth == 300,
    {
        let state = EngineState::new();
        AdvancedJITEngine {
            state,
            max_cache_size: 10,
            jit_threshold: 3,
            osr_threshold: 3,
            max_error_threshold: 2,
            max_polymorphic_slots: 2,
            max_memo_cache_size: 5,
            max_global_slow_path_attempts: 10,
            max_deopt_threshold: 2,
            max_stack_depth: 300,
        }
    }
}

impl EngineState {
    /// Empty tables.
    pub(crate) fn new() -> (e: Self)
        ensures
            e@.wf(),
            e@ == EngineView::empty(),
    {
        let e = EngineState {
            polymorphic_counters: StrMap::new(),
            global_invocation_counters: StrMap::new(),
            blacklisted_polymorphic_functions: StrSet::new(),
            deopt_counters: StrMap::new(),
            loop_counters: StrMap::new(),
            compiled_cache: StrMap::new(),
            osr_cache: StrMap::new(),
            error_counters: StrMap::new(),
            quarantined_functions: StrSet::new(),
            parent_to_children: StrMap::new(),
            child_to_parents: StrMap::new(),
            active_invocations: StrMap::new(),
            clock_queue: Vec::new(),
            clock_hand: 0,
            clock_use_bits: StrMap::new(),
        };
        proof {
            assert(e@.clock_queue =~= Seq::<Seq<char>>::empty());
            assert(e@ =~= EngineView::empty());
        }
        e
    }

    /// Marks `key` as recently used in the clock and queues it if new.
    fn add_to_clock_queue(&mut self, key: String)
        ensures
            final(self)@ == old(self)@.with_clock_key(key@),
    {
        let ghost q0 = self@.clock_queue;
        let mut found = false;
        let mut i: usize = 0;
        while i < self.clock_queue.len()
            invariant
                q0 == self.clock_queue@.map_values(|s: String| s@),
                i <= self.clock_queue@.len(),
                found == q0.take(i as int).contains(key@),
            decreases self.clock_queue.len() - i,
        {
            if self.clock_queue[i] == key {
                found = true;
            }
            proof {
                assert(q0[i as int] == self.clock_queue@[i as int]@);
                assert(q0.take(i + 1) =~= q0.take(i as int).push(q0[i as int]));
                if q0[i as int] == key@ {
                    assert(q0.take(i + 1)[i as int] == key@);
                }
                if q0.take(i as int).contains(key@) {
                    let j = choose|j: int| 0 <= j < i && #[trigger] q0.take(i as int)[j] == key@;
                    assert(q0.take(i + 1)[j] == key@);
                }
                if q0.take(i + 1).contains(key@) {
                    let j = choose|j: int| 0 <= j < i + 1 && #[trigger] q0.take(i + 1)[j] == key@;
                    if j < i {
                        assert(q0.take(i as int)[j] == key@);
                    }
                }
            }
            i = i + 1;
        }
        let ghost km = key@;
        if !found {
            self.clock_queue.push(key.clone());
            assert(self.clock_queue@.map_values(|s: String| s@) =~= q0.push(km));
        }
        proof {
            assert(q0.take(q0.len() as int) =~= q0);
        }
        self.clock_use_bits.insert(key, true);
        assert(self@ =~= old(self)@.with_clock_key(km));
    }

}

/// `m` with `x` added to the set under `key`.
fn set_add(m: &mut StrMap<StrSet>, key: &String, x: String)
    ensures
        final(m)@ == old(m)@.insert(key@, set_at(old(m)@, key@).insert(x@)),
{
    let mut st = match m.remove(key) {
        Some(st) => st,
        None => StrSet::new(),
    };
    st.insert(x);
    m.insert(key.clone(), st);
    assert(m@ =~= old(m)@.insert(key@, set_at(old(m)@, key@).insert(x@)));
}

/// `m` with `x` taken out of the set under `key`; a set left empty is
/// dropped when `drop_empty` holds.
fn set_drop(m: &mut StrMap<StrSet>, key: &String, x: &String, drop_empty: bool)
    ensures
        final(m)@ == (if old(m)@.contains_key(key@) {
            if drop_empty && old(m)@[key@].remove(x@).is_empty() {
                old(m)@.remove(key@)
            } else {
                old(m)@.insert(key@, old(m)@[key@].remove(x@))
            }
        } else {
            old(m)@
        }),
{
    match m.remove(key) {
        Some(mut st) => {
            st.remove(x);
            if !drop_empty || !st.is_empty() {
                m.insert(key.clone(), st);
                assert(m@ =~= old(m)@.insert(key@, old(m)@[key@].remove(x@)));
            }
        },
        None => {
            assert(m@ =~= old(m)@);
        },
    }
}

/// `m` with `x` removed from the sets of the keys in `t`; a set left empty
/// is dropped when `drop_empty` holds.
pub open spec fn dropped_from(
    m: Map<Seq<char>, Set<Seq<char>>>,
    x: Seq<char>,
    t: Set<Seq<char>>,
    drop_empty: bool,
) -> Map<Seq<char>, Set<Seq<char>>> {
    Map::new(
        |k: Seq<char>| m.contains_key(k) && !(drop_empty && t.contains(k) && m[k].remove(x).is_empty()),
        |k: Seq<char>| if t.contains(k) { m[k].remove(x) } else { m[k] },
    )
}

/// Removes `x` from the set under each member of `keys`.
fn drop_from_sets(m: &mut StrMap<StrSet>, keys: &StrSet, x: &String, drop_empty: bool)
    ensures
        final(m)@ == dropped_from(old(m)@, x@, keys@, drop_empty),
{
    keys.note_invariant();
    let ghost m0 = m@;
    let ghost order = keys.elem_order();
    let mut i: usize = 0;
    while i < keys.len()
        invariant
            m0 == old(m)@,
            order == keys.elem_order(),
            order.no_duplicates(),
            forall|k: Seq<char>| #[trigger] keys@.contains(k) <==> order.contains(k),
            i <= order.len(),
            m@ == dropped_from(m0, x@, order.take(i as int).to_set(), drop_empty),
        decreases order.len() - i,
    {
        let k = keys.elem_at(i);
        let ghost cur = m@;
        set_drop(m, k, x, drop_empty);
        proof {
            let t0 = order.take(i as int).to_set();
            let t1 = order.take(i + 1).to_set();
            assert(t1 =~= t0.insert(order[i as int])) by {
                assert forall|q: Seq<char>| t1.contains(q) <==> t0.insert(order[i as int]).contains(q) by {
                    if t1.contains(q) {
                        let j = choose|j: int| 0 <= j < i + 1 && #[trigger] order.take(i + 1)[j] == q;
                        if j < i {
                            assert(order.take(i as int)[j] == q);
                        }
                    }
                    if t0.contains(q) {
                        let j = choose|j: int| 0 <= j < i && #[trigger] order.take(i as int)[j] == q;
                        assert(order.take(i + 1)[j] == q);
                    }
                    if q == order[i as int] {
                        assert(order.take(i + 1)[i as int] == q);
                    }
                }
            }
            assert(!t0.contains(order[i as int])) by {
                if t0.contains(order[i as int]) {
                    let j = choose|j: int| 0 <= j < i && #[trigger] order.take(i as int)[j] == order[i as int];
                }
            }
            let kk = order[i as int];
            assert(cur.contains_key(kk) == m0.contains_key(kk));
            if cur.contains_key(kk) {
                assert(cur[kk] == m0[kk]);
            }
            let goal = dropped_from(m0, x@, t1, drop_empty);
            assert forall|q: Seq<char>| #[trigger] m@.contains_key(q) == goal.contains_key(q) by {
                if q != kk {
                    assert(t1.contains(q) == t0.contains(q));
                }
            }
            assert forall|q: Seq<char>| #[trigger] m@.contains_key(q) implies m@[q] == goal[q] by {
                if q != kk {
                    assert(t1.contains(q) == t0.contains(q));
                }
            }
            assert(m@ =~= goal);
        }
        i = i + 1;
    }
    proof {
        assert(order.take(order.len() as int) =~= order);
        assert(order.to_set() =~= keys@);
    }
}

impl EngineState {
    /// Records that `parent` inlines `child`, in both directions.
    pub(crate) fn register_dependency(&mut self, parent: &String, child: &String)
        requires
            old(self)@.wf(),
        ensures
            final(self)@ == old(self)@.with_dependency(parent@, child@),
            final(self)@.wf(),
    {
        set_add(&mut self.parent_to_children, parent, child.clone());
        set_add(&mut self.child_to_parents, child, parent.clone());
        assert(self@ =~= old(self)@.with_dependency(parent@, child@));
        proof {
            let s0 = old(self)@;
            let s1 = self@;
            assert forall|p: Seq<char>, c: Seq<char>| set_at(s1.parent_to_children, p).contains(c) <==> #[trigger] set_at(s1.child_to_parents, c).contains(p) by {
                assert(set_at(s0.parent_to_children, p).contains(c) <==> set_at(s0.child_to_parents, c).contains(p));
            }
        }
    }

    /// Removes every dependency link of `f`, in both directions; a link list
    /// left empty is dropped.
    pub(crate) fn clean_inlining_dependencies(&mut self, f: &String)
        requires
            old(self)@.wf(),
        ensures
            final(self)@ == old(self)@.without_links(f@),
            final(self)@.wf(),
    {
        let ghost s0 = self@;
        let ghost fm = f@;
        let ghost cs = set_at(s0.parent_to_children, fm);
        let ghost ps = set_at(s0.child_to_parents, fm);
        let removed = self.parent_to_children.remove(f);
        if let Some(children) = removed {
            drop_from_sets(&mut self.child_to_parents, &children, f, true);
        } else {
            assert(dropped_from(s0.child_to_parents, fm, cs, true) =~= s0.child_to_parents);
        }
        let ghost c2p1 = self.child_to_parents@;
        let ghost ps1 = set_at(c2p1, fm);
        assert(c2p1 == dropped_from(s0.child_to_parents, fm, cs, true));
        let removed2 = self.child_to_parents.remove(f);
        if let Some(parents) = removed2 {
            drop_from_sets(&mut self.parent_to_children, &parents, f, true);
        } else {
            assert(dropped_from(s0.parent_to_children.remove(fm), fm, ps1, true) =~= s0.parent_to_children.remove(fm));
        }
        assert(self.parent_to_children@ == dropped_from(s0.parent_to_children.remove(fm), fm, ps1, true));
        proof {
            // ps1 differs from ps at most in fm, which unlink leaves out anyway
            assert(self.child_to_parents@ =~= unlink(s0.child_to_parents, fm, cs));
            assert(self.parent_to_children@ =~= unlink(s0.parent_to_children, fm, ps)) by {
                assert forall|k: Seq<char>| k != fm implies (ps1.contains(k) <==> ps.contains(k)) by {
                    if s0.child_to_parents.contains_key(fm) {
                        if cs.contains(fm) {
                            if ps.contains(k) {
                                assert(s0.child_to_parents[fm].remove(fm).contains(k));
                            }
                        }
                    }
                }
            }
            assert(self@.parent_to_children =~= s0.without_links(fm).parent_to_children);
            assert(self@.child_to_parents =~= s0.without_links(fm).child_to_parents);
            assert(self@ =~= s0.without_links(fm));
            let s1 = self@;
            assert forall|p: Seq<char>, c: Seq<char>| set_at(s1.parent_to_children, p).contains(c) <==> #[trigger] set_at(s1.child_to_parents, c).contains(p) by {
                assert(set_at(s0.parent_to_children, p).contains(c) <==> set_at(s0.child_to_parents, c).contains(p));
                assert(set_at(s0.parent_to_children, c).contains(fm) <==> set_at(s0.child_to_parents, fm).contains(c));
                assert(set_at(s0.parent_to_children, fm).contains(p) <==> set_at(s0.child_to_parents, p).contains(fm));
            }
        }
    }
}

impl EngineState {
    /// Drops the per-function counters of `f` and every dependency link of it.
    pub(crate) fn clean_metadata(&mut self, f: &String)
        requires
            old(self)@.wf(),
        ensures
            final(self)@ == old(self)@.without_metadata(f@),
            final(self)@.wf(),
            old(self)@.deopt_counts_ok() ==> final(self)@.deopt_counts_ok(),
    {
        let _ = self.polymorphic_counters.remove(f);
        let _ = self.global_invocation_counters.remove(f);
        let _ = self.deopt_counters.remove(f);
        let _ = self.error_counters.remove(f);
        let _ = self.active_invocations.remove(f);
        self.clean_inlining_dependencies(f);
        assert(self@ =~= old(self)@.without_metadata(f@));
        proof {
            if old(self)@.deopt_counts_ok() {
                lemma_cleaning_keeps_deopt_counts(old(self)@, f@);
            }
        }
    }
}

/// Every step of `path` up to index `n` stays within `reached`, given that
/// `reached` holds the start and is closed under optimized parent links.
proof fn lemma_path_within(s: EngineView, path: Seq<Seq<char>>, reached: Set<Seq<char>>, n: int)
    requires
        s.is_deopt_path(path),
        reached.contains(path[0]),
        forall|x: Seq<char>, p: Seq<char>|
            reached.contains(x) && #[trigger] s.linked(x, p) && s.is_optimized(p) ==> reached.contains(p),
        0 <= n < path.len(),
    ensures
        reached.contains(path[n]),
    decreases n,
{
    if n > 0 {
        lemma_path_within(s, path, reached, n - 1);
        assert(s.linked(path[n - 1], path[n]));
        assert(s.is_optimized(path[n]));
    }
}

impl EngineState {
    /// Whether `f` has compiled code at the optimized tier.
    pub(crate) fn is_optimized_fn(&self, f: &String) -> (b: bool)
        ensures
            b == self@.is_optimized(f@),
    {
        match self.compiled_cache.get(f) {
            Some(c) => c.tier == Tier::OPTIMIZED,
            None => false,
        }
    }

    /// Adds to `found`, and to the end of `queue`, every optimized parent of
    /// `x` not yet found.
    fn expand_parents(
        &self,
        x: &String,
        found: &mut StrSet,
        queue: &mut Vec<String>,
        Ghost(sm): Ghost<Seq<char>>,
    )
        requires
            reach_sound(self@, sm, old(found)@),
            queue_lists(old(queue)@.map_values(|q: String| q@), old(found)@),
            old(queue)@.len() >= 1,
            old(queue)@[0]@ == sm,
            x@ == sm || old(found)@.contains(x@),
        ensures
            reach_sound(self@, sm, final(found)@),
            queue_lists(final(queue)@.map_values(|q: String| q@), final(found)@),
            final(queue)@.len() >= old(queue)@.len(),
            forall|j: int| 0 <= j < old(queue)@.len() ==> #[trigger] final(queue)@[j] == old(queue)@[j],
            old(found)@.subset_of(final(found)@),
            forall|p: Seq<char>| #[trigger] self@.linked(x@, p) && self@.is_optimized(p) ==> final(found)@.contains(p),
    {
        let ghost s = self@;
        let ghost xm = x@;
        match self.child_to_parents.get(x) {
            Some(parents) => {
                parents.note_invariant();
                let ghost order = parents.elem_order();
                let mut k: usize = 0;
                while k < parents.len()
                    invariant
                        s == self@,
                        xm == x@,
                        xm == sm || old(found)@.contains(xm),
                        order == parents.elem_order(),
                        parents@ == set_at(s.child_to_parents, xm),
                        forall|q: Seq<char>| #[trigger] parents@.contains(q) <==> order.contains(q),
                        k <= order.len(),
                        reach_sound(s, sm, found@),
                        queue_lists(queue@.map_values(|q: String| q@), found@),
                        queue@.len() >= old(queue)@.len(),
                        forall|j: int| 0 <= j < old(queue)@.len() ==> #[trigger] queue@[j] == old(queue)@[j],
                        old(found)@.subset_of(found@),
                        forall|j: int| 0 <= j < k ==> (s.is_optimized(#[trigger] order[j]) ==> found@.contains(order[j])),
                    decreases order.len() - k,
                {
                    let p = parents.elem_at(k);
                    if self.is_optimized_fn(p) && !found.contains(p) {
                        let ghost qv0 = queue@.map_values(|q: String| q@);
                        let ghost f0 = found@;
                        proof {
                            let pm = p@;
                            assert(s.linked(xm, pm)) by {
                                assert(order.contains(pm));
                            }
                            if xm == sm {
                                let path = seq![sm, pm];
                                assert(s.is_deopt_path(path));
                                assert(path.last() == pm);
                            } else {
                                assert(f0.contains(xm));
                                let px = choose|path: Seq<Seq<char>>| #[trigger] s.is_deopt_path(path) && path[0] == sm && path.last() == xm;
                                let path = px.push(pm);
                                assert(s.is_deopt_path(path)) by {
                                    assert forall|i: int| 0 <= i < path.len() - 1 implies s.linked(#[trigger] path[i], path[i + 1]) by {
                                        if i < px.len() - 1 {
                                            assert(path[i] == px[i] && path[i + 1] == px[i + 1]);
                                        } else {
                                            assert(path[i] == xm);
                                        }
                                    }
                                    assert forall|i: int| 1 <= i < path.len() implies s.is_optimized(#[trigger] path[i]) by {
                                        if i < px.len() {
                                            assert(path[i] == px[i]);
                                        }
                                    }
                                }
                                assert(path[0] == sm && path.last() == pm);
                            }
                        }
                        found.insert(p.clone());
                        queue.push(p.clone());
                        proof {
                            let qv1 = queue@.map_values(|q: String| q@);
                            assert(qv1 =~= qv0.push(p@));
                            assert(qv1.drop_first() =~= qv0.drop_first().push(p@));
                            assert(!qv0.drop_first().contains(p@));
                            assert(qv1.drop_first().to_set() =~= f0.insert(p@)) by {
                                assert forall|q: Seq<char>| qv1.drop_first().to_set().contains(q) <==> f0.insert(p@).contains(q) by {
                                    if qv1.drop_first().contains(q) {
                                        let j = choose|j: int| 0 <= j < qv1.drop_first().len() && qv1.drop_first()[j] == q;
                                        if j < qv0.drop_first().len() {
                                            assert(qv0.drop_first()[j] == q);
                                        }
                                    }
                                    if qv0.drop_first().contains(q) {
                                        let j = choose|j: int| 0 <= j < qv0.drop_first().len() && qv0.drop_first()[j] == q;
                                        assert(qv1.drop_first()[j] == q);
                                    }
                                    if q == p@ {
                                        assert(qv1.drop_first()[qv0.drop_first().len() as int] == q);
                                    }
                                }
                            }
                            assert(qv1.drop_first().no_duplicates()) by {
                                let a = qv0.drop_first();
                                let b = qv1.drop_first();
                                assert forall|i: int, j: int| 0 <= i < b.len() && 0 <= j < b.len() && i != j implies b[i] != b[j] by {
                                    if i == a.len() {
                                        assert(a.contains(b[j]) || j == a.len());
                                    } else if j == a.len() {
                                        assert(a.contains(b[i]));
                                    }
                                }
                            }
                        }
                    }
                    k = k + 1;
                }
                proof {
                    assert forall|q: Seq<char>| #[trigger] s.linked(xm, q) && s.is_optimized(q) implies found@.contains(q) by {
                        assert(parents@.contains(q));
                        let j = choose|j: int| 0 <= j < order.len() && order[j] == q;
                    }
                }
            },
            None => {
                proof {
                    assert forall|q: Seq<char>| !#[trigger] s.linked(xm, q) by {}
                }
            },
        }
    }

    /// The functions that invalidating `start` deoptimizes.
    #[verifier::rlimit(30)]
    pub(crate) fn collect_deopt_set(&self, start: &String) -> (d: StrSet)
        requires
            self@.wf(),
        ensures
            d@ == self@.deopt_set(start@),
    {
        let ghost s = self@;
        let ghost sm = start@;
        self.compiled_cache.note_invariant();
        let ghost n = s.compiled.dom().len();
        let mut found = StrSet::new();
        let mut queue: Vec<String> = Vec::new();
        queue.push(start.clone());
        proof {
            let qv = queue@.map_values(|q: String| q@);
            assert(qv.drop_first() =~= Seq::<Seq<char>>::empty());
            assert(qv.drop_first().to_set() =~= found@);
        }
        let mut qi: usize = 0;
        while qi < queue.len()
            invariant
                s == self@,
                sm == start@,
                n == s.compiled.dom().len(),
                s.compiled.dom().finite(),
                queue@.len() >= 1,
                queue@[0]@ == sm,
                qi <= queue@.len(),
                reach_sound(s, sm, found@),
                queue_lists(queue@.map_values(|q: String| q@), found@),
                forall|j: int, p: Seq<char>|
                    0 <= j < qi && #[trigger] s.linked(queue@[j]@, p) && s.is_optimized(p) ==> found@.contains(p),
            decreases n + 1 - qi,
        {
            let ghost qv = queue@.map_values(|q: String| q@);
            proof {
                lemma_queue_lists_len(qv, found@);
                assert(found@.subset_of(s.compiled.dom())) by {
                    assert forall|p: Seq<char>| found@.contains(p) implies s.compiled.dom().contains(p) by {
                        assert(s.is_optimized(p));
                    }
                }
                vstd::set_lib::lemma_len_subset(found@, s.compiled.dom());
                if qi > 0 {
                    assert(qv.drop_first()[qi - 1] == queue@[qi as int]@);
                    assert(qv.drop_first().to_set().contains(queue@[qi as int]@));
                }
            }
            let x = queue[qi].clone();
            let ghost queue0 = queue@;
            let ghost found0 = found@;
            self.expand_parents(&x, &mut found, &mut queue, Ghost(sm));
            proof {
                assert forall|j: int, p: Seq<char>|
                    0 <= j < qi + 1 && #[trigger] s.linked(queue@[j]@, p) && s.is_optimized(p) implies found@.contains(p) by {
                    assert(queue@[j] == queue0[j]);
                    if j < qi {
                        assert(s.linked(queue0[j]@, p));
                        assert(found0.contains(p));
                    }
                }
            }
            qi = qi + 1;
        }
        proof {
            let qv = queue@.map_values(|q: String| q@);
            let reached = found@.insert(sm);
            assert forall|x: Seq<char>, p: Seq<char>|
                reached.contains(x) && #[trigger] s.linked(x, p) && s.is_optimized(p) implies reached.contains(p) by {
                if x == sm {
                    assert(s.linked(queue@[0]@, p));
                } else {
                    assert(qv.drop_first().to_set().contains(x));
                    let j = choose|j: int| 0 <= j < qv.drop_first().len() && qv.drop_first()[j] == x;
                    assert(queue@[j + 1]@ == x);
                    assert(s.linked(queue@[j + 1]@, p));
                }
            }
            assert forall|p: Seq<char>| #[trigger] s.deopt_set(sm).contains(p) implies found@.contains(p) by {
                let path = choose|path: Seq<Seq<char>>| #[trigger] s.is_deopt_path(path) && path[0] == sm && path.last() == p;
                let last = path.len() - 1;
                lemma_path_within(s, path, reached, last - 1);
                assert(s.linked(path[last - 1], path[last]));
                assert(s.is_optimized(path[last]));
                let y = path[last - 1];
                if y == sm {
                    assert(s.linked(queue@[0]@, p));
                } else {
                    assert(qv.drop_first().to_set().contains(y));
                    let j = choose|j: int| 0 <= j < qv.drop_first().len() && qv.drop_first()[j] == y;
                    assert(queue@[j + 1]@ == y);
                    assert(s.linked(queue@[j + 1]@, p));
                }
            }
            assert(found@ =~= s.deopt_set(sm));
        }
        found
    }
}

/// Every member of `f` is optimized and reached from `sm` by a
/// deoptimization path.
spec fn reach_sound(s: EngineView, sm: Seq<char>, f: Set<Seq<char>>) -> bool {
    forall|p: Seq<char>| #[trigger] f.contains(p) ==> s.is_optimized(p) && exists|path: Seq<Seq<char>>|
        #[trigger] s.is_deopt_path(path) && path[0] == sm && path.last() == p
}

/// After its first element the queue lists the members of `f`, each once.
spec fn queue_lists(q: Seq<Seq<char>>, f: Set<Seq<char>>) -> bool {
    q.len() >= 1 && q.drop_first().no_duplicates() && q.drop_first().to_set() == f
}

proof fn lemma_queue_lists_len(q: Seq<Seq<char>>, f: Set<Seq<char>>)
    requires
        queue_lists(q, f),
    ensures
        f.finite(),
        f.len() + 1 == q.len(),
{
    q.drop_first().unique_seq_to_set();
}

/// Removes each member of `keys` from `m`.
fn remove_keys<V: View>(m: &mut StrMap<V>, keys: &StrSet)
    ensures
        final(m)@ == old(m)@.remove_keys(keys@),
{
    keys.note_invariant();
    let ghost order = keys.elem_order();
    let mut i: usize = 0;
    while i < keys.len()
        invariant
            order == keys.elem_order(),
            forall|k: Seq<char>| #[trigger] keys@.contains(k) <==> order.contains(k),
            i <= order.len(),
            m@ == old(m)@.remove_keys(order.take(i as int).to_set()),
        decreases order.len() - i,
    {
        let k = keys.elem_at(i);
        let _ = m.remove(k);
        proof {
            lemma_take_to_set_step(order, i as int);
            assert(m@ =~= old(m)@.remove_keys(order.take(i + 1).to_set()));
        }
        i = i + 1;
    }
    proof {
        assert(order.take(order.len() as int) =~= order);
        assert(order.to_set() =~= keys@);
    }
}

proof fn lemma_take_to_set_step(order: Seq<Seq<char>>, i: int)
    requires
        0 <= i < order.len(),
    ensures
        order.take(i + 1).to_set() == order.take(i).to_set().insert(order[i]),
{
    let t0 = order.take(i).to_set();
    let t1 = order.take(i + 1).to_set();
    assert forall|q: Seq<char>| t1.contains(q) <==> t0.insert(order[i]).contains(q) by {
        if t1.contains(q) {
            let j = choose|j: int| 0 <= j < i + 1 && #[trigger] order.take(i + 1)[j] == q;
            if j < i {
                assert(order.take(i)[j] == q);
            }
        }
        if t0.contains(q) {
            let j = choose|j: int| 0 <= j < i && #[trigger] order.take(i)[j] == q;
            assert(order.take(i + 1)[j] == q);
        }
        if q == order[i] {
            assert(order.take(i + 1)[i] == q);
        }
    }
    assert(t1 =~= t0.insert(order[i]));
}

/// Counts one more occurrence of each member of `keys`.
fn bump_keys(m: &mut StrMap<usize>, keys: &StrSet)
    requires
        forall|k: Seq<char>| #[trigger] keys@.contains(k) ==> below_max(old(m)@, k),
    ensures
        final(m)@ == bumped_all(old(m)@, keys@),
{
    keys.note_invariant();
    let ghost order = keys.elem_order();
    let mut i: usize = 0;
    while i < keys.len()
        invariant
            order == keys.elem_order(),
            order.no_duplicates(),
            forall|k: Seq<char>| #[trigger] keys@.contains(k) <==> order.contains(k),
            forall|k: Seq<char>| #[trigger] keys@.contains(k) ==> below_max(old(m)@, k),
            i <= order.len(),
            m@ == bumped_all(old(m)@, order.take(i as int).to_set()),
        decreases order.len() - i,
    {
        let k = keys.elem_at(i);
        proof {
            lemma_take_to_set_step(order, i as int);
            assert(keys@.contains(k@)) by {
                assert(order[i as int] == k@);
            }
            assert(!order.take(i as int).to_set().contains(k@)) by {
                if order.take(i as int).to_set().contains(k@) {
                    let j = choose|j: int| 0 <= j < i && #[trigger] order.take(i as int)[j] == k@;
                    assert(order[j] == order[i as int]);
                }
            }
        }
        let next: usize = match m.get(k) {
            Some(c) => *c + 1,
            None => 1,
        };
        m.insert(k.clone(), next);
        proof {
            assert(m@ =~= bumped_all(old(m)@, order.take(i + 1).to_set()));
        }
        i = i + 1;
    }
    proof {
        assert(order.take(order.len() as int) =~= order);
        assert(order.to_set() =~= keys@);
    }
}

/// Removes every member of `keys` from each set of `m`, keeping every key.
fn minus_all(m: &mut StrMap<StrSet>, keys: &StrSet)
    ensures
        final(m)@ == Map::new(
            |p: Seq<char>| old(m)@.contains_key(p),
            |p: Seq<char>| old(m)@[p].difference(keys@),
        ),
{
    m.note_invariant();
    keys.note_invariant();
    let ghost ko = m.key_order();
    let ghost m0 = m@;
    let mut i: usize = 0;
    while i < m.len()
        invariant
            ko == m.key_order(),
            m0 == old(m)@,
            ko.no_duplicates(),
            forall|k: Seq<char>| #[trigger] m0.contains_key(k) <==> ko.contains(k),
            i <= ko.len(),
            m@.dom() == m0.dom(),
            forall|p: Seq<char>| #[trigger] m@.contains_key(p) ==> m@[p] == (if ko.take(i as int).contains(p) {
                m0[p].difference(keys@)
            } else {
                m0[p]
            }),
        decreases ko.len() - i,
    {
        let ghost kk = ko[i as int];
        keys.note_invariant();
        let mut st = m.replace_at(i, StrSet::new());
        let ghost before = st@;
        assert(before == m0[kk]) by {
            assert(!ko.take(i as int).contains(kk)) by {
                if ko.take(i as int).contains(kk) {
                    let j = choose|j: int| 0 <= j < i && #[trigger] ko.take(i as int)[j] == kk;
                    assert(ko[j] == kk);
                }
            }
        }
        let mut j: usize = 0;
        while j < keys.len()
            invariant
                j <= keys.elem_order().len(),
                st@ == before.difference(keys.elem_order().take(j as int).to_set()),
            decreases keys.elem_order().len() - j,
        {
            let x = keys.elem_at(j);
            st.remove(x);
            proof {
                lemma_take_to_set_step(keys.elem_order(), j as int);
                assert(st@ =~= before.difference(keys.elem_order().take(j + 1).to_set()));
            }
            j = j + 1;
        }
        proof {
            assert(keys.elem_order().take(keys.elem_order().len() as int) =~= keys.elem_order());
            assert(keys.elem_order().to_set() =~= keys@);
        }
        let _ = m.replace_at(i, st);
        proof {
            assert forall|p: Seq<char>| true implies (ko.take(i + 1).contains(p) <==> (ko.take(i as int).contains(p) || p == kk)) by {
                lemma_take_to_set_step(ko, i as int);
                assert(ko.take(i + 1).to_set().contains(p) == ko.take(i + 1).contains(p));
                assert(ko.take(i as int).to_set().contains(p) == ko.take(i as int).contains(p));
            }
            assert(m@.dom() =~= m0.dom());
        }
        i = i + 1;
    }
    proof {
        assert(ko.take(ko.len() as int) =~= ko);
        let goal = Map::new(|p: Seq<char>| m0.contains_key(p), |p: Seq<char>| m0[p].difference(keys@));
        assert(m@ =~= goal);
    }
}

/// Drops each member of `d` to the baseline tier without variants; one whose
/// deoptimization count, after one more, reaches `max_deopt` is blacklisted
/// and its compiled code dropped.
fn deopt_entries(
    compiled: &mut StrMap<CompiledCodePolymorphic>,
    black: &mut StrSet,
    counts: &StrMap<usize>,
    d: &StrSet,
    max_deopt: usize,
)
    requires
        forall|k: Seq<char>| #[trigger] d@.contains(k) ==> below_max(counts@, k),
    ensures
        final(compiled)@ == deopt_compiled(old(compiled)@, counts@, max_deopt, d@),
        final(black)@ == old(black)@.union(deopt_gone(counts@, max_deopt, d@)),
{
    d.note_invariant();
    let ghost order = d.elem_order();
    let ghost c0 = compiled@;
    let ghost b0 = black@;
    let mut i: usize = 0;
    while i < d.len()
        invariant
            order == d.elem_order(),
            order.no_duplicates(),
            forall|k: Seq<char>| #[trigger] d@.contains(k) <==> order.contains(k),
            forall|k: Seq<char>| #[trigger] d@.contains(k) ==> below_max(counts@, k),
            c0 == old(compiled)@,
            b0 == old(black)@,
            i <= order.len(),
            compiled@ == deopt_compiled(c0, counts@, max_deopt, order.take(i as int).to_set()),
            black@ == b0.union(deopt_gone(counts@, max_deopt, order.take(i as int).to_set())),
        decreases order.len() - i,
    {
        let p = d.elem_at(i);
        let ghost t0 = order.take(i as int).to_set();
        let ghost t1 = order.take(i + 1).to_set();
        proof {
            lemma_take_to_set_step(order, i as int);
            assert(d@.contains(p@)) by {
                assert(order[i as int] == p@);
            }
            assert(!t0.contains(p@)) by {
                if t0.contains(p@) {
                    let j = choose|j: int| 0 <= j < i && #[trigger] order.take(i as int)[j] == p@;
                    assert(order[j] == order[i as int]);
                }
            }
        }
        let next: usize = match counts.get(p) {
            Some(c) => *c + 1,
            None => 1,
        };
        assert(next == bumped(counts@, p@));
        let ghost cur = compiled@;
        if next >= max_deopt {
            let _ = compiled.remove(p);
            black.insert(p.clone());
        } else {
            match compiled.remove(p) {
                Some(mut c) => {
                    c.tier = Tier::BASELINE;
                    c.variants = StrMap::new();
                    compiled.insert(p.clone(), c);
                },
                None => {},
            }
        }
        proof {
            assert(cur.contains_key(p@) == c0.contains_key(p@));
            if cur.contains_key(p@) {
                assert(cur[p@] == c0[p@]);
            }
            assert(black@ =~= b0.union(deopt_gone(counts@, max_deopt, t1)));
            assert(compiled@ =~= deopt_compiled(c0, counts@, max_deopt, t1));
        }
        i = i + 1;
    }
    proof {
        assert(order.take(order.len() as int) =~= order);
        assert(order.to_set() =~= d@);
    }
}

impl EngineState {
    /// Deoptimizes every member of `d`.
    fn apply_deopt(&mut self, d: &StrSet, max_deopt: usize)
        requires
            forall|k: Seq<char>| #[trigger] d@.contains(k) ==> below_max(old(self)@.deopt_counters, k),
        ensures
            final(self)@ == old(self)@.deoptimized(max_deopt, d@),
    {
        deopt_entries(
            &mut self.compiled_cache,
            &mut self.blacklisted_polymorphic_functions,
            &self.deopt_counters,
            d,
            max_deopt,
        );
        bump_keys(&mut self.deopt_counters, d);
        remove_keys(&mut self.polymorphic_counters, d);
        assert(self@ =~= old(self)@.deoptimized(max_deopt, d@));
    }

    /// Invalidates the functions that inline `start`: each optimized one
    /// reached through parent links drops to the baseline tier, and the links
    /// of `start` and of every function so reached are removed.
    pub(crate) fn invalidate_parents(&mut self, start: &String, max_deopt: usize)
        requires
            old(self)@.wf(),
            old(self)@.deopt_counts_ok(),
        ensures
            final(self)@ == old(self)@.parents_invalidated(max_deopt, start@),
            final(self)@.wf(),
            final(self)@.deopt_counts_ok(),
    {
        proof {
            lemma_invalidation_keeps_deopt_counts(self@, max_deopt, start@);
        }
        let ghost s0 = self@;
        let mut d = self.collect_deopt_set(start);
        proof {
            assert forall|k: Seq<char>| #[trigger] d@.contains(k) implies below_max(s0.deopt_counters, k) by {
                let path = choose|path: Seq<Seq<char>>| #[trigger] s0.is_deopt_path(path) && path[0] == start@ && path.last() == k;
                assert(s0.is_optimized(path[path.len() - 1]));
            }
        }
        self.apply_deopt(&d, max_deopt);
        let ghost dm = d@;
        d.insert(start.clone());
        remove_keys(&mut self.child_to_parents, &d);
        minus_all(&mut self.parent_to_children, &d);
        self.compiled_cache.note_invariant();
        proof {
            let goal = s0.parents_invalidated(max_deopt, start@);
            assert(self@.parent_to_children =~= goal.parent_to_children);
            assert(self@ =~= goal);
            let s1 = self@;
            assert forall|p: Seq<char>, c: Seq<char>| set_at(s1.parent_to_children, p).contains(c) <==> #[trigger] set_at(s1.child_to_parents, c).contains(p) by {
                assert(set_at(s0.parent_to_children, p).contains(c) <==> set_at(s0.child_to_parents, c).contains(p));
            }
        }
    }

    /// Total deoptimization of `f`: when optimized it drops to the baseline
    /// tier and the functions inlining it are invalidated.
    pub(crate) fn deoptimize_total(&mut self, f: &String, max_deopt: usize)
        requires
            old(self)@.wf(),
            old(self)@.deopt_counts_ok(),
        ensures
            final(self)@ == old(self)@.deoptimized_total(max_deopt, f@),
            final(self)@.wf(),
            final(self)@.deopt_counts_ok(),
    {
        if self.is_optimized_fn(f) {
            let mut single = StrSet::new();
            single.insert(f.clone());
            assert(single@ =~= set![f@]);
            self.apply_deopt(&single, max_deopt);
            self.compiled_cache.note_invariant();
            proof {
                let s1 = self@;
                assert forall|p: Seq<char>, c: Seq<char>| set_at(s1.parent_to_children, p).contains(c) <==> #[trigger] set_at(s1.child_to_parents, c).contains(p) by {
                    assert(set_at(old(self)@.parent_to_children, p).contains(c) <==> set_at(old(self)@.child_to_parents, c).contains(p));
                }
                assert forall|k: Seq<char>| #[trigger] s1.is_optimized(k) implies below_max(s1.deopt_counters, k) by {
                    assert(old(self)@.is_optimized(k));
                }
            }
            self.invalidate_parents(f, max_deopt);
        }
    }
}

impl EngineState {
    /// Counts an error of `f`; at the error threshold `f` is quarantined.
    pub(crate) fn handle_error(&mut self, f: &String, err: &String, lim: &JitLimits)
        requires
            old(self)@.wf(),
            old(self)@.deopt_counts_ok(),
            below_max(old(self)@.error_counters, f@),
        ensures
            final(self)@ == old(self)@.error_handled(*lim, f@, err@),
            final(self)@.wf(),
            final(self)@.deopt_counts_ok(),
    {
        if contains_str(err.as_str(), "STACK OVERFLOW") {
            return;
        }
        let count: usize = match self.error_counters.get(f) {
            Some(c) => *c + 1,
            None => 1,
        };
        self.error_counters.insert(f.clone(), count);
        if count >= lim.max_error_threshold {
            self.quarantined_functions.insert(f.clone());
            let _ = self.compiled_cache.remove(f);
            let _ = self.osr_cache.remove(f);
            self.compiled_cache.note_invariant();
            self.osr_cache.note_invariant();
            proof {
                let s1 = self@;
                assert forall|k: Seq<char>| #[trigger] s1.is_optimized(k) implies below_max(s1.deopt_counters, k) by {
                    assert(old(self)@.is_optimized(k));
                }
                assert(s1.parent_to_children == old(self)@.parent_to_children);
                assert(s1.child_to_parents == old(self)@.child_to_parents);
                assert(s1.links_symmetric());
            }
            self.invalidate_parents(f, lim.max_deopt_threshold);
            self.clean_metadata(f);
        }
        proof {
            let s0 = old(self)@;
            let count_m = bumped(s0.error_counters, f@);
            let s1 = EngineView { error_counters: s0.error_counters.insert(f@, count_m), ..s0 };
            if count >= lim.max_error_threshold {
                let s2 = EngineView {
                    quarantined: s1.quarantined.insert(f@),
                    compiled: s1.compiled.remove(f@),
                    osr: s1.osr.remove(f@),
                    ..s1
                };
                assert(s2 =~= EngineView {
                    quarantined: s1.quarantined.insert(f@),
                    compiled: s1.compiled.remove(f@),
                    osr: s1.osr.remove(f@),
                    ..s1
                });
            } else {
                assert forall|k: Seq<char>| #[trigger] self@.is_optimized(k) implies below_max(self@.deopt_counters, k) by {
                    assert(s0.is_optimized(k));
                }
            }
        }
    }

    /// Compiles, or recompiles, `f` at the optimized tier with a fresh
    /// variant for `sig`.
    pub(crate) fn profile_and_compile_polymorphic(&mut self, f: &String, sig: &String, now: u64)
        requires
            old(self)@.wf(),
        ensures
            final(self)@ == old(self)@.compiled_variant(f@, sig@, now),
            final(self)@.wf(),
    {
        let mut c = match self.compiled_cache.remove(f) {
            Some(c) => c,
            None => CompiledCodePolymorphic {
                id: f.clone(),
                tier: Tier::OPTIMIZED,
                variants: StrMap::new(),
                baseline: Some(BaselineVariant { last_used: now, access_count: 1 }),
                last_used: now,
                access_count: 1,
            },
        };
        c.tier = Tier::OPTIMIZED;
        c.variants.insert(sig.clone(), OptimizedVariant { expected_signature: sig.clone(), memo_cache: StrMap::new() });
        self.compiled_cache.insert(f.clone(), c);
        proof {
            let s0 = old(self)@;
            let base = if s0.compiled.contains_key(f@) { s0.compiled[f@] } else { fresh_compiled(f@, now) };
            assert(c@.variants =~= base.variants.insert(sig@, fresh_variant(sig@)));
            assert(self@ =~= EngineView { compiled: s0.compiled.insert(f@, c@), ..s0 });
        }
        self.add_to_clock_queue(f.clone());
        self.compiled_cache.note_invariant();
    }

    /// Profiles one call of `f` with signature `sig`.
    pub(crate) fn profile_function(&mut self, f: &String, sig: &String, now: u64, lim: &JitLimits)
        requires
            old(self)@.wf(),
            below_max(old(self)@.global_invocation_counters, f@),
            old(self)@.polymorphic_counters.contains_key(f@) ==> below_max(old(self)@.polymorphic_counters[f@], sig@),
        ensures
            final(self)@ == old(self)@.profiled(*lim, f@, sig@, now),
            final(self)@.wf(),
    {
        if self.blacklisted_polymorphic_functions.contains(f) {
            return;
        }
        let global: usize = match self.global_invocation_counters.get(f) {
            Some(c) => *c + 1,
            None => 1,
        };
        self.global_invocation_counters.insert(f.clone(), global);
        let mut per_sig = match self.polymorphic_counters.remove(f) {
            Some(m) => m,
            None => StrMap::new(),
        };
        let count: usize = match per_sig.get(sig) {
            Some(c) => *c + 1,
            None => 1,
        };
        per_sig.insert(sig.clone(), count);
        self.polymorphic_counters.insert(f.clone(), per_sig);
        let ghost s1 = self@;
        proof {
            let s0 = old(self)@;
            let per0 = if s0.polymorphic_counters.contains_key(f@) { s0.polymorphic_counters[f@] } else { Map::empty() };
            assert(s1 =~= EngineView {
                global_invocation_counters: s0.global_invocation_counters.insert(f@, global),
                polymorphic_counters: s0.polymorphic_counters.insert(f@, per0.insert(sig@, count)),
                ..s0
            });
        }
        if count >= lim.jit_threshold {
            self.global_invocation_counters.insert(f.clone(), 0);
            assert(self@ =~= EngineView { global_invocation_counters: s1.global_invocation_counters.insert(f@, 0), ..s1 });
            self.profile_and_compile_polymorphic(f, sig, now);
        } else if global >= lim.max_global_slow_path_attempts {
            self.blacklisted_polymorphic_functions.insert(f.clone());
            let _ = self.compiled_cache.remove(f);
            self.compiled_cache.note_invariant();
            assert(self@ =~= EngineView { blacklisted: s1.blacklisted.insert(f@), compiled: s1.compiled.remove(f@), ..s1 });
        }
    }

    /// Drops the variant of `f` for `sig`; with none left, `f` is totally
    /// deoptimized.
    pub(crate) fn deoptimize_variant(&mut self, f: &String, sig: &String, lim: &JitLimits)
        requires
            old(self)@.wf(),
            old(self)@.deopt_counts_ok(),
        ensures
            final(self)@ == old(self)@.variant_dropped(*lim, f@, sig@),
            final(self)@.wf(),
            final(self)@.deopt_counts_ok(),
    {
        let mut trigger = false;
        match self.compiled_cache.remove(f) {
            Some(mut c) => {
                let _ = c.variants.remove(sig);
                c.variants.note_invariant();
                if c.variants.len() == 0 {
                    trigger = true;
                }
                self.compiled_cache.insert(f.clone(), c);
            },
            None => {},
        }
        self.compiled_cache.note_invariant();
        proof {
            let s0 = old(self)@;
            if s0.compiled.contains_key(f@) {
                let c0 = s0.compiled[f@];
                assert(self@ =~= EngineView {
                    compiled: s0.compiled.insert(f@, CompiledView { variants: c0.variants.remove(sig@), ..c0 }),
                    ..s0
                });
            } else {
                assert(self@ =~= s0);
            }
            let s1 = self@;
            assert forall|k: Seq<char>| #[trigger] s1.is_optimized(k) implies below_max(s1.deopt_counters, k) by {
                assert(s0.is_optimized(k));
            }
        }
        if trigger {
            self.deoptimize_total(f, lim.max_deopt_threshold);
        }
    }
}

impl EngineState {
    /// Memoizes `val` under `key` in the variant of `f` for `sig`.
    pub(crate) fn store_memo(&mut self, f: &String, sig: &String, key: String, val: Val, lim: &JitLimits)
        requires
            old(self)@.wf(),
        ensures
            final(self)@ == old(self)@.memo_stored(*lim, f@, sig@, key@, val@),
            final(self)@.wf(),
    {
        let ghost km = key@;
        let ghost vm = val@;
        match self.compiled_cache.remove(f) {
            Some(mut c) => {
                let ghost c0 = c@;
                match c.variants.remove(sig) {
                    Some(mut v) => {
                        let ghost v0 = v@;
                        v.memo_cache.note_invariant();
                        if v.memo_cache.len() >= lim.max_memo_cache_size && v.memo_cache.len() > 0 {
                            let _ = v.memo_cache.remove_at(0);
                        }
                        v.memo_cache.insert(key, val);
                        assert(v.memo_cache@ =~= memo_with(v0.memo, lim.max_memo_cache_size, km, vm));
                        c.variants.insert(sig.clone(), v);
                        assert(c.variants@ =~= c0.variants.insert(sig@, VariantView { memo: memo_with(v0.memo, lim.max_memo_cache_size, km, vm), ..v0 }));
                    },
                    None => {
                        assert(c.variants@ =~= c0.variants);
                    },
                }
                self.compiled_cache.insert(f.clone(), c);
            },
            None => {},
        }
        self.compiled_cache.note_invariant();
        proof {
            let s0 = old(self)@;
            if s0.compiled.contains_key(f@) {
                assert(self@.compiled =~= s0.memo_stored(*lim, f@, sig@, km, vm).compiled);
            }
            assert(self@ =~= s0.memo_stored(*lim, f@, sig@, km, vm));
        }
    }

    /// Records an access of the compiled code of `f` at `now`.
    pub(crate) fn touch_compiled(&mut self, f: &String, now: u64)
        requires
            old(self)@.wf(),
            old(self)@.compiled.contains_key(f@),
            old(self)@.compiled[f@].access_count < usize::MAX,
        ensures
            final(self)@ == old(self)@.compiled_touched(f@, now),
            final(self)@.wf(),
    {
        match self.compiled_cache.remove(f) {
            Some(mut c) => {
                c.last_used = now;
                c.access_count = c.access_count + 1;
                self.compiled_cache.insert(f.clone(), c);
            },
            None => {},
        }
        self.clock_use_bits.insert(f.clone(), true);
        self.compiled_cache.note_invariant();
        assert(self@ =~= old(self)@.compiled_touched(f@, now));
    }

    /// Records an access of the baseline form of `f` at `now`.
    pub(crate) fn touch_baseline(&mut self, f: &String, now: u64)
        requires
            old(self)@.wf(),
            old(self)@.compiled.contains_key(f@) && old(self)@.compiled[f@].baseline is Some
                ==> old(self)@.compiled[f@].baseline->Some_0.access_count < usize::MAX,
        ensures
            final(self)@ == old(self)@.baseline_touched(f@, now),
            final(self)@.wf(),
    {
        match self.compiled_cache.remove(f) {
            Some(mut c) => {
                match c.baseline {
                    Some(b) => {
                        c.baseline = Some(BaselineVariant { last_used: now, access_count: b.access_count + 1 });
                    },
                    None => {},
                }
                self.compiled_cache.insert(f.clone(), c);
            },
            None => {},
        }
        self.compiled_cache.note_invariant();
        assert(self@ =~= old(self)@.baseline_touched(f@, now));
    }

    /// Drops the baseline form of `f`.
    pub(crate) fn drop_baseline(&mut self, f: &String)
        requires
            old(self)@.wf(),
        ensures
            final(self)@ == old(self)@.baseline_dropped(f@),
            final(self)@.wf(),
    {
        match self.compiled_cache.remove(f) {
            Some(mut c) => {
                c.baseline = None;
                self.compiled_cache.insert(f.clone(), c);
            },
            None => {},
        }
        self.compiled_cache.note_invariant();
        assert(self@ =~= old(self)@.baseline_dropped(f@));
    }

    /// Counts one more run of the heavy loop of `f`, returning the count.
    pub(crate) fn count_loop(&mut self, f: &String) -> (n: usize)
        requires
            below_max(old(self)@.loop_counters, f@),
        ensures
            final(self)@ == old(self)@.loop_counted(f@),
            n == bumped(old(self)@.loop_counters, f@),
    {
        let n: usize = match self.loop_counters.get(f) {
            Some(c) => *c + 1,
            None => 1,
        };
        self.loop_counters.insert(f.clone(), n);
        assert(self@ =~= old(self)@.loop_counted(f@));
        n
    }

    /// Compiles the heavy loop of `f` at `now`.
    pub(crate) fn compile_osr(&mut self, f: &String, now: u64)
        requires
            old(self)@.wf(),
        ensures
            final(self)@ == old(self)@.osr_compiled(f@, now),
            final(self)@.wf(),
    {
        self.osr_cache.insert(f.clone(), CompiledOSR { id: f.clone(), last_used: now, access_count: 1 });
        assert(self@ =~= EngineView {
            osr: old(self)@.osr.insert(f@, OsrView { id: f@, last_used: now, access_count: 1 }),
            ..old(self)@
        });
        self.add_to_clock_queue(f.clone());
        self.osr_cache.note_invariant();
    }

    /// Records an access of the loop code of `f` at `now`.
    pub(crate) fn touch_osr(&mut self, f: &String, now: u64)
        requires
            old(self)@.wf(),
            old(self)@.osr.contains_key(f@) ==> old(self)@.osr[f@].access_count < usize::MAX,
        ensures
            final(self)@ == old(self)@.osr_touched(f@, now),
            final(self)@.wf(),
    {
        match self.osr_cache.remove(f) {
            Some(mut o) => {
                o.last_used = now;
                o.access_count = o.access_count + 1;
                self.osr_cache.insert(f.clone(), o);
            },
            None => {},
        }
        self.clock_use_bits.insert(f.clone(), true);
        self.osr_cache.note_invariant();
        assert(self@ =~= old(self)@.osr_touched(f@, now));
    }

    /// Counts one more running invocation of `f`.
    pub(crate) fn track_active_invocation(&mut self, f: &String)
        requires
            below_max(old(self)@.active, f@),
        ensures
            final(self)@ == old(self)@.invocation_started(f@),
    {
        let n: usize = match self.active_invocations.get(f) {
            Some(c) => *c + 1,
            None => 1,
        };
        self.active_invocations.insert(f.clone(), n);
        assert(self@ =~= old(self)@.invocation_started(f@));
    }

    /// Counts one running invocation of `f` as finished.
    pub(crate) fn release_active_invocation(&mut self, f: &String)
        ensures
            final(self)@ == old(self)@.invocation_ended(f@),
    {
        match self.active_invocations.get(f) {
            Some(c) => {
                let c = *c;
                if c > 1 {
                    self.active_invocations.insert(f.clone(), c - 1);
                } else {
                    let _ = self.active_invocations.remove(f);
                }
            },
            None => {},
        }
        assert(self@ =~= old(self)@.invocation_ended(f@));
    }
}

proof fn lemma_keep_step(keys: Seq<Seq<char>>, allowed: Set<Seq<char>>, i: int)
    requires
        0 <= i < keys.len(),
    ensures
        keep(keys.take(i + 1), allowed) == if allowed.contains(keys[i]) {
            keep(keys.take(i), allowed).push(keys[i])
        } else {
            keep(keys.take(i), allowed)
        },
{
    assert(keys.take(i + 1).drop_last() =~= keys.take(i));
    assert(keys.take(i + 1).last() == keys[i]);
}

/// Appends to `out` the keys of `m`, in ascending order, that are not
/// counted as running in `active`.
fn push_inactive_keys<V: View>(m: &StrMap<V>, active: &StrMap<usize>, out: &mut Vec<String>)
    ensures
        strs(final(out)@) == strs(old(out)@) + keep(sorted_keys(m@.dom()), active@.dom().complement()),
{
    m.note_invariant();
    let ghost ko = m.key_order();
    let ghost allowed = active@.dom().complement();
    let mut i: usize = 0;
    while i < m.len()
        invariant
            ko == m.key_order(),
            allowed == active@.dom().complement(),
            i <= ko.len(),
            strs(out@) == strs(old(out)@) + keep(ko.take(i as int), allowed),
        decreases ko.len() - i,
    {
        let k = m.key_at(i);
        let ghost before = strs(out@);
        if !active.contains_key(k) {
            out.push(k.clone());
            assert(strs(out@) =~= before.push(k@));
        }
        proof {
            lemma_keep_step(ko, allowed, i as int);
            assert(strs(out@) =~= strs(old(out)@) + keep(ko.take(i + 1), allowed));
        }
        i = i + 1;
    }
    assert(ko.take(ko.len() as int) =~= ko);
}

/// The entries of `q` that have cached code.
fn keep_cached(q: &Vec<String>, compiled: &StrMap<CompiledCodePolymorphic>, osr: &StrMap<CompiledOSR>) -> (r: Vec<String>)
    ensures
        strs(r@) == keep(strs(q@), compiled@.dom().union(osr@.dom())),
{
    let ghost qv = strs(q@);
    let ghost allowed = compiled@.dom().union(osr@.dom());
    let mut r: Vec<String> = Vec::new();
    let mut i: usize = 0;
    while i < q.len()
        invariant
            qv == strs(q@),
            allowed == compiled@.dom().union(osr@.dom()),
            i <= q@.len(),
            strs(r@) == keep(qv.take(i as int), allowed),
        decreases q.len() - i,
    {
        let ghost before = strs(r@);
        if compiled.contains_key(&q[i]) || osr.contains_key(&q[i]) {
            r.push(q[i].clone());
            assert(strs(r@) =~= before.push(q@[i as int]@));
        }
        proof {
            lemma_keep_step(qv, allowed, i as int);
        }
        i = i + 1;
    }
    assert(qv.take(q@.len() as int) =~= qv);
    r
}

/// The entries of `q` other than `key`.
fn without_key(q: &Vec<String>, key: &String) -> (r: Vec<String>)
    ensures
        strs(r@) == keep(strs(q@), set![key@].complement()),
{
    let ghost qv = strs(q@);
    let ghost allowed = set![key@].complement();
    let mut r: Vec<String> = Vec::new();
    let mut i: usize = 0;
    while i < q.len()
        invariant
            qv == strs(q@),
            allowed == set![key@].complement(),
            i <= q@.len(),
            strs(r@) == keep(qv.take(i as int), allowed),
        decreases q.len() - i,
    {
        let ghost before = strs(r@);
        if q[i] != *key {
            r.push(q[i].clone());
            assert(strs(r@) =~= before.push(q@[i as int]@));
        }
        proof {
            lemma_keep_step(qv, allowed, i as int);
        }
        i = i + 1;
    }
    assert(qv.take(q@.len() as int) =~= qv);
    r
}

/// Sweeps the clock hand over `queue` from `hand` for twice its length;
/// returns the chosen entry, if any, and the hand's position.
fn sweep(
    queue: &Vec<String>,
    hand: usize,
    bits: &mut StrMap<bool>,
    compiled: &StrMap<CompiledCodePolymorphic>,
    osr: &StrMap<CompiledOSR>,
    active: &StrMap<usize>,
) -> (r: (Option<String>, usize))
    ensures
        ({
            let sw = clock_sweep(compiled@.dom().union(osr@.dom()), active@, strs(queue@), hand, old(bits)@, 2 * queue@.len());
            &&& r.1 == sw.hand
            &&& final(bits)@ == sw.use_bits
            &&& (r.0 is None <==> sw.victim is None)
            &&& (r.0 matches Some(k) ==> sw.victim == Some(k@) && r.1 < queue@.len())
        }),
{
    let ghost cached = compiled@.dom().union(osr@.dom());
    let ghost qv = strs(queue@);
    let ghost goal = clock_sweep(cached, active@, qv, hand, bits@, 2 * queue@.len());
    let n = queue.len();
    let max: u128 = (n as u128) * 2;
    let mut attempts: u128 = 0;
    let mut h = hand;
    while attempts < max
        invariant
            n == queue@.len(),
            qv == strs(queue@),
            cached == compiled@.dom().union(osr@.dom()),
            max == 2 * n,
            attempts <= max,
            goal == clock_sweep(cached, active@, qv, hand, old(bits)@, 2 * queue@.len()),
            goal == clock_sweep(cached, active@, qv, h, bits@, (max - attempts) as nat),
        decreases max - attempts,
    {
        let ghost h0 = h;
        let ghost b0 = bits@;
        if h >= n {
            h = 0;
        }
        let key = &queue[h];
        proof {
            assert(qv[h as int] == key@);
        }
        if (!compiled.contains_key(key) && !osr.contains_key(key)) || active.contains_key(key) {
            h = h + 1;
            attempts = attempts + 1;
            continue;
        }
        let bit = match bits.get(key) {
            Some(b) => *b,
            None => true,
        };
        if bit {
            bits.insert(key.clone(), false);
            h = h + 1;
            attempts = attempts + 1;
        } else {
            proof {
                assert(bits@ == b0);
                assert(goal == clock_sweep(cached, active@, qv, h0, b0, (max - attempts) as nat));
                assert(clock_sweep(cached, active@, qv, h0, b0, (max - attempts) as nat)
                    == ClockSweep { victim: Some(key@), hand: h, use_bits: b0 });
            }
            return (Some(key.clone()), h);
        }
    }
    (None, h)
}

/// The eviction rank of `k`.
fn rank_of(k: &String, compiled: &StrMap<CompiledCodePolymorphic>, osr: &StrMap<CompiledOSR>) -> (r: (usize, u64))
    requires
        compiled@.contains_key(k@) || osr@.contains_key(k@),
    ensures
        r == rank_in(compiled@, osr@, k@),
{
    match compiled.get(k) {
        Some(c) => (c.access_count, c.last_used),
        None => match osr.get(k) {
            Some(o) => (o.access_count, o.last_used),
            None => (0, 0),
        },
    }
}

/// The position of the first key of least eviction rank.
fn first_least_index(ev: &Vec<String>, compiled: &StrMap<CompiledCodePolymorphic>, osr: &StrMap<CompiledOSR>) -> (r: usize)
    requires
        ev@.len() > 0,
        forall|i: int| 0 <= i < ev@.len() ==> compiled@.contains_key(#[trigger] ev@[i]@) || osr@.contains_key(ev@[i]@),
    ensures
        r < ev@.len(),
        ev@[r as int]@ == first_least_in(compiled@, osr@, strs(ev@)),
{
    let ghost ev_v = strs(ev@);
    let mut best: usize = 0;
    let (mut bc, mut bl) = rank_of(&ev[0], compiled, osr);
    proof {
        assert(ev_v.take(1).len() == 1);
        assert(ev_v.take(1)[0] == ev@[0]@);
    }
    let mut i: usize = 1;
    while i < ev.len()
        invariant
            ev_v == strs(ev@),
            1 <= i <= ev@.len(),
            best < i,
            forall|j: int| 0 <= j < ev@.len() ==> compiled@.contains_key(#[trigger] ev@[j]@) || osr@.contains_key(ev@[j]@),
            ev@[best as int]@ == first_least_in(compiled@, osr@, ev_v.take(i as int)),
            (bc, bl) == rank_in(compiled@, osr@, ev@[best as int]@),
        decreases ev@.len() - i,
    {
        let (c, l) = rank_of(&ev[i], compiled, osr);
        proof {
            assert(ev_v.take(i + 1).drop_last() =~= ev_v.take(i as int));
            assert(ev_v.take(i + 1).last() == ev@[i as int]@);
        }
        if c < bc || (c == bc && l < bl) {
            best = i;
            bc = c;
            bl = l;
        }
        i = i + 1;
    }
    assert(ev_v.take(ev@.len() as int) =~= ev_v);
    best
}

impl EngineState {
    /// Evicts the cached code of `key`: JIT code with invalidation of its
    /// dependents and cleaning of its metadata, loop code with its loop
    /// counter. The key leaves the clock.
    pub(crate) fn perform_eviction(&mut self, key: &String, max_deopt: usize)
        requires
            old(self)@.wf(),
            old(self)@.deopt_counts_ok(),
        ensures
            final(self)@ == old(self)@.evicted(max_deopt, key@),
            final(self)@.wf(),
            final(self)@.deopt_counts_ok(),
    {
        let ghost s0 = self@;
        if self.compiled_cache.contains_key(key) {
            let _ = self.compiled_cache.remove(key);
            self.compiled_cache.note_invariant();
            proof {
                let s1 = self@;
                assert(s1 =~= EngineView { compiled: s0.compiled.remove(key@), ..s0 });
                assert forall|k: Seq<char>| #[trigger] s1.is_optimized(k) implies below_max(s1.deopt_counters, k) by {
                    assert(s0.is_optimized(k));
                }
                assert(s1.parent_to_children == s0.parent_to_children);
                assert(s1.child_to_parents == s0.child_to_parents);
            }
            self.invalidate_parents(key, max_deopt);
            self.clean_metadata(key);
        } else {
            let _ = self.osr_cache.remove(key);
            let _ = self.loop_counters.remove(key);
            self.osr_cache.note_invariant();
            proof {
                let s1 = self@;
                assert(s1 =~= EngineView { osr: s0.osr.remove(key@), loop_counters: s0.loop_counters.remove(key@), ..s0 });
                assert forall|k: Seq<char>| #[trigger] s1.is_optimized(k) implies below_max(s1.deopt_counters, k) by {
                    assert(s0.is_optimized(k));
                }
            }
        }
        let ghost s2 = self@;
        let _ = self.clock_use_bits.remove(key);
        let q = without_key(&self.clock_queue, key);
        self.clock_queue = q;
        proof {
            assert(self@ =~= EngineView {
                clock_use_bits: s2.clock_use_bits.remove(key@),
                clock_queue: keep(s2.clock_queue, set![key@].complement()),
                ..s2
            });
            assert forall|k: Seq<char>| #[trigger] self@.is_optimized(k) implies below_max(self@.deopt_counters, k) by {
                assert(s2.is_optimized(k));
            }
        }
    }
}

impl EngineState {
    /// Evicts one cached item chosen by the clock, or, when the clock's sweep
    /// chooses none, the evictable item of least rank. Returns whether an item
    /// was evicted; nothing is when every cached function is running.
    #[verifier::rlimit(40)]
    pub(crate) fn evict_one_item(&mut self, max_deopt: usize) -> (r: bool)
        requires
            old(self)@.wf(),
            old(self)@.deopt_counts_ok(),
        ensures
            (r, final(self)@) == old(self)@.evict_one(max_deopt),
            final(self)@.wf(),
            final(self)@.deopt_counts_ok(),
    {
        let ghost s0 = self@;
        self.compiled_cache.note_invariant();
        self.osr_cache.note_invariant();
        let mut ev: Vec<String> = Vec::new();
        push_inactive_keys(&self.compiled_cache, &self.active_invocations, &mut ev);
        push_inactive_keys(&self.osr_cache, &self.active_invocations, &mut ev);
        proof {
            assert(strs(ev@) =~= s0.evictable_keys());
        }
        if ev.len() == 0 {
            return false;
        }
        let ghost evm = strs(ev@);
        proof {
            let allowed = s0.active.dom().complement();
            lemma_keep_members(sorted_keys(s0.compiled.dom()), allowed);
            lemma_keep_members(sorted_keys(s0.osr.dom()), allowed);
            assert forall|i: int| 0 <= i < ev@.len() implies s0.compiled.contains_key(#[trigger] ev@[i]@) || s0.osr.contains_key(ev@[i]@) by {
                let a = keep(sorted_keys(s0.compiled.dom()), allowed);
                let b = keep(sorted_keys(s0.osr.dom()), allowed);
                assert(evm[i] == ev@[i]@);
                if i < a.len() {
                    assert(a[i] == evm[i]);
                    assert(a.contains(evm[i]));
                } else {
                    assert(b[i - a.len()] == evm[i]);
                    assert(b.contains(evm[i]));
                }
            }
        }
        let q1 = keep_cached(&self.clock_queue, &self.compiled_cache, &self.osr_cache);
        if q1.len() == 0 {
            self.clock_queue = clone_strings(&ev);
            self.clock_hand = 0;
        } else {
            self.clock_queue = q1;
        }
        let ghost s2 = self@;
        let (victim, h) = sweep(
            &self.clock_queue,
            self.clock_hand,
            &mut self.clock_use_bits,
            &self.compiled_cache,
            &self.osr_cache,
            &self.active_invocations,
        );
        self.clock_hand = h;
        let ghost s3 = self@;
        proof {
            let q2 = s2.clock_queue;
            let sw = clock_sweep(s0.cached_set(), s0.active, q2, s2.clock_hand, s0.clock_use_bits, 2 * q2.len());
            assert(s0.cached_set() =~= s0.compiled.dom().union(s0.osr.dom()));
            assert(s3 =~= EngineView { clock_queue: q2, clock_hand: sw.hand, clock_use_bits: sw.use_bits, ..s0 });
            assert forall|k: Seq<char>| #[trigger] s3.is_optimized(k) implies below_max(s3.deopt_counters, k) by {
                assert(s0.is_optimized(k));
            }
        }
        match victim {
            Some(k) => {
                self.perform_eviction(&k, max_deopt);
                self.clock_hand = h + 1;
                proof {
                    let s4 = s3.evicted(max_deopt, k@);
                    assert(self@ =~= EngineView { clock_hand: (h + 1) as usize, ..s4 });
                    assert forall|x: Seq<char>| #[trigger] self@.is_optimized(x) implies below_max(self@.deopt_counters, x) by {
                        assert(s4.is_optimized(x));
                    }
                }
                true
            },
            None => {
                let i = first_least_index(&ev, &self.compiled_cache, &self.osr_cache);
                let k = ev[i].clone();
                self.perform_eviction(&k, max_deopt);
                true
            },
        }
    }
}

/// The bytes the memo entries of `memo` account for, capped at `u64::MAX`.
fn memo_cost(memo: &StrMap<Val>) -> (r: u64)
    ensures
        r == capped(memo_bytes(sorted_keys(memo@.dom()))),
{
    memo.note_invariant();
    let ghost ko = memo.key_order();
    let mut acc: u64 = 0;
    let mut i: usize = 0;
    while i < memo.len()
        invariant
            ko == memo.key_order(),
            i <= ko.len(),
            acc == capped(memo_bytes(ko.take(i as int))),
        decreases ko.len() - i,
    {
        let k = memo.key_at(i);
        let n: usize = k.as_str().len();
        let c: u128 = (n as u128) * 2 + 262344;
        let cc: u64 = if c > 18446744073709551615u128 { u64::MAX } else { c as u64 };
        proof {
            assert(ko.take(i + 1).drop_last() =~= ko.take(i as int));
            assert(ko.take(i + 1).last() == k@);
            assert(c == memo_entry_bytes(k@));
            lemma_capped_add(memo_bytes(ko.take(i as int)), memo_entry_bytes(k@));
        }
        acc = acc.saturating_add(cc);
        i = i + 1;
    }
    assert(ko.take(ko.len() as int) =~= ko);
    acc
}

/// The bytes the variants of `vs` account for, capped at `u64::MAX`.
fn variants_cost(vs: &StrMap<OptimizedVariant>) -> (r: u64)
    ensures
        r == capped(variants_bytes(vs@, sorted_keys(vs@.dom()))),
{
    vs.note_invariant();
    let ghost ko = vs.key_order();
    let mut acc: u64 = 0;
    let mut i: usize = 0;
    while i < vs.len()
        invariant
            ko == vs.key_order(),
            i <= ko.len(),
            acc == capped(variants_bytes(vs@, ko.take(i as int))),
        decreases ko.len() - i,
    {
        let v = vs.value_at(i);
        let m = memo_cost(&v.memo_cache);
        let ghost k = ko[i as int];
        proof {
            assert(ko.take(i + 1).drop_last() =~= ko.take(i as int));
            assert(ko.take(i + 1).last() == k);
            lemma_capped_add(2097152, memo_bytes(sorted_keys(v@.memo.dom())));
            lemma_capped_add(variants_bytes(vs@, ko.take(i as int)), variant_bytes(vs@[k]));
        }
        let vc = 2097152u64.saturating_add(m);
        acc = acc.saturating_add(vc);
        i = i + 1;
    }
    assert(ko.take(ko.len() as int) =~= ko);
    acc
}

/// The bytes the compiled code `c` accounts for, capped at `u64::MAX`.
fn compiled_cost(c: &CompiledCodePolymorphic) -> (r: u64)
    ensures
        r == capped(compiled_bytes(c@)),
{
    let base: u64 = match c.baseline {
        Some(_) => 1572864 + 1048576,
        None => 1572864,
    };
    let v = variants_cost(&c.variants);
    proof {
        let b: nat = 1572864 + (if c@.baseline is Some { 1048576nat } else { 0nat });
        lemma_capped_add(b, variants_bytes(c@.variants, sorted_keys(c@.variants.dom())));
    }
    base.saturating_add(v)
}

impl EngineState {
    /// The memory the caches account for, in bytes, capped at `u64::MAX`.
    pub(crate) fn memory_usage_bytes(&self) -> (r: u64)
        ensures
            r == capped(self@.memory_bytes()),
    {
        self.compiled_cache.note_invariant();
        self.osr_cache.note_invariant();
        let ghost cs = self.compiled_cache@;
        let ghost ko = self.compiled_cache.key_order();
        let mut acc: u64 = 0;
        let mut i: usize = 0;
        while i < self.compiled_cache.len()
            invariant
                cs == self.compiled_cache@,
                ko == self.compiled_cache.key_order(),
                i <= ko.len(),
                acc == capped(compiled_total_bytes(cs, ko.take(i as int))),
            decreases ko.len() - i,
        {
            let c = self.compiled_cache.value_at(i);
            let cc = compiled_cost(c);
            let ghost k = ko[i as int];
            proof {
                assert(ko.take(i + 1).drop_last() =~= ko.take(i as int));
                assert(ko.take(i + 1).last() == k);
                lemma_capped_add(compiled_total_bytes(cs, ko.take(i as int)), compiled_bytes(cs[k]));
            }
            acc = acc.saturating_add(cc);
            i = i + 1;
        }
        assert(ko.take(ko.len() as int) =~= ko);
        let o: u128 = (self.osr_cache.len() as u128) * 3145728;
        let oc: u64 = if o > 18446744073709551615u128 { u64::MAX } else { o as u64 };
        proof {
            lemma_capped_add(compiled_total_bytes(cs, ko), 3145728 * self@.osr.dom().len());
        }
        acc.saturating_add(oc)
    }
}

impl EngineState {
    /// The number of cached items, JIT and loop code together.
    pub(crate) fn cache_items(&self) -> (n: u128)
        ensures
            n == self@.cache_items(),
    {
        self.compiled_cache.note_invariant();
        self.osr_cache.note_invariant();
        (self.compiled_cache.len() as u128) + (self.osr_cache.len() as u128)
    }

    /// Whether the cache is over the given limits.
    fn over_limits(&self, items: usize, bytes: i128) -> (b: bool)
        ensures
            b == self@.over_limits(items as nat, bytes as int),
    {
        let n = self.cache_items();
        let m = self.memory_usage_bytes();
        n > items as u128 || (m as i128) > bytes
    }

    /// Evicts items, one at a time, while the cache is over the target
    /// limits, stopping early when nothing is evictable.
    fn collect(&mut self, max_deopt: usize, target_items: usize, target_bytes: i128)
        requires
            old(self)@.wf(),
            old(self)@.deopt_counts_ok(),
        ensures
            final(self)@ == old(self)@.collected(max_deopt, target_items as nat, target_bytes as int),
            final(self)@.wf(),
            final(self)@.deopt_counts_ok(),
            !final(self)@.over_limits(target_items as nat, target_bytes as int) || final(self)@.evictable_keys().len() == 0,
    {
        let ghost goal = self@.collected(max_deopt, target_items as nat, target_bytes as int);
        loop
            invariant
                self@.wf(),
                self@.deopt_counts_ok(),
                self@.collected(max_deopt, target_items as nat, target_bytes as int) == goal,
            ensures
                self@ == goal,
                self@.wf(),
                self@.deopt_counts_ok(),
                !self@.over_limits(target_items as nat, target_bytes as int) || self@.evictable_keys().len() == 0,
            decreases self@.cache_items(),
        {
            if !self.over_limits(target_items, target_bytes) {
                break;
            }
            let ghost before = self@;
            proof {
                lemma_evict_shrinks(before, max_deopt);
            }
            let ok = self.evict_one_item(max_deopt);
            if !ok {
                break;
            }
        }
    }

    /// The garbage-collection check: when the cache is over the trigger
    /// limits, evicts down to the target limits.
    pub(crate) fn collect_garbage(
        &mut self,
        max_deopt: usize,
        trigger_items: usize,
        trigger_bytes: i128,
        target_items: usize,
        target_bytes: i128,
    )
        requires
            old(self)@.wf(),
            old(self)@.deopt_counts_ok(),
        ensures
            final(self)@ == old(self)@.gc_checked(
                max_deopt,
                trigger_items as nat,
                trigger_bytes as int,
                target_items as nat,
                target_bytes as int,
            ),
            final(self)@.wf(),
            final(self)@.deopt_counts_ok(),
            old(self)@.over_limits(trigger_items as nat, trigger_bytes as int) ==> !final(self)@.over_limits(
                target_items as nat,
                target_bytes as int,
            ) || final(self)@.evictable_keys().len() == 0,
    {
        if self.over_limits(trigger_items, trigger_bytes) {
            self.collect(max_deopt, target_items, target_bytes);
        }
    }

    /// Evicts items until the cache is empty or nothing is evictable.
    pub(crate) fn drain(&mut self, max_deopt: usize)
        requires
            old(self)@.wf(),
            old(self)@.deopt_counts_ok(),
        ensures
            final(self)@ == old(self)@.drained(max_deopt),
            final(self)@.wf(),
            final(self)@.deopt_counts_ok(),
            final(self)@.cache_items() == 0 || final(self)@.evictable_keys().len() == 0,
    {
        let ghost goal = self@.drained(max_deopt);
        loop
            invariant
                self@.wf(),
                self@.deopt_counts_ok(),
                self@.drained(max_deopt) == goal,
            ensures
                self@ == goal,
                self@.wf(),
                self@.deopt_counts_ok(),
                self@.cache_items() == 0 || self@.evictable_keys().len() == 0,
            decreases self@.cache_items(),
        {
            if self.cache_items() == 0 {
                break;
            }
            let ghost before = self@;
            proof {
                lemma_evict_shrinks(before, max_deopt);
            }
            let ok = self.evict_one_item(max_deopt);
            if !ok {
                break;
            }
        }
    }
}

/// Whether the count under `k` can grow by two.
fn room_in(m: &StrMap<usize>, k: &String) -> (b: bool)
    ensures
        b == room(m@, k@),
{
    match m.get(k) {
        Some(c) => *c <= usize::MAX - 2,
        None => true,
    }
}

/// Whether every count of `m` can grow by two.
fn room_everywhere(m: &StrMap<usize>) -> (b: bool)
    ensures
        b == forall|k: Seq<char>| #[trigger] room(m@, k),
{
    m.note_invariant();
    let ghost ko = m.key_order();
    let mut i: usize = 0;
    while i < m.len()
        invariant
            ko == m.key_order(),
            i <= ko.len(),
            forall|j: int| 0 <= j < i ==> #[trigger] room(m@, ko[j]),
        decreases ko.len() - i,
    {
        let c = m.value_at(i);
        if *c > usize::MAX - 2 {
            assert(!room(m@, ko[i as int]));
            return false;
        }
        i = i + 1;
    }
    proof {
        assert forall|k: Seq<char>| #[trigger] room(m@, k) by {
            if m@.contains_key(k) {
                let j = choose|j: int| 0 <= j < ko.len() && ko[j] == k;
                assert(room(m@, ko[j]));
            }
        }
    }
    true
}

impl EngineState {
    /// Whether `f` is blacklisted from specialization.
    pub(crate) fn is_blacklisted(&self, f: &String) -> (b: bool)
        ensures
            b == self@.blacklisted.contains(f@),
    {
        self.blacklisted_polymorphic_functions.contains(f)
    }

    /// Whether `f` is quarantined.
    pub(crate) fn is_quarantined(&self, f: &String) -> (b: bool)
        ensures
            b == self@.quarantined.contains(f@),
    {
        self.quarantined_functions.contains(f)
    }

    /// Whether `f` has compiled code.
    pub(crate) fn is_compiled(&self, f: &String) -> (b: bool)
        ensures
            b == self@.compiled.contains_key(f@),
    {
        self.compiled_cache.contains_key(f)
    }

    /// Whether `f` has loop code.
    pub(crate) fn has_osr(&self, f: &String) -> (b: bool)
        ensures
            b == self@.osr.contains_key(f@),
    {
        self.osr_cache.contains_key(f)
    }

    /// Whether `f` has compiled code with a baseline form.
    pub(crate) fn has_baseline(&self, f: &String) -> (b: bool)
        ensures
            b == (self@.compiled.contains_key(f@) && self@.compiled[f@].baseline is Some),
    {
        match self.compiled_cache.get(f) {
            Some(c) => c.baseline.is_some(),
            None => false,
        }
    }

    /// The tier of the compiled code of `f`, whether it has a variant for
    /// `sig`, whether it has a baseline form, and its number of variants.
    pub(crate) fn compiled_info(&self, f: &String, sig: &String) -> (r: (Tier, bool, bool, usize))
        requires
            self@.compiled.contains_key(f@),
        ensures
            r.0 == self@.compiled[f@].tier,
            r.1 == self@.compiled[f@].variants.contains_key(sig@),
            r.2 == self@.compiled[f@].baseline is Some,
            r.3 == self@.compiled[f@].variants.dom().len(),
    {
        match self.compiled_cache.get(f) {
            Some(c) => {
                c.variants.note_invariant();
                (c.tier, c.variants.contains_key(sig), c.baseline.is_some(), c.variants.len())
            },
            None => (Tier::BASELINE, false, false, 0),
        }
    }

    /// The value memoized under `key` in the variant of `f` for `sig`.
    pub(crate) fn memo_lookup(&self, f: &String, sig: &String, key: &String) -> (r: Option<Val>)
        ensures
            r is Some <==> (self@.compiled.contains_key(f@) && self@.compiled[f@].variants.contains_key(sig@)
                && self@.compiled[f@].variants[sig@].memo.contains_key(key@)),
            r matches Some(v) ==> v@ == self@.compiled[f@].variants[sig@].memo[key@],
    {
        match self.compiled_cache.get(f) {
            Some(c) => match c.variants.get(sig) {
                Some(v) => match v.memo_cache.get(key) {
                    Some(val) => Some(val.clone()),
                    None => None,
                },
                None => None,
            },
            None => None,
        }
    }

    /// Drops the loop code of `f`.
    pub(crate) fn remove_osr(&mut self, f: &String)
        requires
            old(self)@.wf(),
        ensures
            final(self)@ == (EngineView { osr: old(self)@.osr.remove(f@), ..old(self)@ }),
            final(self)@.wf(),
    {
        let _ = self.osr_cache.remove(f);
        self.osr_cache.note_invariant();
        assert(self@ =~= EngineView { osr: old(self)@.osr.remove(f@), ..old(self)@ });
    }

    /// Whether every counter of `f` and the access counts of its code can
    /// grow by two.
    pub(crate) fn has_room(&self, f: &String) -> (b: bool)
        ensures
            b == self@.has_room(f@),
    {
        let per_sig = match self.polymorphic_counters.get(f) {
            Some(m) => room_everywhere(m),
            None => true,
        };
        let code = match self.compiled_cache.get(f) {
            Some(c) => c.access_count <= usize::MAX - 2 && match c.baseline {
                Some(b) => b.access_count <= usize::MAX - 2,
                None => true,
            },
            None => true,
        };
        let osr = match self.osr_cache.get(f) {
            Some(o) => o.access_count <= usize::MAX - 2,
            None => true,
        };
        room_in(&self.global_invocation_counters, f) && room_in(&self.deopt_counters, f)
            && room_in(&self.error_counters, f) && room_in(&self.loop_counters, f)
            && room_in(&self.active_invocations, f) && per_sig && code && osr
    }
}

/// The entries of `m` in ascending key order.
fn copy_entries<V: View + Copy>(m: &StrMap<V>) -> (r: Vec<(String, V)>)
    ensures
        r@.map_values(|p: (String, V)| (p.0@, p.1@)) == map_entries(m@),
{
    m.note_invariant();
    let ghost ko = m.key_order();
    let ghost goal = map_entries(m@);
    let mut r: Vec<(String, V)> = Vec::new();
    let mut i: usize = 0;
    while i < m.len()
        invariant
            ko == m.key_order(),
            ko == sorted_keys(m@.dom()),
            goal == map_entries(m@),
            i <= ko.len(),
            r@.map_values(|p: (String, V)| (p.0@, p.1@)) == goal.take(i as int),
        decreases ko.len() - i,
    {
        let ghost before = r@.map_values(|p: (String, V)| (p.0@, p.1@));
        let k = m.key_at(i).clone();
        let v = *m.value_at(i);
        r.push((k, v));
        proof {
            assert(goal.take(i + 1) =~= goal.take(i as int).push(goal[i as int]));
            assert(r@.map_values(|p: (String, V)| (p.0@, p.1@)) =~= before.push(goal[i as int]));
        }
        i = i + 1;
    }
    assert(goal.take(ko.len() as int) =~= goal);
    r
}

/// The entries of a map of sets in ascending key order, each set listed in
/// ascending order.
fn set_entries(m: &StrMap<StrSet>) -> (r: Vec<(String, Vec<String>)>)
    ensures
        r@.map_values(|p: (String, Vec<String>)| (p.0@, strs(p.1@))) == set_map_entries(m@),
{
    m.note_invariant();
    let ghost ko = m.key_order();
    let ghost goal = set_map_entries(m@);
    let mut r: Vec<(String, Vec<String>)> = Vec::new();
    let mut i: usize = 0;
    while i < m.len()
        invariant
            ko == m.key_order(),
            ko == sorted_keys(m@.dom()),
            goal == set_map_entries(m@),
            i <= ko.len(),
            r@.map_values(|p: (String, Vec<String>)| (p.0@, strs(p.1@))) == goal.take(i as int),
        decreases ko.len() - i,
    {
        let ghost before = r@.map_values(|p: (String, Vec<String>)| (p.0@, strs(p.1@)));
        let k = m.key_at(i).clone();
        let v = m.value_at(i).to_vec();
        r.push((k, v));
        proof {
            assert(goal.take(i + 1) =~= goal.take(i as int).push(goal[i as int]));
            assert(r@.map_values(|p: (String, Vec<String>)| (p.0@, strs(p.1@))) =~= before.push(goal[i as int]));
        }
        i = i + 1;
    }
    assert(goal.take(ko.len() as int) =~= goal);
    r
}

impl AdvancedJITEngine {
    /// The clock queue.
    pub fn get_clock_queue(&self) -> (r: Vec<String>)
        ensures
            strs(r@) == self@.clock_queue,
    {
        clone_strings(&self.state.clock_queue)
    }

    /// The clock hand.
    pub fn get_clock_hand(&self) -> (r: usize)
        ensures
            r == self@.clock_hand,
    {
        self.state.clock_hand
    }

    /// The clock's use bits, in ascending key order.
    pub fn get_clock_use_bits(&self) -> (r: Vec<(String, bool)>)
        ensures
            r@.map_values(|p: (String, bool)| (p.0@, p.1)) == map_entries(self@.clock_use_bits),
    {
        copy_entries(&self.state.clock_use_bits)
    }

    /// The running invocations of each function, in ascending key order.
    pub fn get_active_invocations_map(&self) -> (r: Vec<(String, usize)>)
        ensures
            r@.map_values(|p: (String, usize)| (p.0@, p.1)) == map_entries(self@.active),
    {
        copy_entries(&self.state.active_invocations)
    }

    /// The functions each function inlines, in ascending order.
    pub fn get_parent_to_children_map(&self) -> (r: Vec<(String, Vec<String>)>)
        ensures
            r@.map_values(|p: (String, Vec<String>)| (p.0@, strs(p.1@))) == set_map_entries(self@.parent_to_children),
    {
        set_entries(&self.state.parent_to_children)
    }

    /// The functions inlining each function, in ascending order.
    pub fn get_child_to_parents_map(&self) -> (r: Vec<(String, Vec<String>)>)
        ensures
            r@.map_values(|p: (String, Vec<String>)| (p.0@, strs(p.1@))) == set_map_entries(self@.child_to_parents),
    {
        set_entries(&self.state.child_to_parents)
    }

    /// The memory the caches account for, in bytes, capped at `u64::MAX`.
    pub fn get_memory_usage_bytes(&self) -> (r: u64)
        ensures
            r == capped(self@.memory_bytes()),
    {
        self.state.memory_usage_bytes()
    }

    /// The number of cached items, JIT and loop code together.
    pub fn cache_items(&self) -> (n: u128)
        ensures
            n == self@.cache_items(),
    {
        self.state.cache_items()
    }

    /// Whether `fn_id` is quarantined.
    pub fn is_quarantined(&self, fn_id: &str) -> (b: bool)
        ensures
            b == self@.quarantined.contains(fn_id@),
    {
        self.state.is_quarantined(&fn_id.to_owned())
    }

    /// Whether `fn_id` has compiled code.
    pub fn is_compiled(&self, fn_id: &str) -> (b: bool)
        ensures
            b == self@.compiled.contains_key(fn_id@),
    {
        self.state.is_compiled(&fn_id.to_owned())
    }

    /// Whether `fn_id` has compiled code at the optimized tier.
    pub fn is_optimized(&self, fn_id: &str) -> (b: bool)
        ensures
            b == self@.is_optimized(fn_id@),
    {
        self.state.is_optimized_fn(&fn_id.to_owned())
    }

    /// Whether `fn_id` has loop code.
    pub fn is_osr_compiled(&self, fn_id: &str) -> (b: bool)
        ensures
            b == self@.osr.contains_key(fn_id@),
    {
        self.state.has_osr(&fn_id.to_owned())
    }

    /// Whether the counters of `fn_id` have room for one more step of an
    /// invocation.
    pub fn has_room(&self, fn_id: &str) -> (b: bool)
        ensures
            b == self@.has_room(fn_id@),
    {
        self.state.has_room(&fn_id.to_owned())
    }

    /// Records that `parent_id` inlines `child_id`.
    pub fn force_register_dependency(&mut self, parent_id: &str, child_id: &str)
        requires
            old(self).wf(),
        ensures
            final(self).wf(),
            final(self).limits() == old(self).limits(),
            final(self)@ == old(self)@.with_dependency(parent_id@, child_id@),
    {
        let ghost s0 = self@;
        self.state.register_dependency(&parent_id.to_owned(), &child_id.to_owned());
        proof {
            lemma_bookkeeping_keeps_deopt_counts(s0, self.limits(), child_id@, parent_id@, child_id@, child_id@, VVal::Null, 0);
        }
    }

    /// Totally deoptimizes `fn_id`.
    pub fn force_deoptimize_total(&mut self, fn_id: &str)
        requires
            old(self).wf(),
        ensures
            final(self).wf(),
            final(self).limits() == old(self).limits(),
            final(self)@ == old(self)@.deoptimized_total(old(self).max_deopt_threshold, fn_id@),
    {
        self.state.deoptimize_total(&fn_id.to_owned(), self.max_deopt_threshold);
    }

    /// Invalidates the functions that inline `child_id`.
    pub fn force_invalidate_parents(&mut self, child_id: &str)
        requires
            old(self).wf(),
        ensures
            final(self).wf(),
            final(self).limits() == old(self).limits(),
            final(self)@ == old(self)@.parents_invalidated(old(self).max_deopt_threshold, child_id@),
    {
        self.state.invalidate_parents(&child_id.to_owned(), self.max_deopt_threshold);
    }

    /// Evicts items until the cache is empty or nothing is evictable.
    pub fn force_gc(&mut self)
        requires
            old(self).wf(),
        ensures
            final(self).wf(),
            final(self).limits() == old(self).limits(),
            final(self)@ == old(self)@.drained(old(self).max_deopt_threshold),
            final(self)@.cache_items() == 0 || final(self)@.evictable_keys().len() == 0,
    {
        self.state.drain(self.max_deopt_threshold);
    }

    /// The garbage-collection check with the given limits: when the cache is
    /// over the trigger limits, evicts down to the target limits.
    pub fn collect_garbage(&mut self, trigger_items: usize, trigger_bytes: i128, target_items: usize, target_bytes: i128)
        requires
            old(self).wf(),
        ensures
            final(self).wf(),
            final(self).limits() == old(self).limits(),
            final(self)@ == old(self)@.gc_checked(
                old(self).max_deopt_threshold,
                trigger_items as nat,
                trigger_bytes as int,
                target_items as nat,
                target_bytes as int,
            ),
            old(self)@.over_limits(trigger_items as nat, trigger_bytes as int) ==> !final(self)@.over_limits(
                target_items as nat,
                target_bytes as int,
            ) || final(self)@.evictable_keys().len() == 0,
    {
        self.state.collect_garbage(self.max_deopt_threshold, trigger_items, trigger_bytes, target_items, target_bytes);
    }
}

} // verus!
