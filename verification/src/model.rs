//! The engine's state as mathematics, and each of its transitions as a
//! function of that state.
use vstd::prelude::*;
use vstd::utf8::encode_utf8;
use crate::cache::{BaselineVariant, CompiledView, OsrView, Tier, VariantView};
use crate::collections::seq_with;
use crate::text::{lemma_sorted_keys_members, seq_contains_block, sorted_keys};
use crate::value::VVal;

verus! {

/// The view of the engine's bookkeeping. Keys are function identifiers.
#[verifier::ext_equal]
pub struct EngineView {
    pub polymorphic_counters: Map<Seq<char>, Map<Seq<char>, usize>>,
    pub global_invocation_counters: Map<Seq<char>, usize>,
    pub blacklisted: Set<Seq<char>>,
    pub deopt_counters: Map<Seq<char>, usize>,
    pub loop_counters: Map<Seq<char>, usize>,
    pub compiled: Map<Seq<char>, CompiledView>,
    pub osr: Map<Seq<char>, OsrView>,
    pub error_counters: Map<Seq<char>, usize>,
    pub quarantined: Set<Seq<char>>,
    pub parent_to_children: Map<Seq<char>, Set<Seq<char>>>,
    pub child_to_parents: Map<Seq<char>, Set<Seq<char>>>,
    pub active: Map<Seq<char>, usize>,
    pub clock_queue: Seq<Seq<char>>,
    pub clock_hand: usize,
    pub clock_use_bits: Map<Seq<char>, bool>,
}

/// The tuning limits of the engine.
#[derive(Clone, Copy, Debug)]
pub struct JitLimits {
    pub max_cache_size: usize,
    pub jit_threshold: usize,
    pub osr_threshold: usize,
    pub max_error_threshold: usize,
    pub max_polymorphic_slots: usize,
    pub max_memo_cache_size: usize,
    pub max_global_slow_path_attempts: usize,
    pub max_deopt_threshold: usize,
    pub max_stack_depth: usize,
}

/// The set that `m` holds under `k`, empty when absent.
pub open spec fn set_at(m: Map<Seq<char>, Set<Seq<char>>>, k: Seq<char>) -> Set<Seq<char>> {
    if m.contains_key(k) {
        m[k]
    } else {
        Set::empty()
    }
}

/// The count under `k` after one more occurrence.
pub open spec fn bumped(m: Map<Seq<char>, usize>, k: Seq<char>) -> usize {
    if m.contains_key(k) {
        (m[k] + 1) as usize
    } else {
        1
    }
}

/// No count under `k` is at the top of its range.
pub open spec fn below_max(m: Map<Seq<char>, usize>, k: Seq<char>) -> bool {
    m.contains_key(k) ==> m[k] < usize::MAX
}

/// Error text that reports a stack overflow.
pub open spec fn is_stack_overflow(err: Seq<char>) -> bool {
    seq_contains_block(err, "STACK OVERFLOW"@)
}

impl EngineView {
    /// The state of a new engine: every table empty.
    pub open spec fn empty() -> EngineView {
        EngineView {
            polymorphic_counters: Map::empty(),
            global_invocation_counters: Map::empty(),
            blacklisted: Set::empty(),
            deopt_counters: Map::empty(),
            loop_counters: Map::empty(),
            compiled: Map::empty(),
            osr: Map::empty(),
            error_counters: Map::empty(),
            quarantined: Set::empty(),
            parent_to_children: Map::empty(),
            child_to_parents: Map::empty(),
            active: Map::empty(),
            clock_queue: Seq::empty(),
            clock_hand: 0,
            clock_use_bits: Map::empty(),
        }
    }

    /// The dependency graph is recorded in both directions alike.
    pub open spec fn links_symmetric(self) -> bool {
        forall|p: Seq<char>, c: Seq<char>|
            set_at(self.parent_to_children, p).contains(c) <==> #[trigger] set_at(
                self.child_to_parents,
                c,
            ).contains(p)
    }

    /// Well-formedness: finite tables and a symmetric dependency graph.
    pub open spec fn wf(self) -> bool {
        &&& self.links_symmetric()
        &&& self.compiled.dom().finite()
        &&& self.osr.dom().finite()
        &&& forall|c: Seq<char>| #[trigger] self.child_to_parents.contains_key(c) ==> !self.child_to_parents[c].is_empty()
    }

    /// The deoptimization count of every optimized function can grow.
    pub open spec fn deopt_counts_ok(self) -> bool {
        forall|k: Seq<char>| #[trigger] self.is_optimized(k) ==> below_max(self.deopt_counters, k)
    }

    /// `f` has compiled code at the optimized tier.
    pub open spec fn is_optimized(self, f: Seq<char>) -> bool {
        self.compiled.contains_key(f) && self.compiled[f].tier == Tier::OPTIMIZED
    }

    /// The compiled and loop caches are finite.
    pub open spec fn finite_caches(self) -> bool {
        self.compiled.dom().finite() && self.osr.dom().finite()
    }

    /// The number of cached compiled items, JIT and OSR together.
    pub open spec fn cache_items(self) -> nat {
        self.compiled.dom().len() + self.osr.dom().len()
    }

    /// `key` marked as recently used in the clock, queued at the end if new.
    pub open spec fn with_clock_key(self, key: Seq<char>) -> EngineView {
        EngineView {
            clock_queue: seq_with(self.clock_queue, key),
            clock_use_bits: self.clock_use_bits.insert(key, true),
            ..self
        }
    }

    /// `f` added as a dependency of `parent` in both directions.
    pub open spec fn with_dependency(self, parent: Seq<char>, child: Seq<char>) -> EngineView {
        EngineView {
            parent_to_children: self.parent_to_children.insert(
                parent,
                set_at(self.parent_to_children, parent).insert(child),
            ),
            child_to_parents: self.child_to_parents.insert(
                child,
                set_at(self.child_to_parents, child).insert(parent),
            ),
            ..self
        }
    }

    /// Every link of `f`, in either direction, removed.
    pub open spec fn without_links(self, f: Seq<char>) -> EngineView {
        EngineView {
            parent_to_children: unlink(
                self.parent_to_children,
                f,
                set_at(self.child_to_parents, f),
            ),
            child_to_parents: unlink(
                self.child_to_parents,
                f,
                set_at(self.parent_to_children, f),
            ),
            ..self
        }
    }

    /// The per-function counters of `f` dropped and its links removed.
    pub open spec fn without_metadata(self, f: Seq<char>) -> EngineView {
        EngineView {
            polymorphic_counters: self.polymorphic_counters.remove(f),
            global_invocation_counters: self.global_invocation_counters.remove(f),
            deopt_counters: self.deopt_counters.remove(f),
            error_counters: self.error_counters.remove(f),
            active: self.active.remove(f),
            ..self
        }.without_links(f)
    }

    /// `p` is a parent of `c` in the dependency graph.
    pub open spec fn linked(self, c: Seq<char>, p: Seq<char>) -> bool {
        set_at(self.child_to_parents, c).contains(p)
    }

    /// `path` runs from child to parent through optimized functions.
    pub open spec fn is_deopt_path(self, path: Seq<Seq<char>>) -> bool {
        &&& path.len() >= 2
        &&& forall|i: int| 0 <= i < path.len() - 1 ==> self.linked(#[trigger] path[i], path[i + 1])
        &&& forall|i: int| 1 <= i < path.len() ==> self.is_optimized(#[trigger] path[i])
    }

    /// The functions that invalidating `start` deoptimizes: the optimized
    /// functions reached from `start` by parent links through optimized ones.
    pub open spec fn deopt_set(self, start: Seq<char>) -> Set<Seq<char>> {
        Set::new(
            |p: Seq<char>|
                exists|path: Seq<Seq<char>>|
                    #[trigger] self.is_deopt_path(path) && path[0] == start && path.last() == p,
        )
    }

    /// Every function of `d` dropped to the baseline tier with no variants
    /// and its signature counters cleared; one whose deoptimization count
    /// reaches `max_deopt` is blacklisted and its compiled code dropped.
    pub open spec fn deoptimized(self, max_deopt: usize, d: Set<Seq<char>>) -> EngineView {
        EngineView {
            compiled: deopt_compiled(self.compiled, self.deopt_counters, max_deopt, d),
            polymorphic_counters: self.polymorphic_counters.remove_keys(d),
            deopt_counters: bumped_all(self.deopt_counters, d),
            blacklisted: self.blacklisted.union(deopt_gone(self.deopt_counters, max_deopt, d)),
            ..self
        }
    }

    /// The links into and out of the functions of `i` removed: their parent
    /// lists dropped and they leave every child list.
    pub open spec fn without_links_of(self, i: Set<Seq<char>>) -> EngineView {
        EngineView {
            child_to_parents: self.child_to_parents.remove_keys(i),
            parent_to_children: Map::new(
                |p: Seq<char>| self.parent_to_children.contains_key(p),
                |p: Seq<char>| self.parent_to_children[p].difference(i),
            ),
            ..self
        }
    }

    /// Invalidation of the dependents of `start`: every function of its
    /// deoptimization set deoptimized, and the links of `start` and of that
    /// set removed.
    pub open spec fn parents_invalidated(self, max_deopt: usize, start: Seq<char>) -> EngineView {
        let d = self.deopt_set(start);
        self.deoptimized(max_deopt, d).without_links_of(d.insert(start))
    }

    /// One more error of `f`. Errors reporting a stack overflow are not
    /// counted. When the count reaches the error threshold, `f` is
    /// quarantined: its compiled and loop code dropped, the functions that
    /// inline it invalidated and its metadata cleaned.
    pub open spec fn error_handled(self, lim: JitLimits, f: Seq<char>, err: Seq<char>) -> EngineView {
        if is_stack_overflow(err) {
            self
        } else {
            let count = bumped(self.error_counters, f);
            let s1 = EngineView { error_counters: self.error_counters.insert(f, count), ..self };
            if count >= lim.max_error_threshold {
                EngineView {
                    quarantined: s1.quarantined.insert(f),
                    compiled: s1.compiled.remove(f),
                    osr: s1.osr.remove(f),
                    ..s1
                }.parents_invalidated(lim.max_deopt_threshold, f).without_metadata(f)
            } else {
                s1
            }
        }
    }

    /// `f` compiled, or recompiled, at the optimized tier with a fresh
    /// variant for `sig`, and marked in the clock.
    pub open spec fn compiled_variant(self, f: Seq<char>, sig: Seq<char>, now: u64) -> EngineView {
        let base = if self.compiled.contains_key(f) {
            self.compiled[f]
        } else {
            fresh_compiled(f, now)
        };
        let entry = CompiledView {
            tier: Tier::OPTIMIZED,
            variants: base.variants.insert(sig, fresh_variant(sig)),
            ..base
        };
        EngineView { compiled: self.compiled.insert(f, entry), ..self }.with_clock_key(f)
    }

    /// One call of `f` with signature `sig` profiled. A blacklisted function
    /// is not profiled. When the signature's count reaches the JIT threshold
    /// the global count restarts at zero and the variant is compiled; else,
    /// when the global count reaches the slow-path limit, `f` is blacklisted
    /// and its compiled code dropped.
    pub open spec fn profiled(self, lim: JitLimits, f: Seq<char>, sig: Seq<char>, now: u64) -> EngineView {
        if self.blacklisted.contains(f) {
            self
        } else {
            let global = bumped(self.global_invocation_counters, f);
            let per_sig = if self.polymorphic_counters.contains_key(f) {
                self.polymorphic_counters[f]
            } else {
                Map::empty()
            };
            let count = bumped(per_sig, sig);
            let s1 = EngineView {
                global_invocation_counters: self.global_invocation_counters.insert(f, global),
                polymorphic_counters: self.polymorphic_counters.insert(f, per_sig.insert(sig, count)),
                ..self
            };
            if count >= lim.jit_threshold {
                EngineView {
                    global_invocation_counters: s1.global_invocation_counters.insert(f, 0),
                    ..s1
                }.compiled_variant(f, sig, now)
            } else if global >= lim.max_global_slow_path_attempts {
                EngineView {
                    blacklisted: s1.blacklisted.insert(f),
                    compiled: s1.compiled.remove(f),
                    ..s1
                }
            } else {
                s1
            }
        }
    }

    /// The variant of `f` for `sig` dropped; with no variant left `f` is
    /// totally deoptimized.
    pub open spec fn variant_dropped(self, lim: JitLimits, f: Seq<char>, sig: Seq<char>) -> EngineView {
        if self.compiled.contains_key(f) {
            let c = self.compiled[f];
            let vs = c.variants.remove(sig);
            let s1 = EngineView {
                compiled: self.compiled.insert(f, CompiledView { variants: vs, ..c }),
                ..self
            };
            if vs.dom().len() == 0 {
                s1.deoptimized_total(lim.max_deopt_threshold, f)
            } else {
                s1
            }
        } else {
            self
        }
    }

    /// `val` memoized under `key` in the variant of `f` for `sig`, when
    /// that variant exists.
    pub open spec fn memo_stored(self, lim: JitLimits, f: Seq<char>, sig: Seq<char>, key: Seq<char>, val: VVal) -> EngineView {
        if self.compiled.contains_key(f) && self.compiled[f].variants.contains_key(sig) {
            let c = self.compiled[f];
            let v = c.variants[sig];
            let v2 = VariantView { memo: memo_with(v.memo, lim.max_memo_cache_size, key, val), ..v };
            EngineView {
                compiled: self.compiled.insert(f, CompiledView { variants: c.variants.insert(sig, v2), ..c }),
                ..self
            }
        } else {
            self
        }
    }

    /// An access of the compiled code of `f` at `now`.
    pub open spec fn compiled_touched(self, f: Seq<char>, now: u64) -> EngineView {
        let c = self.compiled[f];
        EngineView {
            compiled: self.compiled.insert(f, CompiledView { last_used: now, access_count: (c.access_count + 1) as usize, ..c }),
            clock_use_bits: self.clock_use_bits.insert(f, true),
            ..self
        }
    }

    /// An access of the baseline form of `f` at `now`, when it has one.
    pub open spec fn baseline_touched(self, f: Seq<char>, now: u64) -> EngineView {
        if self.compiled.contains_key(f) && self.compiled[f].baseline is Some {
            let c = self.compiled[f];
            let b = c.baseline->Some_0;
            EngineView {
                compiled: self.compiled.insert(f, CompiledView {
                    baseline: Some(BaselineVariant { last_used: now, access_count: (b.access_count + 1) as usize }),
                    ..c
                }),
                ..self
            }
        } else {
            self
        }
    }

    /// The baseline form of `f` dropped, when compiled.
    pub open spec fn baseline_dropped(self, f: Seq<char>) -> EngineView {
        if self.compiled.contains_key(f) {
            EngineView {
                compiled: self.compiled.insert(f, CompiledView { baseline: None, ..self.compiled[f] }),
                ..self
            }
        } else {
            self
        }
    }

    /// One more run of the heavy loop of `f`.
    pub open spec fn loop_counted(self, f: Seq<char>) -> EngineView {
        EngineView { loop_counters: self.loop_counters.insert(f, bumped(self.loop_counters, f)), ..self }
    }

    /// `f` compiled for its loop at `now` and marked in the clock.
    pub open spec fn osr_compiled(self, f: Seq<char>, now: u64) -> EngineView {
        EngineView {
            osr: self.osr.insert(f, OsrView { id: f, last_used: now, access_count: 1 }),
            ..self
        }.with_clock_key(f)
    }

    /// An access of the loop code of `f` at `now`, when present, marked in
    /// the clock.
    pub open spec fn osr_touched(self, f: Seq<char>, now: u64) -> EngineView {
        let s1 = if self.osr.contains_key(f) {
            let o = self.osr[f];
            EngineView {
                osr: self.osr.insert(f, OsrView { last_used: now, access_count: (o.access_count + 1) as usize, ..o }),
                ..self
            }
        } else {
            self
        };
        EngineView { clock_use_bits: s1.clock_use_bits.insert(f, true), ..s1 }
    }

    /// One more running invocation of `f`.
    pub open spec fn invocation_started(self, f: Seq<char>) -> EngineView {
        EngineView { active: self.active.insert(f, bumped(self.active, f)), ..self }
    }

    /// One running invocation of `f` finished; the entry goes at zero.
    pub open spec fn invocation_ended(self, f: Seq<char>) -> EngineView {
        if self.active.contains_key(f) {
            if self.active[f] > 1 {
                EngineView { active: self.active.insert(f, (self.active[f] - 1) as usize), ..self }
            } else {
                EngineView { active: self.active.remove(f), ..self }
            }
        } else {
            self
        }
    }

    /// The functions whose code may be evicted: the cached JIT functions,
    /// then the cached loop functions, each in ascending order, leaving out
    /// any that is running.
    pub open spec fn evictable_keys(self) -> Seq<Seq<char>> {
        keep(sorted_keys(self.compiled.dom()), self.active.dom().complement())
            + keep(sorted_keys(self.osr.dom()), self.active.dom().complement())
    }

    /// The functions with cached code, JIT or loop.
    pub open spec fn cached_set(self) -> Set<Seq<char>> {
        self.compiled.dom().union(self.osr.dom())
    }

    /// The first of `keys` with the least eviction rank.
    pub open spec fn first_least(self, keys: Seq<Seq<char>>) -> Seq<char> {
        first_least_in(self.compiled, self.osr, keys)
    }

    /// The code of `key` evicted: JIT code is dropped with invalidation of
    /// its dependents and cleaning of its metadata; loop code is dropped with
    /// its loop counter. The key leaves the clock.
    pub open spec fn evicted(self, max_deopt: usize, key: Seq<char>) -> EngineView {
        let s1 = if self.compiled.contains_key(key) {
            EngineView { compiled: self.compiled.remove(key), ..self }.parents_invalidated(
                max_deopt,
                key,
            ).without_metadata(key)
        } else {
            EngineView { osr: self.osr.remove(key), loop_counters: self.loop_counters.remove(key), ..self }
        };
        EngineView {
            clock_use_bits: s1.clock_use_bits.remove(key),
            clock_queue: keep(s1.clock_queue, set![key].complement()),
            ..s1
        }
    }

    /// One eviction. With nothing evictable nothing changes. Otherwise the
    /// clock queue keeps only cached entries, or, left empty, is refilled
    /// with the evictable keys and the hand reset; the hand sweeps twice the
    /// queue's length, and the entry it chooses is evicted, the hand moving
    /// past it. When the sweep chooses none, the evictable key of least rank
    /// is evicted.
    pub open spec fn evict_one(self, max_deopt: usize) -> (bool, EngineView) {
        let ev = self.evictable_keys();
        if ev.len() == 0 {
            (false, self)
        } else {
            let q1 = keep(self.clock_queue, self.cached_set());
            let q2 = if q1.len() == 0 { ev } else { q1 };
            let h2: usize = if q1.len() == 0 { 0 } else { self.clock_hand };
            let sweep = clock_sweep(self.cached_set(), self.active, q2, h2, self.clock_use_bits, 2 * q2.len());
            let s3 = EngineView { clock_queue: q2, clock_hand: sweep.hand, clock_use_bits: sweep.use_bits, ..self };
            match sweep.victim {
                Some(k) => {
                    let s4 = s3.evicted(max_deopt, k);
                    (true, EngineView { clock_hand: (sweep.hand + 1) as usize, ..s4 })
                },
                None => (true, s3.evicted(max_deopt, self.first_least(ev))),
            }
        }
    }

    /// The key an eviction evicts: the entry the clock's sweep chooses, or,
    /// when it chooses none, the evictable key of least rank.
    pub open spec fn eviction_victim(self) -> Seq<char> {
        let ev = self.evictable_keys();
        let q1 = keep(self.clock_queue, self.cached_set());
        let q2 = if q1.len() == 0 { ev } else { q1 };
        let h2: usize = if q1.len() == 0 { 0 } else { self.clock_hand };
        match clock_sweep(self.cached_set(), self.active, q2, h2, self.clock_use_bits, 2 * q2.len()).victim {
            Some(k) => k,
            None => self.first_least(ev),
        }
    }

    /// Total deoptimization of `f`: when optimized it drops to the baseline
    /// tier and its dependents are invalidated; otherwise nothing changes.
    pub open spec fn deoptimized_total(self, max_deopt: usize, f: Seq<char>) -> EngineView {
        if self.is_optimized(f) {
            self.deoptimized(max_deopt, set![f]).parents_invalidated(max_deopt, f)
        } else {
            self
        }
    }
}

/// The members of `d` whose deoptimization count after one more reaches
/// `max_deopt`.
pub open spec fn deopt_gone(counts: Map<Seq<char>, usize>, max_deopt: usize, d: Set<Seq<char>>) -> Set<Seq<char>> {
    Set::new(|p: Seq<char>| d.contains(p) && bumped(counts, p) >= max_deopt)
}

/// The compiled table with the members of `d` at the baseline tier without
/// variants, and those of [`deopt_gone`] dropped.
pub open spec fn deopt_compiled(
    compiled: Map<Seq<char>, CompiledView>,
    counts: Map<Seq<char>, usize>,
    max_deopt: usize,
    d: Set<Seq<char>>,
) -> Map<Seq<char>, CompiledView> {
    Map::new(
        |p: Seq<char>| compiled.contains_key(p) && !deopt_gone(counts, max_deopt, d).contains(p),
        |p: Seq<char>|
            if d.contains(p) {
                CompiledView { tier: Tier::BASELINE, variants: Map::empty(), ..compiled[p] }
            } else {
                compiled[p]
            },
    )
}

/// The counts after one more occurrence of each member of `d`.
pub open spec fn bumped_all(m: Map<Seq<char>, usize>, d: Set<Seq<char>>) -> Map<Seq<char>, usize> {
    Map::new(
        |p: Seq<char>| m.contains_key(p) || d.contains(p),
        |p: Seq<char>| if d.contains(p) { bumped(m, p) } else { m[p] },
    )
}

/// A compiled record made at `now` for `f`, with a baseline form.
pub open spec fn fresh_compiled(f: Seq<char>, now: u64) -> CompiledView {
    CompiledView {
        id: f,
        tier: Tier::OPTIMIZED,
        variants: Map::empty(),
        baseline: Some(BaselineVariant { last_used: now, access_count: 1 }),
        last_used: now,
        access_count: 1,
    }
}

/// A variant for `sig` with an empty memo table.
pub open spec fn fresh_variant(sig: Seq<char>) -> VariantView {
    VariantView { expected_signature: sig, memo: Map::empty() }
}

/// The memo table after storing `val` under `key`: when it already holds
/// `max` entries or more, its smallest key leaves first.
pub open spec fn memo_with(
    memo: Map<Seq<char>, VVal>,
    max: usize,
    key: Seq<char>,
    val: VVal,
) -> Map<Seq<char>, VVal> {
    let trimmed = if memo.dom().len() >= max && memo.dom().len() > 0 {
        memo.remove(sorted_keys(memo.dom())[0])
    } else {
        memo
    };
    trimmed.insert(key, val)
}

/// The members of `keys` that lie in `allowed`, in order.
pub open spec fn keep(keys: Seq<Seq<char>>, allowed: Set<Seq<char>>) -> Seq<Seq<char>>
    decreases keys.len(),
{
    if keys.len() == 0 {
        Seq::empty()
    } else {
        let r = keep(keys.drop_last(), allowed);
        if allowed.contains(keys.last()) {
            r.push(keys.last())
        } else {
            r
        }
    }
}

/// The members of `keep(keys, allowed)` are the members of `keys` that lie
/// in `allowed`.
pub proof fn lemma_keep_members(keys: Seq<Seq<char>>, allowed: Set<Seq<char>>)
    ensures
        forall|x: Seq<char>| #[trigger] keep(keys, allowed).contains(x) <==> keys.contains(x) && allowed.contains(x),
        keep(keys, allowed).len() <= keys.len(),
    decreases keys.len(),
{
    if keys.len() > 0 {
        let init = keys.drop_last();
        lemma_keep_members(init, allowed);
        let r = keep(init, allowed);
        assert forall|x: Seq<char>| #[trigger] keep(keys, allowed).contains(x) <==> keys.contains(x) && allowed.contains(x) by {
            if keys.contains(x) {
                let i = choose|i: int| 0 <= i < keys.len() && keys[i] == x;
                if i < keys.len() - 1 {
                    assert(init[i] == x);
                }
            }
            if init.contains(x) {
                let i = choose|i: int| 0 <= i < init.len() && init[i] == x;
                assert(keys[i] == x);
            }
            if allowed.contains(keys.last()) {
                let r2 = r.push(keys.last());
                if r.contains(x) {
                    let i = choose|i: int| 0 <= i < r.len() && r[i] == x;
                    assert(r2[i] == x);
                }
                if r2.contains(x) {
                    let i = choose|i: int| 0 <= i < r2.len() && r2[i] == x;
                    if i < r.len() {
                        assert(r[i] == x);
                    }
                }
                assert(r2[r.len() as int] == keys.last());
            }
        }
    }
}

/// The outcome of a sweep of the clock hand: the entry chosen for eviction,
/// if any, the hand's position (at the chosen entry, or after the sweep)
/// and the use bits.
pub struct ClockSweep {
    pub victim: Option<Seq<char>>,
    pub hand: usize,
    pub use_bits: Map<Seq<char>, bool>,
}

/// Second-chance sweep over `queue` from `hand`, for at most `attempts`
/// steps. The hand wraps to the front at the end of the queue. An entry no
/// longer cached, or whose function is running, is passed over; one whose use
/// bit is set (a missing bit counts as set) has it cleared and is passed
/// over; the first other entry is chosen.
pub open spec fn clock_sweep(
    cached: Set<Seq<char>>,
    active: Map<Seq<char>, usize>,
    queue: Seq<Seq<char>>,
    hand: usize,
    bits: Map<Seq<char>, bool>,
    attempts: nat,
) -> ClockSweep
    decreases attempts,
{
    if attempts == 0 || queue.len() == 0 {
        ClockSweep { victim: None, hand, use_bits: bits }
    } else {
        let h: usize = if hand >= queue.len() { 0 } else { hand };
        let key = queue[h as int];
        if !cached.contains(key) || active.contains_key(key) {
            clock_sweep(cached, active, queue, (h + 1) as usize, bits, (attempts - 1) as nat)
        } else if !bits.contains_key(key) || bits[key] {
            clock_sweep(cached, active, queue, (h + 1) as usize, bits.insert(key, false), (attempts - 1) as nat)
        } else {
            ClockSweep { victim: Some(key), hand: h, use_bits: bits }
        }
    }
}

/// The eviction rank of `k`: its access count, then its last use; the JIT
/// record counts when present, else the loop record.
pub open spec fn rank_in(compiled: Map<Seq<char>, CompiledView>, osr: Map<Seq<char>, OsrView>, k: Seq<char>) -> (usize, u64) {
    if compiled.contains_key(k) {
        (compiled[k].access_count, compiled[k].last_used)
    } else {
        (osr[k].access_count, osr[k].last_used)
    }
}

/// The first of `keys` with the least eviction rank.
pub open spec fn first_least_in(
    compiled: Map<Seq<char>, CompiledView>,
    osr: Map<Seq<char>, OsrView>,
    keys: Seq<Seq<char>>,
) -> Seq<char>
    decreases keys.len(),
{
    if keys.len() <= 1 {
        keys[0]
    } else {
        let m = first_least_in(compiled, osr, keys.drop_last());
        let l = keys.last();
        let rl = rank_in(compiled, osr, l);
        let rm = rank_in(compiled, osr, m);
        if pair_less(rl.0, rl.1, rm.0, rm.1) {
            l
        } else {
            m
        }
    }
}

/// `(a0, a1)` comes strictly before `(b0, b1)` lexicographically.
pub open spec fn pair_less(a0: usize, a1: u64, b0: usize, b1: u64) -> bool {
    a0 < b0 || (a0 == b0 && a1 < b1)
}

/// `m` with `f` removed from the sets of the keys in `touched`, dropping a
/// key whose set becomes empty, and with no entry for `f` itself.
pub open spec fn unlink(
    m: Map<Seq<char>, Set<Seq<char>>>,
    f: Seq<char>,
    touched: Set<Seq<char>>,
) -> Map<Seq<char>, Set<Seq<char>>> {
    Map::new(
        |k: Seq<char>|
            m.contains_key(k) && k != f && !(touched.contains(k) && m[k].remove(f).is_empty()),
        |k: Seq<char>|
            if touched.contains(k) {
                m[k].remove(f)
            } else {
                m[k]
            },
    )
}

/// Invalidating the dependents of a function keeps every optimized
/// function's deoptimization count below its maximum.
pub proof fn lemma_invalidation_keeps_deopt_counts(s: EngineView, max_deopt: usize, start: Seq<char>)
    requires
        s.deopt_counts_ok(),
    ensures
        s.parents_invalidated(max_deopt, start).deopt_counts_ok(),
{
    let d = s.deopt_set(start);
    let s1 = s.parents_invalidated(max_deopt, start);
    assert forall|k: Seq<char>| #[trigger] s1.is_optimized(k) implies below_max(s1.deopt_counters, k) by {
        assert(!d.contains(k));
        assert(s.is_optimized(k));
    }
}

/// Dropping the metadata of a function keeps every optimized function's
/// deoptimization count below its maximum.
pub proof fn lemma_cleaning_keeps_deopt_counts(s: EngineView, f: Seq<char>)
    requires
        s.deopt_counts_ok(),
    ensures
        s.without_metadata(f).deopt_counts_ok(),
{
    let s1 = s.without_metadata(f);
    assert forall|k: Seq<char>| #[trigger] s1.is_optimized(k) implies below_max(s1.deopt_counters, k) by {
        assert(s.is_optimized(k));
    }
}

/// The entry a sweep chooses is cached and not running.
pub proof fn lemma_sweep_victim(
    cached: Set<Seq<char>>,
    active: Map<Seq<char>, usize>,
    queue: Seq<Seq<char>>,
    hand: usize,
    bits: Map<Seq<char>, bool>,
    attempts: nat,
)
    ensures
        clock_sweep(cached, active, queue, hand, bits, attempts).victim matches Some(k)
            ==> cached.contains(k) && !active.contains_key(k),
    decreases attempts,
{
    if attempts > 0 && queue.len() > 0 {
        let h: usize = if hand >= queue.len() { 0 } else { hand };
        let key = queue[h as int];
        if !cached.contains(key) || active.contains_key(key) {
            lemma_sweep_victim(cached, active, queue, (h + 1) as usize, bits, (attempts - 1) as nat);
        } else if !bits.contains_key(key) || bits[key] {
            lemma_sweep_victim(cached, active, queue, (h + 1) as usize, bits.insert(key, false), (attempts - 1) as nat);
        }
    }
}

/// The first key of least rank is one of the keys.
pub proof fn lemma_first_least_member(
    compiled: Map<Seq<char>, CompiledView>,
    osr: Map<Seq<char>, OsrView>,
    keys: Seq<Seq<char>>,
)
    requires
        keys.len() > 0,
    ensures
        keys.contains(first_least_in(compiled, osr, keys)),
    decreases keys.len(),
{
    if keys.len() == 1 {
        assert(keys[0] == first_least_in(compiled, osr, keys));
    } else {
        let init = keys.drop_last();
        lemma_first_least_member(compiled, osr, init);
        let m = first_least_in(compiled, osr, init);
        let i = choose|i: int| 0 <= i < init.len() && init[i] == m;
        assert(keys[i] == m);
        assert(keys[keys.len() - 1] == keys.last());
    }
}

/// Evicting a cached key removes it from the cache and adds nothing.
pub proof fn lemma_evicted_shrinks(s: EngineView, max_deopt: usize, k: Seq<char>)
    requires
        s.finite_caches(),
        s.cached_set().contains(k),
    ensures
        s.evicted(max_deopt, k).compiled.dom().subset_of(s.compiled.dom()),
        s.evicted(max_deopt, k).osr.dom().subset_of(s.osr.dom()),
        s.evicted(max_deopt, k).cache_items() < s.cache_items(),
        s.evicted(max_deopt, k).compiled.dom().finite(),
        s.evicted(max_deopt, k).osr.dom().finite(),
{
    let e = s.evicted(max_deopt, k);
    if s.compiled.contains_key(k) {
        let s1 = EngineView { compiled: s.compiled.remove(k), ..s };
        let d = s1.deopt_set(k);
        assert(e.compiled.dom().subset_of(s.compiled.dom().remove(k)));
        assert(e.osr == s.osr);
        vstd::set_lib::lemma_len_subset(e.compiled.dom(), s.compiled.dom().remove(k));
        vstd::set_lib::lemma_set_subset_finite(s.compiled.dom(), e.compiled.dom());
    } else {
        assert(s.osr.contains_key(k));
        assert(e.compiled == s.compiled);
        assert(e.osr.dom() =~= s.osr.dom().remove(k));
    }
}

/// An eviction that reports success shrinks the cache; a state with nothing
/// evictable is left as it is.
pub proof fn lemma_evict_shrinks(s: EngineView, max_deopt: usize)
    requires
        s.finite_caches(),
    ensures
        s.evict_one(max_deopt).0 ==> s.evict_one(max_deopt).1.cache_items() < s.cache_items(),
        !s.evict_one(max_deopt).0 ==> s.evict_one(max_deopt).1 == s,
        s.evict_one(max_deopt).1.compiled.dom().finite(),
        s.evict_one(max_deopt).1.osr.dom().finite(),
{
    let ev = s.evictable_keys();
    if ev.len() > 0 {
        let allowed = s.active.dom().complement();
        lemma_keep_members(sorted_keys(s.compiled.dom()), allowed);
        lemma_keep_members(sorted_keys(s.osr.dom()), allowed);
        lemma_sorted_keys_members(s.compiled.dom());
        lemma_sorted_keys_members(s.osr.dom());
        let q1 = keep(s.clock_queue, s.cached_set());
        let q2 = if q1.len() == 0 { ev } else { q1 };
        let h2: usize = if q1.len() == 0 { 0 } else { s.clock_hand };
        let sweep = clock_sweep(s.cached_set(), s.active, q2, h2, s.clock_use_bits, 2 * q2.len());
        lemma_sweep_victim(s.cached_set(), s.active, q2, h2, s.clock_use_bits, 2 * q2.len());
        let s3 = EngineView { clock_queue: q2, clock_hand: sweep.hand, clock_use_bits: sweep.use_bits, ..s };
        assert(s3.finite_caches());
        match sweep.victim {
            Some(k) => {
                lemma_evicted_shrinks(s3, max_deopt, k);
            },
            None => {
                let k = s.first_least(ev);
                lemma_first_least_member(s.compiled, s.osr, ev);
                let a = keep(sorted_keys(s.compiled.dom()), allowed);
                let b = keep(sorted_keys(s.osr.dom()), allowed);
                let i = choose|i: int| 0 <= i < ev.len() && ev[i] == k;
                if i < a.len() {
                    assert(a[i] == k);
                    assert(a.contains(k));
                } else {
                    assert(b[i - a.len()] == k);
                    assert(b.contains(k));
                }
                assert(s3.cached_set().contains(k));
                lemma_evicted_shrinks(s3, max_deopt, k);
            },
        }
    }
}

/// The sum of `cost` over `keys`.
pub open spec fn sum_over(keys: Seq<Seq<char>>, cost: spec_fn(Seq<char>) -> nat) -> nat
    decreases keys.len(),
{
    if keys.len() == 0 {
        0
    } else {
        sum_over(keys.drop_last(), cost) + cost(keys.last())
    }
}

/// The byte length of a key as its string reports it.
pub open spec fn key_bytes(k: Seq<char>) -> nat {
    (encode_utf8(k).len() as usize) as nat
}

/// The bytes a memo entry under `k` accounts for: twice its key's length,
/// 200 for the stored value and a quarter mebibyte of overhead.
pub open spec fn memo_entry_bytes(k: Seq<char>) -> nat {
    key_bytes(k) * 2 + 200 + 262144
}

/// The bytes the memo entries under `keys` account for.
pub open spec fn memo_bytes(keys: Seq<Seq<char>>) -> nat {
    sum_over(keys, |k: Seq<char>| memo_entry_bytes(k))
}

/// The bytes a variant accounts for: two mebibytes and its memo entries.
pub open spec fn variant_bytes(v: VariantView) -> nat {
    2097152 + memo_bytes(sorted_keys(v.memo.dom()))
}

/// The bytes the variants of `vs` under `keys` account for.
pub open spec fn variants_bytes(vs: Map<Seq<char>, VariantView>, keys: Seq<Seq<char>>) -> nat {
    sum_over(keys, |k: Seq<char>| variant_bytes(vs[k]))
}

/// The bytes compiled code accounts for: one and a half mebibytes, one more
/// with a baseline form, and its variants.
pub open spec fn compiled_bytes(c: CompiledView) -> nat {
    1572864 + (if c.baseline is Some { 1048576nat } else { 0nat }) + variants_bytes(
        c.variants,
        sorted_keys(c.variants.dom()),
    )
}

/// The bytes the compiled code of `cs` under `keys` accounts for.
pub open spec fn compiled_total_bytes(cs: Map<Seq<char>, CompiledView>, keys: Seq<Seq<char>>) -> nat {
    sum_over(keys, |k: Seq<char>| compiled_bytes(cs[k]))
}

/// `n` capped at the largest `u64`.
pub open spec fn capped(n: nat) -> u64 {
    if n > u64::MAX {
        u64::MAX
    } else {
        n as u64
    }
}

/// Capping a sum of capped terms caps the sum.
pub proof fn lemma_capped_add(a: nat, b: nat)
    ensures
        capped(capped(a) as nat + capped(b) as nat) == capped(a + b),
{
}

impl EngineView {
    /// The memory the caches account for, in bytes: the compiled code, and
    /// three mebibytes for each loop compilation.
    pub open spec fn memory_bytes(self) -> nat {
        compiled_total_bytes(self.compiled, sorted_keys(self.compiled.dom())) + 3145728 * self.osr.dom().len()
    }
}

impl EngineView {
    /// The cache is over the given limits: more than `items` cached items, or
    /// more than `bytes` bytes accounted for.
    pub open spec fn over_limits(self, items: nat, bytes: int) -> bool {
        self.cache_items() > items || capped(self.memory_bytes()) > bytes
    }

    /// Evictions, one at a time, while the cache is over the target limits;
    /// they stop early when nothing is evictable.
    pub open spec fn collected(self, max_deopt: usize, target_items: nat, target_bytes: int) -> EngineView
        decreases self.cache_items(),
        when self.finite_caches()
    {
        if self.over_limits(target_items, target_bytes) {
            let next = self.evict_one(max_deopt);
            if next.0 {
                proof {
                    lemma_evict_shrinks(self, max_deopt);
                }
                next.1.collected(max_deopt, target_items, target_bytes)
            } else {
                next.1
            }
        } else {
            self
        }
    }

    /// The garbage-collection check: when the cache is over the trigger
    /// limits, evictions bring it down to the target limits.
    pub open spec fn gc_checked(
        self,
        max_deopt: usize,
        trigger_items: nat,
        trigger_bytes: int,
        target_items: nat,
        target_bytes: int,
    ) -> EngineView {
        if self.over_limits(trigger_items, trigger_bytes) {
            self.collected(max_deopt, target_items, target_bytes)
        } else {
            self
        }
    }
}

impl EngineView {
    /// Evictions, one at a time, until the cache is empty or nothing is
    /// evictable.
    pub open spec fn drained(self, max_deopt: usize) -> EngineView
        decreases self.cache_items(),
        when self.finite_caches()
    {
        if self.cache_items() > 0 {
            let next = self.evict_one(max_deopt);
            if next.0 {
                proof {
                    lemma_evict_shrinks(self, max_deopt);
                }
                next.1.drained(max_deopt)
            } else {
                next.1
            }
        } else {
            self
        }
    }
}

/// The entries of a map in ascending key order.
pub open spec fn map_entries<V>(m: Map<Seq<char>, V>) -> Seq<(Seq<char>, V)> {
    sorted_keys(m.dom()).map_values(|k: Seq<char>| (k, m[k]))
}

/// The entries of a map of sets in ascending key order, each set listed in
/// ascending order.
pub open spec fn set_map_entries(m: Map<Seq<char>, Set<Seq<char>>>) -> Seq<(Seq<char>, Seq<Seq<char>>)> {
    sorted_keys(m.dom()).map_values(|k: Seq<char>| (k, sorted_keys(m[k])))
}

} // verus!
