//! Properties of the engine that span several operations, proved over the
//! mathematical model.
use vstd::prelude::*;
use crate::cache::Tier;
use crate::invoke::{InvView, Outcome, Stage, Step, sandboxed, after_step, begin_step, blocked_text, finished, loop_or_plain, released, tiers};
use crate::model::{EngineView, JitLimits, below_max, clock_sweep, is_stack_overflow, keep, lemma_evict_shrinks, lemma_evicted_shrinks, lemma_first_least_member, lemma_keep_members, lemma_sweep_victim, memo_with, set_at};
use crate::text::lemma_sorted_keys_members;
use crate::text::sorted_keys;
use crate::value::{VVal, ser_list, strict_signature, strict_type, type_join};

verus! {

/// Releasing running marks changes nothing but the running counts.
pub proof fn lemma_released_keeps(s: EngineView, f: Seq<char>, n: nat)
    ensures
        released(s, f, n) == (EngineView { active: released(s, f, n).active, ..s }),
    decreases n,
{
    if n > 0 {
        lemma_released_keeps(s.invocation_ended(f), f, (n - 1) as nat);
    }
}

/// Memoization: when an optimized run of `f` succeeds with `v`, the next
/// call of `f` with the same arguments answers `v` from the memo without
/// running the body.
pub proof fn law_memoized_result_is_returned(
    s: EngineView,
    lim: JitLimits,
    inv: InvView,
    v: VVal,
    next: InvView,
    args: Seq<VVal>,
    now: u64,
)
    requires
        s.is_optimized(inv.fn_id),
        s.compiled[inv.fn_id].variants.contains_key(inv.sig),
        !s.blacklisted.contains(inv.fn_id),
        !s.quarantined.contains(inv.fn_id),
        inv.stage == Stage::Optimized,
        inv.memoizable,
        next.fn_id == inv.fn_id,
        strict_signature(args) == inv.sig,
        ser_list(args, 0).0 == inv.key,
        !ser_list(args, 0).1,
    ensures
        begin_step(after_step(s, lim, inv, Ok(v)).state, lim, next, args, now).act == Outcome::Finish(Ok(v)),
{
    let f = inv.fn_id;
    let m = s.memo_stored(lim, f, inv.sig, inv.key, v);
    let s1 = after_step(s, lim, inv, Ok(v)).state;
    assert(s1 == released(m, f, inv.tokens as nat));
    lemma_released_keeps(m, f, inv.tokens as nat);
    let c = s.compiled[f];
    let vv = c.variants[inv.sig];
    assert(m.compiled[f].variants[inv.sig].memo == memo_with(vv.memo, lim.max_memo_cache_size, inv.key, v));
    assert(s1.compiled[f].tier == Tier::OPTIMIZED);
    assert(s1.compiled[f].variants[inv.sig].memo[inv.key] == v);
}

/// At the depth limit no step asks for a body run.
pub proof fn law_no_body_runs_at_depth_limit(
    s: EngineView,
    lim: JitLimits,
    inv: InvView,
    args: Seq<VVal>,
    r: Result<VVal, Seq<char>>,
    now: u64,
)
    requires
        inv.depth >= lim.max_stack_depth,
    ensures
        begin_step(s, lim, inv, args, now).act !is RunBody,
        after_step(s, lim, inv, r).act !is RunBody,
{
    let f = inv.fn_id;
    if !s.blacklisted.contains(f) && !s.quarantined.contains(f) {
        let s1 = match inv.caller {
            Some(c) => if c != f && inv.inlineable {
                s.with_dependency(c, f)
            } else {
                s
            },
            None => s,
        };
        let inv1 = InvView {
            sig: strict_signature(args),
            key: ser_list(args, 0).0,
            memoizable: !ser_list(args, 0).1,
            tokens: (inv.tokens + 1) as usize,
            ..inv
        };
        lemma_tiers_at_depth_limit(s1.invocation_started(f), lim, inv1, now);
    }
}

/// At the depth limit the tiers ask for no body run.
proof fn lemma_tiers_at_depth_limit(s: EngineView, lim: JitLimits, inv: InvView, now: u64)
    requires
        inv.depth >= lim.max_stack_depth,
    ensures
        tiers(s, lim, inv, now).act !is RunBody,
        loop_or_plain(s, lim, inv, now).act !is RunBody,
{
    let f = inv.fn_id;
    if s.compiled.contains_key(f) {
        let s1 = s.compiled_touched(f, now);
        assert(loop_or_plain(s1, lim, inv, now).act !is RunBody);
    }
}

/// Invalidating the dependents of `c` leaves none of its parents, and none
/// of the functions reached from it through optimized parents, optimized;
/// `c` keeps no parent links.
pub proof fn law_invalidation_deoptimizes_parents(s: EngineView, max_deopt: usize, c: Seq<char>)
    ensures
        forall|p: Seq<char>| #[trigger] s.linked(c, p) ==> !s.parents_invalidated(max_deopt, c).is_optimized(p),
        forall|p: Seq<char>| #[trigger] s.deopt_set(c).contains(p) ==> !s.parents_invalidated(max_deopt, c).is_optimized(p),
        set_at(s.parents_invalidated(max_deopt, c).child_to_parents, c) == Set::<Seq<char>>::empty(),
{
    let t = s.parents_invalidated(max_deopt, c);
    let d = s.deopt_set(c);
    assert forall|p: Seq<char>| #[trigger] s.linked(c, p) implies !t.is_optimized(p) by {
        if s.is_optimized(p) {
            let path = seq![c, p];
            assert(s.is_deopt_path(path));
            assert(path[0] == c && path.last() == p);
            assert(d.contains(p));
        }
    }
}

/// Total deoptimization of an optimized function drops it from the
/// optimized tier together with every function that inlines it, directly or
/// through optimized functions; it keeps no parent links.
pub proof fn law_deoptimization_cascades(s: EngineView, max_deopt: usize, f: Seq<char>)
    requires
        s.is_optimized(f),
    ensures
        !s.deoptimized_total(max_deopt, f).is_optimized(f),
        forall|p: Seq<char>| #[trigger] s.linked(f, p) ==> !s.deoptimized_total(max_deopt, f).is_optimized(p),
        set_at(s.deoptimized_total(max_deopt, f).child_to_parents, f) == Set::<Seq<char>>::empty(),
{
    let s1 = s.deoptimized(max_deopt, set![f]);
    assert(!s1.is_optimized(f));
    law_invalidation_deoptimizes_parents(s1, max_deopt, f);
    let t = s1.parents_invalidated(max_deopt, f);
    assert(!s1.deopt_set(f).contains(f)) by {
        if s1.deopt_set(f).contains(f) {
            let path = choose|path: Seq<Seq<char>>| #[trigger] s1.is_deopt_path(path) && path[0] == f && path.last() == f;
            assert(s1.is_optimized(path[path.len() - 1]));
        }
    }
    assert forall|p: Seq<char>| #[trigger] s.linked(f, p) implies !t.is_optimized(p) by {
        assert(s1.linked(f, p));
    }
}

/// An error that brings the count of `f` to the error threshold quarantines
/// `f`: its compiled and loop code are gone and its counters cleared. An error
/// reporting a stack overflow is not counted at all.
pub proof fn law_errors_quarantine(s: EngineView, lim: JitLimits, f: Seq<char>, e: Seq<char>)
    ensures
        is_stack_overflow(e) ==> s.error_handled(lim, f, e) == s,
        !is_stack_overflow(e) && crate::model::bumped(s.error_counters, f) >= lim.max_error_threshold ==> {
            let t = s.error_handled(lim, f, e);
            &&& t.quarantined.contains(f)
            &&& !t.compiled.contains_key(f)
            &&& !t.osr.contains_key(f)
            &&& !t.error_counters.contains_key(f)
        },
{
}

/// A quarantined function that is not blacklisted is refused: its
/// invocation ends at once with the quarantine error, its body not run.
pub proof fn law_quarantined_is_refused(s: EngineView, lim: JitLimits, inv: InvView, args: Seq<VVal>, now: u64)
    requires
        s.quarantined.contains(inv.fn_id),
        !s.blacklisted.contains(inv.fn_id),
    ensures
        begin_step(s, lim, inv, args, now) == finished(s, inv, Err(blocked_text(inv.fn_id))),
{
}

/// Starting and then ending an invocation leaves the running counts as they
/// were.
pub proof fn law_start_then_end_restores(s: EngineView, f: Seq<char>)
    requires
        below_max(s.active, f),
        s.active.contains_key(f) ==> s.active[f] >= 1,
    ensures
        s.invocation_started(f).invocation_ended(f) == s,
{
    let t = s.invocation_started(f).invocation_ended(f);
    if s.active.contains_key(f) {
        assert(t.active =~= s.active.insert(f, s.active[f]));
        assert(s.active.insert(f, s.active[f]) =~= s.active);
    } else {
        assert(t.active =~= s.active);
    }
    assert(t =~= s);
}

/// A memo table holding at most `max` entries still does after a store, and
/// it holds the stored value under its key.
pub proof fn law_memo_table_bounded(memo: Map<Seq<char>, VVal>, max: usize, key: Seq<char>, val: VVal)
    requires
        memo.dom().finite(),
        memo.dom().len() <= max,
        max >= 1,
    ensures
        memo_with(memo, max, key, val).dom().finite(),
        memo_with(memo, max, key, val).dom().len() <= max,
        memo_with(memo, max, key, val).contains_key(key),
        memo_with(memo, max, key, val)[key] == val,
{
    if memo.dom().len() >= max && memo.dom().len() > 0 {
        lemma_sorted_keys_members(memo.dom());
        let q = sorted_keys(memo.dom());
        assert(q.len() > 0) by {
            let x = memo.dom().choose();
            assert(memo.dom().contains(x));
            assert(q.contains(x));
        }
        assert(q.contains(q[0]));
        assert(memo.dom().contains(q[0]));
        let trimmed = memo.remove(q[0]);
        assert(trimmed.dom() =~= memo.dom().remove(q[0]));
        assert(trimmed.dom().len() == memo.dom().len() - 1);
        assert(trimmed.insert(key, val).dom() =~= trimmed.dom().insert(key));
    } else {
        assert(memo.insert(key, val).dom() =~= memo.dom().insert(key));
    }
}

/// No quarantined function holds compiled or loop code.
pub open spec fn quarantine_clean(s: EngineView) -> bool {
    forall|k: Seq<char>| #[trigger] s.quarantined.contains(k) ==> !s.compiled.contains_key(k) && !s.osr.contains_key(k)
}

/// `t` has the quarantine set of `s` and holds code only for functions that
/// had it in `s`, or for `f`.
pub open spec fn code_grows_only_by(s: EngineView, t: EngineView, f: Seq<char>) -> bool {
    &&& t.quarantined == s.quarantined
    &&& forall|k: Seq<char>| #[trigger] t.compiled.contains_key(k) ==> s.compiled.contains_key(k) || k == f
    &&& forall|k: Seq<char>| #[trigger] t.osr.contains_key(k) ==> s.osr.contains_key(k) || k == f
}

/// Deoptimizations and invalidations add no code and quarantine nothing.
proof fn lemma_deopts_add_no_code(s: EngineView, max_deopt: usize, f: Seq<char>)
    ensures
        code_grows_only_by(s, s.parents_invalidated(max_deopt, f), f),
        code_grows_only_by(s, s.deoptimized_total(max_deopt, f), f),
{
    let s1 = s.deoptimized(max_deopt, set![f]);
    assert(code_grows_only_by(s, s1, f));
    assert(code_grows_only_by(s1, s1.parents_invalidated(max_deopt, f), f));
}

/// An error adds no code; when it quarantines `f`, the code of `f` is gone.
proof fn lemma_error_keeps_clean(s: EngineView, lim: JitLimits, f: Seq<char>, e: Seq<char>)
    requires
        quarantine_clean(s),
    ensures
        quarantine_clean(s.error_handled(lim, f, e)),
        forall|k: Seq<char>| #[trigger] s.error_handled(lim, f, e).compiled.contains_key(k) ==> s.compiled.contains_key(k),
        forall|k: Seq<char>| #[trigger] s.error_handled(lim, f, e).osr.contains_key(k) ==> s.osr.contains_key(k),
{
    if !is_stack_overflow(e) {
        let count = crate::model::bumped(s.error_counters, f);
        let s1 = EngineView { error_counters: s.error_counters.insert(f, count), ..s };
        if count >= lim.max_error_threshold {
            let s2 = EngineView {
                quarantined: s1.quarantined.insert(f),
                compiled: s1.compiled.remove(f),
                osr: s1.osr.remove(f),
                ..s1
            };
            lemma_deopts_add_no_code(s2, lim.max_deopt_threshold, f);
        }
    }
}

/// The bookkeeping of an invocation of `f` adds code only for `f`.
proof fn lemma_profiled_grows_only_by(s: EngineView, lim: JitLimits, f: Seq<char>, sig: Seq<char>, now: u64)
    ensures
        code_grows_only_by(s, s.profiled(lim, f, sig, now), f),
        code_grows_only_by(s, s.loop_counted(f), f),
        code_grows_only_by(s, s.osr_compiled(f, now), f),
        code_grows_only_by(s, s.osr_touched(f, now), f),
        code_grows_only_by(s, s.baseline_touched(f, now), f),
        s.compiled.contains_key(f) ==> code_grows_only_by(s, s.compiled_touched(f, now), f),
{
}

/// `code_grows_only_by` composes.
proof fn lemma_grows_trans(a: EngineView, b: EngineView, c: EngineView, f: Seq<char>)
    requires
        code_grows_only_by(a, b, f),
        code_grows_only_by(b, c, f),
    ensures
        code_grows_only_by(a, c, f),
{
}

/// The loop tier and interpreted run add code only for the invoked function.
proof fn lemma_loop_or_plain_grows(s: EngineView, lim: JitLimits, inv: InvView, now: u64)
    ensures
        code_grows_only_by(s, loop_or_plain(s, lim, inv, now).state, inv.fn_id),
{
    let f = inv.fn_id;
    let st = loop_or_plain(s, lim, inv, now).state;
    if inv.loop_heavy {
        let s1 = s.loop_counted(f);
        lemma_profiled_grows_only_by(s, lim, f, inv.sig, now);
        let s2 = if s1.loop_counters[f] >= lim.osr_threshold && !s1.osr.contains_key(f) {
            s1.osr_compiled(f, now)
        } else {
            s1
        };
        lemma_profiled_grows_only_by(s1, lim, f, inv.sig, now);
        lemma_grows_trans(s, s1, s2, f);
        let s3 = s2.profiled(lim, f, inv.sig, now);
        lemma_profiled_grows_only_by(s2, lim, f, inv.sig, now);
        lemma_grows_trans(s, s2, s3, f);
        lemma_profiled_grows_only_by(s3, lim, f, inv.sig, now);
        lemma_grows_trans(s, s3, s3.osr_touched(f, now), f);
        lemma_released_keeps(s3, f, inv.tokens as nat);
        lemma_released_keeps(s3.osr_touched(f, now), f, inv.tokens as nat);
    } else {
        lemma_profiled_grows_only_by(s, lim, f, inv.sig, now);
        lemma_released_keeps(s.profiled(lim, f, inv.sig, now), f, inv.tokens as nat);
    }
}

/// The compiled tiers add code only for the invoked function.
proof fn lemma_tiers_grow(s: EngineView, lim: JitLimits, inv: InvView, now: u64)
    ensures
        code_grows_only_by(s, tiers(s, lim, inv, now).state, inv.fn_id),
{
    let f = inv.fn_id;
    if s.compiled.contains_key(f) {
        let s1 = s.compiled_touched(f, now);
        lemma_profiled_grows_only_by(s, lim, f, inv.sig, now);
        lemma_loop_or_plain_grows(s1, lim, inv, now);
        lemma_grows_trans(s, s1, loop_or_plain(s1, lim, inv, now).state, f);
        lemma_released_keeps(s1, f, inv.tokens as nat);
        lemma_deopts_add_no_code(s1, lim.max_deopt_threshold, f);
        lemma_grows_trans(s, s1, s1.deoptimized_total(lim.max_deopt_threshold, f), f);
        let s2 = s1.baseline_touched(f, now);
        lemma_profiled_grows_only_by(s1, lim, f, inv.sig, now);
        lemma_grows_trans(s, s1, s2, f);
        lemma_profiled_grows_only_by(s2, lim, f, inv.sig, now);
        lemma_grows_trans(s, s2, s2.profiled(lim, f, inv.sig, now), f);
        lemma_released_keeps(s2.profiled(lim, f, inv.sig, now), f, inv.tokens as nat);
    } else {
        lemma_loop_or_plain_grows(s, lim, inv, now);
    }
}

/// No step of an invocation gives a quarantined function compiled or loop
/// code: the steps keep quarantined functions free of code.
pub proof fn law_quarantine_keeps_code_away(
    s: EngineView,
    lim: JitLimits,
    inv: InvView,
    args: Seq<VVal>,
    r: Result<VVal, Seq<char>>,
    now: u64,
)
    requires
        quarantine_clean(s),
    ensures
        quarantine_clean(begin_step(s, lim, inv, args, now).state),
        quarantine_clean(after_step(s, lim, inv, r).state),
{
    let f = inv.fn_id;
    lemma_released_keeps(s, f, inv.tokens as nat);
    if !s.blacklisted.contains(f) && !s.quarantined.contains(f) {
        let s1 = match inv.caller {
            Some(c) => if c != f && inv.inlineable {
                s.with_dependency(c, f)
            } else {
                s
            },
            None => s,
        };
        let inv1 = InvView {
            sig: strict_signature(args),
            key: ser_list(args, 0).0,
            memoizable: !ser_list(args, 0).1,
            tokens: (inv.tokens + 1) as usize,
            ..inv
        };
        let s2 = s1.invocation_started(f);
        lemma_tiers_grow(s2, lim, inv1, now);
        assert(code_grows_only_by(s, s2, f));
        lemma_grows_trans(s, s2, tiers(s2, lim, inv1, now).state, f);
    }
    lemma_after_keeps_clean(s, lim, inv, r);
}

/// The step after a body run keeps quarantined functions free of code.
proof fn lemma_after_keeps_clean(s: EngineView, lim: JitLimits, inv: InvView, r: Result<VVal, Seq<char>>)
    requires
        quarantine_clean(s),
    ensures
        quarantine_clean(after_step(s, lim, inv, r).state),
{
    let f = inv.fn_id;
    let s1 = match r {
        Ok(_) => s,
        Err(e) => s.error_handled(lim, f, e),
    };
    match r {
        Ok(_) => {},
        Err(e) => {
            lemma_error_keeps_clean(s, lim, f, e);
        },
    }
    assert(quarantine_clean(s1));
    lemma_released_keeps(s1, f, inv.tokens as nat);
    match inv.stage {
        Stage::Plain => {},
        Stage::Optimized => match r {
            Ok(v) => {
                let m = s1.memo_stored(lim, f, inv.sig, inv.key, v);
                lemma_released_keeps(m, f, inv.tokens as nat);
            },
            Err(e) => {
                let s2 = s1.variant_dropped(lim, f, inv.sig);
                if s1.compiled.contains_key(f) {
                    let c = s1.compiled[f];
                    let t = EngineView {
                        compiled: s1.compiled.insert(f, crate::cache::CompiledView { variants: c.variants.remove(inv.sig), ..c }),
                        ..s1
                    };
                    lemma_deopts_add_no_code(t, lim.max_deopt_threshold, f);
                }
                lemma_released_keeps(s2, f, inv.tokens as nat);
            },
        },
        Stage::Baseline => {
            lemma_released_keeps(s1.baseline_dropped(f), f, inv.tokens as nat);
        },
        Stage::Osr => match r {
            Ok(_) => {},
            Err(e) => {
                let s2 = EngineView { osr: s1.osr.remove(f), ..s1 };
                lemma_error_keeps_clean(s2, lim, f, e);
                lemma_released_keeps(s2.error_handled(lim, f, e), f, inv.tokens as nat);
            },
        },
    }
}

/// An eviction adds no code, quarantines nothing, adds no variant and no
/// memo entry: it keeps quarantined functions free of code and keeps the
/// slot and memo bounds.
pub proof fn law_eviction_keeps_invariants(s: EngineView, lim: JitLimits)
    ensures
        quarantine_clean(s) ==> quarantine_clean(s.evict_one(lim.max_deopt_threshold).1),
        slots_ok(s, lim.max_polymorphic_slots) ==> slots_ok(s.evict_one(lim.max_deopt_threshold).1, lim.max_polymorphic_slots),
        memos_ok(s, lim.max_memo_cache_size) ==> memos_ok(s.evict_one(lim.max_deopt_threshold).1, lim.max_memo_cache_size),
{
    let max_deopt = lim.max_deopt_threshold;
    let ev = s.evictable_keys();
    if ev.len() > 0 {
        let q1 = keep(s.clock_queue, s.cached_set());
        let q2 = if q1.len() == 0 { ev } else { q1 };
        let h2: usize = if q1.len() == 0 { 0 } else { s.clock_hand };
        let sweep = clock_sweep(s.cached_set(), s.active, q2, h2, s.clock_use_bits, 2 * q2.len());
        let s3 = EngineView { clock_queue: q2, clock_hand: sweep.hand, clock_use_bits: sweep.use_bits, ..s };
        let k = match sweep.victim {
            Some(k) => k,
            None => s.first_least(ev),
        };
        if s3.compiled.contains_key(k) {
            let t = EngineView { compiled: s3.compiled.remove(k), ..s3 };
            lemma_deopts_add_no_code(t, max_deopt, k);
            if slots_ok(s, lim.max_polymorphic_slots) {
                lemma_slots_kept_by_deopts(t, lim, k);
            }
            if memos_ok(s, lim.max_memo_cache_size) {
                lemma_memos_kept_by_deopts(t, lim, k);
            }
        }
    }
}

/// Every compiled function holds at most `slots` variants, and one at the
/// baseline tier holds none.
pub open spec fn slots_ok(s: EngineView, slots: usize) -> bool {
    forall|k: Seq<char>| #[trigger] s.compiled.contains_key(k) ==> {
        &&& s.compiled[k].variants.dom().finite()
        &&& s.compiled[k].variants.dom().len() <= slots
        &&& (s.compiled[k].tier == Tier::BASELINE ==> s.compiled[k].variants.dom().len() == 0)
    }
}

/// Every memo table holds at most `max` entries.
pub open spec fn memos_ok(s: EngineView, max: usize) -> bool {
    forall|k: Seq<char>, g: Seq<char>|
        #![trigger s.compiled[k].variants[g]]
        s.compiled.contains_key(k) && s.compiled[k].variants.contains_key(g) ==> {
            &&& s.compiled[k].variants[g].memo.dom().finite()
            &&& s.compiled[k].variants[g].memo.dom().len() <= max
        }
}

/// Transitions that change no variant and no tier, or only drop code, keep
/// the slot bound.
proof fn lemma_slots_kept_by_bookkeeping(s: EngineView, lim: JitLimits, f: Seq<char>, sig: Seq<char>, key: Seq<char>, v: VVal, n: nat, now: u64)
    requires
        slots_ok(s, lim.max_polymorphic_slots),
    ensures
        slots_ok(released(s, f, n), lim.max_polymorphic_slots),
        s.compiled.contains_key(f) ==> slots_ok(s.compiled_touched(f, now), lim.max_polymorphic_slots),
        slots_ok(s.loop_counted(f), lim.max_polymorphic_slots),
        slots_ok(s.osr_compiled(f, now), lim.max_polymorphic_slots),
        slots_ok(s.osr_touched(f, now), lim.max_polymorphic_slots),
        slots_ok(s.baseline_touched(f, now), lim.max_polymorphic_slots),
        slots_ok(s.baseline_dropped(f), lim.max_polymorphic_slots),
        slots_ok(s.memo_stored(lim, f, sig, key, v), lim.max_polymorphic_slots),
        slots_ok(EngineView { osr: s.osr.remove(f), ..s }, lim.max_polymorphic_slots),
{
    lemma_released_keeps(s, f, n);
    let m = s.memo_stored(lim, f, sig, key, v);
    if s.compiled.contains_key(f) && s.compiled[f].variants.contains_key(sig) {
        let c = s.compiled[f];
        let vv = c.variants[sig];
        let vs = c.variants.insert(sig, crate::cache::VariantView { memo: memo_with(vv.memo, lim.max_memo_cache_size, key, v), ..vv });
        assert(vs.dom() =~= c.variants.dom());
    }
}

/// Deoptimizations keep the slot bound: they drop code or leave it at the
/// baseline tier with no variants.
proof fn lemma_slots_kept_by_deopts(s: EngineView, lim: JitLimits, f: Seq<char>)
    requires
        slots_ok(s, lim.max_polymorphic_slots),
    ensures
        slots_ok(s.parents_invalidated(lim.max_deopt_threshold, f), lim.max_polymorphic_slots),
        slots_ok(s.deoptimized_total(lim.max_deopt_threshold, f), lim.max_polymorphic_slots),
{
    let max = lim.max_deopt_threshold;
    let s1 = s.deoptimized(max, set![f]);
    assert(slots_ok(s1, lim.max_polymorphic_slots)) by {
        assert forall|k: Seq<char>| #[trigger] s1.compiled.contains_key(k) implies {
            &&& s1.compiled[k].variants.dom().finite()
            &&& s1.compiled[k].variants.dom().len() <= lim.max_polymorphic_slots
            &&& (s1.compiled[k].tier == Tier::BASELINE ==> s1.compiled[k].variants.dom().len() == 0)
        } by {
            if k == f {
                assert(s1.compiled[k].variants.dom() =~= Set::<Seq<char>>::empty());
            }
        }
    }
    let d0 = s.deopt_set(f);
    let t0 = s.parents_invalidated(max, f);
    assert forall|k: Seq<char>| #[trigger] t0.compiled.contains_key(k) implies {
        &&& t0.compiled[k].variants.dom().finite()
        &&& t0.compiled[k].variants.dom().len() <= lim.max_polymorphic_slots
        &&& (t0.compiled[k].tier == Tier::BASELINE ==> t0.compiled[k].variants.dom().len() == 0)
    } by {
        if d0.contains(k) {
            assert(t0.compiled[k].variants.dom() =~= Set::<Seq<char>>::empty());
        }
    }
    let d1 = s1.deopt_set(f);
    let t1 = s1.parents_invalidated(max, f);
    assert forall|k: Seq<char>| #[trigger] t1.compiled.contains_key(k) implies {
        &&& t1.compiled[k].variants.dom().finite()
        &&& t1.compiled[k].variants.dom().len() <= lim.max_polymorphic_slots
        &&& (t1.compiled[k].tier == Tier::BASELINE ==> t1.compiled[k].variants.dom().len() == 0)
    } by {
        if d1.contains(k) {
            assert(t1.compiled[k].variants.dom() =~= Set::<Seq<char>>::empty());
        }
    }
}

/// Profiling a call adds a variant only where a slot is free or the
/// signature already has one.
proof fn lemma_slots_kept_by_profiling(s: EngineView, lim: JitLimits, f: Seq<char>, sig: Seq<char>, now: u64)
    requires
        slots_ok(s, lim.max_polymorphic_slots),
        lim.max_polymorphic_slots >= 1,
        s.compiled.contains_key(f) ==> s.compiled[f].variants.dom().len() < lim.max_polymorphic_slots
            || s.compiled[f].variants.contains_key(sig),
    ensures
        slots_ok(s.profiled(lim, f, sig, now), lim.max_polymorphic_slots),
{
    let t = s.profiled(lim, f, sig, now);
    assert forall|k: Seq<char>| #[trigger] t.compiled.contains_key(k) implies {
        &&& t.compiled[k].variants.dom().finite()
        &&& t.compiled[k].variants.dom().len() <= lim.max_polymorphic_slots
        &&& (t.compiled[k].tier == Tier::BASELINE ==> t.compiled[k].variants.dom().len() == 0)
    } by {
        if k == f && t.compiled[f].tier == Tier::OPTIMIZED {
            let base = if s.compiled.contains_key(f) { s.compiled[f] } else { crate::model::fresh_compiled(f, now) };
            let vs = base.variants.insert(sig, crate::model::fresh_variant(sig));
            assert(vs.dom() =~= base.variants.dom().insert(sig));
            if !s.compiled.contains_key(f) {
                assert(base.variants.dom() =~= Set::<Seq<char>>::empty());
            }
        }
    }
}

/// The loop tier and interpreted run keep the slot bound when the invoked
/// function has a free slot or a variant for the call's signature.
proof fn lemma_slots_loop_or_plain(s: EngineView, lim: JitLimits, inv: InvView, now: u64)
    requires
        slots_ok(s, lim.max_polymorphic_slots),
        lim.max_polymorphic_slots >= 1,
        s.compiled.contains_key(inv.fn_id) ==> s.compiled[inv.fn_id].variants.dom().len() < lim.max_polymorphic_slots
            || s.compiled[inv.fn_id].variants.contains_key(inv.sig),
    ensures
        slots_ok(loop_or_plain(s, lim, inv, now).state, lim.max_polymorphic_slots),
{
    let f = inv.fn_id;
    let n = inv.tokens as nat;
    if inv.loop_heavy {
        let s1 = s.loop_counted(f);
        lemma_slots_kept_by_bookkeeping(s, lim, f, inv.sig, f, VVal::Null, n, now);
        let s2 = if s1.loop_counters[f] >= lim.osr_threshold && !s1.osr.contains_key(f) {
            s1.osr_compiled(f, now)
        } else {
            s1
        };
        lemma_slots_kept_by_bookkeeping(s1, lim, f, inv.sig, f, VVal::Null, n, now);
        lemma_slots_kept_by_profiling(s2, lim, f, inv.sig, now);
        let s3 = s2.profiled(lim, f, inv.sig, now);
        lemma_slots_kept_by_bookkeeping(s3, lim, f, inv.sig, f, VVal::Null, n, now);
        lemma_slots_kept_by_bookkeeping(s3.osr_touched(f, now), lim, f, inv.sig, f, VVal::Null, n, now);
    } else {
        lemma_slots_kept_by_profiling(s, lim, f, inv.sig, now);
        lemma_slots_kept_by_bookkeeping(s.profiled(lim, f, inv.sig, now), lim, f, inv.sig, f, VVal::Null, n, now);
    }
}

/// No step of an invocation gives a compiled function more variants than
/// its polymorphic slots: a call with a new signature when every slot is
/// taken deoptimizes the function instead.
pub proof fn law_polymorphic_slots_bound_variants(
    s: EngineView,
    lim: JitLimits,
    inv: InvView,
    args: Seq<VVal>,
    r: Result<VVal, Seq<char>>,
    now: u64,
)
    requires
        slots_ok(s, lim.max_polymorphic_slots),
        lim.max_polymorphic_slots >= 1,
    ensures
        slots_ok(begin_step(s, lim, inv, args, now).state, lim.max_polymorphic_slots),
        slots_ok(after_step(s, lim, inv, r).state, lim.max_polymorphic_slots),
{
    let f = inv.fn_id;
    lemma_slots_kept_by_bookkeeping(s, lim, f, inv.sig, f, VVal::Null, inv.tokens as nat, now);
    if !s.blacklisted.contains(f) && !s.quarantined.contains(f) {
        let s1 = match inv.caller {
            Some(c) => if c != f && inv.inlineable {
                s.with_dependency(c, f)
            } else {
                s
            },
            None => s,
        };
        let inv1 = InvView {
            sig: strict_signature(args),
            key: ser_list(args, 0).0,
            memoizable: !ser_list(args, 0).1,
            tokens: (inv.tokens + 1) as usize,
            ..inv
        };
        let s2 = s1.invocation_started(f);
        assert(slots_ok(s2, lim.max_polymorphic_slots));
        let n = inv1.tokens as nat;
        if s2.compiled.contains_key(f) {
            let s3 = s2.compiled_touched(f, now);
            lemma_slots_kept_by_bookkeeping(s2, lim, f, inv1.sig, f, VVal::Null, n, now);
            lemma_slots_kept_by_bookkeeping(s3, lim, f, inv1.sig, f, VVal::Null, n, now);
            let c = s3.compiled[f];
            if c.tier == Tier::OPTIMIZED {
                if !c.variants.contains_key(inv1.sig) {
                    if c.variants.dom().len() >= lim.max_polymorphic_slots {
                        lemma_slots_kept_by_deopts(s3, lim, f);
                    } else {
                        lemma_slots_loop_or_plain(s3, lim, inv1, now);
                    }
                }
            } else if c.baseline is Some {
                let s4 = s3.baseline_touched(f, now);
                lemma_slots_kept_by_profiling(s4, lim, f, inv1.sig, now);
                lemma_slots_kept_by_bookkeeping(s4.profiled(lim, f, inv1.sig, now), lim, f, inv1.sig, f, VVal::Null, n, now);
            } else {
                lemma_slots_loop_or_plain(s3, lim, inv1, now);
            }
        } else {
            lemma_slots_loop_or_plain(s2, lim, inv1, now);
        }
    }
    lemma_slots_after(s, lim, inv, r);
}

/// The step after a body run keeps the slot bound.
proof fn lemma_slots_after(s: EngineView, lim: JitLimits, inv: InvView, r: Result<VVal, Seq<char>>)
    requires
        slots_ok(s, lim.max_polymorphic_slots),
    ensures
        slots_ok(after_step(s, lim, inv, r).state, lim.max_polymorphic_slots),
{
    let f = inv.fn_id;
    let n = inv.tokens as nat;
    let s1 = match r {
        Ok(_) => s,
        Err(e) => s.error_handled(lim, f, e),
    };
    match r {
        Ok(_) => {},
        Err(e) => {
            lemma_slots_error(s, lim, f, e);
        },
    }
    lemma_slots_kept_by_bookkeeping(s1, lim, f, inv.sig, inv.key, VVal::Null, n, 0);
    match inv.stage {
        Stage::Plain => {},
        Stage::Optimized => match r {
            Ok(v) => {
                lemma_slots_kept_by_bookkeeping(s1, lim, f, inv.sig, inv.key, v, n, 0);
                lemma_slots_kept_by_bookkeeping(s1.memo_stored(lim, f, inv.sig, inv.key, v), lim, f, inv.sig, inv.key, v, n, 0);
            },
            Err(e) => {
                let s2 = s1.variant_dropped(lim, f, inv.sig);
                if s1.compiled.contains_key(f) {
                    let c = s1.compiled[f];
                    let vs = c.variants.remove(inv.sig);
                    let t = EngineView {
                        compiled: s1.compiled.insert(f, crate::cache::CompiledView { variants: vs, ..c }),
                        ..s1
                    };
                    assert(slots_ok(t, lim.max_polymorphic_slots)) by {
                        assert(vs.dom() =~= c.variants.dom().remove(inv.sig));
                    }
                    lemma_slots_kept_by_deopts(t, lim, f);
                }
                lemma_slots_kept_by_bookkeeping(s2, lim, f, inv.sig, inv.key, VVal::Null, n, 0);
            },
        },
        Stage::Baseline => {
            lemma_slots_kept_by_bookkeeping(s1.baseline_dropped(f), lim, f, inv.sig, inv.key, VVal::Null, n, 0);
        },
        Stage::Osr => match r {
            Ok(_) => {},
            Err(e) => {
                let s2 = EngineView { osr: s1.osr.remove(f), ..s1 };
                lemma_slots_error(s2, lim, f, e);
                lemma_slots_kept_by_bookkeeping(s2.error_handled(lim, f, e), lim, f, inv.sig, inv.key, VVal::Null, n, 0);
            },
        },
    }
}

/// Counting an error keeps the slot bound.
proof fn lemma_slots_error(s: EngineView, lim: JitLimits, f: Seq<char>, e: Seq<char>)
    requires
        slots_ok(s, lim.max_polymorphic_slots),
    ensures
        slots_ok(s.error_handled(lim, f, e), lim.max_polymorphic_slots),
{
    if !is_stack_overflow(e) {
        let count = crate::model::bumped(s.error_counters, f);
        let s1 = EngineView { error_counters: s.error_counters.insert(f, count), ..s };
        if count >= lim.max_error_threshold {
            let s2 = EngineView {
                quarantined: s1.quarantined.insert(f),
                compiled: s1.compiled.remove(f),
                osr: s1.osr.remove(f),
                ..s1
            };
            lemma_slots_kept_by_deopts(s2, lim, f);
        }
    }
}

/// An eviction never evicts a running function: the victim is cached and
/// not running, and its code is gone afterwards (its JIT code, or its loop
/// code when it has no JIT code).
pub proof fn law_eviction_spares_running(s: EngineView, max_deopt: usize)
    requires
        s.wf(),
        s.evictable_keys().len() > 0,
    ensures
        s.cached_set().contains(s.eviction_victim()),
        !s.active.contains_key(s.eviction_victim()),
        !s.evict_one(max_deopt).1.compiled.contains_key(s.eviction_victim()),
        !s.compiled.contains_key(s.eviction_victim()) ==> !s.evict_one(max_deopt).1.osr.contains_key(s.eviction_victim()),
{
    let ev = s.evictable_keys();
    let v = s.eviction_victim();
    let allowed = s.active.dom().complement();
    lemma_keep_members(sorted_keys(s.compiled.dom()), allowed);
    lemma_keep_members(sorted_keys(s.osr.dom()), allowed);
    lemma_sorted_keys_members(s.compiled.dom());
    lemma_sorted_keys_members(s.osr.dom());
    let q1 = keep(s.clock_queue, s.cached_set());
    let q2 = if q1.len() == 0 { ev } else { q1 };
    let h2: usize = if q1.len() == 0 { 0 } else { s.clock_hand };
    let sweep = clock_sweep(s.cached_set(), s.active, q2, h2, s.clock_use_bits, 2 * q2.len());
    lemma_sweep_victim(s.cached_set(), s.active, q2, h2, s.clock_use_bits, 2 * q2.len());
    if sweep.victim is None {
        lemma_first_least_member(s.compiled, s.osr, ev);
        let a = keep(sorted_keys(s.compiled.dom()), allowed);
        let b = keep(sorted_keys(s.osr.dom()), allowed);
        let i = choose|i: int| 0 <= i < ev.len() && ev[i] == v;
        if i < a.len() {
            assert(a[i] == v);
            assert(a.contains(v));
        } else {
            assert(b[i - a.len()] == v);
            assert(b.contains(v));
        }
    }
    let s3 = EngineView { clock_queue: q2, clock_hand: sweep.hand, clock_use_bits: sweep.use_bits, ..s };
    assert(s3.cached_set().contains(v));
    lemma_evicted_shrinks(s3, max_deopt, v);
}

/// An invocation restarts at most once in a row: a restart leaves the
/// function off the optimized tier, and a first step for a function off
/// that tier never asks for a restart.
pub proof fn law_restart_leaves_function_unoptimized(
    s: EngineView,
    lim: JitLimits,
    inv: InvView,
    args: Seq<VVal>,
    now: u64,
)
    ensures
        begin_step(s, lim, inv, args, now).act is Restart ==> !begin_step(s, lim, inv, args, now).state.is_optimized(inv.fn_id),
        !s.is_optimized(inv.fn_id) ==> begin_step(s, lim, inv, args, now).act !is Restart,
{
    let f = inv.fn_id;
    if !s.blacklisted.contains(f) && !s.quarantined.contains(f) {
        let s1 = match inv.caller {
            Some(c) => if c != f && inv.inlineable {
                s.with_dependency(c, f)
            } else {
                s
            },
            None => s,
        };
        let inv1 = InvView {
            sig: strict_signature(args),
            key: ser_list(args, 0).0,
            memoizable: !ser_list(args, 0).1,
            tokens: (inv.tokens + 1) as usize,
            ..inv
        };
        let s2 = s1.invocation_started(f);
        if s2.compiled.contains_key(f) {
            let s3 = s2.compiled_touched(f, now);
            if s3.is_optimized(f) {
                law_deoptimization_cascades(s3, lim.max_deopt_threshold, f);
            }
        }
    }
}

/// Profiling compiles a function once a signature reaches the JIT
/// threshold: it becomes optimized with a variant for that signature and
/// enters the clock. Short of that, once its calls reach the slow-path limit
/// it is blacklisted and its compiled code dropped.
pub proof fn law_profiling_compiles_at_threshold(s: EngineView, lim: JitLimits, f: Seq<char>, sig: Seq<char>, now: u64)
    requires
        !s.blacklisted.contains(f),
    ensures
        ({
            let per_sig = if s.polymorphic_counters.contains_key(f) { s.polymorphic_counters[f] } else { Map::empty() };
            let t = s.profiled(lim, f, sig, now);
            &&& crate::model::bumped(per_sig, sig) >= lim.jit_threshold ==> {
                &&& t.is_optimized(f)
                &&& t.compiled[f].variants.contains_key(sig)
                &&& t.clock_queue.contains(f)
                &&& t.clock_use_bits[f]
            }
            &&& crate::model::bumped(per_sig, sig) < lim.jit_threshold
                && crate::model::bumped(s.global_invocation_counters, f) >= lim.max_global_slow_path_attempts ==> {
                &&& t.blacklisted.contains(f)
                &&& !t.compiled.contains_key(f)
            }
        }),
{
    let per_sig = if s.polymorphic_counters.contains_key(f) { s.polymorphic_counters[f] } else { Map::empty() };
    let t = s.profiled(lim, f, sig, now);
    if crate::model::bumped(per_sig, sig) >= lim.jit_threshold {
        let q0 = s.clock_queue;
        if !q0.contains(f) {
            assert(q0.push(f)[q0.len() as int] == f);
        }
    }
}

/// Counting an error keeps the memo bound.
proof fn lemma_memos_error(s: EngineView, lim: JitLimits, f: Seq<char>, e: Seq<char>)
    requires
        memos_ok(s, lim.max_memo_cache_size),
    ensures
        memos_ok(s.error_handled(lim, f, e), lim.max_memo_cache_size),
{
    if !is_stack_overflow(e) {
        let count = crate::model::bumped(s.error_counters, f);
        let s1 = EngineView { error_counters: s.error_counters.insert(f, count), ..s };
        if count >= lim.max_error_threshold {
            let s2 = EngineView {
                quarantined: s1.quarantined.insert(f),
                compiled: s1.compiled.remove(f),
                osr: s1.osr.remove(f),
                ..s1
            };
            lemma_memos_kept_by_deopts(s2, lim, f);
        }
    }
}

/// Deoptimizations keep the memo bound: they drop variants or leave them.
proof fn lemma_memos_kept_by_deopts(s: EngineView, lim: JitLimits, f: Seq<char>)
    requires
        memos_ok(s, lim.max_memo_cache_size),
    ensures
        memos_ok(s.parents_invalidated(lim.max_deopt_threshold, f), lim.max_memo_cache_size),
        memos_ok(s.deoptimized_total(lim.max_deopt_threshold, f), lim.max_memo_cache_size),
{
    let max = lim.max_deopt_threshold;
    let s1 = s.deoptimized(max, set![f]);
    assert(memos_ok(s1, lim.max_memo_cache_size));
    let t0 = s.parents_invalidated(max, f);
    assert(memos_ok(t0, lim.max_memo_cache_size));
    let t1 = s1.parents_invalidated(max, f);
    assert(memos_ok(t1, lim.max_memo_cache_size));
}

/// Bookkeeping and memo stores keep the memo bound.
proof fn lemma_memos_kept_by_bookkeeping(s: EngineView, lim: JitLimits, f: Seq<char>, sig: Seq<char>, key: Seq<char>, v: VVal, n: nat, now: u64)
    requires
        memos_ok(s, lim.max_memo_cache_size),
        lim.max_memo_cache_size >= 1,
    ensures
        memos_ok(released(s, f, n), lim.max_memo_cache_size),
        s.compiled.contains_key(f) ==> memos_ok(s.compiled_touched(f, now), lim.max_memo_cache_size),
        memos_ok(s.loop_counted(f), lim.max_memo_cache_size),
        memos_ok(s.osr_compiled(f, now), lim.max_memo_cache_size),
        memos_ok(s.osr_touched(f, now), lim.max_memo_cache_size),
        memos_ok(s.baseline_touched(f, now), lim.max_memo_cache_size),
        memos_ok(s.baseline_dropped(f), lim.max_memo_cache_size),
        memos_ok(s.memo_stored(lim, f, sig, key, v), lim.max_memo_cache_size),
        memos_ok(EngineView { osr: s.osr.remove(f), ..s }, lim.max_memo_cache_size),
        memos_ok(s.profiled(lim, f, sig, now), lim.max_memo_cache_size),
{
    lemma_released_keeps(s, f, n);
    if s.compiled.contains_key(f) && s.compiled[f].variants.contains_key(sig) {
        let vv = s.compiled[f].variants[sig];
        law_memo_table_bounded(vv.memo, lim.max_memo_cache_size, key, v);
    }
    let p = s.profiled(lim, f, sig, now);
    assert forall|k: Seq<char>, g: Seq<char>|
        p.compiled.contains_key(k) && p.compiled[k].variants.contains_key(g) implies {
            &&& p.compiled[k].variants[g].memo.dom().finite()
            &&& p.compiled[k].variants[g].memo.dom().len() <= lim.max_memo_cache_size
        } by {
        if !s.blacklisted.contains(f) && k == f && g == sig {
            let per_sig = if s.polymorphic_counters.contains_key(f) { s.polymorphic_counters[f] } else { Map::empty() };
            if crate::model::bumped(per_sig, sig) >= lim.jit_threshold {
                assert(p.compiled[k].variants[g].memo.dom() =~= Set::<Seq<char>>::empty());
            }
        }
    }
}

/// The loop tier and interpreted run keep the memo bound.
proof fn lemma_memos_loop_or_plain(s: EngineView, lim: JitLimits, inv: InvView, now: u64)
    requires
        memos_ok(s, lim.max_memo_cache_size),
        lim.max_memo_cache_size >= 1,
    ensures
        memos_ok(loop_or_plain(s, lim, inv, now).state, lim.max_memo_cache_size),
{
    let f = inv.fn_id;
    let n = inv.tokens as nat;
    if inv.loop_heavy {
        let s1 = s.loop_counted(f);
        lemma_memos_kept_by_bookkeeping(s, lim, f, inv.sig, f, VVal::Null, n, now);
        let s2 = if s1.loop_counters[f] >= lim.osr_threshold && !s1.osr.contains_key(f) {
            s1.osr_compiled(f, now)
        } else {
            s1
        };
        lemma_memos_kept_by_bookkeeping(s1, lim, f, inv.sig, f, VVal::Null, n, now);
        lemma_memos_kept_by_bookkeeping(s2, lim, f, inv.sig, f, VVal::Null, n, now);
        let s3 = s2.profiled(lim, f, inv.sig, now);
        lemma_memos_kept_by_bookkeeping(s3, lim, f, inv.sig, f, VVal::Null, n, now);
        lemma_memos_kept_by_bookkeeping(s3.osr_touched(f, now), lim, f, inv.sig, f, VVal::Null, n, now);
    } else {
        lemma_memos_kept_by_bookkeeping(s, lim, f, inv.sig, f, VVal::Null, n, now);
        lemma_memos_kept_by_bookkeeping(s.profiled(lim, f, inv.sig, now), lim, f, inv.sig, f, VVal::Null, n, now);
    }
}

/// The step after a body run keeps the memo bound.
proof fn lemma_memos_after(s: EngineView, lim: JitLimits, inv: InvView, r: Result<VVal, Seq<char>>)
    requires
        memos_ok(s, lim.max_memo_cache_size),
        lim.max_memo_cache_size >= 1,
    ensures
        memos_ok(after_step(s, lim, inv, r).state, lim.max_memo_cache_size),
{
    let f = inv.fn_id;
    let n = inv.tokens as nat;
    let s1 = match r {
        Ok(_) => s,
        Err(e) => s.error_handled(lim, f, e),
    };
    match r {
        Ok(_) => {},
        Err(e) => {
            lemma_memos_error(s, lim, f, e);
        },
    }
    lemma_memos_kept_by_bookkeeping(s1, lim, f, inv.sig, inv.key, VVal::Null, n, 0);
    match inv.stage {
        Stage::Plain => {},
        Stage::Optimized => match r {
            Ok(v) => {
                lemma_memos_kept_by_bookkeeping(s1, lim, f, inv.sig, inv.key, v, n, 0);
                lemma_memos_kept_by_bookkeeping(s1.memo_stored(lim, f, inv.sig, inv.key, v), lim, f, inv.sig, inv.key, v, n, 0);
            },
            Err(e) => {
                let s2 = s1.variant_dropped(lim, f, inv.sig);
                if s1.compiled.contains_key(f) {
                    let c = s1.compiled[f];
                    let vs = c.variants.remove(inv.sig);
                    let t = EngineView {
                        compiled: s1.compiled.insert(f, crate::cache::CompiledView { variants: vs, ..c }),
                        ..s1
                    };
                    assert(memos_ok(t, lim.max_memo_cache_size));
                    lemma_memos_kept_by_deopts(t, lim, f);
                }
                lemma_memos_kept_by_bookkeeping(s2, lim, f, inv.sig, inv.key, VVal::Null, n, 0);
            },
        },
        Stage::Baseline => {
            lemma_memos_kept_by_bookkeeping(s1.baseline_dropped(f), lim, f, inv.sig, inv.key, VVal::Null, n, 0);
        },
        Stage::Osr => match r {
            Ok(_) => {},
            Err(e) => {
                let s2 = EngineView { osr: s1.osr.remove(f), ..s1 };
                lemma_memos_error(s2, lim, f, e);
                lemma_memos_kept_by_bookkeeping(s2.error_handled(lim, f, e), lim, f, inv.sig, inv.key, VVal::Null, n, 0);
            },
        },
    }
}

/// No step of an invocation lets a memo table grow past the memo limit:
/// storing into a full table first drops its smallest key.
pub proof fn law_memo_limit_bounds_every_table(
    s: EngineView,
    lim: JitLimits,
    inv: InvView,
    args: Seq<VVal>,
    r: Result<VVal, Seq<char>>,
    now: u64,
)
    requires
        memos_ok(s, lim.max_memo_cache_size),
        lim.max_memo_cache_size >= 1,
    ensures
        memos_ok(begin_step(s, lim, inv, args, now).state, lim.max_memo_cache_size),
        memos_ok(after_step(s, lim, inv, r).state, lim.max_memo_cache_size),
{
    let f = inv.fn_id;
    lemma_memos_kept_by_bookkeeping(s, lim, f, inv.sig, f, VVal::Null, inv.tokens as nat, now);
    if !s.blacklisted.contains(f) && !s.quarantined.contains(f) {
        let s1 = match inv.caller {
            Some(c) => if c != f && inv.inlineable {
                s.with_dependency(c, f)
            } else {
                s
            },
            None => s,
        };
        let inv1 = InvView {
            sig: strict_signature(args),
            key: ser_list(args, 0).0,
            memoizable: !ser_list(args, 0).1,
            tokens: (inv.tokens + 1) as usize,
            ..inv
        };
        let s2 = s1.invocation_started(f);
        assert(memos_ok(s2, lim.max_memo_cache_size));
        let n = inv1.tokens as nat;
        if s2.compiled.contains_key(f) {
            let s3 = s2.compiled_touched(f, now);
            lemma_memos_kept_by_bookkeeping(s2, lim, f, inv1.sig, f, VVal::Null, n, now);
            lemma_memos_kept_by_bookkeeping(s3, lim, f, inv1.sig, f, VVal::Null, n, now);
            lemma_memos_kept_by_deopts(s3, lim, f);
            lemma_memos_loop_or_plain(s3, lim, inv1, now);
            let s4 = s3.baseline_touched(f, now);
            lemma_memos_kept_by_bookkeeping(s4, lim, f, inv1.sig, f, VVal::Null, n, now);
            lemma_memos_kept_by_bookkeeping(s4.profiled(lim, f, inv1.sig, now), lim, f, inv1.sig, f, VVal::Null, n, now);
        } else {
            lemma_memos_loop_or_plain(s2, lim, inv1, now);
        }
    }
    lemma_memos_after(s, lim, inv, r);
}

/// Garbage collection, down to target limits or until the cache is empty,
/// keeps quarantined functions free of code and keeps the slot and memo
/// bounds.
pub proof fn law_collection_keeps_invariants(s: EngineView, lim: JitLimits, target_items: nat, target_bytes: int)
    requires
        s.finite_caches(),
    ensures
        quarantine_clean(s) ==> quarantine_clean(s.collected(lim.max_deopt_threshold, target_items, target_bytes)),
        slots_ok(s, lim.max_polymorphic_slots) ==> slots_ok(
            s.collected(lim.max_deopt_threshold, target_items, target_bytes),
            lim.max_polymorphic_slots,
        ),
        memos_ok(s, lim.max_memo_cache_size) ==> memos_ok(
            s.collected(lim.max_deopt_threshold, target_items, target_bytes),
            lim.max_memo_cache_size,
        ),
        quarantine_clean(s) ==> quarantine_clean(s.drained(lim.max_deopt_threshold)),
        slots_ok(s, lim.max_polymorphic_slots) ==> slots_ok(s.drained(lim.max_deopt_threshold), lim.max_polymorphic_slots),
        memos_ok(s, lim.max_memo_cache_size) ==> memos_ok(s.drained(lim.max_deopt_threshold), lim.max_memo_cache_size),
    decreases s.cache_items(),
{
    let max_deopt = lim.max_deopt_threshold;
    let next = s.evict_one(max_deopt);
    law_eviction_keeps_invariants(s, lim);
    lemma_evict_shrinks(s, max_deopt);
    if next.0 {
        law_collection_keeps_invariants(next.1, lim, target_items, target_bytes);
    }
}

/// The running count of `g`, zero when absent.
pub open spec fn active_at(s: EngineView, g: Seq<char>) -> int {
    if s.active.contains_key(g) {
        s.active[g] as int
    } else {
        0
    }
}

/// `a`, or zero when `a` is negative.
pub open spec fn at_least_zero(a: int) -> int {
    if a < 0 {
        0
    } else {
        a
    }
}

/// Every recorded running count is at least one.
pub open spec fn counts_positive(s: EngineView) -> bool {
    forall|g: Seq<char>| #[trigger] s.active.contains_key(g) ==> s.active[g] >= 1
}

/// No running count grows from `s` to `t`, and positive counts stay so.
pub open spec fn no_growth(s: EngineView, t: EngineView) -> bool {
    &&& forall|g: Seq<char>| #[trigger] active_at(t, g) <= active_at(s, g)
    &&& counts_positive(s) ==> counts_positive(t)
}

/// From `s` to `t` no running count but that of `f` grows, and that one
/// grows by at most `after - before`, never below zero; positive counts stay
/// so.
pub open spec fn marks_follow(s: EngineView, t: EngineView, f: Seq<char>, before: int, after: int) -> bool {
    &&& forall|g: Seq<char>| g != f ==> #[trigger] active_at(t, g) <= active_at(s, g)
    &&& active_at(t, f) <= at_least_zero(active_at(s, f) + after - before)
    &&& counts_positive(s) ==> counts_positive(t)
}

/// A step of the invocation `inv` from `s` keeps its function and moves the
/// running counts along with the marks the invocation holds.
pub open spec fn step_marks(s: EngineView, inv: InvView, st: Step) -> bool {
    &&& st.inv.fn_id == inv.fn_id
    &&& marks_follow(s, st.state, inv.fn_id, inv.tokens as int, st.inv.tokens as int)
}

proof fn lemma_released_marks(s: EngineView, f: Seq<char>, n: nat)
    ensures
        marks_follow(s, released(s, f, n), f, n as int, 0),
    decreases n,
{
    if n > 0 {
        let e = s.invocation_ended(f);
        lemma_released_marks(e, f, (n - 1) as nat);
        assert(active_at(e, f) <= at_least_zero(active_at(s, f) - 1));
        assert forall|g: Seq<char>| g != f implies #[trigger] active_at(e, g) <= active_at(s, g) by {}
    }
}

proof fn lemma_no_growth_then_marks(s: EngineView, t: EngineView, u: EngineView, f: Seq<char>, b: int, a: int)
    requires
        no_growth(s, t),
        marks_follow(t, u, f, b, a),
    ensures
        marks_follow(s, u, f, b, a),
{
    assert(active_at(t, f) <= active_at(s, f));
}

proof fn lemma_no_growth_trans(s: EngineView, t: EngineView, u: EngineView)
    requires
        no_growth(s, t),
        no_growth(t, u),
    ensures
        no_growth(s, u),
{
}

/// Finishing and asking for a body run follow the marks.
proof fn lemma_sandboxed_marks(s: EngineView, lim: JitLimits, inv: InvView, stage: Stage, r: Result<VVal, Seq<char>>)
    ensures
        step_marks(s, inv, sandboxed(s, lim, inv, stage)),
        step_marks(s, inv, finished(s, inv, r)),
{
    lemma_released_marks(s, inv.fn_id, inv.tokens as nat);
}

/// Bookkeeping transitions grow no running count.
proof fn lemma_bookkeeping_no_growth(
    s: EngineView,
    lim: JitLimits,
    f: Seq<char>,
    c: Seq<char>,
    sig: Seq<char>,
    key: Seq<char>,
    v: VVal,
    e: Seq<char>,
    now: u64,
)
    ensures
        no_growth(s, s.with_dependency(c, f)),
        no_growth(s, s.compiled_touched(f, now)),
        no_growth(s, s.profiled(lim, f, sig, now)),
        no_growth(s, s.loop_counted(f)),
        no_growth(s, s.osr_compiled(f, now)),
        no_growth(s, s.osr_touched(f, now)),
        no_growth(s, s.baseline_touched(f, now)),
        no_growth(s, s.baseline_dropped(f)),
        no_growth(s, s.memo_stored(lim, f, sig, key, v)),
        no_growth(s, EngineView { osr: s.osr.remove(f), ..s }),
        no_growth(s, s.deoptimized_total(lim.max_deopt_threshold, f)),
        no_growth(s, s.variant_dropped(lim, f, sig)),
        no_growth(s, s.error_handled(lim, f, e)),
        no_growth(s, s.evict_one(lim.max_deopt_threshold).1),
{
    let w = s.with_dependency(c, f);
    assert(w.active == s.active);
    let t1 = s.compiled_touched(f, now);
    assert(t1.active == s.active);
    let p = s.profiled(lim, f, sig, now);
    assert(p.active == s.active);
    let d = s.deoptimized_total(lim.max_deopt_threshold, f);
    assert(d.active == s.active);
    let vd = s.variant_dropped(lim, f, sig);
    assert(vd.active == s.active);
    let m = s.memo_stored(lim, f, sig, key, v);
    assert(m.active == s.active);
    let eh = s.error_handled(lim, f, e);
    assert(eh.active == s.active || eh.active == s.active.remove(f));
    assert forall|g: Seq<char>| #[trigger] active_at(eh, g) <= active_at(s, g) by {}
    let ev = s.evict_one(lim.max_deopt_threshold).1;
    assert(ev.active == s.active || exists|k: Seq<char>| ev.active == s.active.remove(k));
    assert forall|g: Seq<char>| #[trigger] active_at(ev, g) <= active_at(s, g) by {
        if ev.active != s.active {
            let k = choose|k: Seq<char>| ev.active == s.active.remove(k);
        }
    }
}

proof fn lemma_loop_or_plain_marks(s: EngineView, lim: JitLimits, inv: InvView, now: u64)
    ensures
        step_marks(s, inv, loop_or_plain(s, lim, inv, now)),
{
    let f = inv.fn_id;
    let e = f;
    if inv.loop_heavy {
        let s1 = s.loop_counted(f);
        lemma_bookkeeping_no_growth(s, lim, f, f, inv.sig, f, VVal::Null, e, now);
        let s2 = if s1.loop_counters[f] >= lim.osr_threshold && !s1.osr.contains_key(f) {
            s1.osr_compiled(f, now)
        } else {
            s1
        };
        lemma_bookkeeping_no_growth(s1, lim, f, f, inv.sig, f, VVal::Null, e, now);
        lemma_no_growth_trans(s, s1, s2);
        let s3 = s2.profiled(lim, f, inv.sig, now);
        lemma_bookkeeping_no_growth(s2, lim, f, f, inv.sig, f, VVal::Null, e, now);
        lemma_no_growth_trans(s, s2, s3);
        let s4 = s3.osr_touched(f, now);
        lemma_bookkeeping_no_growth(s3, lim, f, f, inv.sig, f, VVal::Null, e, now);
        lemma_no_growth_trans(s, s3, s4);
        lemma_sandboxed_marks(s3, lim, inv, Stage::Plain, Ok(VVal::Null));
        lemma_sandboxed_marks(s4, lim, inv, Stage::Osr, Ok(VVal::Null));
        if s2.osr.contains_key(f) {
            lemma_no_growth_then_marks(s, s4, sandboxed(s4, lim, inv, Stage::Osr).state, f, inv.tokens as int, sandboxed(s4, lim, inv, Stage::Osr).inv.tokens as int);
        } else {
            lemma_no_growth_then_marks(s, s3, sandboxed(s3, lim, inv, Stage::Plain).state, f, inv.tokens as int, sandboxed(s3, lim, inv, Stage::Plain).inv.tokens as int);
        }
    } else {
        let s3 = s.profiled(lim, f, inv.sig, now);
        lemma_bookkeeping_no_growth(s, lim, f, f, inv.sig, f, VVal::Null, e, now);
        lemma_sandboxed_marks(s3, lim, inv, Stage::Plain, Ok(VVal::Null));
        lemma_no_growth_then_marks(s, s3, sandboxed(s3, lim, inv, Stage::Plain).state, f, inv.tokens as int, sandboxed(s3, lim, inv, Stage::Plain).inv.tokens as int);
    }
}

proof fn lemma_tiers_marks(s: EngineView, lim: JitLimits, inv: InvView, now: u64)
    ensures
        step_marks(s, inv, tiers(s, lim, inv, now)),
{
    let f = inv.fn_id;
    let t = inv.tokens as int;
    if s.compiled.contains_key(f) {
        let s1 = s.compiled_touched(f, now);
        lemma_bookkeeping_no_growth(s, lim, f, f, inv.sig, f, VVal::Null, f, now);
        let c = s1.compiled[f];
        if c.tier == Tier::OPTIMIZED {
            if c.variants.contains_key(inv.sig) {
                let memo = c.variants[inv.sig].memo;
                lemma_sandboxed_marks(s1, lim, inv, Stage::Optimized, Ok(memo[inv.key]));
                let st = tiers(s, lim, inv, now);
                lemma_no_growth_then_marks(s, s1, st.state, f, t, st.inv.tokens as int);
            } else if c.variants.dom().len() >= lim.max_polymorphic_slots {
                let d = s1.deoptimized_total(lim.max_deopt_threshold, f);
                lemma_bookkeeping_no_growth(s1, lim, f, f, inv.sig, f, VVal::Null, f, now);
                lemma_no_growth_trans(s, s1, d);
            } else {
                lemma_loop_or_plain_marks(s1, lim, inv, now);
                let st = loop_or_plain(s1, lim, inv, now);
                lemma_no_growth_then_marks(s, s1, st.state, f, t, st.inv.tokens as int);
            }
        } else if c.baseline is Some {
            let s2 = s1.baseline_touched(f, now);
            lemma_bookkeeping_no_growth(s1, lim, f, f, inv.sig, f, VVal::Null, f, now);
            let s3 = s2.profiled(lim, f, inv.sig, now);
            lemma_bookkeeping_no_growth(s2, lim, f, f, inv.sig, f, VVal::Null, f, now);
            lemma_no_growth_trans(s, s1, s2);
            lemma_no_growth_trans(s, s2, s3);
            lemma_sandboxed_marks(s3, lim, inv, Stage::Baseline, Ok(VVal::Null));
            let st = sandboxed(s3, lim, inv, Stage::Baseline);
            lemma_no_growth_then_marks(s, s3, st.state, f, t, st.inv.tokens as int);
        } else {
            lemma_loop_or_plain_marks(s1, lim, inv, now);
            let st = loop_or_plain(s1, lim, inv, now);
            lemma_no_growth_then_marks(s, s1, st.state, f, t, st.inv.tokens as int);
        }
    } else {
        lemma_loop_or_plain_marks(s, lim, inv, now);
    }
}

proof fn lemma_begin_marks(s: EngineView, lim: JitLimits, inv: InvView, args: Seq<VVal>, now: u64)
    requires
        inv.tokens < usize::MAX,
        below_max(s.active, inv.fn_id),
    ensures
        step_marks(s, inv, begin_step(s, lim, inv, args, now)),
{
    let f = inv.fn_id;
    lemma_sandboxed_marks(s, lim, inv, Stage::Plain, Err(blocked_text(f)));
    if !s.blacklisted.contains(f) && !s.quarantined.contains(f) {
        let s1 = match inv.caller {
            Some(c) => if c != f && inv.inlineable {
                s.with_dependency(c, f)
            } else {
                s
            },
            None => s,
        };
        lemma_bookkeeping_no_growth(s, lim, f, match inv.caller { Some(c) => c, None => f }, f, f, VVal::Null, f, now);
        assert(no_growth(s, s1));
        let inv1 = InvView {
            sig: strict_signature(args),
            key: ser_list(args, 0).0,
            memoizable: !ser_list(args, 0).1,
            tokens: (inv.tokens + 1) as usize,
            ..inv
        };
        let s2 = s1.invocation_started(f);
        lemma_tiers_marks(s2, lim, inv1, now);
        let st = tiers(s2, lim, inv1, now);
        assert(active_at(s2, f) == active_at(s1, f) + 1);
        assert(active_at(s1, f) <= active_at(s, f));
        assert forall|g: Seq<char>| g != f implies #[trigger] active_at(st.state, g) <= active_at(s, g) by {
            assert(active_at(s2, g) == active_at(s1, g));
        }
    }
}

proof fn lemma_after_marks(s: EngineView, lim: JitLimits, inv: InvView, r: Result<VVal, Seq<char>>)
    ensures
        step_marks(s, inv, after_step(s, lim, inv, r)),
{
    let f = inv.fn_id;
    let t = inv.tokens as int;
    let e = match r {
        Ok(_) => f,
        Err(e) => e,
    };
    let s1 = match r {
        Ok(_) => s,
        Err(e) => s.error_handled(lim, f, e),
    };
    lemma_bookkeeping_no_growth(s, lim, f, f, inv.sig, inv.key, VVal::Null, e, 0);
    assert(no_growth(s, s1));
    let st = after_step(s, lim, inv, r);
    lemma_sandboxed_marks(s1, lim, inv, Stage::Plain, r);
    match inv.stage {
        Stage::Plain => {
            lemma_no_growth_then_marks(s, s1, st.state, f, t, st.inv.tokens as int);
        },
        Stage::Optimized => match r {
            Ok(v) => {
                let m = if inv.memoizable { s1.memo_stored(lim, f, inv.sig, inv.key, v) } else { s1 };
                lemma_bookkeeping_no_growth(s1, lim, f, f, inv.sig, inv.key, v, e, 0);
                lemma_no_growth_trans(s, s1, m);
                lemma_sandboxed_marks(m, lim, inv, Stage::Plain, r);
                lemma_no_growth_then_marks(s, m, st.state, f, t, st.inv.tokens as int);
            },
            Err(er) => {
                if is_stack_overflow(er) {
                    lemma_no_growth_then_marks(s, s1, st.state, f, t, st.inv.tokens as int);
                } else {
                    let s2 = s1.variant_dropped(lim, f, inv.sig);
                    lemma_bookkeeping_no_growth(s1, lim, f, f, inv.sig, inv.key, VVal::Null, e, 0);
                    lemma_no_growth_trans(s, s1, s2);
                    lemma_sandboxed_marks(s2, lim, inv, Stage::Plain, r);
                    lemma_sandboxed_marks(s2, lim, inv, Stage::Baseline, r);
                    lemma_no_growth_then_marks(s, s2, st.state, f, t, st.inv.tokens as int);
                }
            },
        },
        Stage::Baseline => match r {
            Ok(_) => {
                lemma_no_growth_then_marks(s, s1, st.state, f, t, st.inv.tokens as int);
            },
            Err(er) => {
                if is_stack_overflow(er) {
                    lemma_no_growth_then_marks(s, s1, st.state, f, t, st.inv.tokens as int);
                } else {
                    let s2 = s1.baseline_dropped(f);
                    lemma_bookkeeping_no_growth(s1, lim, f, f, inv.sig, inv.key, VVal::Null, e, 0);
                    lemma_no_growth_trans(s, s1, s2);
                    lemma_sandboxed_marks(s2, lim, inv, Stage::Plain, r);
                    lemma_no_growth_then_marks(s, s2, st.state, f, t, st.inv.tokens as int);
                }
            },
        },
        Stage::Osr => match r {
            Ok(_) => {
                lemma_no_growth_then_marks(s, s1, st.state, f, t, st.inv.tokens as int);
            },
            Err(er) => {
                if is_stack_overflow(er) {
                    lemma_no_growth_then_marks(s, s1, st.state, f, t, st.inv.tokens as int);
                } else {
                    let s2 = EngineView { osr: s1.osr.remove(f), ..s1 };
                    lemma_bookkeeping_no_growth(s1, lim, f, f, inv.sig, inv.key, VVal::Null, er, 0);
                    lemma_no_growth_trans(s, s1, s2);
                    let s3 = s2.error_handled(lim, f, er);
                    lemma_bookkeeping_no_growth(s2, lim, f, f, inv.sig, inv.key, VVal::Null, er, 0);
                    lemma_no_growth_trans(s, s2, s3);
                    lemma_sandboxed_marks(s3, lim, inv, Stage::Plain, r);
                    lemma_no_growth_then_marks(s, s3, st.state, f, t, st.inv.tokens as int);
                }
            },
        },
    }
}

/// One event in a run of the engine over several invocations, each named by
/// its position in the list of invocations made so far.
pub enum Event {
    /// A new invocation joins the list.
    Start(InvView),
    /// The first step of invocation `i`, with its arguments and the time.
    Begin(nat, Seq<VVal>, u64),
    /// The step of invocation `i` after a body run with this result.
    After(nat, Result<VVal, Seq<char>>),
    /// Invocation `i` is ended early with this result.
    End(nat, Result<VVal, Seq<char>>),
    /// One eviction, as garbage collection performs them.
    Evict,
}

/// The engine's state and invocations after one event. A step the engine's
/// preconditions rule out (an invocation that does not exist, or a first step
/// whose counters are at their maximum) changes nothing.
pub open spec fn apply_event(s: EngineView, lim: JitLimits, invs: Seq<InvView>, e: Event) -> (EngineView, Seq<InvView>) {
    match e {
        Event::Start(inv) => (s, invs.push(inv)),
        Event::Begin(i, args, now) => if i < invs.len() && invs[i as int].tokens < usize::MAX && below_max(
            s.active,
            invs[i as int].fn_id,
        ) {
            let st = begin_step(s, lim, invs[i as int], args, now);
            (st.state, invs.update(i as int, st.inv))
        } else {
            (s, invs)
        },
        Event::After(i, r) => if i < invs.len() {
            let st = after_step(s, lim, invs[i as int], r);
            (st.state, invs.update(i as int, st.inv))
        } else {
            (s, invs)
        },
        Event::End(i, r) => if i < invs.len() {
            let st = finished(s, invs[i as int], r);
            (st.state, invs.update(i as int, st.inv))
        } else {
            (s, invs)
        },
        Event::Evict => (s.evict_one(lim.max_deopt_threshold).1, invs),
    }
}

/// The engine's state and invocations after a sequence of events.
pub open spec fn run_events(s: EngineView, lim: JitLimits, invs: Seq<InvView>, events: Seq<Event>) -> (EngineView, Seq<InvView>)
    decreases events.len(),
{
    if events.len() == 0 {
        (s, invs)
    } else {
        let prev = run_events(s, lim, invs, events.drop_last());
        apply_event(prev.0, lim, prev.1, events.last())
    }
}

/// The running marks that the invocations of `g` in `invs` hold.
pub open spec fn held_by(invs: Seq<InvView>, g: Seq<char>) -> int
    decreases invs.len(),
{
    if invs.len() == 0 {
        0
    } else {
        held_by(invs.drop_last(), g) + if invs.last().fn_id == g {
            invs.last().tokens as int
        } else {
            0
        }
    }
}

/// Every running count is positive and covered by the marks the
/// invocations hold.
pub open spec fn accounted(s: EngineView, invs: Seq<InvView>) -> bool {
    &&& counts_positive(s)
    &&& forall|g: Seq<char>| #[trigger] active_at(s, g) <= held_by(invs, g)
}

proof fn lemma_held_by_update(invs: Seq<InvView>, i: int, x: InvView, g: Seq<char>)
    requires
        0 <= i < invs.len(),
    ensures
        held_by(invs, g) >= (if invs[i].fn_id == g { invs[i].tokens as int } else { 0 }),
        held_by(invs.update(i, x), g) == held_by(invs, g) - (if invs[i].fn_id == g { invs[i].tokens as int } else { 0 })
            + (if x.fn_id == g { x.tokens as int } else { 0 }),
    decreases invs.len(),
{
    lemma_held_by_nonneg(invs.drop_last(), g);
    if i < invs.len() - 1 {
        lemma_held_by_update(invs.drop_last(), i, x, g);
        assert(invs.update(i, x).drop_last() =~= invs.drop_last().update(i, x));
    } else {
        assert(invs.update(i, x).drop_last() =~= invs.drop_last());
    }
}

proof fn lemma_held_by_nonneg(invs: Seq<InvView>, g: Seq<char>)
    ensures
        held_by(invs, g) >= 0,
    decreases invs.len(),
{
    if invs.len() > 0 {
        lemma_held_by_nonneg(invs.drop_last(), g);
    }
}

/// A step that follows the marks keeps the accounting.
proof fn lemma_step_keeps_accounting(s: EngineView, invs: Seq<InvView>, i: int, st: Step)
    requires
        accounted(s, invs),
        0 <= i < invs.len(),
        step_marks(s, invs[i], st),
    ensures
        accounted(st.state, invs.update(i, st.inv)),
{
    let f = invs[i].fn_id;
    let invs2 = invs.update(i, st.inv);
    assert forall|g: Seq<char>| #[trigger] active_at(st.state, g) <= held_by(invs2, g) by {
        lemma_held_by_update(invs, i, st.inv, g);
        assert(active_at(s, g) <= held_by(invs, g));
    }
}

/// Running counts never outgrow the marks held by unfinished invocations:
/// whatever the interleaving of invocations, nested or not, and of
/// evictions, every running count is covered by the marks the invocations of
/// that function still hold. So once every invocation has finished, no
/// running count is left.
pub proof fn law_running_counts_come_back(s: EngineView, lim: JitLimits, events: Seq<Event>)
    requires
        s.active == Map::<Seq<char>, usize>::empty(),
    ensures
        accounted(run_events(s, lim, Seq::empty(), events).0, run_events(s, lim, Seq::empty(), events).1),
        (forall|i: int| 0 <= i < run_events(s, lim, Seq::empty(), events).1.len()
            ==> #[trigger] run_events(s, lim, Seq::empty(), events).1[i].tokens == 0)
            ==> run_events(s, lim, Seq::empty(), events).0.active == Map::<Seq<char>, usize>::empty(),
{
    lemma_run_accounted(s, lim, events);
    let r = run_events(s, lim, Seq::empty(), events);
    if forall|i: int| 0 <= i < r.1.len() ==> #[trigger] r.1[i].tokens == 0 {
        assert forall|g: Seq<char>| !r.0.active.contains_key(g) by {
            lemma_held_by_zero(r.1, g);
            assert(active_at(r.0, g) <= held_by(r.1, g));
        }
        assert(r.0.active =~= Map::<Seq<char>, usize>::empty());
    }
}

proof fn lemma_held_by_zero(invs: Seq<InvView>, g: Seq<char>)
    requires
        forall|i: int| 0 <= i < invs.len() ==> #[trigger] invs[i].tokens == 0,
    ensures
        held_by(invs, g) == 0,
    decreases invs.len(),
{
    if invs.len() > 0 {
        assert(invs.last().tokens == 0);
        assert forall|i: int| 0 <= i < invs.drop_last().len() implies #[trigger] invs.drop_last()[i].tokens == 0 by {
            assert(invs.drop_last()[i] == invs[i]);
        }
        lemma_held_by_zero(invs.drop_last(), g);
    }
}

/// One event keeps the accounting.
proof fn lemma_event_keeps_accounting(t: EngineView, lim: JitLimits, invs: Seq<InvView>, e: Event)
    requires
        accounted(t, invs),
    ensures
        accounted(apply_event(t, lim, invs, e).0, apply_event(t, lim, invs, e).1),
{
    match e {
        Event::Start(inv) => {
            assert forall|g: Seq<char>| #[trigger] active_at(t, g) <= held_by(invs.push(inv), g) by {
                assert(invs.push(inv).drop_last() =~= invs);
                assert(active_at(t, g) <= held_by(invs, g));
            }
        },
        Event::Begin(i, args, now) => {
            if i < invs.len() && invs[i as int].tokens < usize::MAX && below_max(t.active, invs[i as int].fn_id) {
                lemma_begin_marks(t, lim, invs[i as int], args, now);
                lemma_step_keeps_accounting(t, invs, i as int, begin_step(t, lim, invs[i as int], args, now));
            }
        },
        Event::After(i, r) => {
            if i < invs.len() {
                lemma_after_marks(t, lim, invs[i as int], r);
                lemma_step_keeps_accounting(t, invs, i as int, after_step(t, lim, invs[i as int], r));
            }
        },
        Event::End(i, r) => {
            if i < invs.len() {
                lemma_sandboxed_marks(t, lim, invs[i as int], Stage::Plain, r);
                lemma_step_keeps_accounting(t, invs, i as int, finished(t, invs[i as int], r));
            }
        },
        Event::Evict => {
            lemma_bookkeeping_no_growth(t, lim, Seq::empty(), Seq::empty(), Seq::empty(), Seq::empty(), VVal::Null, Seq::empty(), 0);
            let u = t.evict_one(lim.max_deopt_threshold).1;
            assert forall|g: Seq<char>| #[trigger] active_at(u, g) <= held_by(invs, g) by {
                assert(active_at(t, g) <= held_by(invs, g));
            }
        },
    }
}

proof fn lemma_run_accounted(s: EngineView, lim: JitLimits, events: Seq<Event>)
    requires
        s.active == Map::<Seq<char>, usize>::empty(),
    ensures
        accounted(run_events(s, lim, Seq::empty(), events).0, run_events(s, lim, Seq::empty(), events).1),
    decreases events.len(),
{
    if events.len() == 0 {
        assert forall|g: Seq<char>| #[trigger] active_at(s, g) <= held_by(Seq::<InvView>::empty(), g) by {}
    } else {
        lemma_run_accounted(s, lim, events.drop_last());
        let p = run_events(s, lim, Seq::empty(), events.drop_last());
        lemma_event_keeps_accounting(p.0, lim, p.1, events.last());
    }
}

/// No character of `t` is an underscore.
pub open spec fn no_underscore(t: Seq<char>) -> bool {
    forall|i: int| 0 <= i < t.len() ==> t[i] != '_'
}

/// A strict type name is not empty, has no underscore and is not `void`.
proof fn lemma_type_name(v: VVal)
    ensures
        no_underscore(strict_type(v)),
        strict_type(v).len() > 0,
        strict_type(v) != "void"@,
{
    reveal_strlit("null");
    reveal_strlit("undefined");
    reveal_strlit("boolean");
    reveal_strlit("number");
    reveal_strlit("string");
    reveal_strlit("bigint");
    reveal_strlit("array");
    reveal_strlit("function");
    reveal_strlit("object");
    reveal_strlit("void");
    let t = strict_type(v);
    assert(t[0] != "void"@[0] || t.len() != 4);
}

/// Two strings that end in an underscore and then an underscore-free part
/// split alike.
proof fn lemma_split_at_last_underscore(x1: Seq<char>, t1: Seq<char>, x2: Seq<char>, t2: Seq<char>)
    requires
        x1 + "_"@ + t1 == x2 + "_"@ + t2,
        no_underscore(t1),
        no_underscore(t2),
    ensures
        t1 == t2,
        x1 == x2,
{
    reveal_strlit("_");
    let w = x1 + "_"@ + t1;
    let w2 = x2 + "_"@ + t2;
    assert(w.len() == x1.len() + 1 + t1.len());
    assert(w[x1.len() as int] == '_');
    assert(w2[x2.len() as int] == '_');
    if t1.len() < t2.len() {
        let k = x1.len() as int;
        assert(k > x2.len());
        assert(w2[k] == t2[k - x2.len() - 1]);
    } else if t2.len() < t1.len() {
        let k = x2.len() as int;
        assert(k > x1.len());
        assert(w[k] == t1[k - x1.len() - 1]);
    }
    assert(x1.len() == x2.len());
    assert(t1 =~= w.subrange(x1.len() as int + 1, w.len() as int));
    assert(t2 =~= w2.subrange(x2.len() as int + 1, w2.len() as int));
    assert(x1 =~= w.subrange(0, x1.len() as int));
    assert(x2 =~= w2.subrange(0, x2.len() as int));
}

/// A join of one name has no underscore; a join of two or more has one.
proof fn lemma_join_underscores(a: Seq<VVal>)
    requires
        a.len() >= 1,
    ensures
        a.len() == 1 ==> no_underscore(type_join(a)) && type_join(a) == strict_type(a[0]),
        a.len() >= 2 ==> !no_underscore(type_join(a)),
        type_join(a).len() > 0,
{
    reveal_strlit("_");
    lemma_type_name(a.last());
    lemma_type_name(a[0]);
    if a.len() >= 2 {
        let x = type_join(a.drop_last());
        let w = x + "_"@ + strict_type(a.last());
        assert(w[x.len() as int] == '_');
    }
}

/// Equal joins come from equal lists of type names.
proof fn lemma_join_injective(a: Seq<VVal>, b: Seq<VVal>)
    requires
        a.len() >= 1,
        b.len() >= 1,
        type_join(a) == type_join(b),
    ensures
        a.len() == b.len(),
        forall|i: int| 0 <= i < a.len() ==> strict_type(#[trigger] a[i]) == strict_type(b[i]),
    decreases a.len(),
{
    lemma_join_underscores(a);
    lemma_join_underscores(b);
    if a.len() >= 2 && b.len() >= 2 {
        lemma_type_name(a.last());
        lemma_type_name(b.last());
        lemma_split_at_last_underscore(type_join(a.drop_last()), strict_type(a.last()), type_join(b.drop_last()), strict_type(b.last()));
        lemma_join_injective(a.drop_last(), b.drop_last());
        assert forall|i: int| 0 <= i < a.len() implies strict_type(#[trigger] a[i]) == strict_type(b[i]) by {
            if i < a.len() - 1 {
                assert(a.drop_last()[i] == a[i]);
                assert(b.drop_last()[i] == b[i]);
            }
        }
    }
}

/// Lists of equal type names join alike.
proof fn lemma_join_congruent(a: Seq<VVal>, b: Seq<VVal>)
    requires
        a.len() == b.len(),
        forall|i: int| 0 <= i < a.len() ==> strict_type(#[trigger] a[i]) == strict_type(b[i]),
    ensures
        type_join(a) == type_join(b),
    decreases a.len(),
{
    if a.len() >= 2 {
        assert forall|i: int| 0 <= i < a.drop_last().len() implies strict_type(#[trigger] a.drop_last()[i]) == strict_type(b.drop_last()[i]) by {
            assert(a.drop_last()[i] == a[i]);
            assert(b.drop_last()[i] == b[i]);
        }
        lemma_join_congruent(a.drop_last(), b.drop_last());
        assert(strict_type(a.last()) == strict_type(a[a.len() - 1]));
    } else if a.len() == 1 {
        assert(strict_type(a[0]) == strict_type(b[0]));
    }
}

/// Two argument lists have the same call signature exactly when they have
/// the same length and the same strict type at every position; in
/// particular the signature is `void` exactly for no arguments.
pub proof fn law_signature_tells_types(a: Seq<VVal>, b: Seq<VVal>)
    ensures
        strict_signature(a) == strict_signature(b) <==> (a.len() == b.len() && forall|i: int|
            0 <= i < a.len() ==> strict_type(#[trigger] a[i]) == strict_type(b[i])),
        strict_signature(a) == "void"@ <==> a.len() == 0,
{
    if a.len() >= 1 {
        lemma_join_underscores(a);
        lemma_type_name(a[0]);
        if a.len() >= 2 {
            reveal_strlit("void");
            assert(no_underscore("void"@));
        }
    }
    if a.len() >= 1 && b.len() >= 1 {
        if strict_signature(a) == strict_signature(b) {
            lemma_join_injective(a, b);
        }
    }
    if a.len() == b.len() && (forall|i: int| 0 <= i < a.len() ==> strict_type(#[trigger] a[i]) == strict_type(b[i])) {
        lemma_join_congruent(a, b);
    }
    if a.len() == 0 && b.len() >= 1 {
        lemma_join_underscores(b);
        lemma_type_name(b[0]);
        if b.len() >= 2 {
            reveal_strlit("void");
            assert(no_underscore("void"@));
        }
    }
    if a.len() >= 1 && b.len() == 0 {
        if a.len() >= 2 {
            reveal_strlit("void");
            assert(no_underscore("void"@));
        }
    }
}

/// The body runs an invocation can still make once a run for `stage` is
/// asked for, that run included.
pub open spec fn runs_left(stage: Stage) -> nat {
    match stage {
        Stage::Plain => 1,
        Stage::Baseline => 2,
        Stage::Osr => 2,
        Stage::Optimized => 3,
    }
}

/// The body runs asked for after a run of `inv`, when the steps after its
/// runs meet the engine in `states` (other invocations may change it in
/// between) and the runs give `rs`.
pub open spec fn later_runs(lim: JitLimits, inv: InvView, states: Seq<EngineView>, rs: Seq<Result<VVal, Seq<char>>>) -> nat
    decreases states.len(),
{
    if states.len() == 0 || rs.len() == 0 {
        0
    } else {
        let st = after_step(states[0], lim, inv, rs[0]);
        if st.act is RunBody {
            1 + later_runs(lim, st.inv, states.drop_first(), rs.drop_first())
        } else {
            0
        }
    }
}

proof fn lemma_after_rank(s: EngineView, lim: JitLimits, inv: InvView, r: Result<VVal, Seq<char>>)
    ensures
        after_step(s, lim, inv, r).act is RunBody ==> runs_left(after_step(s, lim, inv, r).inv.stage) < runs_left(inv.stage),
        r is Ok ==> after_step(s, lim, inv, r).act !is RunBody,
{
}

proof fn lemma_later_runs(lim: JitLimits, inv: InvView, states: Seq<EngineView>, rs: Seq<Result<VVal, Seq<char>>>)
    ensures
        later_runs(lim, inv, states, rs) < runs_left(inv.stage),
    decreases states.len(),
{
    if states.len() > 0 && rs.len() > 0 {
        lemma_after_rank(states[0], lim, inv, rs[0]);
        let st = after_step(states[0], lim, inv, rs[0]);
        if st.act is RunBody {
            lemma_later_runs(lim, st.inv, states.drop_first(), rs.drop_first());
        }
    }
}

/// An invocation runs its function's body at most three times (an
/// optimized run, a baseline run, a plain retry), whatever other invocations
/// do to the engine between its steps; once a run succeeds no further run is
/// asked for. A restart asks for no run, so the runs follow the last first
/// step.
pub proof fn law_at_most_three_body_runs(
    s: EngineView,
    lim: JitLimits,
    inv: InvView,
    args: Seq<VVal>,
    now: u64,
    states: Seq<EngineView>,
    rs: Seq<Result<VVal, Seq<char>>>,
)
    ensures
        begin_step(s, lim, inv, args, now).act is RunBody ==> 1 + later_runs(lim, begin_step(s, lim, inv, args, now).inv, states, rs) <= 3,
        states.len() > 0 && rs.len() > 0 && rs[0] is Ok ==> later_runs(lim, begin_step(s, lim, inv, args, now).inv, states, rs) == 0,
{
    let b = begin_step(s, lim, inv, args, now);
    lemma_later_runs(lim, b.inv, states, rs);
    if states.len() > 0 && rs.len() > 0 {
        lemma_after_rank(states[0], lim, b.inv, rs[0]);
    }
}

/// Every memoized value of a function is `oracle`'s value for that function
/// and memo key.
pub open spec fn memo_consistent(s: EngineView, oracle: spec_fn(Seq<char>, Seq<char>) -> VVal) -> bool {
    forall|k: Seq<char>, g: Seq<char>, key: Seq<char>|
        #![trigger s.compiled[k].variants[g].memo[key]]
        s.compiled.contains_key(k) && s.compiled[k].variants.contains_key(g) && s.compiled[k].variants[g].memo.contains_key(key)
            ==> s.compiled[k].variants[g].memo[key] == oracle(k, key)
}

proof fn lemma_consistent_deopts(s: EngineView, lim: JitLimits, f: Seq<char>, sig: Seq<char>, e: Seq<char>, oracle: spec_fn(Seq<char>, Seq<char>) -> VVal)
    requires
        memo_consistent(s, oracle),
    ensures
        memo_consistent(s.parents_invalidated(lim.max_deopt_threshold, f), oracle),
        memo_consistent(s.deoptimized_total(lim.max_deopt_threshold, f), oracle),
        memo_consistent(s.variant_dropped(lim, f, sig), oracle),
        memo_consistent(s.error_handled(lim, f, e), oracle),
        memo_consistent(s.evict_one(lim.max_deopt_threshold).1, oracle),
{
    let max = lim.max_deopt_threshold;
    let s1 = s.deoptimized(max, set![f]);
    assert(memo_consistent(s1, oracle));
    assert(memo_consistent(s.parents_invalidated(max, f), oracle));
    assert(memo_consistent(s1.parents_invalidated(max, f), oracle));
    if s.compiled.contains_key(f) {
        let c = s.compiled[f];
        let t = EngineView {
            compiled: s.compiled.insert(f, crate::cache::CompiledView { variants: c.variants.remove(sig), ..c }),
            ..s
        };
        assert(memo_consistent(t, oracle));
        let t1 = t.deoptimized(max, set![f]);
        assert(memo_consistent(t1, oracle));
        assert(memo_consistent(t1.parents_invalidated(max, f), oracle));
    }
    if !is_stack_overflow(e) {
        let count = crate::model::bumped(s.error_counters, f);
        let e1 = EngineView { error_counters: s.error_counters.insert(f, count), ..s };
        let e2 = EngineView { quarantined: e1.quarantined.insert(f), compiled: e1.compiled.remove(f), osr: e1.osr.remove(f), ..e1 };
        assert(memo_consistent(e2, oracle));
        assert(memo_consistent(e2.parents_invalidated(max, f), oracle));
    }
    let ev = s.evictable_keys();
    if ev.len() > 0 {
        let q1 = keep(s.clock_queue, s.cached_set());
        let q2 = if q1.len() == 0 { ev } else { q1 };
        let h2: usize = if q1.len() == 0 { 0 } else { s.clock_hand };
        let sweep = clock_sweep(s.cached_set(), s.active, q2, h2, s.clock_use_bits, 2 * q2.len());
        let s3 = EngineView { clock_queue: q2, clock_hand: sweep.hand, clock_use_bits: sweep.use_bits, ..s };
        let k = match sweep.victim {
            Some(k) => k,
            None => s.first_least(ev),
        };
        if s3.compiled.contains_key(k) {
            let t = EngineView { compiled: s3.compiled.remove(k), ..s3 };
            assert(memo_consistent(t, oracle));
            assert(memo_consistent(t.parents_invalidated(max, k), oracle));
        }
    }
}

proof fn lemma_consistent_bookkeeping(
    s: EngineView,
    lim: JitLimits,
    f: Seq<char>,
    c: Seq<char>,
    sig: Seq<char>,
    key: Seq<char>,
    v: VVal,
    n: nat,
    now: u64,
    oracle: spec_fn(Seq<char>, Seq<char>) -> VVal,
)
    requires
        memo_consistent(s, oracle),
    ensures
        memo_consistent(released(s, f, n), oracle),
        memo_consistent(s.with_dependency(c, f), oracle),
        memo_consistent(s.invocation_started(f), oracle),
        s.compiled.contains_key(f) ==> memo_consistent(s.compiled_touched(f, now), oracle),
        memo_consistent(s.loop_counted(f), oracle),
        memo_consistent(s.osr_compiled(f, now), oracle),
        memo_consistent(s.osr_touched(f, now), oracle),
        memo_consistent(s.baseline_touched(f, now), oracle),
        memo_consistent(s.baseline_dropped(f), oracle),
        memo_consistent(EngineView { osr: s.osr.remove(f), ..s }, oracle),
        memo_consistent(s.profiled(lim, f, sig, now), oracle),
        v == oracle(f, key) ==> memo_consistent(s.memo_stored(lim, f, sig, key, v), oracle),
{
    lemma_released_keeps(s, f, n);
    let p = s.profiled(lim, f, sig, now);
    assert forall|k: Seq<char>, g: Seq<char>, kk: Seq<char>|
        p.compiled.contains_key(k) && p.compiled[k].variants.contains_key(g) && p.compiled[k].variants[g].memo.contains_key(kk)
        implies #[trigger] p.compiled[k].variants[g].memo[kk] == oracle(k, kk) by {
        if !s.blacklisted.contains(f) && k == f && g == sig {
            let per_sig = if s.polymorphic_counters.contains_key(f) { s.polymorphic_counters[f] } else { Map::empty() };
            if crate::model::bumped(per_sig, sig) >= lim.jit_threshold {
                assert(p.compiled[k].variants[g].memo.dom() =~= Set::<Seq<char>>::empty());
            }
        }
    }
    if v == oracle(f, key) && s.compiled.contains_key(f) && s.compiled[f].variants.contains_key(sig) {
        let m = s.memo_stored(lim, f, sig, key, v);
        let vv = s.compiled[f].variants[sig];
        let nm = memo_with(vv.memo, lim.max_memo_cache_size, key, v);
        assert forall|kk: Seq<char>| #[trigger] nm.contains_key(kk) implies nm[kk] == oracle(f, kk) by {
            if kk != key {
                assert(vv.memo.contains_key(kk));
            }
        }
        assert forall|k: Seq<char>, g: Seq<char>, kk: Seq<char>|
            m.compiled.contains_key(k) && m.compiled[k].variants.contains_key(g) && m.compiled[k].variants[g].memo.contains_key(kk)
            implies #[trigger] m.compiled[k].variants[g].memo[kk] == oracle(k, kk) by {
            if k == f && g == sig {
                assert(m.compiled[k].variants[g].memo == nm);
            }
        }
    }
}

proof fn lemma_consistent_loop_or_plain(s: EngineView, lim: JitLimits, inv: InvView, now: u64, oracle: spec_fn(Seq<char>, Seq<char>) -> VVal)
    requires
        memo_consistent(s, oracle),
    ensures
        memo_consistent(loop_or_plain(s, lim, inv, now).state, oracle),
{
    let f = inv.fn_id;
    let n = inv.tokens as nat;
    lemma_consistent_bookkeeping(s, lim, f, f, inv.sig, f, VVal::Null, n, now, oracle);
    let s1 = s.loop_counted(f);
    lemma_consistent_bookkeeping(s1, lim, f, f, inv.sig, f, VVal::Null, n, now, oracle);
    let s2 = if s1.loop_counters[f] >= lim.osr_threshold && !s1.osr.contains_key(f) {
        s1.osr_compiled(f, now)
    } else {
        s1
    };
    lemma_consistent_bookkeeping(s2, lim, f, f, inv.sig, f, VVal::Null, n, now, oracle);
    let s3 = s2.profiled(lim, f, inv.sig, now);
    lemma_consistent_bookkeeping(s3, lim, f, f, inv.sig, f, VVal::Null, n, now, oracle);
    lemma_consistent_bookkeeping(s3.osr_touched(f, now), lim, f, f, inv.sig, f, VVal::Null, n, now, oracle);
    let s4 = s.profiled(lim, f, inv.sig, now);
    lemma_consistent_bookkeeping(s4, lim, f, f, inv.sig, f, VVal::Null, n, now, oracle);
}

/// If every run of a function's body on arguments with a given memo key
/// succeeds with `oracle`'s value for them, then every answer the engine
/// gives is that value: a memo answer, or the result of a run in any tier
/// (optimized, baseline, loop code, interpreted, blacklisted). Each step,
/// and each eviction, keeps every memoized value equal to `oracle`'s.
pub proof fn law_every_tier_answers_the_body_result(
    s: EngineView,
    lim: JitLimits,
    inv: InvView,
    args: Seq<VVal>,
    r: Result<VVal, Seq<char>>,
    now: u64,
    oracle: spec_fn(Seq<char>, Seq<char>) -> VVal,
)
    requires
        memo_consistent(s, oracle),
    ensures
        begin_step(s, lim, inv, args, now).act matches Outcome::Finish(Ok(x)) ==> x == oracle(inv.fn_id, ser_list(args, 0).0),
        memo_consistent(begin_step(s, lim, inv, args, now).state, oracle),
        (r matches Ok(v) ==> v == oracle(inv.fn_id, inv.key)) ==> {
            &&& memo_consistent(after_step(s, lim, inv, r).state, oracle)
            &&& after_step(s, lim, inv, r).act matches Outcome::Finish(Ok(x)) ==> x == oracle(inv.fn_id, inv.key)
        },
        memo_consistent(s.evict_one(lim.max_deopt_threshold).1, oracle),
{
    let f = inv.fn_id;
    let n0 = inv.tokens as nat;
    lemma_consistent_deopts(s, lim, f, inv.sig, f, oracle);
    lemma_consistent_bookkeeping(s, lim, f, f, inv.sig, f, VVal::Null, n0, now, oracle);
    if !s.blacklisted.contains(f) && !s.quarantined.contains(f) {
        let c0 = match inv.caller { Some(c) => c, None => f };
        let s1 = match inv.caller {
            Some(c) => if c != f && inv.inlineable {
                s.with_dependency(c, f)
            } else {
                s
            },
            None => s,
        };
        lemma_consistent_bookkeeping(s, lim, f, c0, inv.sig, f, VVal::Null, n0, now, oracle);
        let inv1 = InvView {
            sig: strict_signature(args),
            key: ser_list(args, 0).0,
            memoizable: !ser_list(args, 0).1,
            tokens: (inv.tokens + 1) as usize,
            ..inv
        };
        let n = inv1.tokens as nat;
        let s2 = s1.invocation_started(f);
        lemma_consistent_bookkeeping(s1, lim, f, f, inv1.sig, f, VVal::Null, n, now, oracle);
        lemma_consistent_bookkeeping(s2, lim, f, f, inv1.sig, f, VVal::Null, n, now, oracle);
        if s2.compiled.contains_key(f) {
            let s3 = s2.compiled_touched(f, now);
            lemma_consistent_bookkeeping(s3, lim, f, f, inv1.sig, f, VVal::Null, n, now, oracle);
            lemma_consistent_deopts(s3, lim, f, inv1.sig, f, oracle);
            lemma_consistent_loop_or_plain(s3, lim, inv1, now, oracle);
            let s4 = s3.baseline_touched(f, now);
            lemma_consistent_bookkeeping(s4, lim, f, f, inv1.sig, f, VVal::Null, n, now, oracle);
            lemma_consistent_bookkeeping(s4.profiled(lim, f, inv1.sig, now), lim, f, f, inv1.sig, f, VVal::Null, n, now, oracle);
            let c = s3.compiled[f];
            if c.tier == Tier::OPTIMIZED && c.variants.contains_key(inv1.sig) && inv1.memoizable
                && c.variants[inv1.sig].memo.contains_key(inv1.key) {
                assert(c.variants[inv1.sig].memo[inv1.key] == oracle(f, inv1.key));
            }
        } else {
            lemma_consistent_loop_or_plain(s2, lim, inv1, now, oracle);
        }
    }
    if r matches Ok(v) ==> v == oracle(inv.fn_id, inv.key) {
        lemma_consistent_after(s, lim, inv, r, oracle);
    }
}

proof fn lemma_consistent_after(s: EngineView, lim: JitLimits, inv: InvView, r: Result<VVal, Seq<char>>, oracle: spec_fn(Seq<char>, Seq<char>) -> VVal)
    requires
        memo_consistent(s, oracle),
        r matches Ok(v) ==> v == oracle(inv.fn_id, inv.key),
    ensures
        memo_consistent(after_step(s, lim, inv, r).state, oracle),
        after_step(s, lim, inv, r).act matches Outcome::Finish(Ok(x)) ==> x == oracle(inv.fn_id, inv.key),
{
    let f = inv.fn_id;
    let n = inv.tokens as nat;
    let e = match r {
        Ok(_) => f,
        Err(e) => e,
    };
    let s1 = match r {
        Ok(_) => s,
        Err(e) => s.error_handled(lim, f, e),
    };
    lemma_consistent_deopts(s, lim, f, inv.sig, e, oracle);
    lemma_consistent_bookkeeping(s1, lim, f, f, inv.sig, inv.key, VVal::Null, n, 0, oracle);
    lemma_consistent_deopts(s1, lim, f, inv.sig, e, oracle);
    let s2 = s1.variant_dropped(lim, f, inv.sig);
    lemma_consistent_bookkeeping(s2, lim, f, f, inv.sig, inv.key, VVal::Null, n, 0, oracle);
    let s3 = s1.baseline_dropped(f);
    lemma_consistent_bookkeeping(s3, lim, f, f, inv.sig, inv.key, VVal::Null, n, 0, oracle);
    let s4 = EngineView { osr: s1.osr.remove(f), ..s1 };
    lemma_consistent_deopts(s4, lim, f, inv.sig, e, oracle);
    lemma_consistent_bookkeeping(s4.error_handled(lim, f, e), lim, f, f, inv.sig, inv.key, VVal::Null, n, 0, oracle);
    match r {
        Ok(v) => {
            lemma_consistent_bookkeeping(s1, lim, f, f, inv.sig, inv.key, v, n, 0, oracle);
            lemma_consistent_bookkeeping(s1.memo_stored(lim, f, inv.sig, inv.key, v), lim, f, f, inv.sig, inv.key, v, n, 0, oracle);
        },
        Err(_) => {},
    }
}

/// The number of underscores in `t`.
pub open spec fn underscores(t: Seq<char>) -> nat
    decreases t.len(),
{
    if t.len() == 0 {
        0
    } else {
        underscores(t.drop_last()) + if t.last() == '_' { 1nat } else { 0nat }
    }
}

proof fn lemma_underscores_concat(x: Seq<char>, y: Seq<char>)
    ensures
        underscores(x + y) == underscores(x) + underscores(y),
    decreases y.len(),
{
    if y.len() == 0 {
        assert(x + y =~= x);
    } else {
        lemma_underscores_concat(x, y.drop_last());
        assert((x + y).drop_last() =~= x + y.drop_last());
        assert((x + y).last() == y.last());
    }
}

proof fn lemma_no_underscore_count(t: Seq<char>)
    requires
        no_underscore(t),
    ensures
        underscores(t) == 0,
    decreases t.len(),
{
    if t.len() > 0 {
        assert(no_underscore(t.drop_last()));
        lemma_no_underscore_count(t.drop_last());
    }
}

/// A non-empty argument list has a call signature with exactly one
/// underscore fewer than it has arguments: one between each two type names.
pub proof fn law_signature_separators(a: Seq<VVal>)
    requires
        a.len() >= 1,
    ensures
        underscores(strict_signature(a)) == a.len() - 1,
    decreases a.len(),
{
    lemma_type_name(a.last());
    lemma_no_underscore_count(strict_type(a.last()));
    if a.len() == 1 {
        lemma_type_name(a[0]);
        lemma_no_underscore_count(strict_type(a[0]));
    } else {
        law_signature_separators(a.drop_last());
        reveal_strlit("_");
        let x = type_join(a.drop_last());
        lemma_underscores_concat(x, "_"@);
        lemma_underscores_concat(x + "_"@, strict_type(a.last()));
        assert(underscores("_"@) == 1) by {
            reveal_strlit("_");
            assert("_"@.len() == 1);
            assert("_"@.last() == '_');
            assert("_"@.drop_last() =~= Seq::<char>::empty());
            assert(underscores(Seq::<char>::empty()) == 0);
        }
    }
}

/// A step keeps the invoked function and the nesting depth.
proof fn lemma_steps_keep_identity(s: EngineView, lim: JitLimits, inv: InvView, args: Seq<VVal>, r: Result<VVal, Seq<char>>, now: u64)
    ensures
        begin_step(s, lim, inv, args, now).inv.fn_id == inv.fn_id,
        begin_step(s, lim, inv, args, now).inv.depth == inv.depth,
        after_step(s, lim, inv, r).inv.fn_id == inv.fn_id,
        after_step(s, lim, inv, r).inv.depth == inv.depth,
        after_step(s, lim, inv, r).act !is Restart,
        r matches Ok(v) ==> after_step(s, lim, inv, r).act == Outcome::Finish(Ok(v)),
{
    let f = inv.fn_id;
    if !s.blacklisted.contains(f) && !s.quarantined.contains(f) {
        let s1 = match inv.caller {
            Some(c) => if c != f && inv.inlineable {
                s.with_dependency(c, f)
            } else {
                s
            },
            None => s,
        };
        let inv1 = InvView {
            sig: strict_signature(args),
            key: ser_list(args, 0).0,
            memoizable: !ser_list(args, 0).1,
            tokens: (inv.tokens + 1) as usize,
            ..inv
        };
        let s2 = s1.invocation_started(f);
        if s2.compiled.contains_key(f) {
            let s3 = s2.compiled_touched(f, now);
            assert(loop_or_plain(s3, lim, inv1, now).inv.fn_id == f);
            assert(loop_or_plain(s3, lim, inv1, now).inv.depth == inv.depth);
        }
        assert(tiers(s2, lim, inv1, now).inv.fn_id == f);
        assert(tiers(s2, lim, inv1, now).inv.depth == inv.depth);
    }
}

/// One invocation driven to its end, as its caller drives it. The steps meet
/// the engine in `states`, one per step; other invocations may change the
/// engine in between. A pending first step (`Restart`, as also after a
/// restart) takes a first step with the arguments `args`; a pending body run
/// (`RunBody`) hands the next of `results` to the step after it. Where `ends`
/// holds a result, the caller ends the invocation there with it instead. The
/// outcome is the last one reached, with the number of body runs asked for.
pub open spec fn drive(
    lim: JitLimits,
    inv: InvView,
    act: Outcome,
    args: Seq<VVal>,
    now: u64,
    states: Seq<EngineView>,
    ends: Seq<Option<Result<VVal, Seq<char>>>>,
    results: Seq<Result<VVal, Seq<char>>>,
) -> (Outcome, nat)
    decreases states.len(),
{
    if states.len() == 0 || ends.len() == 0 || act is Finish {
        (act, 0)
    } else {
        match ends[0] {
            Some(r) => (finished(states[0], inv, r).act, 0),
            None => if act is Restart {
                let st = begin_step(states[0], lim, inv, args, now);
                let rest = drive(lim, st.inv, st.act, args, now, states.drop_first(), ends.drop_first(), results);
                (rest.0, rest.1 + if st.act is RunBody { 1nat } else { 0nat })
            } else if results.len() == 0 {
                (act, 0)
            } else {
                let st = after_step(states[0], lim, inv, results[0]);
                let rest = drive(lim, st.inv, st.act, args, now, states.drop_first(), ends.drop_first(), results.drop_first());
                (rest.0, rest.1 + if st.act is RunBody { 1nat } else { 0nat })
            },
        }
    }
}

/// The runs so far fit the rank of the pending step.
pub open spec fn runs_fit(act: Outcome, inv: InvView, ran: nat) -> bool {
    &&& ran <= 3
    &&& act is Restart ==> ran == 0
    &&& act is RunBody ==> ran >= 1 && ran + runs_left(inv.stage) <= 4
}

proof fn lemma_drive_runs(
    lim: JitLimits,
    inv: InvView,
    act: Outcome,
    args: Seq<VVal>,
    now: u64,
    states: Seq<EngineView>,
    ends: Seq<Option<Result<VVal, Seq<char>>>>,
    results: Seq<Result<VVal, Seq<char>>>,
    ran: nat,
)
    requires
        runs_fit(act, inv, ran),
    ensures
        ran + drive(lim, inv, act, args, now, states, ends, results).1 <= 3,
        act is RunBody && results.len() > 0 && results[0] is Ok ==> drive(lim, inv, act, args, now, states, ends, results).1 == 0,
        act is Restart && results.len() > 0 && results[0] is Ok ==> drive(lim, inv, act, args, now, states, ends, results).1 <= 1,
        act !is RunBody && inv.depth >= lim.max_stack_depth ==> drive(lim, inv, act, args, now, states, ends, results).1 == 0,
    decreases states.len(),
{
    if states.len() > 0 && ends.len() > 0 && !(act is Finish) && ends[0] is None {
        if act is Restart {
            let st = begin_step(states[0], lim, inv, args, now);
            lemma_steps_keep_identity(states[0], lim, inv, args, Ok(VVal::Null), now);
            if inv.depth >= lim.max_stack_depth {
                law_no_body_runs_at_depth_limit(states[0], lim, inv, args, Ok(VVal::Null), now);
            }
            let ran2 = ran + if st.act is RunBody { 1nat } else { 0nat };
            lemma_drive_runs(lim, st.inv, st.act, args, now, states.drop_first(), ends.drop_first(), results, ran2);
        } else if results.len() > 0 {
            let st = after_step(states[0], lim, inv, results[0]);
            lemma_after_rank(states[0], lim, inv, results[0]);
            lemma_steps_keep_identity(states[0], lim, inv, args, results[0], now);
            let ran2 = ran + if st.act is RunBody { 1nat } else { 0nat };
            lemma_drive_runs(lim, st.inv, st.act, args, now, states.drop_first(), ends.drop_first(), results.drop_first(), ran2);
        }
    }
}

/// An invocation, driven to its end however its steps interleave with other
/// invocations and however often it restarts, asks for at most three body
/// runs; at most one when its first run succeeds; none at the depth limit,
/// and none when its caller ends it before a run is asked for.
pub proof fn law_invocation_runs_body_at_most_three_times(
    lim: JitLimits,
    inv: InvView,
    args: Seq<VVal>,
    now: u64,
    states: Seq<EngineView>,
    ends: Seq<Option<Result<VVal, Seq<char>>>>,
    results: Seq<Result<VVal, Seq<char>>>,
)
    ensures
        drive(lim, inv, Outcome::Restart, args, now, states, ends, results).1 <= 3,
        results.len() > 0 && results[0] is Ok ==> drive(lim, inv, Outcome::Restart, args, now, states, ends, results).1 <= 1,
        inv.depth >= lim.max_stack_depth ==> drive(lim, inv, Outcome::Restart, args, now, states, ends, results).1 == 0,
        states.len() > 0 && ends.len() > 0 && ends[0] is Some ==> drive(lim, inv, Outcome::Restart, args, now, states, ends, results).1 == 0,
{
    lemma_drive_runs(lim, inv, Outcome::Restart, args, now, states, ends, results, 0);
}

proof fn lemma_drive_answer(
    lim: JitLimits,
    inv: InvView,
    act: Outcome,
    args: Seq<VVal>,
    now: u64,
    states: Seq<EngineView>,
    ends: Seq<Option<Result<VVal, Seq<char>>>>,
    results: Seq<Result<VVal, Seq<char>>>,
    oracle: spec_fn(Seq<char>, Seq<char>) -> VVal,
)
    requires
        forall|k: int| 0 <= k < states.len() ==> memo_consistent(#[trigger] states[k], oracle),
        forall|k: int| 0 <= k < ends.len() ==> !(#[trigger] ends[k] matches Some(Ok(_))),
        forall|j: int| 0 <= j < results.len() ==> #[trigger] results[j] == Ok::<VVal, Seq<char>>(oracle(inv.fn_id, ser_list(args, 0).0)),
        act matches Outcome::Finish(Ok(x)) ==> x == oracle(inv.fn_id, ser_list(args, 0).0),
    ensures
        drive(lim, inv, act, args, now, states, ends, results).0 matches Outcome::Finish(Ok(x)) ==> x == oracle(inv.fn_id, ser_list(args, 0).0),
    decreases states.len(),
{
    let key = ser_list(args, 0).0;
    if states.len() > 0 && ends.len() > 0 && !(act is Finish) {
        assert(memo_consistent(states[0], oracle));
        assert(!(ends[0] matches Some(Ok(_))));
        if ends[0] is None {
            if act is Restart {
                let st = begin_step(states[0], lim, inv, args, now);
                lemma_steps_keep_identity(states[0], lim, inv, args, Ok(VVal::Null), now);
                law_every_tier_answers_the_body_result(states[0], lim, inv, args, Ok(VVal::Null), now, oracle);
                assert forall|k: int| 0 <= k < states.drop_first().len() implies memo_consistent(#[trigger] states.drop_first()[k], oracle) by {
                    assert(states.drop_first()[k] == states[k + 1]);
                }
                assert forall|k: int| 0 <= k < ends.drop_first().len() implies !(#[trigger] ends.drop_first()[k] matches Some(Ok(_))) by {
                    assert(ends.drop_first()[k] == ends[k + 1]);
                }
                lemma_drive_answer(lim, st.inv, st.act, args, now, states.drop_first(), ends.drop_first(), results, oracle);
            } else if results.len() > 0 {
                let st = after_step(states[0], lim, inv, results[0]);
                assert(results[0] == Ok::<VVal, Seq<char>>(oracle(inv.fn_id, key)));
                lemma_steps_keep_identity(states[0], lim, inv, args, results[0], now);
                assert forall|k: int| 0 <= k < states.drop_first().len() implies memo_consistent(#[trigger] states.drop_first()[k], oracle) by {
                    assert(states.drop_first()[k] == states[k + 1]);
                }
                assert forall|k: int| 0 <= k < ends.drop_first().len() implies !(#[trigger] ends.drop_first()[k] matches Some(Ok(_))) by {
                    assert(ends.drop_first()[k] == ends[k + 1]);
                }
                assert forall|j: int| 0 <= j < results.drop_first().len() implies #[trigger] results.drop_first()[j] == Ok::<VVal, Seq<char>>(oracle(inv.fn_id, key)) by {
                    assert(results.drop_first()[j] == results[j + 1]);
                }
                lemma_drive_answer(lim, st.inv, st.act, args, now, states.drop_first(), ends.drop_first(), results.drop_first(), oracle);
            }
        }
    }
}

/// A whole invocation answers what the body gives. Let every run of the
/// body of the invoked function on arguments with the memo key of `args`
/// succeed with `oracle`'s value for them, let every state the invocation's
/// steps meet hold only memoized values that agree with `oracle` (each step
/// and eviction keeps that, `law_every_tier_answers_the_body_result`), and
/// let the caller end it early only with an error. Then, whichever tiers
/// serve it and however often it restarts, a successful end of the
/// invocation answers `oracle`'s value for its function and arguments.
pub proof fn law_invocation_answers_the_body_result(
    lim: JitLimits,
    inv: InvView,
    args: Seq<VVal>,
    now: u64,
    states: Seq<EngineView>,
    ends: Seq<Option<Result<VVal, Seq<char>>>>,
    results: Seq<Result<VVal, Seq<char>>>,
    oracle: spec_fn(Seq<char>, Seq<char>) -> VVal,
)
    requires
        forall|k: int| 0 <= k < states.len() ==> memo_consistent(#[trigger] states[k], oracle),
        forall|k: int| 0 <= k < ends.len() ==> !(#[trigger] ends[k] matches Some(Ok(_))),
        forall|j: int| 0 <= j < results.len() ==> #[trigger] results[j] == Ok::<VVal, Seq<char>>(oracle(inv.fn_id, ser_list(args, 0).0)),
    ensures
        drive(lim, inv, Outcome::Restart, args, now, states, ends, results).0 matches Outcome::Finish(Ok(x))
            ==> x == oracle(inv.fn_id, ser_list(args, 0).0),
{
    lemma_drive_answer(lim, inv, Outcome::Restart, args, now, states, ends, results, oracle);
}

} // verus!
