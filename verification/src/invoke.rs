//! One invocation of an engine function as a sequence of steps. The engine
//! decides; the caller runs the function's body when asked and hands back its
//! result. The steps follow the tiers: a memoized or specialized optimized
//! run, the baseline form, loop code, and the interpreted run, each falling
//! back on failure.
use vstd::prelude::*;
use crate::cache::Tier;
use crate::model::{EngineView, JitLimits, below_max, is_stack_overflow};
use crate::text::{contains_str, nat_decimal, push_decimal};
use crate::engine::AdvancedJITEngine;
use crate::value::{Val, VVal, get_strict_signature, models, ser_list, serialize_args, strict_signature};
use vstd::string::*;

verus! {

/// What the body run of an invocation is for, which decides how its result
/// is handled.
#[derive(Clone, Copy, Debug, PartialEq, Eq, Structural)]
pub enum Stage {
    /// A sandboxed run whose result is the invocation's result.
    Plain,
    /// A run of a specialized optimized variant; success is memoized.
    Optimized,
    /// A run of the baseline form; failure drops it and retries.
    Baseline,
    /// A run of the loop code; failure drops it and retries.
    Osr,
}

/// The view of an invocation in progress.
pub struct InvView {
    /// The invoked function.
    pub fn_id: Seq<char>,
    /// The function whose body made the call, if any.
    pub caller: Option<Seq<char>>,
    /// The nesting depth of the call.
    pub depth: usize,
    /// The function may be inlined into its callers.
    pub inlineable: bool,
    /// The function runs a heavy loop.
    pub loop_heavy: bool,
    /// The call signature of the arguments.
    pub sig: Seq<char>,
    /// The memo key of the arguments.
    pub key: Seq<char>,
    /// No argument lay past the serialization depth limit.
    pub memoizable: bool,
    /// The running marks the invocation holds, released when it ends.
    pub tokens: usize,
    /// What the pending body run is for.
    pub stage: Stage,
}

/// The view of what the engine asks of its caller.
pub enum Outcome {
    RunBody,
    Restart,
    Finish(Result<VVal, Seq<char>>),
}

/// The effect of one step: the engine's state, the invocation and what is
/// asked next.
pub struct Step {
    pub state: EngineView,
    pub inv: InvView,
    pub act: Outcome,
}

/// The error reported instead of running a body at the depth limit.
pub open spec fn overflow_text(depth: nat) -> Seq<char> {
    "[💥 STACK OVERFLOW] JIT Stack Overflow Protected di kedalaman "@ + nat_decimal(depth) + "!"@
}

/// The error reported for a quarantined function.
pub open spec fn blocked_text(f: Seq<char>) -> Seq<char> {
    "[🚫 SANDBOX BLOCK] '"@ + f + "' diblokir karena dimasukkan ke karantina."@
}

/// Every counter of `f` can grow by two.
pub open spec fn room(m: Map<Seq<char>, usize>, k: Seq<char>) -> bool {
    m.contains_key(k) ==> m[k] + 2 <= usize::MAX
}

impl EngineView {
    /// The profiling, loop and error counters of `f` and the access count of
    /// its loop code have room to grow by two.
    pub open spec fn counters_room(self, f: Seq<char>) -> bool {
        &&& room(self.global_invocation_counters, f)
        &&& room(self.deopt_counters, f)
        &&& room(self.error_counters, f)
        &&& room(self.loop_counters, f)
        &&& self.polymorphic_counters.contains_key(f) ==> forall|sig: Seq<char>| #[trigger]
            room(self.polymorphic_counters[f], sig)
        &&& self.osr.contains_key(f) ==> self.osr[f].access_count + 2 <= usize::MAX
    }

    /// Each counter of `f` and the access counts of its code have room to
    /// grow by two: one step of an invocation of `f` cannot overflow them.
    pub open spec fn has_room(self, f: Seq<char>) -> bool {
        &&& self.counters_room(f)
        &&& room(self.active, f)
        &&& self.compiled.contains_key(f) ==> self.compiled[f].access_count + 2 <= usize::MAX
        &&& self.compiled.contains_key(f) && self.compiled[f].baseline is Some
            ==> self.compiled[f].baseline->Some_0.access_count + 2 <= usize::MAX
    }
}

/// The state after `n` running invocations of `f` finished.
pub open spec fn released(s: EngineView, f: Seq<char>, n: nat) -> EngineView
    decreases n,
{
    if n == 0 {
        s
    } else {
        released(s.invocation_ended(f), f, (n - 1) as nat)
    }
}

/// The invocation ends with `r`; its running marks are released.
pub open spec fn finished(s: EngineView, inv: InvView, r: Result<VVal, Seq<char>>) -> Step {
    Step {
        state: released(s, inv.fn_id, inv.tokens as nat),
        inv: InvView { tokens: 0, ..inv },
        act: Outcome::Finish(r),
    }
}

/// The body is to run for `stage`; at the depth limit the invocation ends
/// with the overflow error instead, the body not run and no error counted.
pub open spec fn sandboxed(s: EngineView, lim: JitLimits, inv: InvView, stage: Stage) -> Step {
    if inv.depth >= lim.max_stack_depth {
        finished(s, inv, Err(overflow_text(inv.depth as nat)))
    } else {
        Step { state: s, inv: InvView { stage, ..inv }, act: Outcome::RunBody }
    }
}

/// The loop tier and then the interpreted run. For a loop-heavy function
/// the loop counter grows; at the loop threshold its loop code is compiled;
/// with loop code present the call is profiled and the loop code runs.
/// Otherwise the call is profiled and the body runs plainly.
pub open spec fn loop_or_plain(s: EngineView, lim: JitLimits, inv: InvView, now: u64) -> Step {
    let f = inv.fn_id;
    if inv.loop_heavy {
        let s1 = s.loop_counted(f);
        let s2 = if s1.loop_counters[f] >= lim.osr_threshold && !s1.osr.contains_key(f) {
            s1.osr_compiled(f, now)
        } else {
            s1
        };
        if s2.osr.contains_key(f) {
            sandboxed(s2.profiled(lim, f, inv.sig, now).osr_touched(f, now), lim, inv, Stage::Osr)
        } else {
            sandboxed(s2.profiled(lim, f, inv.sig, now), lim, inv, Stage::Plain)
        }
    } else {
        sandboxed(s.profiled(lim, f, inv.sig, now), lim, inv, Stage::Plain)
    }
}

/// The compiled tiers. Compiled code is touched. At the optimized tier a
/// variant for the call's signature answers from its memo when it can and
/// otherwise runs; with no such variant and every polymorphic slot taken,
/// the function is deoptimized and the invocation restarts. At the baseline
/// tier the baseline form, when present, is touched, the call profiled and
/// the baseline form run. Anything else goes on to the loop tier.
pub open spec fn tiers(s: EngineView, lim: JitLimits, inv: InvView, now: u64) -> Step {
    let f = inv.fn_id;
    if s.compiled.contains_key(f) {
        let s1 = s.compiled_touched(f, now);
        let c = s1.compiled[f];
        if c.tier == Tier::OPTIMIZED {
            if c.variants.contains_key(inv.sig) {
                let memo = c.variants[inv.sig].memo;
                if inv.memoizable && memo.contains_key(inv.key) {
                    finished(s1, inv, Ok(memo[inv.key]))
                } else {
                    sandboxed(s1, lim, inv, Stage::Optimized)
                }
            } else if c.variants.dom().len() >= lim.max_polymorphic_slots {
                Step { state: s1.deoptimized_total(lim.max_deopt_threshold, f), inv, act: Outcome::Restart }
            } else {
                loop_or_plain(s1, lim, inv, now)
            }
        } else if c.baseline is Some {
            sandboxed(s1.baseline_touched(f, now).profiled(lim, f, inv.sig, now), lim, inv, Stage::Baseline)
        } else {
            loop_or_plain(s1, lim, inv, now)
        }
    } else {
        loop_or_plain(s, lim, inv, now)
    }
}

/// The first step of an invocation with arguments `args`. A blacklisted
/// function runs plainly; a quarantined one is refused. Otherwise a call
/// from another function that may be inlined records the dependency, the
/// call's signature and memo key are taken, the invocation is marked running
/// and the tiers decide.
pub open spec fn begin_step(s: EngineView, lim: JitLimits, inv: InvView, args: Seq<VVal>, now: u64) -> Step {
    let f = inv.fn_id;
    if s.blacklisted.contains(f) {
        sandboxed(s, lim, inv, Stage::Plain)
    } else if s.quarantined.contains(f) {
        finished(s, inv, Err(blocked_text(f)))
    } else {
        let s1 = match inv.caller {
            Some(c) => if c != f && inv.inlineable {
                s.with_dependency(c, f)
            } else {
                s
            },
            None => s,
        };
        let inv1 = InvView {
            sig: strict_signature(args),
            key: ser_list(args, 0).0,
            memoizable: !ser_list(args, 0).1,
            tokens: (inv.tokens + 1) as usize,
            ..inv
        };
        tiers(s1.invocation_started(f), lim, inv1, now)
    }
}

/// The step after a body run with result `r`. An error is counted against
/// the function first. Then, by stage: a plain run ends with its result. An
/// optimized run memoizes its success; its failure, unless a stack overflow,
/// drops the variant and retries on the baseline form, if any, else plainly.
/// A baseline or loop run ends with success or a stack overflow; otherwise
/// the baseline form, or the loop code with a second count of the error, is
/// dropped and the body retried plainly.
pub open spec fn after_step(s: EngineView, lim: JitLimits, inv: InvView, r: Result<VVal, Seq<char>>) -> Step {
    let f = inv.fn_id;
    let s1 = match r {
        Ok(_) => s,
        Err(e) => s.error_handled(lim, f, e),
    };
    match inv.stage {
        Stage::Plain => finished(s1, inv, r),
        Stage::Optimized => match r {
            Ok(v) => finished(
                if inv.memoizable {
                    s1.memo_stored(lim, f, inv.sig, inv.key, v)
                } else {
                    s1
                },
                inv,
                r,
            ),
            Err(e) => if is_stack_overflow(e) {
                finished(s1, inv, r)
            } else {
                let s2 = s1.variant_dropped(lim, f, inv.sig);
                if s2.compiled.contains_key(f) && s2.compiled[f].baseline is Some {
                    sandboxed(s2, lim, inv, Stage::Baseline)
                } else {
                    sandboxed(s2, lim, inv, Stage::Plain)
                }
            },
        },
        Stage::Baseline => match r {
            Ok(_) => finished(s1, inv, r),
            Err(e) => if is_stack_overflow(e) {
                finished(s1, inv, r)
            } else {
                sandboxed(s1.baseline_dropped(f), lim, inv, Stage::Plain)
            },
        },
        Stage::Osr => match r {
            Ok(_) => finished(s1, inv, r),
            Err(e) => if is_stack_overflow(e) {
                finished(s1, inv, r)
            } else {
                let s2 = EngineView { osr: s1.osr.remove(f), ..s1 };
                sandboxed(s2.error_handled(lim, f, e), lim, inv, Stage::Plain)
            },
        },
    }
}

/// The bookkeeping transitions of an invocation that change no tier keep
/// every optimized function's deoptimization count below its maximum.
pub proof fn lemma_bookkeeping_keeps_deopt_counts(
    s: EngineView,
    lim: JitLimits,
    f: Seq<char>,
    c: Seq<char>,
    sig: Seq<char>,
    key: Seq<char>,
    v: VVal,
    now: u64,
)
    requires
        s.deopt_counts_ok(),
    ensures
        s.with_dependency(c, f).deopt_counts_ok(),
        s.invocation_started(f).deopt_counts_ok(),
        s.invocation_ended(f).deopt_counts_ok(),
        s.compiled.contains_key(f) ==> s.compiled_touched(f, now).deopt_counts_ok(),
        s.baseline_touched(f, now).deopt_counts_ok(),
        s.baseline_dropped(f).deopt_counts_ok(),
        s.loop_counted(f).deopt_counts_ok(),
        s.osr_compiled(f, now).deopt_counts_ok(),
        s.osr_touched(f, now).deopt_counts_ok(),
        s.memo_stored(lim, f, sig, key, v).deopt_counts_ok(),
        (EngineView { osr: s.osr.remove(f), ..s }).deopt_counts_ok(),
        below_max(s.deopt_counters, f) ==> s.profiled(lim, f, sig, now).deopt_counts_ok(),
{
    let w = s.with_dependency(c, f);
    assert forall|k: Seq<char>| #[trigger] w.is_optimized(k) implies below_max(w.deopt_counters, k) by {
        assert(s.is_optimized(k));
    }
    let a = s.invocation_started(f);
    assert forall|k: Seq<char>| #[trigger] a.is_optimized(k) implies below_max(a.deopt_counters, k) by {
        assert(s.is_optimized(k));
    }
    let e = s.invocation_ended(f);
    assert forall|k: Seq<char>| #[trigger] e.is_optimized(k) implies below_max(e.deopt_counters, k) by {
        assert(s.is_optimized(k));
    }
    let l = s.loop_counted(f);
    assert forall|k: Seq<char>| #[trigger] l.is_optimized(k) implies below_max(l.deopt_counters, k) by {
        assert(s.is_optimized(k));
    }
    let o1 = s.osr_compiled(f, now);
    assert forall|k: Seq<char>| #[trigger] o1.is_optimized(k) implies below_max(o1.deopt_counters, k) by {
        assert(s.is_optimized(k));
    }
    let o2 = s.osr_touched(f, now);
    assert forall|k: Seq<char>| #[trigger] o2.is_optimized(k) implies below_max(o2.deopt_counters, k) by {
        assert(s.is_optimized(k));
    }
    let o3 = EngineView { osr: s.osr.remove(f), ..s };
    assert forall|k: Seq<char>| #[trigger] o3.is_optimized(k) implies below_max(o3.deopt_counters, k) by {
        assert(s.is_optimized(k));
    }
    let t = s.compiled_touched(f, now);
    if s.compiled.contains_key(f) {
        assert forall|k: Seq<char>| #[trigger] t.is_optimized(k) implies below_max(t.deopt_counters, k) by {
            assert(s.is_optimized(k));
        }
    }
    let b = s.baseline_touched(f, now);
    assert forall|k: Seq<char>| #[trigger] b.is_optimized(k) implies below_max(b.deopt_counters, k) by {
        assert(s.is_optimized(k));
    }
    let d = s.baseline_dropped(f);
    assert forall|k: Seq<char>| #[trigger] d.is_optimized(k) implies below_max(d.deopt_counters, k) by {
        assert(s.is_optimized(k));
    }
    let m = s.memo_stored(lim, f, sig, key, v);
    assert forall|k: Seq<char>| #[trigger] m.is_optimized(k) implies below_max(m.deopt_counters, k) by {
        assert(s.is_optimized(k));
    }
    if below_max(s.deopt_counters, f) {
        let p = s.profiled(lim, f, sig, now);
        assert forall|k: Seq<char>| #[trigger] p.is_optimized(k) implies below_max(p.deopt_counters, k) by {
            if k != f {
                assert(s.is_optimized(k));
            }
        }
    }
}

/// An invocation of an engine function in progress.
pub struct Invocation {
    fn_id: String,
    caller: Option<String>,
    depth: usize,
    inlineable: bool,
    loop_heavy: bool,
    sig: String,
    key: String,
    memoizable: bool,
    tokens: usize,
    stage: Stage,
}

/// The view of an optional string.
pub open spec fn opt_view(o: Option<String>) -> Option<Seq<char>> {
    match o {
        Some(s) => Some(s@),
        None => None,
    }
}

impl View for Invocation {
    type V = InvView;

    closed spec fn view(&self) -> InvView {
        InvView {
            fn_id: self.fn_id@,
            caller: opt_view(self.caller),
            depth: self.depth,
            inlineable: self.inlineable,
            loop_heavy: self.loop_heavy,
            sig: self.sig@,
            key: self.key@,
            memoizable: self.memoizable,
            tokens: self.tokens,
            stage: self.stage,
        }
    }
}

impl Invocation {
    /// A new invocation of the function `fn_id`, called from `caller` at
    /// nesting depth `depth`; `inlineable` and `loop_heavy` are properties of
    /// the function.
    pub fn new(fn_id: String, caller: Option<String>, depth: usize, inlineable: bool, loop_heavy: bool) -> (r: Self)
        ensures
            r@ == (InvView {
                fn_id: fn_id@,
                caller: opt_view(caller),
                depth,
                inlineable,
                loop_heavy,
                sig: Seq::empty(),
                key: Seq::empty(),
                memoizable: false,
                tokens: 0,
                stage: Stage::Plain,
            }),
    {
        Invocation {
            fn_id,
            caller,
            depth,
            inlineable,
            loop_heavy,
            sig: String::new(),
            key: String::new(),
            memoizable: false,
            tokens: 0,
            stage: Stage::Plain,
        }
    }

    /// The invoked function.
    pub fn fn_id(&self) -> (r: &String)
        ensures
            r@ == self@.fn_id,
    {
        &self.fn_id
    }

    /// The nesting depth of the invocation.
    pub fn depth(&self) -> (r: usize)
        ensures
            r == self@.depth,
    {
        self.depth
    }
}

/// What the engine asks of its caller next.
pub enum Action {
    /// Run the function's body at the invocation's depth and hand its result
    /// to [`AdvancedJITEngine::after_body`].
    RunBody,
    /// The function was deoptimized: check the budget and collect garbage as
    /// at the start of an invocation, then begin the invocation again.
    Restart,
    /// The invocation is over with this result.
    Finish(Result<Val, String>),
}

/// The view of a body's result.
pub open spec fn result_view(r: Result<Val, String>) -> Result<VVal, Seq<char>> {
    match r {
        Ok(v) => Ok(v@),
        Err(e) => Err(e@),
    }
}

impl View for Action {
    type V = Outcome;

    open spec fn view(&self) -> Outcome {
        match self {
            Action::RunBody => Outcome::RunBody,
            Action::Restart => Outcome::Restart,
            Action::Finish(r) => Outcome::Finish(result_view(*r)),
        }
    }
}

impl AdvancedJITEngine {
    /// The tuning limits as a value.
    fn limits_value(&self) -> (l: JitLimits)
        ensures
            l == self.limits(),
    {
        JitLimits {
            max_cache_size: self.max_cache_size,
            jit_threshold: self.jit_threshold,
            osr_threshold: self.osr_threshold,
            max_error_threshold: self.max_error_threshold,
            max_polymorphic_slots: self.max_polymorphic_slots,
            max_memo_cache_size: self.max_memo_cache_size,
            max_global_slow_path_attempts: self.max_global_slow_path_attempts,
            max_deopt_threshold: self.max_deopt_threshold,
            max_stack_depth: self.max_stack_depth,
        }
    }

    /// Ends the invocation with `r`, releasing its running marks.
    fn finish(&mut self, inv: &mut Invocation, r: Result<Val, String>) -> (act: Action)
        requires
            old(self).wf(),
        ensures
            final(self).wf(),
            final(self).limits() == old(self).limits(),
            final(self)@ == finished(old(self)@, old(inv)@, result_view(r)).state,
            final(inv)@ == finished(old(self)@, old(inv)@, result_view(r)).inv,
            act@ == finished(old(self)@, old(inv)@, result_view(r)).act,
    {
        let ghost s0 = self@;
        let ghost t0 = inv.tokens;
        let ghost fm = inv.fn_id@;
        while inv.tokens > 0
            invariant
                self.wf(),
                self.limits() == old(self).limits(),
                inv@ == (InvView { tokens: inv.tokens, ..old(inv)@ }),
                fm == inv.fn_id@,
                released(s0, fm, t0 as nat) == released(self@, fm, inv.tokens as nat),
            decreases inv.tokens,
        {
            let ghost before = self@;
            self.state.release_active_invocation(&inv.fn_id);
            proof {
                lemma_bookkeeping_keeps_deopt_counts(before, self.limits(), fm, fm, fm, fm, VVal::Null, 0);
            }
            inv.tokens = inv.tokens - 1;
        }
        Action::Finish(r)
    }

    /// Asks for a body run for `stage`, or at the depth limit ends the
    /// invocation with the overflow error.
    fn sandbox(&mut self, inv: &mut Invocation, stage: Stage) -> (act: Action)
        requires
            old(self).wf(),
        ensures
            final(self).wf(),
            final(self).limits() == old(self).limits(),
            final(self)@ == sandboxed(old(self)@, old(self).limits(), old(inv)@, stage).state,
            final(inv)@ == sandboxed(old(self)@, old(self).limits(), old(inv)@, stage).inv,
            act@ == sandboxed(old(self)@, old(self).limits(), old(inv)@, stage).act,
    {
        if inv.depth >= self.max_stack_depth {
            let mut msg = String::from_str("[💥 STACK OVERFLOW] JIT Stack Overflow Protected di kedalaman ");
            push_decimal(&mut msg, inv.depth as u128);
            msg.append("!");
            self.finish(inv, Err(msg))
        } else {
            inv.stage = stage;
            Action::RunBody
        }
    }
}

impl AdvancedJITEngine {
    /// The loop tier and then the interpreted run.
    fn loop_or_plain(&mut self, inv: &mut Invocation, now: u64) -> (act: Action)
        requires
            old(self).wf(),
            old(self)@.counters_room(old(inv)@.fn_id),
        ensures
            final(self).wf(),
            final(self).limits() == old(self).limits(),
            final(self)@ == loop_or_plain(old(self)@, old(self).limits(), old(inv)@, now).state,
            final(inv)@ == loop_or_plain(old(self)@, old(self).limits(), old(inv)@, now).inv,
            act@ == loop_or_plain(old(self)@, old(self).limits(), old(inv)@, now).act,
    {
        let lim = self.limits_value();
        let f = inv.fn_id.clone();
        let ghost fm = f@;
        let ghost sg = inv.sig@;
        if inv.loop_heavy {
            let ghost s0 = self@;
            let count = self.state.count_loop(&f);
            proof {
                lemma_bookkeeping_keeps_deopt_counts(s0, lim, fm, fm, sg, fm, VVal::Null, now);
            }
            if count >= self.osr_threshold && !self.state.has_osr(&f) {
                let ghost s1 = self@;
                self.state.compile_osr(&f, now);
                proof {
                    lemma_bookkeeping_keeps_deopt_counts(s1, lim, fm, fm, sg, fm, VVal::Null, now);
                }
            }
            if self.state.has_osr(&f) {
                let ghost s2 = self@;
                proof {
                    if old(self)@.polymorphic_counters.contains_key(fm) {
                        assert(room(old(self)@.polymorphic_counters[fm], sg));
                    }
                }
                self.state.profile_function(&f, &inv.sig, now, &lim);
                let ghost s3 = self@;
                self.state.touch_osr(&f, now);
                proof {
                    lemma_bookkeeping_keeps_deopt_counts(s2, lim, fm, fm, sg, fm, VVal::Null, now);
                    lemma_bookkeeping_keeps_deopt_counts(s3, lim, fm, fm, sg, fm, VVal::Null, now);
                }
                self.sandbox(inv, Stage::Osr)
            } else {
                let ghost s2 = self@;
                proof {
                    if old(self)@.polymorphic_counters.contains_key(fm) {
                        assert(room(old(self)@.polymorphic_counters[fm], sg));
                    }
                }
                self.state.profile_function(&f, &inv.sig, now, &lim);
                proof {
                    lemma_bookkeeping_keeps_deopt_counts(s2, lim, fm, fm, sg, fm, VVal::Null, now);
                }
                self.sandbox(inv, Stage::Plain)
            }
        } else {
            let ghost s0 = self@;
            proof {
                if old(self)@.polymorphic_counters.contains_key(fm) {
                    assert(room(old(self)@.polymorphic_counters[fm], sg));
                }
            }
            self.state.profile_function(&f, &inv.sig, now, &lim);
            proof {
                lemma_bookkeeping_keeps_deopt_counts(s0, lim, fm, fm, sg, fm, VVal::Null, now);
            }
            self.sandbox(inv, Stage::Plain)
        }
    }

    /// The compiled tiers, then the loop tier.
    fn tiers(&mut self, inv: &mut Invocation, now: u64) -> (act: Action)
        requires
            old(self).wf(),
            old(self)@.counters_room(old(inv)@.fn_id),
            old(self)@.compiled.contains_key(old(inv)@.fn_id) ==> old(self)@.compiled[old(inv)@.fn_id].access_count + 2 <= usize::MAX,
            old(self)@.compiled.contains_key(old(inv)@.fn_id) && old(self)@.compiled[old(inv)@.fn_id].baseline is Some
                ==> old(self)@.compiled[old(inv)@.fn_id].baseline->Some_0.access_count + 2 <= usize::MAX,
        ensures
            final(self).wf(),
            final(self).limits() == old(self).limits(),
            final(self)@ == tiers(old(self)@, old(self).limits(), old(inv)@, now).state,
            final(inv)@ == tiers(old(self)@, old(self).limits(), old(inv)@, now).inv,
            act@ == tiers(old(self)@, old(self).limits(), old(inv)@, now).act,
    {
        let lim = self.limits_value();
        let f = inv.fn_id.clone();
        let ghost fm = f@;
        let ghost sg = inv.sig@;
        if self.state.is_compiled(&f) {
            let ghost s0 = self@;
            self.state.touch_compiled(&f, now);
            proof {
                lemma_bookkeeping_keeps_deopt_counts(s0, lim, fm, fm, sg, fm, VVal::Null, now);
            }
            let (tier, has_sig, has_base, nvar) = self.state.compiled_info(&f, &inv.sig);
            if tier == Tier::OPTIMIZED {
                if has_sig {
                    if inv.memoizable {
                        match self.state.memo_lookup(&f, &inv.sig, &inv.key) {
                            Some(v) => {
                                return self.finish(inv, Ok(v));
                            },
                            None => {},
                        }
                    }
                    self.sandbox(inv, Stage::Optimized)
                } else if nvar >= self.max_polymorphic_slots {
                    self.state.deoptimize_total(&f, self.max_deopt_threshold);
                    Action::Restart
                } else {
                    self.loop_or_plain(inv, now)
                }
            } else if has_base {
                let ghost s1 = self@;
                self.state.touch_baseline(&f, now);
                let ghost s2 = self@;
                proof {
                    if old(self)@.polymorphic_counters.contains_key(fm) {
                        assert(room(old(self)@.polymorphic_counters[fm], sg));
                    }
                }
                self.state.profile_function(&f, &inv.sig, now, &lim);
                proof {
                    lemma_bookkeeping_keeps_deopt_counts(s1, lim, fm, fm, sg, fm, VVal::Null, now);
                    lemma_bookkeeping_keeps_deopt_counts(s2, lim, fm, fm, sg, fm, VVal::Null, now);
                }
                self.sandbox(inv, Stage::Baseline)
            } else {
                self.loop_or_plain(inv, now)
            }
        } else {
            self.loop_or_plain(inv, now)
        }
    }

    /// The first step of the invocation `inv` with arguments `args`, at time
    /// `now`. See [`begin_step`].
    pub fn begin(&mut self, inv: &mut Invocation, args: &[Val], now: u64) -> (act: Action)
        requires
            old(self).wf(),
            old(self)@.has_room(old(inv)@.fn_id),
            old(inv)@.tokens < usize::MAX,
        ensures
            final(self).wf(),
            final(self).limits() == old(self).limits(),
            final(self)@ == begin_step(old(self)@, old(self).limits(), old(inv)@, models(args@), now).state,
            final(inv)@ == begin_step(old(self)@, old(self).limits(), old(inv)@, models(args@), now).inv,
            act@ == begin_step(old(self)@, old(self).limits(), old(inv)@, models(args@), now).act,
    {
        let lim = self.limits_value();
        let f = inv.fn_id.clone();
        let ghost fm = f@;
        if self.state.is_blacklisted(&f) {
            return self.sandbox(inv, Stage::Plain);
        }
        if self.state.is_quarantined(&f) {
            let mut msg = String::from_str("[🚫 SANDBOX BLOCK] '");
            msg.append(f.as_str());
            msg.append("' diblokir karena dimasukkan ke karantina.");
            return self.finish(inv, Err(msg));
        }
        let ghost s0 = self@;
        match &inv.caller {
            Some(c) => {
                if *c != f && inv.inlineable {
                    self.state.register_dependency(c, &f);
                    proof {
                        lemma_bookkeeping_keeps_deopt_counts(s0, lim, fm, c@, fm, fm, VVal::Null, now);
                    }
                }
            },
            None => {},
        }
        inv.sig = get_strict_signature(args);
        let (key, deep) = serialize_args(args);
        inv.key = key;
        inv.memoizable = !deep;
        inv.tokens = inv.tokens + 1;
        let ghost s1 = self@;
        self.state.track_active_invocation(&f);
        proof {
            lemma_bookkeeping_keeps_deopt_counts(s1, lim, fm, fm, fm, fm, VVal::Null, now);
        }
        self.tiers(inv, now)
    }
}

impl AdvancedJITEngine {
    /// The step after a body run of `inv` returned `r`. See [`after_step`].
    pub fn after_body(&mut self, inv: &mut Invocation, r: Result<Val, String>) -> (act: Action)
        requires
            old(self).wf(),
            old(self)@.has_room(old(inv)@.fn_id),
        ensures
            final(self).wf(),
            final(self).limits() == old(self).limits(),
            final(self)@ == after_step(old(self)@, old(self).limits(), old(inv)@, result_view(r)).state,
            final(inv)@ == after_step(old(self)@, old(self).limits(), old(inv)@, result_view(r)).inv,
            act@ == after_step(old(self)@, old(self).limits(), old(inv)@, result_view(r)).act,
    {
        let lim = self.limits_value();
        let f = inv.fn_id.clone();
        let ghost fm = f@;
        let ghost sg = inv.sig@;
        match &r {
            Ok(_) => {},
            Err(e) => {
                self.state.handle_error(&f, e, &lim);
            },
        }
        match inv.stage {
            Stage::Plain => self.finish(inv, r),
            Stage::Optimized => match r {
                Ok(v) => {
                    if inv.memoizable {
                        let ghost s1 = self@;
                        self.state.store_memo(&f, &inv.sig, inv.key.clone(), v.clone(), &lim);
                        proof {
                            lemma_bookkeeping_keeps_deopt_counts(s1, lim, fm, fm, sg, inv.key@, v@, 0);
                        }
                    }
                    self.finish(inv, Ok(v))
                },
                Err(e) => {
                    if contains_str(e.as_str(), "STACK OVERFLOW") {
                        self.finish(inv, Err(e))
                    } else {
                        self.state.deoptimize_variant(&f, &inv.sig, &lim);
                        if self.state.has_baseline(&f) {
                            self.sandbox(inv, Stage::Baseline)
                        } else {
                            self.sandbox(inv, Stage::Plain)
                        }
                    }
                },
            },
            Stage::Baseline => match r {
                Ok(v) => self.finish(inv, Ok(v)),
                Err(e) => {
                    if contains_str(e.as_str(), "STACK OVERFLOW") {
                        self.finish(inv, Err(e))
                    } else {
                        let ghost s1 = self@;
                        self.state.drop_baseline(&f);
                        proof {
                            lemma_bookkeeping_keeps_deopt_counts(s1, lim, fm, fm, sg, fm, VVal::Null, 0);
                        }
                        self.sandbox(inv, Stage::Plain)
                    }
                },
            },
            Stage::Osr => match r {
                Ok(v) => self.finish(inv, Ok(v)),
                Err(e) => {
                    if contains_str(e.as_str(), "STACK OVERFLOW") {
                        self.finish(inv, Err(e))
                    } else {
                        let ghost s1 = self@;
                        self.state.remove_osr(&f);
                        proof {
                            lemma_bookkeeping_keeps_deopt_counts(s1, lim, fm, fm, sg, fm, VVal::Null, 0);
                        }
                        self.state.handle_error(&f, &e, &lim);
                        self.sandbox(inv, Stage::Plain)
                    }
                },
            },
        }
    }
}

impl AdvancedJITEngine {
    /// Ends the invocation `inv` with `r` before its steps are done, releasing
    /// its running marks; for a restart whose budget check fails.
    pub fn end_invocation(&mut self, inv: &mut Invocation, r: Result<Val, String>) -> (act: Action)
        requires
            old(self).wf(),
        ensures
            final(self).wf(),
            final(self).limits() == old(self).limits(),
            final(self)@ == finished(old(self)@, old(inv)@, result_view(r)).state,
            final(inv)@ == finished(old(self)@, old(inv)@, result_view(r)).inv,
            act@ == finished(old(self)@, old(inv)@, result_view(r)).act,
    {
        self.finish(inv, r)
    }
}

} // verus!
