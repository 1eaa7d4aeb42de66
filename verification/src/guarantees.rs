//! Promises of the clock eviction, of quarantine and of memoization, each
//! stated by what it does to the inputs rather than by how it is computed.
use vstd::prelude::*;
use crate::invoke::{InvView, Outcome, after_step, begin_step, finished, loop_or_plain, tiers};
use crate::laws::{law_invalidation_deoptimizes_parents, lemma_released_keeps};
use crate::model::{EngineView, JitLimits, bumped, clock_sweep, is_stack_overflow, memo_with, set_at};
use crate::text::{lemma_sorted_keys_exist, seq_less, sorted_keys};
use crate::value::{VVal, ser_list};

verus! {

/// The clock's second chance: the entry a sweep chooses has its use bit
/// present and cleared when chosen, so an entry whose bit was set is chosen
/// only after the hand has passed it once and cleared it. A sweep only
/// clears bits: a bit set afterwards was set before, one cleared before stays
/// cleared, and bits appear only for queued entries.
pub proof fn law_sweep_gives_second_chance(
    cached: Set<Seq<char>>,
    active: Map<Seq<char>, usize>,
    queue: Seq<Seq<char>>,
    hand: usize,
    bits: Map<Seq<char>, bool>,
    attempts: nat,
)
    ensures
        clock_sweep(cached, active, queue, hand, bits, attempts).victim matches Some(k) ==> {
            &&& clock_sweep(cached, active, queue, hand, bits, attempts).use_bits.contains_key(k)
            &&& !clock_sweep(cached, active, queue, hand, bits, attempts).use_bits[k]
        },
        forall|k: Seq<char>|
            #![trigger clock_sweep(cached, active, queue, hand, bits, attempts).use_bits.contains_key(k)]
            clock_sweep(cached, active, queue, hand, bits, attempts).use_bits.contains_key(k)
                && clock_sweep(cached, active, queue, hand, bits, attempts).use_bits[k]
                ==> bits.contains_key(k) && bits[k],
        forall|k: Seq<char>| #![trigger bits.contains_key(k)]
            bits.contains_key(k) && !bits[k] ==> {
                &&& clock_sweep(cached, active, queue, hand, bits, attempts).use_bits.contains_key(k)
                &&& !clock_sweep(cached, active, queue, hand, bits, attempts).use_bits[k]
            },
        forall|k: Seq<char>|
            #![trigger clock_sweep(cached, active, queue, hand, bits, attempts).use_bits.contains_key(k)]
            clock_sweep(cached, active, queue, hand, bits, attempts).use_bits.contains_key(k)
                ==> bits.contains_key(k) || queue.contains(k),
    decreases attempts,
{
    if attempts > 0 && queue.len() > 0 {
        let h: usize = if hand >= queue.len() { 0 } else { hand };
        let key = queue[h as int];
        assert(queue.contains(key));
        if !cached.contains(key) || active.contains_key(key) {
            law_sweep_gives_second_chance(cached, active, queue, (h + 1) as usize, bits, (attempts - 1) as nat);
        } else if !bits.contains_key(key) || bits[key] {
            let b2 = bits.insert(key, false);
            law_sweep_gives_second_chance(cached, active, queue, (h + 1) as usize, b2, (attempts - 1) as nat);
            let r = clock_sweep(cached, active, queue, (h + 1) as usize, b2, (attempts - 1) as nat);
            assert forall|k: Seq<char>| r.use_bits.contains_key(k) && r.use_bits[k] implies bits.contains_key(k)
                && bits[k] by {
                assert(b2.contains_key(k) && b2[k]);
            }
            assert forall|k: Seq<char>| bits.contains_key(k) && !bits[k] implies r.use_bits.contains_key(k)
                && !r.use_bits[k] by {
                assert(b2.contains_key(k) && !b2[k]);
            }
            assert forall|k: Seq<char>| r.use_bits.contains_key(k) implies bits.contains_key(k) || queue.contains(k) by {
                if !b2.contains_key(k) {
                    assert(queue.contains(k));
                }
            }
        }
    }
}

/// Position `i` of a queue of length `len` is among those a sweep of
/// `attempts` steps from `hand` visits, the hand wrapping to the front.
pub open spec fn sweep_covers(hand: usize, attempts: nat, len: nat, i: int) -> bool {
    let h: int = if hand >= len { 0 } else { hand as int };
    (h <= i && i < h + attempts) || i < h + attempts - len
}

/// The positions a sweep visits after its first step are those it visits
/// from the next position with one step fewer, the first position aside.
proof fn lemma_covers_step(hand: usize, attempts: nat, len: nat, i: int)
    requires
        0 < len <= usize::MAX,
        attempts > 0,
        0 <= i < len,
        i != (if hand >= len { 0 } else { hand as int }),
        sweep_covers(hand, attempts, len, i),
    ensures
        sweep_covers((if hand >= len { 1 } else { hand + 1 }) as usize, (attempts - 1) as nat, len, i),
{
}

/// A sweep of `x + y` steps is a sweep of `x` steps, then, when that chose
/// nothing, a sweep of `y` more steps from where it stopped.
proof fn lemma_sweep_split(
    cached: Set<Seq<char>>,
    active: Map<Seq<char>, usize>,
    queue: Seq<Seq<char>>,
    hand: usize,
    bits: Map<Seq<char>, bool>,
    x: nat,
    y: nat,
)
    ensures
        clock_sweep(cached, active, queue, hand, bits, x + y) == ({
            let r = clock_sweep(cached, active, queue, hand, bits, x);
            if r.victim is Some {
                r
            } else {
                clock_sweep(cached, active, queue, r.hand, r.use_bits, y)
            }
        }),
    decreases x,
{
    if x > 0 && queue.len() > 0 {
        let h: usize = if hand >= queue.len() { 0 } else { hand };
        let key = queue[h as int];
        assert((x + y - 1) as nat == ((x - 1) as nat) + y);
        if !cached.contains(key) || active.contains_key(key) {
            lemma_sweep_split(cached, active, queue, (h + 1) as usize, bits, (x - 1) as nat, y);
        } else if !bits.contains_key(key) || bits[key] {
            lemma_sweep_split(cached, active, queue, (h + 1) as usize, bits.insert(key, false), (x - 1) as nat, y);
        }
    }
}

/// A sweep that chooses nothing leaves the bit of every cached, idle entry
/// at a position it visited present and cleared.
proof fn lemma_sweep_clears_what_it_passes(
    cached: Set<Seq<char>>,
    active: Map<Seq<char>, usize>,
    queue: Seq<Seq<char>>,
    hand: usize,
    bits: Map<Seq<char>, bool>,
    attempts: nat,
    i: int,
)
    requires
        queue.len() <= usize::MAX,
        0 <= i < queue.len(),
        sweep_covers(hand, attempts, queue.len(), i),
        cached.contains(queue[i]),
        !active.contains_key(queue[i]),
        clock_sweep(cached, active, queue, hand, bits, attempts).victim is None,
    ensures
        clock_sweep(cached, active, queue, hand, bits, attempts).use_bits.contains_key(queue[i]),
        !clock_sweep(cached, active, queue, hand, bits, attempts).use_bits[queue[i]],
    decreases attempts,
{
    let h: usize = if hand >= queue.len() { 0 } else { hand };
    let key = queue[h as int];
    if i != h {
        lemma_covers_step(hand, attempts, queue.len(), i);
    }
    if !cached.contains(key) || active.contains_key(key) {
        assert(i != h);
        lemma_sweep_clears_what_it_passes(cached, active, queue, (h + 1) as usize, bits, (attempts - 1) as nat, i);
    } else if !bits.contains_key(key) || bits[key] {
        let b2 = bits.insert(key, false);
        if i == h {
            law_sweep_gives_second_chance(cached, active, queue, (h + 1) as usize, b2, (attempts - 1) as nat);
            assert(b2.contains_key(key) && !b2[key]);
        } else {
            lemma_sweep_clears_what_it_passes(cached, active, queue, (h + 1) as usize, b2, (attempts - 1) as nat, i);
        }
    }
}

/// A sweep that reaches a cached, idle entry whose bit is cleared chooses an
/// entry.
proof fn lemma_sweep_finds_cleared(
    cached: Set<Seq<char>>,
    active: Map<Seq<char>, usize>,
    queue: Seq<Seq<char>>,
    hand: usize,
    bits: Map<Seq<char>, bool>,
    attempts: nat,
    i: int,
)
    requires
        queue.len() <= usize::MAX,
        0 <= i < queue.len(),
        sweep_covers(hand, attempts, queue.len(), i),
        cached.contains(queue[i]),
        !active.contains_key(queue[i]),
        bits.contains_key(queue[i]),
        !bits[queue[i]],
    ensures
        clock_sweep(cached, active, queue, hand, bits, attempts).victim is Some,
    decreases attempts,
{
    let h: usize = if hand >= queue.len() { 0 } else { hand };
    let key = queue[h as int];
    if i != h {
        lemma_covers_step(hand, attempts, queue.len(), i);
    }
    if !cached.contains(key) || active.contains_key(key) {
        assert(i != h);
        lemma_sweep_finds_cleared(cached, active, queue, (h + 1) as usize, bits, (attempts - 1) as nat, i);
    } else if !bits.contains_key(key) || bits[key] {
        assert(i != h);
        let b2 = bits.insert(key, false);
        assert(b2.contains_key(queue[i]) && !b2[queue[i]]);
        lemma_sweep_finds_cleared(cached, active, queue, (h + 1) as usize, b2, (attempts - 1) as nat, i);
    }
}

/// Two passes of the hand always find a victim when the queue holds a
/// cached entry whose function is not running: the first pass clears every
/// use bit it meets, the second takes the first such entry it reaches.
pub proof fn law_sweep_finds_victim_within_two_passes(
    cached: Set<Seq<char>>,
    active: Map<Seq<char>, usize>,
    queue: Seq<Seq<char>>,
    hand: usize,
    bits: Map<Seq<char>, bool>,
    attempts: nat,
)
    requires
        queue.len() <= usize::MAX,
        attempts >= 2 * queue.len(),
        exists|i: int| 0 <= i < queue.len() && cached.contains(#[trigger] queue[i]) && !active.contains_key(queue[i]),
    ensures
        clock_sweep(cached, active, queue, hand, bits, attempts).victim is Some,
{
    let n = queue.len();
    let i = choose|i: int| 0 <= i < queue.len() && cached.contains(#[trigger] queue[i]) && !active.contains_key(queue[i]);
    lemma_sweep_split(cached, active, queue, hand, bits, n, (attempts - n) as nat);
    assert(n + ((attempts - n) as nat) == attempts);
    let r = clock_sweep(cached, active, queue, hand, bits, n);
    if r.victim is None {
        lemma_sweep_clears_what_it_passes(cached, active, queue, hand, bits, n, i);
        lemma_sweep_finds_cleared(cached, active, queue, r.hand, r.use_bits, (attempts - n) as nat, i);
    }
}

/// How many steps the hand takes from `hand` to reach position `i` of a
/// queue of length `len`, wrapping to the front.
pub open spec fn hand_distance(hand: usize, len: nat, i: int) -> int {
    let h: int = if hand >= len { 0 } else { hand as int };
    if i >= h {
        i - h
    } else {
        i - h + len
    }
}

/// The entry at position `i` may be chosen as it stands: it is cached, its
/// function is not running and its use bit is present and cleared.
pub open spec fn ready_at(
    cached: Set<Seq<char>>,
    active: Map<Seq<char>, usize>,
    queue: Seq<Seq<char>>,
    bits: Map<Seq<char>, bool>,
    i: int,
) -> bool {
    &&& cached.contains(queue[i])
    &&& !active.contains_key(queue[i])
    &&& bits.contains_key(queue[i])
    &&& !bits[queue[i]]
}

/// After one step of the hand every other position is one step nearer.
proof fn lemma_distance_step(hand: usize, len: nat, j: int)
    requires
        0 < len <= usize::MAX,
        0 <= j < len,
        j != (if hand >= len { 0 } else { hand as int }),
    ensures
        hand_distance((if hand >= len { 1 } else { hand + 1 }) as usize, len, j) == hand_distance(hand, len, j) - 1,
        0 < hand_distance(hand, len, j) < len,
{
}

/// A sweep that reaches a ready entry with none ready nearer the hand
/// chooses it.
proof fn lemma_sweep_takes_first_ready(
    cached: Set<Seq<char>>,
    active: Map<Seq<char>, usize>,
    queue: Seq<Seq<char>>,
    hand: usize,
    bits: Map<Seq<char>, bool>,
    attempts: nat,
    i: int,
)
    requires
        queue.len() <= usize::MAX,
        queue.no_duplicates(),
        0 <= i < queue.len(),
        sweep_covers(hand, attempts, queue.len(), i),
        ready_at(cached, active, queue, bits, i),
        forall|j: int| 0 <= j < queue.len() && hand_distance(hand, queue.len(), j) < hand_distance(hand, queue.len(), i)
            ==> !#[trigger] ready_at(cached, active, queue, bits, j),
    ensures
        clock_sweep(cached, active, queue, hand, bits, attempts).victim == Some(queue[i]),
    decreases attempts,
{
    let n = queue.len();
    let h: usize = if hand >= n { 0 } else { hand };
    let key = queue[h as int];
    if i != h {
        lemma_covers_step(hand, attempts, n, i);
        lemma_distance_step(hand, n, i);
        assert(hand_distance(hand, n, h as int) == 0);
        assert(!ready_at(cached, active, queue, bits, h as int));
        let h2: usize = (if hand >= n { 1 } else { hand + 1 }) as usize;
        assert(h2 == (h + 1) as usize);
        if !cached.contains(key) || active.contains_key(key) {
            assert forall|j: int| 0 <= j < n && hand_distance(h2, n, j) < hand_distance(h2, n, i)
                implies !#[trigger] ready_at(cached, active, queue, bits, j) by {
                if j != h {
                    lemma_distance_step(hand, n, j);
                }
            }
            lemma_sweep_takes_first_ready(cached, active, queue, h2, bits, (attempts - 1) as nat, i);
        } else {
            let b2 = bits.insert(key, false);
            assert(queue[i] != key) by {
                if queue[i] == key {
                    assert(queue.no_duplicates());
                }
            }
            assert(ready_at(cached, active, queue, b2, i));
            assert forall|j: int| 0 <= j < n && hand_distance(h2, n, j) < hand_distance(h2, n, i)
                implies !#[trigger] ready_at(cached, active, queue, b2, j) by {
                if j != h {
                    lemma_distance_step(hand, n, j);
                    assert(queue[j] != key);
                    assert(!ready_at(cached, active, queue, bits, j));
                } else {
                    lemma_distance_step(hand, n, i);
                }
            }
            lemma_sweep_takes_first_ready(cached, active, queue, h2, b2, (attempts - 1) as nat, i);
        }
    }
}

/// The clock's order: when the queue holds, each key once, an entry that is
/// cached, idle and whose use bit is cleared, a sweep of at least one pass
/// chooses the first such entry from the hand onward, wrapping to the front;
/// the entries it passes on the way that are cached and idle have their bits
/// cleared, not evicted.
pub proof fn law_sweep_takes_first_cleared_entry_from_hand(
    cached: Set<Seq<char>>,
    active: Map<Seq<char>, usize>,
    queue: Seq<Seq<char>>,
    hand: usize,
    bits: Map<Seq<char>, bool>,
    attempts: nat,
    i: int,
)
    requires
        queue.len() <= usize::MAX,
        queue.no_duplicates(),
        attempts >= queue.len(),
        0 <= i < queue.len(),
        ready_at(cached, active, queue, bits, i),
        forall|j: int| 0 <= j < queue.len() && hand_distance(hand, queue.len(), j) < hand_distance(hand, queue.len(), i)
            ==> !#[trigger] ready_at(cached, active, queue, bits, j),
    ensures
        clock_sweep(cached, active, queue, hand, bits, attempts).victim == Some(queue[i]),
{
    lemma_sweep_takes_first_ready(cached, active, queue, hand, bits, attempts, i);
}

/// The use bit of `f` is present and set.
pub open spec fn marked_used(s: EngineView, f: Seq<char>) -> bool {
    s.clock_use_bits.contains_key(f) && s.clock_use_bits[f]
}

/// The loop tier and the plain run keep the use bit of the invoked function
/// set.
proof fn lemma_loop_or_plain_keeps_mark(s: EngineView, lim: JitLimits, inv: InvView, now: u64)
    requires
        marked_used(s, inv.fn_id),
    ensures
        marked_used(loop_or_plain(s, lim, inv, now).state, inv.fn_id),
{
    let f = inv.fn_id;
    lemma_released_keeps(s.profiled(lim, f, inv.sig, now), f, inv.tokens as nat);
    if inv.loop_heavy {
        let s1 = s.loop_counted(f);
        let s2 = if s1.loop_counters[f] >= lim.osr_threshold && !s1.osr.contains_key(f) {
            s1.osr_compiled(f, now)
        } else {
            s1
        };
        assert(marked_used(s2, f));
        assert(marked_used(s2.profiled(lim, f, inv.sig, now), f));
        lemma_released_keeps(s2.profiled(lim, f, inv.sig, now), f, inv.tokens as nat);
        lemma_released_keeps(s2.profiled(lim, f, inv.sig, now).osr_touched(f, now), f, inv.tokens as nat);
    }
}

/// A call of a function with compiled code that is neither blacklisted nor
/// quarantined marks that code as used in the clock, whatever tier then
/// answers: the next sweep gives it a second chance.
pub proof fn law_call_marks_code_used(s: EngineView, lim: JitLimits, inv: InvView, args: Seq<VVal>, now: u64)
    requires
        !s.blacklisted.contains(inv.fn_id),
        !s.quarantined.contains(inv.fn_id),
        s.compiled.contains_key(inv.fn_id),
    ensures
        marked_used(begin_step(s, lim, inv, args, now).state, inv.fn_id),
{
    let f = inv.fn_id;
    let s1 = match inv.caller {
        Some(c) => if c != f && inv.inlineable {
            s.with_dependency(c, f)
        } else {
            s
        },
        None => s,
    };
    let inv1 = InvView {
        sig: crate::value::strict_signature(args),
        key: ser_list(args, 0).0,
        memoizable: !ser_list(args, 0).1,
        tokens: (inv.tokens + 1) as usize,
        ..inv
    };
    let s2 = s1.invocation_started(f);
    assert(begin_step(s, lim, inv, args, now) == tiers(s2, lim, inv1, now));
    assert(s2.compiled.contains_key(f));
    let s3 = s2.compiled_touched(f, now);
    assert(marked_used(s3, f));
    lemma_released_keeps(s3, f, inv1.tokens as nat);
    let c = s3.compiled[f];
    if c.tier == crate::cache::Tier::OPTIMIZED {
        if !c.variants.contains_key(inv1.sig) {
            if c.variants.dom().len() >= lim.max_polymorphic_slots {
                assert(marked_used(s3.deoptimized_total(lim.max_deopt_threshold, f), f));
            } else {
                lemma_loop_or_plain_keeps_mark(s3, lim, inv1, now);
            }
        }
    } else if c.baseline is Some {
        let s4 = s3.baseline_touched(f, now).profiled(lim, f, inv1.sig, now);
        assert(marked_used(s4, f));
        lemma_released_keeps(s4, f, inv1.tokens as nat);
    } else {
        lemma_loop_or_plain_keeps_mark(s3, lim, inv1, now);
    }
}

/// A path from `f` along parent links reaches its end again after the last
/// visit of `f`: some index holds `f` and none after it does.
proof fn lemma_last_visit(path: Seq<Seq<char>>, f: Seq<char>) -> (j: int)
    requires
        path.len() >= 1,
        path[0] == f,
    ensures
        0 <= j < path.len(),
        path[j] == f,
        forall|k: int| j < k < path.len() ==> path[k] != f,
    decreases path.len(),
{
    if path.len() == 1 || path.last() == f {
        (path.len() - 1) as int
    } else {
        let j = lemma_last_visit(path.drop_last(), f);
        assert forall|k: int| j < k < path.len() implies path[k] != f by {
            if k < path.len() - 1 {
                assert(path.drop_last()[k] == path[k]);
            }
        }
        j
    }
}

/// Quarantine invalidates the functions that inline the quarantined one: an
/// error that brings the count of `f` to the error threshold leaves none of
/// its parents, and none of the functions reached from it through optimized
/// parents, at the optimized tier.
#[verifier::spinoff_prover]
#[verifier::rlimit(40)]
pub proof fn law_quarantine_deoptimizes_parents(s: EngineView, lim: JitLimits, f: Seq<char>, e: Seq<char>)
    requires
        !is_stack_overflow(e),
        bumped(s.error_counters, f) >= lim.max_error_threshold,
    ensures
        forall|p: Seq<char>| #[trigger] s.linked(f, p) ==> !s.error_handled(lim, f, e).is_optimized(p),
        forall|p: Seq<char>| #[trigger] s.deopt_set(f).contains(p) ==> !s.error_handled(lim, f, e).is_optimized(p),
        !s.error_handled(lim, f, e).polymorphic_counters.contains_key(f),
        !s.error_handled(lim, f, e).global_invocation_counters.contains_key(f),
        !s.error_handled(lim, f, e).deopt_counters.contains_key(f),
        !s.error_handled(lim, f, e).active.contains_key(f),
        set_at(s.error_handled(lim, f, e).child_to_parents, f) == Set::<Seq<char>>::empty(),
        set_at(s.error_handled(lim, f, e).parent_to_children, f) == Set::<Seq<char>>::empty(),
{
    let count = bumped(s.error_counters, f);
    let s1 = EngineView { error_counters: s.error_counters.insert(f, count), ..s };
    let s2 = EngineView { quarantined: s1.quarantined.insert(f), compiled: s1.compiled.remove(f), osr: s1.osr.remove(f), ..s1 };
    let t = s2.parents_invalidated(lim.max_deopt_threshold, f);
    assert(s.error_handled(lim, f, e) == t.without_metadata(f));
    assert(t.without_metadata(f).compiled == t.compiled);
    let u = t.without_metadata(f);
    assert(!u.child_to_parents.contains_key(f));
    assert(!u.parent_to_children.contains_key(f));
    law_invalidation_deoptimizes_parents(s2, lim.max_deopt_threshold, f);
    assert forall|p: Seq<char>| #[trigger] s.linked(f, p) implies !t.is_optimized(p) by {
        assert(s2.linked(f, p));
    }
    assert forall|p: Seq<char>| #[trigger] s.deopt_set(f).contains(p) implies !t.is_optimized(p) by {
        let path = choose|path: Seq<Seq<char>>| #[trigger] s.is_deopt_path(path) && path[0] == f && path.last() == p;
        let j = lemma_last_visit(path, f);
        if j < path.len() - 1 {
            let sub = path.subrange(j, path.len() as int);
            assert forall|i: int| 0 <= i < sub.len() - 1 implies s2.linked(#[trigger] sub[i], sub[i + 1]) by {
                assert(sub[i] == path[j + i]);
                assert(sub[i + 1] == path[j + i + 1]);
                assert(s.linked(path[j + i], path[j + i + 1]));
            }
            assert forall|i: int| 1 <= i < sub.len() implies s2.is_optimized(#[trigger] sub[i]) by {
                assert(sub[i] == path[j + i]);
                assert(s.is_optimized(path[j + i]));
                assert(path[j + i] != f);
            }
            assert(s2.is_deopt_path(sub));
            assert(sub[0] == f && sub.last() == p);
            assert(s2.deopt_set(f).contains(p));
        } else {
            assert(p == f);
            assert(!s2.compiled.contains_key(f));
        }
    }
}

/// Storing into a memo table keeps every other entry with its value, but
/// for at most one: when the table is full, the entry whose key comes before
/// every other key leaves. A table with room loses nothing.
pub proof fn law_memo_store_drops_only_the_least_key(memo: Map<Seq<char>, VVal>, max: usize, key: Seq<char>, val: VVal)
    requires
        memo.dom().finite(),
    ensures
        forall|k: Seq<char>| #[trigger] memo_with(memo, max, key, val).contains_key(k) && k != key
            ==> memo.contains_key(k) && memo_with(memo, max, key, val)[k] == memo[k],
        forall|k: Seq<char>| #[trigger] memo.contains_key(k) && k != key && memo.dom().len() < max
            ==> memo_with(memo, max, key, val).contains_key(k),
        forall|k: Seq<char>, k2: Seq<char>|
            #![trigger memo.contains_key(k), memo.contains_key(k2)]
            memo.contains_key(k) && k != key && !memo_with(memo, max, key, val).contains_key(k)
                && memo.contains_key(k2) && k2 != k ==> seq_less(k, k2),
{
    lemma_sorted_keys_exist(memo.dom());
    let q = sorted_keys(memo.dom());
    assert forall|k: Seq<char>, k2: Seq<char>|
        memo.contains_key(k) && k != key && !memo_with(memo, max, key, val).contains_key(k) && memo.contains_key(k2)
            && k2 != k implies seq_less(k, k2) by {
        assert(memo.dom().len() >= max && memo.dom().len() > 0);
        assert(k == q[0]);
        assert(q.to_set().contains(k2));
        let j = choose|j: int| 0 <= j < q.len() && q[j] == k2;
        assert(j != 0);
    }
}

/// An error short of the error threshold, and not a stack overflow, only
/// counts: the function's error count grows by one and nothing else changes.
pub proof fn law_error_below_threshold_only_counts(s: EngineView, lim: JitLimits, f: Seq<char>, e: Seq<char>)
    requires
        !is_stack_overflow(e),
        crate::model::below_max(s.error_counters, f),
        bumped(s.error_counters, f) < lim.max_error_threshold,
    ensures
        s.error_handled(lim, f, e) == (EngineView {
            error_counters: s.error_counters.insert(f, bumped(s.error_counters, f)),
            ..s
        }),
        s.error_counters.contains_key(f) ==> s.error_handled(lim, f, e).error_counters[f] == s.error_counters[f] + 1,
        !s.error_counters.contains_key(f) ==> s.error_handled(lim, f, e).error_counters[f] == 1,
{
}

/// Each total deoptimization of an optimized function counts against it:
/// below the deoptimization threshold it drops to the baseline tier with no
/// variants and its count grows by one; once the count reaches the threshold
/// it is blacklisted and its compiled code dropped.
#[verifier::spinoff_prover]
pub proof fn law_deoptimizations_lead_to_blacklist(s: EngineView, max_deopt: usize, f: Seq<char>)
    requires
        s.is_optimized(f),
    ensures
        bumped(s.deopt_counters, f) >= max_deopt ==> {
            &&& s.deoptimized_total(max_deopt, f).blacklisted.contains(f)
            &&& !s.deoptimized_total(max_deopt, f).compiled.contains_key(f)
        },
        bumped(s.deopt_counters, f) < max_deopt ==> {
            &&& s.deoptimized_total(max_deopt, f).compiled.contains_key(f)
            &&& s.deoptimized_total(max_deopt, f).compiled[f].tier == crate::cache::Tier::BASELINE
            &&& s.deoptimized_total(max_deopt, f).compiled[f].variants == Map::<Seq<char>, crate::cache::VariantView>::empty()
        },
        s.deoptimized_total(max_deopt, f).deopt_counters.contains_key(f),
        s.deoptimized_total(max_deopt, f).deopt_counters[f] == bumped(s.deopt_counters, f),
{
    let s1 = s.deoptimized(max_deopt, set![f]);
    assert(!s1.is_optimized(f));
    let d = s1.deopt_set(f);
    assert(!d.contains(f)) by {
        if d.contains(f) {
            let path = choose|path: Seq<Seq<char>>| #[trigger] s1.is_deopt_path(path) && path[0] == f && path.last() == f;
            assert(s1.is_optimized(path[path.len() - 1]));
        }
    }
    let s2 = s1.deoptimized(max_deopt, d);
    let t = s2.without_links_of(d.insert(f));
    assert(s.deoptimized_total(max_deopt, f) == t);
    assert(t.compiled == s2.compiled);
    assert(s2.compiled.contains_key(f) == s1.compiled.contains_key(f));
    assert(s1.compiled.contains_key(f) ==> s2.compiled[f] == s1.compiled[f]);
    assert(s2.deopt_counters[f] == s1.deopt_counters[f]);
    if bumped(s.deopt_counters, f) >= max_deopt {
        assert(crate::model::deopt_gone(s.deopt_counters, max_deopt, set![f]).contains(f));
    } else {
        assert(!crate::model::deopt_gone(s.deopt_counters, max_deopt, set![f]).contains(f));
    }
}

/// Arguments that serialize past the depth limit never meet the memo: the
/// first step of such an invocation is never an answer from a memo table,
/// and when it runs the body, a success ends the invocation with the state
/// left as it was but for the running marks, nothing stored.
pub proof fn law_deep_arguments_bypass_memo(
    s: EngineView,
    lim: JitLimits,
    inv: InvView,
    args: Seq<VVal>,
    now: u64,
    s2: EngineView,
    v: VVal,
)
    requires
        ser_list(args, 0).1,
    ensures
        !(begin_step(s, lim, inv, args, now).act matches Outcome::Finish(Ok(_))),
        begin_step(s, lim, inv, args, now).act is RunBody ==> after_step(
            s2,
            lim,
            begin_step(s, lim, inv, args, now).inv,
            Ok(v),
        ) == finished(s2, begin_step(s, lim, inv, args, now).inv, Ok(v)),
{
}

} // verus!
