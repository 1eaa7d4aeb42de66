//! How the memory the caches account for adds up: every memo entry, every
//! variant and every compiled record counts once, whatever the others are.
use vstd::prelude::*;
use crate::cache::{CompiledView, VariantView};
use crate::model::{EngineView, compiled_bytes, key_bytes, memo_bytes, sum_over, variants_bytes};
use crate::text::{insert_sorted, lemma_insert_sorted, lemma_sorted_keys, lemma_sorted_keys_exist, seq_less, sorted_keys};
use crate::value::VVal;

verus! {

/// A sum over two listings one after the other is the sum of the two sums.
proof fn lemma_sum_concat(p: Seq<Seq<char>>, q: Seq<Seq<char>>, cost: spec_fn(Seq<char>) -> nat)
    ensures
        sum_over(p + q, cost) == sum_over(p, cost) + sum_over(q, cost),
    decreases q.len(),
{
    if q.len() == 0 {
        assert(p + q =~= p);
    } else {
        assert((p + q).drop_last() =~= p + q.drop_last());
        assert((p + q).last() == q.last());
        lemma_sum_concat(p, q.drop_last(), cost);
    }
}

/// Placing one more key into an ascending listing adds its cost.
proof fn lemma_sum_insert_sorted(q: Seq<Seq<char>>, x: Seq<char>, cost: spec_fn(Seq<char>) -> nat)
    ensures
        sum_over(insert_sorted(q, x), cost) == sum_over(q, cost) + cost(x),
    decreases q.len(),
{
    lemma_sum_single(x, cost);
    if q.len() > 0 {
        lemma_sum_single(q[0], cost);
        lemma_sum_concat(seq![q[0]], q.drop_first(), cost);
        assert(seq![q[0]] + q.drop_first() =~= q);
        if seq_less(x, q[0]) {
            lemma_sum_concat(seq![x], q, cost);
        } else {
            lemma_sum_insert_sorted(q.drop_first(), x, cost);
            lemma_sum_concat(seq![q[0]], insert_sorted(q.drop_first(), x), cost);
        }
    }
}

/// A single key sums to its cost.
proof fn lemma_sum_single(x: Seq<char>, cost: spec_fn(Seq<char>) -> nat)
    ensures
        sum_over(seq![x], cost) == cost(x),
{
    let e = Seq::<Seq<char>>::empty();
    assert(seq![x].drop_last() =~= e);
    assert(sum_over(e, cost) == 0);
    assert(seq![x].last() == x);
    assert(sum_over(seq![x], cost) == sum_over(seq![x].drop_last(), cost) + cost(seq![x].last()));
}

/// Costs that agree on every listed key sum alike.
proof fn lemma_sum_congruent(keys: Seq<Seq<char>>, a: spec_fn(Seq<char>) -> nat, b: spec_fn(Seq<char>) -> nat)
    requires
        forall|i: int| 0 <= i < keys.len() ==> a(#[trigger] keys[i]) == b(keys[i]),
    ensures
        sum_over(keys, a) == sum_over(keys, b),
    decreases keys.len(),
{
    if keys.len() > 0 {
        let init = keys.drop_last();
        assert forall|i: int| 0 <= i < init.len() implies a(#[trigger] init[i]) == b(init[i]) by {
            assert(init[i] == keys[i]);
        }
        lemma_sum_congruent(init, a, b);
        assert(a(keys[keys.len() - 1]) == b(keys[keys.len() - 1]));
    }
}

/// Summed over the ascending listing of a finite set, a new member adds its
/// cost.
proof fn lemma_sum_over_new_member(s: Set<Seq<char>>, x: Seq<char>, cost: spec_fn(Seq<char>) -> nat)
    requires
        s.finite(),
        !s.contains(x),
    ensures
        sum_over(sorted_keys(s.insert(x)), cost) == sum_over(sorted_keys(s), cost) + cost(x),
{
    lemma_sorted_keys_exist(s);
    let q = sorted_keys(s);
    assert(!q.contains(x)) by {
        if q.contains(x) {
            assert(q.to_set().contains(x));
        }
    }
    lemma_insert_sorted(q, x);
    let r = insert_sorted(q, x);
    lemma_sorted_keys(r);
    assert(r.to_set() == s.insert(x));
    lemma_sum_insert_sorted(q, x, cost);
}

/// The ascending listing of the empty set is empty.
proof fn lemma_sorted_keys_empty()
    ensures
        sorted_keys(Set::<Seq<char>>::empty()) == Seq::<Seq<char>>::empty(),
{
    let e = Seq::<Seq<char>>::empty();
    assert(e.to_set() =~= Set::<Seq<char>>::empty());
    lemma_sorted_keys(e);
}

/// An empty memo table accounts for nothing, and each new entry adds twice
/// its key's byte length, 200 bytes for its value and a quarter mebibyte,
/// whatever entries are already there.
pub proof fn law_memo_entries_add_up(memo: Map<Seq<char>, VVal>, key: Seq<char>, val: VVal)
    requires
        memo.dom().finite(),
        !memo.contains_key(key),
    ensures
        memo_bytes(sorted_keys(Map::<Seq<char>, VVal>::empty().dom())) == 0,
        memo_bytes(sorted_keys(memo.insert(key, val).dom())) == memo_bytes(sorted_keys(memo.dom()))
            + key_bytes(key) * 2 + 262344,
{
    lemma_sorted_keys_empty();
    assert(Map::<Seq<char>, VVal>::empty().dom() =~= Set::<Seq<char>>::empty());
    assert(memo.insert(key, val).dom() =~= memo.dom().insert(key));
    lemma_sum_over_new_member(memo.dom(), key, |k: Seq<char>| crate::model::memo_entry_bytes(k));
}

/// Compiled code with no variant accounts for one and a half mebibytes, one
/// more with a baseline form; each new variant adds two mebibytes and what
/// its memo entries account for, whatever variants are already there.
pub proof fn law_variants_add_up(c: CompiledView, sig: Seq<char>, v: VariantView)
    requires
        c.variants.dom().finite(),
        !c.variants.contains_key(sig),
    ensures
        compiled_bytes(CompiledView { variants: Map::empty(), ..c }) == 1572864 + (if c.baseline is Some {
            1048576nat
        } else {
            0nat
        }),
        compiled_bytes(CompiledView { variants: c.variants.insert(sig, v), ..c }) == compiled_bytes(c) + 2097152
            + memo_bytes(sorted_keys(v.memo.dom())),
{
    lemma_sorted_keys_empty();
    let e = CompiledView { variants: Map::<Seq<char>, VariantView>::empty(), ..c };
    assert(e.variants.dom() =~= Set::<Seq<char>>::empty());
    let vs = c.variants;
    let vs2 = vs.insert(sig, v);
    assert(vs2.dom() =~= vs.dom().insert(sig));
    let a = |k: Seq<char>| crate::model::variant_bytes(vs[k]);
    let b = |k: Seq<char>| crate::model::variant_bytes(vs2[k]);
    lemma_sum_over_new_member(vs.dom(), sig, b);
    lemma_sorted_keys_exist(vs.dom());
    let q = sorted_keys(vs.dom());
    assert forall|i: int| 0 <= i < q.len() implies a(#[trigger] q[i]) == b(q[i]) by {
        assert(q.to_set().contains(q[i]));
        assert(q[i] != sig);
    }
    lemma_sum_congruent(q, a, b);
    assert(variants_bytes(vs, q) == sum_over(q, a));
    assert(variants_bytes(vs2, sorted_keys(vs2.dom())) == sum_over(sorted_keys(vs.dom().insert(sig)), b));
}

/// An engine with nothing cached accounts for no memory; each new compiled
/// record adds what its code accounts for, and each new loop compilation
/// three mebibytes, whatever else is cached.
pub proof fn law_cached_code_adds_up(s: EngineView, f: Seq<char>, c: CompiledView, o: crate::cache::OsrView)
    requires
        s.finite_caches(),
        !s.compiled.contains_key(f),
        !s.osr.contains_key(f),
    ensures
        EngineView::empty().memory_bytes() == 0,
        (EngineView { compiled: s.compiled.insert(f, c), ..s }).memory_bytes() == s.memory_bytes() + compiled_bytes(c),
        (EngineView { osr: s.osr.insert(f, o), ..s }).memory_bytes() == s.memory_bytes() + 3145728,
{
    lemma_sorted_keys_empty();
    let z = EngineView::empty();
    assert(z.compiled.dom() =~= Set::<Seq<char>>::empty());
    assert(z.osr.dom() =~= Set::<Seq<char>>::empty());
    let cs = s.compiled;
    let cs2 = cs.insert(f, c);
    assert(cs2.dom() =~= cs.dom().insert(f));
    let a = |k: Seq<char>| compiled_bytes(cs[k]);
    let b = |k: Seq<char>| compiled_bytes(cs2[k]);
    lemma_sum_over_new_member(cs.dom(), f, b);
    lemma_sorted_keys_exist(cs.dom());
    let q = sorted_keys(cs.dom());
    assert forall|i: int| 0 <= i < q.len() implies a(#[trigger] q[i]) == b(q[i]) by {
        assert(q.to_set().contains(q[i]));
        assert(q[i] != f);
    }
    lemma_sum_congruent(q, a, b);
    let os2 = s.osr.insert(f, o);
    assert(os2.dom() =~= s.osr.dom().insert(f));
    assert(os2.dom().len() == s.osr.dom().len() + 1);
    assert(3145728 * os2.dom().len() == 3145728 * s.osr.dom().len() + 3145728) by (nonlinear_arith)
        requires
            os2.dom().len() == s.osr.dom().len() + 1,
    ;
}

} // verus!
