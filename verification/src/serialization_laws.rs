//! What the memo-key text of a value is made of, stated by the pieces it
//! joins rather than by the order in which they are produced.
use vstd::prelude::*;
use crate::text::seq_contains_block;
use crate::value::{VVal, entry_pairs, item_strs, ser, ser_list, ser_props};

verus! {

/// `parts` joined by commas, read from the front.
pub open spec fn joined(parts: Seq<Seq<char>>) -> Seq<char>
    decreases parts.len(),
{
    if parts.len() == 0 {
        Seq::empty()
    } else if parts.len() == 1 {
        parts[0]
    } else {
        parts[0] + ","@ + joined(parts.drop_first())
    }
}

/// The text `key:value` of each entry, its value serialized at depth `d`.
pub open spec fn property_texts(entries: Seq<(Seq<char>, VVal)>, d: nat) -> Seq<Seq<char>> {
    Seq::new(entries.len(), |i: int| entries[i].0 + ":"@ + ser(entries[i].1, d).0)
}

/// The text of each item serialized at depth `d`.
pub open spec fn item_texts(items: Seq<VVal>, d: nat) -> Seq<Seq<char>> {
    Seq::new(items.len(), |i: int| ser(items[i], d).0)
}

/// Joining one more part appends it after a comma.
proof fn lemma_joined_push(parts: Seq<Seq<char>>, x: Seq<char>)
    ensures
        joined(parts.push(x)) == (if parts.len() == 0 { x } else { joined(parts) + ","@ + x }),
    decreases parts.len(),
{
    let p = parts.push(x);
    if parts.len() == 0 {
        assert(p.len() == 1 && p[0] == x);
    } else if parts.len() == 1 {
        assert(p.drop_first() =~= seq![x]);
        assert(joined(p.drop_first()) == x);
    } else {
        assert(p.drop_first() =~= parts.drop_first().push(x));
        lemma_joined_push(parts.drop_first(), x);
        assert(joined(p) == parts[0] + ","@ + (joined(parts.drop_first()) + ","@ + x));
        assert(parts[0] + ","@ + (joined(parts.drop_first()) + ","@ + x) =~= (parts[0] + ","@
            + joined(parts.drop_first())) + ","@ + x);
    }
}

/// The properties of an object serialize to their texts joined by commas;
/// some value lies past the depth limit exactly when one of them does.
proof fn lemma_props_joined(entries: Seq<(Seq<char>, VVal)>, d: nat)
    ensures
        ser_props(entries, d).0 == joined(property_texts(entries, d)),
        ser_props(entries, d).1 == (exists|i: int| 0 <= i < entries.len() && #[trigger] ser(entries[i].1, d).1),
    decreases entries.len(),
{
    if entries.len() > 0 {
        let init = entries.drop_last();
        lemma_props_joined(init, d);
        let t = property_texts(entries, d);
        assert(property_texts(init, d) =~= t.drop_last());
        assert(t =~= t.drop_last().push(t.last()));
        lemma_joined_push(t.drop_last(), t.last());
        let n = entries.len() - 1;
        if ser_props(entries, d).1 {
            if ser(entries.last().1, d).1 {
                assert(ser(entries[n].1, d).1);
            } else {
                let i = choose|i: int| 0 <= i < init.len() && #[trigger] ser(init[i].1, d).1;
                assert(ser(entries[i].1, d).1);
            }
        } else {
            assert forall|i: int| 0 <= i < entries.len() implies !#[trigger] ser(entries[i].1, d).1 by {
                if i < n {
                    assert(init[i] == entries[i]);
                }
            }
        }
    }
}

/// The items of an array serialize to their texts joined by commas; some
/// item lies past the depth limit exactly when one of them does.
proof fn lemma_items_joined(items: Seq<VVal>, d: nat)
    ensures
        ser_list(items, d).0 == joined(item_texts(items, d)),
        ser_list(items, d).1 == (exists|i: int| 0 <= i < items.len() && #[trigger] ser(items[i], d).1),
    decreases items.len(),
{
    if items.len() > 0 {
        let init = items.drop_last();
        lemma_items_joined(init, d);
        let t = item_texts(items, d);
        assert(item_texts(init, d) =~= t.drop_last());
        assert(t =~= t.drop_last().push(t.last()));
        lemma_joined_push(t.drop_last(), t.last());
        let n = items.len() - 1;
        if ser_list(items, d).1 {
            if ser(items.last(), d).1 {
                assert(ser(items[n], d).1);
            } else {
                let i = choose|i: int| 0 <= i < init.len() && #[trigger] ser(init[i], d).1;
                assert(ser(items[i], d).1);
            }
        } else {
            assert forall|i: int| 0 <= i < items.len() implies !#[trigger] ser(items[i], d).1 by {
                if i < n {
                    assert(init[i] == items[i]);
                }
            }
        }
    }
}

/// Within the depth limit, an object serializes to `Object{`, then
/// `key:value` for every entry in stored order joined by commas, each value
/// one level deeper, then `}`. It lies past the limit exactly when one of its
/// values does.
pub proof fn law_object_text_lists_every_property(entries: Seq<(Seq<char>, VVal)>, d: nat)
    requires
        d <= 5,
    ensures
        ser(VVal::Object(entries), d).0 == "Object{"@ + joined(property_texts(entries, d + 1)) + "}"@,
        ser(VVal::Object(entries), d).1 == (exists|i: int|
            0 <= i < entries.len() && #[trigger] ser(entries[i].1, d + 1).1),
{
    lemma_props_joined(entries, d + 1);
}

/// Within the depth limit, an array serializes to `[`, then every item's
/// text in order joined by commas, each one level deeper, then `]`. It lies
/// past the limit exactly when one of its items does.
pub proof fn law_array_text_lists_every_item(items: Seq<VVal>, d: nat)
    requires
        d <= 5,
    ensures
        ser(VVal::Array(items), d).0 == "["@ + joined(item_texts(items, d + 1)) + "]"@,
        ser(VVal::Array(items), d).1 == (exists|i: int| 0 <= i < items.len() && #[trigger] ser(items[i], d + 1).1),
{
    lemma_items_joined(items, d + 1);
}

/// A map entry as the two-item array `[key, value]`.
pub open spec fn entry_pair(e: (Seq<char>, VVal)) -> VVal {
    VVal::Array(seq![VVal::Str(e.0), e.1])
}

/// Within the depth limit less one, a map serializes to `Map:[`, then each
/// entry as the two-item array `[key,value]` one level further down, in
/// stored order, joined by commas, then `]`.
pub proof fn law_map_text_lists_every_entry(entries: Seq<(Seq<char>, VVal)>, d: nat)
    requires
        d <= 4,
    ensures
        ser(VVal::MapVal(entries), d).0 == "Map:"@ + "["@ + joined(
            Seq::new(entries.len(), |i: int| ser(entry_pair(entries[i]), d + 2).0),
        ) + "]"@,
        ser(VVal::MapVal(entries), d).1 == (exists|i: int|
            0 <= i < entries.len() && #[trigger] ser(entry_pair(entries[i]), d + 2).1),
{
    let pairs = entry_pairs(entries);
    law_array_text_lists_every_item(pairs, d + 1);
    let texts = Seq::new(entries.len(), |i: int| ser(entry_pair(entries[i]), d + 2).0);
    assert(item_texts(pairs, d + 2) =~= texts);
    let j = joined(texts);
    assert("Map:"@ + ("["@ + j + "]"@) =~= "Map:"@ + "["@ + j + "]"@);
    if ser(VVal::MapVal(entries), d).1 {
        let i = choose|i: int| 0 <= i < pairs.len() && #[trigger] ser(pairs[i], d + 2).1;
        assert(pairs[i] == entry_pair(entries[i]));
    } else {
        assert forall|i: int| 0 <= i < entries.len() implies !#[trigger] ser(
            entry_pair(entries[i]),
            d + 2,
        ).1 by {
            assert(pairs[i] == entry_pair(entries[i]));
        }
    }
}

/// Within the depth limit less one, a set serializes to `Set:[`, then its
/// items as strings one level further down, in stored order, joined by
/// commas, then `]`.
pub proof fn law_set_text_lists_every_item(items: Seq<Seq<char>>, d: nat)
    requires
        d <= 4,
    ensures
        ser(VVal::SetVal(items), d).0 == "Set:"@ + "["@ + joined(
            Seq::new(items.len(), |i: int| ser(VVal::Str(items[i]), d + 2).0),
        ) + "]"@,
{
    let strs = item_strs(items);
    law_array_text_lists_every_item(strs, d + 1);
    let texts = Seq::new(items.len(), |i: int| ser(VVal::Str(items[i]), d + 2).0);
    assert(item_texts(strs, d + 2) =~= texts);
    let j = joined(texts);
    assert("Set:"@ + ("["@ + j + "]"@) =~= "Set:"@ + "["@ + j + "]"@);
}

/// An argument list serializes to every argument's text at depth zero, in
/// order, joined by commas; it lies past the depth limit exactly when one of
/// its arguments does.
pub proof fn law_argument_text_lists_every_argument(args: Seq<VVal>)
    ensures
        ser_list(args, 0).0 == joined(item_texts(args, 0)),
        ser_list(args, 0).1 == (exists|i: int| 0 <= i < args.len() && #[trigger] ser(args[i], 0).1),
{
    lemma_items_joined(args, 0);
}

/// Each part of a comma-joined text stands in it whole.
proof fn lemma_joined_holds_parts(parts: Seq<Seq<char>>, i: int)
    requires
        0 <= i < parts.len(),
    ensures
        seq_contains_block(joined(parts), parts[i]),
    decreases parts.len(),
{
    let j = joined(parts);
    if parts.len() == 1 || i == 0 {
        if parts.len() > 1 {
            assert(j == parts[0] + ","@ + joined(parts.drop_first()));
        }
        assert(j.subrange(0, 0 + parts[0].len() as int) =~= parts[0]);
    } else {
        let rest = parts.drop_first();
        lemma_joined_holds_parts(rest, i - 1);
        let jr = joined(rest);
        let q = choose|q: int| 0 <= q && q + rest[i - 1].len() <= jr.len() && #[trigger] jr.subrange(q, q + rest[i - 1].len()) == rest[i - 1];
        let head = parts[0] + ","@;
        assert(j == head + jr);
        let off = head.len() + q;
        assert(j.subrange(off, off + parts[i].len()) =~= jr.subrange(q, q + parts[i].len()));
    }
}

/// Within the depth limit, the text of an object holds `key:value` for every
/// one of its entries, its value one level deeper: no property is left out
/// of the memo key.
pub proof fn law_object_text_holds_every_property(entries: Seq<(Seq<char>, VVal)>, d: nat, i: int)
    requires
        d <= 5,
        0 <= i < entries.len(),
    ensures
        seq_contains_block(ser(VVal::Object(entries), d).0, entries[i].0 + ":"@ + ser(entries[i].1, d + 1).0),
{
    law_object_text_lists_every_property(entries, d);
    let parts = property_texts(entries, d + 1);
    let part = entries[i].0 + ":"@ + ser(entries[i].1, d + 1).0;
    assert(parts[i] == part);
    lemma_joined_holds_parts(parts, i);
    let j = joined(parts);
    let q = choose|q: int| 0 <= q && q + part.len() <= j.len() && #[trigger] j.subrange(q, q + part.len()) == part;
    let t = ser(VVal::Object(entries), d).0;
    let head = "Object{"@;
    assert(t == head + j + "}"@);
    let off = head.len() + q;
    assert(t.subrange(off, off + part.len()) =~= j.subrange(q, q + part.len()));
}

} // verus!
