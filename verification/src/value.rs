//! Dynamic values handed to engine functions, their strict type names,
//! call signatures and the depth-limited serialization used as memo keys.
use vstd::prelude::*;
use vstd::string::*;
use crate::text::{keys_ascending, lemma_sorted_keys, sorted_keys, lemma_ascending_distinct, seq_less, str_less, lemma_seq_less_irreflexive, lemma_seq_less_total, lemma_seq_less_transitive, nat_decimal, int_decimal, push_decimal, push_signed_decimal};

verus! {

broadcast use vstd::std_specs::vec::axiom_vec_index_decreases;

/// Nesting depth past which serialization stops and marks the value too deep.
pub const MAX_SERIALIZE_DEPTH: usize = 5;

/// A dynamic value. A number is carried as its shortest decimal text, the
/// form in which it is displayed.
#[derive(Debug, PartialEq)]
pub enum Val {
    Null,
    Undefined,
    Boolean(bool),
    Number(String),
    String(String),
    BigInt(i128),
    Array(Vec<Val>),
    Object(ValMap),
    MapVal(ValMap),
    SetVal(ValSet),
    Date(u64),
    RegExp(String),
    Func(String),
}

/// String-keyed entries kept in ascending key order, each key once.
#[derive(Debug, PartialEq)]
pub struct ValMap {
    entries: Vec<(String, Val)>,
}

/// Strings kept in ascending order, each once.
#[derive(Debug, PartialEq)]
pub struct ValSet {
    items: Vec<String>,
}

/// The mathematical form of a value.
pub enum VVal {
    Null,
    Undefined,
    Boolean(bool),
    Number(Seq<char>),
    Str(Seq<char>),
    BigInt(i128),
    Array(Seq<VVal>),
    Object(Seq<(Seq<char>, VVal)>),
    MapVal(Seq<(Seq<char>, VVal)>),
    SetVal(Seq<Seq<char>>),
    Date(u64),
    RegExp(Seq<char>),
    Func(Seq<char>),
}

impl Val {
    pub closed spec fn model(self) -> VVal
        decreases self,
    {
        match self {
            Val::Null => VVal::Null,
            Val::Undefined => VVal::Undefined,
            Val::Boolean(b) => VVal::Boolean(b),
            Val::Number(t) => VVal::Number(t@),
            Val::String(s) => VVal::Str(s@),
            Val::BigInt(i) => VVal::BigInt(i),
            Val::Array(items) => VVal::Array(
                Seq::new(
                    items@.len(),
                    |i: int|
                        if 0 <= i < items@.len() {
                            items@[i].model()
                        } else {
                            VVal::Null
                        },
                ),
            ),
            Val::Object(m) => VVal::Object(
                Seq::new(
                    m.entries@.len(),
                    |i: int|
                        if 0 <= i < m.entries@.len() {
                            (m.entries@[i].0@, m.entries@[i].1.model())
                        } else {
                            (Seq::empty(), VVal::Null)
                        },
                ),
            ),
            Val::MapVal(m) => VVal::MapVal(
                Seq::new(
                    m.entries@.len(),
                    |i: int|
                        if 0 <= i < m.entries@.len() {
                            (m.entries@[i].0@, m.entries@[i].1.model())
                        } else {
                            (Seq::empty(), VVal::Null)
                        },
                ),
            ),
            Val::SetVal(s) => VVal::SetVal(Seq::new(s.items@.len(), |i: int| s.items@[i]@)),
            Val::Date(t) => VVal::Date(t),
            Val::RegExp(r) => VVal::RegExp(r@),
            Val::Func(f) => VVal::Func(f@),
        }
    }
}

impl View for Val {
    type V = VVal;

    open spec fn view(&self) -> VVal {
        self.model()
    }
}


impl ValMap {
    /// The entries, in stored order.
    pub closed spec fn entry_models(self) -> Seq<(Seq<char>, VVal)> {
        Seq::new(
            self.entries@.len(),
            |i: int|
                if 0 <= i < self.entries@.len() {
                    (self.entries@[i].0@, self.entries@[i].1@)
                } else {
                    (Seq::empty(), VVal::Null)
                },
        )
    }
}

impl ValSet {
    /// The items, in stored order.
    pub closed spec fn item_models(self) -> Seq<Seq<char>> {
        Seq::new(self.items@.len(), |i: int| self.items@[i]@)
    }
}

/// The view of a value, one variant at a time: scalars as themselves, an
/// array as the views of its items, a map or object as its entries in stored
/// order, a set as its items in stored order.
pub proof fn lemma_model_unfold(v: Val)
    ensures
        v@ == (match v {
            Val::Null => VVal::Null,
            Val::Undefined => VVal::Undefined,
            Val::Boolean(b) => VVal::Boolean(b),
            Val::Number(t) => VVal::Number(t@),
            Val::String(s) => VVal::Str(s@),
            Val::BigInt(i) => VVal::BigInt(i),
            Val::Array(items) => VVal::Array(models(items@)),
            Val::Object(m) => VVal::Object(m.entry_models()),
            Val::MapVal(m) => VVal::MapVal(m.entry_models()),
            Val::SetVal(s) => VVal::SetVal(s.item_models()),
            Val::Date(t) => VVal::Date(t),
            Val::RegExp(r) => VVal::RegExp(r@),
            Val::Func(f) => VVal::Func(f@),
        }),
{
    match v {
        Val::Array(items) => {
            assert(v@->Array_0 =~= models(items@));
        },
        Val::Object(m) => {
            assert(v@->Object_0 =~= m.entry_models());
        },
        Val::MapVal(m) => {
            assert(v@->MapVal_0 =~= m.entry_models());
        },
        Val::SetVal(s) => {
            assert(v@->SetVal_0 =~= s.item_models());
        },
        _ => {},
    }
}

/// The models of a sequence of values.
pub open spec fn models(vs: Seq<Val>) -> Seq<VVal> {
    vs.map_values(|v: Val| v@)
}

/// The strict type name of a value.
pub open spec fn strict_type(v: VVal) -> Seq<char> {
    match v {
        VVal::Null => "null"@,
        VVal::Undefined => "undefined"@,
        VVal::Boolean(_) => "boolean"@,
        VVal::Number(_) => "number"@,
        VVal::Str(_) => "string"@,
        VVal::BigInt(_) => "bigint"@,
        VVal::Array(_) => "array"@,
        VVal::Func(_) => "function"@,
        _ => "object"@,
    }
}

/// The strict type names of `vs`, joined by underscores.
pub open spec fn type_join(vs: Seq<VVal>) -> Seq<char>
    decreases vs.len(),
{
    if vs.len() == 0 {
        Seq::empty()
    } else if vs.len() == 1 {
        strict_type(vs[0])
    } else {
        type_join(vs.drop_last()) + "_"@ + strict_type(vs.last())
    }
}

/// The call signature of an argument list: `void` when empty, else the
/// strict type names joined by underscores.
pub open spec fn strict_signature(vs: Seq<VVal>) -> Seq<char> {
    if vs.len() == 0 {
        "void"@
    } else {
        type_join(vs)
    }
}

/// The text written in place of a value nested too deep.
pub open spec fn too_deep_text() -> Seq<char> {
    "[Object...]"@
}

/// The map entries as two-element arrays `[key, value]`.
pub open spec fn entry_pairs(entries: Seq<(Seq<char>, VVal)>) -> Seq<VVal> {
    entries.map_values(|e: (Seq<char>, VVal)| VVal::Array(seq![VVal::Str(e.0), e.1]))
}

/// The set items as string values.
pub open spec fn item_strs(items: Seq<Seq<char>>) -> Seq<VVal> {
    items.map_values(|s: Seq<char>| VVal::Str(s))
}

/// Serialization of `v` at nesting depth `d`: the text, and whether some part
/// lay past the depth limit.
pub open spec fn ser(v: VVal, d: nat) -> (Seq<char>, bool)
    decreases 6 - d, 0nat,
{
    if d > 5 {
        (too_deep_text(), true)
    } else {
        match v {
            VVal::Null => ("null"@, false),
            VVal::Undefined => ("undefined"@, false),
            VVal::Boolean(b) => (if b { "true"@ } else { "false"@ }, false),
            VVal::Number(t) => (t, false),
            VVal::Str(s) => (s, false),
            VVal::BigInt(i) => ("BigInt:"@ + int_decimal(i as int), false),
            VVal::Date(t) => ("Date:"@ + nat_decimal(t as nat), false),
            VVal::RegExp(r) => ("RegExp:"@ + r, false),
            VVal::Func(f) => (f, false),
            VVal::Array(items) => {
                let r = ser_list(items, d + 1);
                ("["@ + r.0 + "]"@, r.1)
            },
            VVal::MapVal(entries) => {
                let r = ser(VVal::Array(entry_pairs(entries)), d + 1);
                ("Map:"@ + r.0, r.1)
            },
            VVal::SetVal(items) => {
                let r = ser(VVal::Array(item_strs(items)), d + 1);
                ("Set:"@ + r.0, r.1)
            },
            VVal::Object(entries) => {
                let r = ser_props(entries, d + 1);
                ("Object{"@ + r.0 + "}"@, r.1)
            },
        }
    }
}

/// The serializations of `items` at depth `d`, joined by commas.
pub open spec fn ser_list(items: Seq<VVal>, d: nat) -> (Seq<char>, bool)
    decreases 6 - d, items.len(),
{
    if items.len() == 0 {
        (Seq::empty(), false)
    } else {
        let a = ser_list(items.drop_last(), d);
        let b = ser(items.last(), d);
        (if items.len() == 1 { b.0 } else { a.0 + ","@ + b.0 }, a.1 || b.1)
    }
}

/// The properties `key:value` of an object at depth `d`, joined by commas.
pub open spec fn ser_props(entries: Seq<(Seq<char>, VVal)>, d: nat) -> (Seq<char>, bool)
    decreases 6 - d, entries.len(),
{
    if entries.len() == 0 {
        (Seq::empty(), false)
    } else {
        let a = ser_props(entries.drop_last(), d);
        let b = ser(entries.last().1, d);
        let prop = entries.last().0 + ":"@ + b.0;
        (if entries.len() == 1 { prop } else { a.0 + ","@ + prop }, a.1 || b.1)
    }
}

impl Val {
    /// The strict type name of the value.
    pub fn get_strict_type(&self) -> (res: &'static str)
        ensures
            res@ == strict_type(self@),
    {
        match self {
            Val::Null => "null",
            Val::Undefined => "undefined",
            Val::Boolean(_) => "boolean",
            Val::Number(_) => "number",
            Val::String(_) => "string",
            Val::BigInt(_) => "bigint",
            Val::Array(_) => "array",
            Val::Func(_) => "function",
            _ => "object",
        }
    }
}

/// The memo key of an argument list, each argument serialized at depth zero
/// and joined by commas, and whether some argument lay past the depth limit.
pub fn serialize_args(args: &[Val]) -> (r: (String, bool))
    ensures
        r.0@ == ser_list(models(args@), 0).0,
        r.1 == ser_list(models(args@), 0).1,
{
    let ghost ms = models(args@);
    let mut out = String::new();
    let mut deep = false;
    let mut i: usize = 0;
    while i < args.len()
        invariant
            ms == models(args@),
            i <= args@.len(),
            out@ == ser_list(ms.take(i as int), 0).0,
            deep == ser_list(ms.take(i as int), 0).1,
        decreases args.len() - i,
    {
        if i > 0 {
            out.append(",");
        }
        let t = args[i].serialize_arg(0, &mut deep);
        out.append(t.as_str());
        proof {
            assert(ms[i as int] == args@[i as int]@);
            assert(ms.take(i + 1).drop_last() =~= ms.take(i as int));
            assert(ms.take(i + 1).last() == ms[i as int]);
            if i == 0 {
                assert(ser_list(ms.take(0), 0).0 =~= Seq::<char>::empty());
                assert(out@ =~= ser_list(ms.take(1), 0).0);
            }
        }
        i = i + 1;
    }
    assert(ms.take(args@.len() as int) =~= ms);
    (out, deep)
}

/// The call signature of an argument list.
pub fn get_strict_signature(args: &[Val]) -> (res: String)
    ensures
        res@ == strict_signature(models(args@)),
{
    let len = args.len();
    if len == 0 {
        return String::from_str("void");
    }
    let ghost ms = models(args@);
    let mut res = String::from_str(args[0].get_strict_type());
    assert(ms.take(1).drop_last() =~= Seq::<VVal>::empty());
    assert(type_join(ms.take(1)) == strict_type(ms[0]));
    let mut i: usize = 1;
    while i < len
        invariant
            len == args@.len(),
            ms == models(args@),
            1 <= i <= len,
            res@ == type_join(ms.take(i as int)),
        decreases len - i,
    {
        res.append("_");
        res.append(args[i].get_strict_type());
        assert(ms.take(i + 1).drop_last() =~= ms.take(i as int));
        i = i + 1;
    }
    assert(ms.take(len as int) =~= ms);
    res
}

impl Clone for Val {
    /// A deep copy with the same model.
    fn clone(&self) -> (res: Self)
        ensures
            res@ == self@,
        decreases self,
    {
        match self {
            Val::Null => Val::Null,
            Val::Undefined => Val::Undefined,
            Val::Boolean(b) => Val::Boolean(*b),
            Val::Number(t) => Val::Number(t.clone()),
            Val::String(t) => Val::String(t.clone()),
            Val::BigInt(i) => Val::BigInt(*i),
            Val::Array(items) => {
                let mut out: Vec<Val> = Vec::new();
                let mut i: usize = 0;
                while i < items.len()
                    invariant
                        *self == Val::Array(*items),
                        i <= items.len(),
                        out@.len() == i,
                        forall|j: int| 0 <= j < i ==> (#[trigger] out@[j])@ == items@[j]@,
                    decreases items.len() - i,
                {
                    proof {
                        assert(decreases_to!(*items => items[i as int]));
                        assert(decreases_to!(*self => (*self)->Array_0));
                    }
                    let c = items[i].clone();
                    out.push(c);
                    i = i + 1;
                }
                let res = Val::Array(out);
                assert(res@ =~= self@) by {
                    assert(res.model()->Array_0 =~= self.model()->Array_0);
                }
                res
            },
            Val::Object(m) => {
                let c = m.clone_map();
                let res = Val::Object(c);
                assert(res.model()->Object_0 =~= c.entry_models());
                assert(self.model()->Object_0 =~= m.entry_models());
                res
            },
            Val::MapVal(m) => {
                let c = m.clone_map();
                let res = Val::MapVal(c);
                assert(res.model()->MapVal_0 =~= c.entry_models());
                assert(self.model()->MapVal_0 =~= m.entry_models());
                res
            },
            Val::SetVal(st) => {
                let c = st.clone_set();
                let res = Val::SetVal(c);
                assert(res.model()->SetVal_0 =~= self.model()->SetVal_0);
                res
            },
            Val::Date(t) => Val::Date(*t),
            Val::RegExp(r) => Val::RegExp(r.clone()),
            Val::Func(f) => Val::Func(f.clone()),
        }
    }
}

impl ValMap {
    /// A deep copy with the same entries.
    pub fn clone_map(&self) -> (res: ValMap)
        ensures
            res.entry_models() == self.entry_models(),
        decreases self,
    {
        let mut out: Vec<(String, Val)> = Vec::new();
        let mut i: usize = 0;
        while i < self.entries.len()
            invariant
                i <= self.entries.len(),
                out@.len() == i,
                forall|j: int|
                    0 <= j < i ==> (#[trigger] out@[j]).0@ == self.entries@[j].0@ && out@[j].1@
                        == self.entries@[j].1@,
            decreases self.entries.len() - i,
        {
            proof {
                assert(decreases_to!(self => self.entries));
                assert(decreases_to!(self.entries => self.entries[i as int]));
                assert(decreases_to!(self.entries[i as int] => self.entries[i as int].1));
            }
            let k = self.entries[i].0.clone();
            let v = self.entries[i].1.clone();
            out.push((k, v));
            i = i + 1;
        }
        let res = ValMap { entries: out };
        assert(res.entry_models() =~= self.entry_models());
        res
    }
}

impl ValSet {
    /// A copy with the same items.
    pub fn clone_set(&self) -> (res: ValSet)
        ensures
            res.item_models() == self.item_models(),
    {
        let mut out: Vec<String> = Vec::new();
        let mut i: usize = 0;
        while i < self.items.len()
            invariant
                i <= self.items.len(),
                out@.len() == i,
                forall|j: int| 0 <= j < i ==> (#[trigger] out@[j])@ == self.items@[j]@,
            decreases self.items.len() - i,
        {
            out.push(self.items[i].clone());
            i = i + 1;
        }
        let res = ValSet { items: out };
        assert(res.item_models() =~= self.item_models());
        res
    }
}

impl Val {
    /// Serializes the value at nesting depth `depth`. Past the depth limit the
    /// text `[Object...]` stands in and `is_too_deep` is set; the flag is
    /// never cleared.
    pub fn serialize_arg(&self, depth: usize, is_too_deep: &mut bool) -> (res: String)
        ensures
            res@ == ser(self@, depth as nat).0,
            *final(is_too_deep) == (*old(is_too_deep) || ser(self@, depth as nat).1),
        decreases 6 - depth,
    {
        if depth > MAX_SERIALIZE_DEPTH {
            *is_too_deep = true;
            return String::from_str("[Object...]");
        }
        let d1 = depth + 1;
        match self {
            Val::Null => String::from_str("null"),
            Val::Undefined => String::from_str("undefined"),
            Val::Boolean(b) => if *b {
                String::from_str("true")
            } else {
                String::from_str("false")
            },
            Val::Number(t) => t.clone(),
            Val::String(t) => t.clone(),
            Val::BigInt(i) => {
                let mut out = String::from_str("BigInt:");
                push_signed_decimal(&mut out, *i);
                out
            },
            Val::Date(t) => {
                let mut out = String::from_str("Date:");
                push_decimal(&mut out, *t as u128);
                out
            },
            Val::RegExp(r) => {
                let mut out = String::from_str("RegExp:");
                out.append(r.as_str());
                out
            },
            Val::Func(f) => f.clone(),
            Val::Array(items) => {
                let ghost ms = self@->Array_0;
                let mut out = String::from_str("[");
                let mut i: usize = 0;
                while i < items.len()
                    invariant
                        ms == self@->Array_0,
                        *self == Val::Array(*items),
                        ms.len() == items@.len(),
                        forall|j: int| 0 <= j < ms.len() ==> ms[j] == (#[trigger] items@[j])@,
                        depth <= 5,
                        d1 == depth + 1,
                        i <= items.len(),
                        out@ == "["@ + ser_list(ms.take(i as int), d1 as nat).0,
                        *is_too_deep == (*old(is_too_deep) || ser_list(ms.take(i as int), d1 as nat).1),
                    decreases items.len() - i,
                {
                    if i > 0 {
                        out.append(",");
                    }
                    let t = items[i].serialize_arg(d1, is_too_deep);
                    out.append(t.as_str());
                    proof {
                        assert(ms.take(i + 1).drop_last() =~= ms.take(i as int));
                        assert(ms.take(i + 1).last() == ms[i as int]);
                        if i == 0 {
                            assert(ser_list(ms.take(0), d1 as nat).0 =~= Seq::<char>::empty());
                        }
                    }
                    i = i + 1;
                }
                out.append("]");
                assert(ms.take(items.len() as int) =~= ms);
                out
            },
            Val::Object(m) => {
                let ghost es = m.entry_models();
                proof {
                    assert(self@->Object_0 =~= es);
                }
                let mut out = String::from_str("Object{");
                let mut i: usize = 0;
                while i < m.entries.len()
                    invariant
                        es == m.entry_models(),
                        es.len() == m.entries@.len(),
                        depth <= 5,
                        d1 == depth + 1,
                        i <= m.entries.len(),
                        out@ == "Object{"@ + ser_props(es.take(i as int), d1 as nat).0,
                        *is_too_deep == (*old(is_too_deep) || ser_props(es.take(i as int), d1 as nat).1),
                    decreases m.entries.len() - i,
                {
                    if i > 0 {
                        out.append(",");
                    }
                    out.append(m.entries[i].0.as_str());
                    out.append(":");
                    let t = m.entries[i].1.serialize_arg(d1, is_too_deep);
                    out.append(t.as_str());
                    proof {
                        assert(es[i as int] == (m.entries@[i as int].0@, m.entries@[i as int].1@));
                        assert(es.take(i + 1).drop_last() =~= es.take(i as int));
                        assert(es.take(i + 1).last() == es[i as int]);
                        if i == 0 {
                            assert(ser_props(es.take(0), d1 as nat).0 =~= Seq::<char>::empty());
                        }
                    }
                    i = i + 1;
                }
                out.append("}");
                assert(es.take(m.entries.len() as int) =~= es);
                out
            },
            Val::MapVal(m) => {
                let ghost es = m.entry_models();
                proof {
                    assert(self@->MapVal_0 =~= es);
                }
                let mut pairs: Vec<Val> = Vec::new();
                let mut i: usize = 0;
                while i < m.entries.len()
                    invariant
                        es == m.entry_models(),
                        es.len() == m.entries@.len(),
                        i <= m.entries.len(),
                        pairs@.len() == i,
                        forall|j: int| 0 <= j < i ==> (#[trigger] pairs@[j])@ == entry_pairs(es)[j],
                    decreases m.entries.len() - i,
                {
                    let mut pair: Vec<Val> = Vec::new();
                    pair.push(Val::String(m.entries[i].0.clone()));
                    pair.push(m.entries[i].1.clone());
                    let pv = Val::Array(pair);
                    assert(es[i as int] == (m.entries@[i as int].0@, m.entries@[i as int].1@));
                    assert(pair@.len() == 2);
                    assert(pair@[0]@ == VVal::Str(es[i as int].0));
                    assert(pair@[1]@ == es[i as int].1);
                    assert(pv@->Array_0 =~= seq![VVal::Str(es[i as int].0), es[i as int].1]);
                    pairs.push(pv);
                    i = i + 1;
                }
                let arr = Val::Array(pairs);
                assert(arr@->Array_0 =~= entry_pairs(es));
                let t = arr.serialize_arg(d1, is_too_deep);
                let mut out = String::from_str("Map:");
                out.append(t.as_str());
                out
            },
            Val::SetVal(st) => {
                let ghost its = st.item_models();
                let mut strs: Vec<Val> = Vec::new();
                let mut i: usize = 0;
                while i < st.items.len()
                    invariant
                        its == st.item_models(),
                        its.len() == st.items@.len(),
                        i <= st.items.len(),
                        strs@.len() == i,
                        forall|j: int| 0 <= j < i ==> (#[trigger] strs@[j])@ == item_strs(its)[j],
                    decreases st.items.len() - i,
                {
                    strs.push(Val::String(st.items[i].clone()));
                    i = i + 1;
                }
                let arr = Val::Array(strs);
                assert(arr@->Array_0 =~= item_strs(its));
                assert(self@->SetVal_0 =~= its);
                let t = arr.serialize_arg(d1, is_too_deep);
                let mut out = String::from_str("Set:");
                out.append(t.as_str());
                out
            },
        }
    }
}

/// The map that an entry list denotes.
pub open spec fn entries_to_map(es: Seq<(Seq<char>, VVal)>) -> Map<Seq<char>, VVal> {
    Map::new(
        |k: Seq<char>| exists|i: int| 0 <= i < es.len() && (#[trigger] es[i]).0 == k,
        |k: Seq<char>| es[choose|i: int| 0 <= i < es.len() && (#[trigger] es[i]).0 == k].1,
    )
}

/// An entry whose key occurs once gives the map its value under that key.
proof fn lemma_entries_to_map_at(es: Seq<(Seq<char>, VVal)>, n: int)
    requires
        0 <= n < es.len(),
        forall|j: int| 0 <= j < es.len() && #[trigger] es[j].0 == es[n].0 ==> j == n,
    ensures
        entries_to_map(es).contains_key(es[n].0),
        entries_to_map(es)[es[n].0] == es[n].1,
{
    let k = es[n].0;
    assert(entries_to_map(es).dom().contains(k));
    let i = choose|i: int| 0 <= i < es.len() && (#[trigger] es[i]).0 == k;
    assert(i == n);
}

impl ValMap {
    /// The keys, in stored order.
    pub open spec fn keys(self) -> Seq<Seq<char>> {
        self.entry_models().map_values(|e: (Seq<char>, VVal)| e.0)
    }

    /// The keys ascend.
    pub open spec fn wf(self) -> bool {
        keys_ascending(self.keys())
    }

    /// The key-value map.
    pub open spec fn as_map(self) -> Map<Seq<char>, VVal> {
        entries_to_map(self.entry_models())
    }

    /// In a well-formed map the entries are its key-value map listed in
    /// ascending key order.
    pub proof fn lemma_entries_sorted(self)
        requires
            self.wf(),
        ensures
            self.as_map().dom().finite(),
            self.keys() == sorted_keys(self.as_map().dom()),
            self.entry_models().len() == self.keys().len(),
            forall|i: int| 0 <= i < self.keys().len() ==> #[trigger] self.entry_models()[i] == (self.keys()[i], self.as_map()[self.keys()[i]]),
    {
        let es = self.entry_models();
        let ks = self.keys();
        assert(self.as_map().dom() =~= ks.to_set()) by {
            assert forall|k: Seq<char>| self.as_map().dom().contains(k) <==> ks.to_set().contains(k) by {
                if ks.contains(k) {
                    let i = choose|i: int| 0 <= i < ks.len() && ks[i] == k;
                    assert(es[i].0 == k);
                }
                if self.as_map().dom().contains(k) {
                    let i = choose|i: int| 0 <= i < es.len() && (#[trigger] es[i]).0 == k;
                    assert(ks[i] == k);
                }
            }
        }
        lemma_sorted_keys(ks);
        assert forall|i: int| 0 <= i < ks.len() implies #[trigger] es[i] == (ks[i], self.as_map()[ks[i]]) by {
            let k = ks[i];
            assert(es[i].0 == k);
            assert forall|j: int| 0 <= j < es.len() && #[trigger] es[j].0 == es[i].0 implies j == i by {
                assert(ks[j] == k);
                lemma_ascending_distinct(ks, i, j);
            }
            lemma_entries_to_map_at(es, i);
            assert(es[i] == (es[i].0, es[i].1));
        }
    }

    /// An empty map.
    pub fn new() -> (res: ValMap)
        ensures
            res.wf(),
            res.entry_models() == Seq::<(Seq<char>, VVal)>::empty(),
    {
        let res = ValMap { entries: Vec::new() };
        assert(res.entry_models() =~= Seq::<(Seq<char>, VVal)>::empty());
        res
    }

    /// The number of entries.
    pub fn len(&self) -> (n: usize)
        ensures
            n == self.entry_models().len(),
    {
        self.entries.len()
    }

    /// The entry at position `i` of the ascending key order.
    pub fn entry_at(&self, i: usize) -> (r: (&String, &Val))
        requires
            i < self.entry_models().len(),
        ensures
            (r.0@, r.1@) == self.entry_models()[i as int],
    {
        (&self.entries[i].0, &self.entries[i].1)
    }

    /// Inserts `value` under `key`, replacing the value already there; the
    /// keys stay in ascending order.
    pub fn insert(&mut self, key: String, value: Val)
        requires
            old(self).wf(),
        ensures
            final(self).wf(),
            final(self).as_map() == old(self).as_map().insert(key@, value@),
    {
        let ghost es = self.entry_models();
        let ghost ks = self.keys();
        let n = self.entries.len();
        let mut j: usize = 0;
        while j < n && str_less(self.entries[j].0.as_str(), key.as_str())
            invariant
                n == self.entries@.len(),
                es == self.entry_models(),
                ks == self.keys(),
                j <= n,
                forall|i: int| 0 <= i < j ==> seq_less(#[trigger] ks[i], key@),
            decreases n - j,
        {
            assert(ks[j as int] == self.entries@[j as int].0@);
            j = j + 1;
        }
        proof {
            assert(forall|i: int| 0 <= i < n ==> #[trigger] ks[i] == self.entries@[i].0@);
            assert(forall|i: int| 0 <= i < n ==> #[trigger] es[i] == (self.entries@[i].0@, self.entries@[i].1@));
        }
        if j < n && self.entries[j].0 == key {
            let ghost vm = value@;
            self.entries.set(j, (key, value));
            proof {
                let es2 = self.entry_models();
                assert(es2 =~= es.update(j as int, (ks[j as int], vm)));
                assert(self.keys() =~= ks);
                assert forall|q: Seq<char>| true implies (#[trigger] self.as_map().dom().contains(q) == old(self).as_map().insert(ks[j as int], vm).dom().contains(q)) by {
                    if exists|i: int| 0 <= i < es.len() && (#[trigger] es[i]).0 == q {
                        let i = choose|i: int| 0 <= i < es.len() && (#[trigger] es[i]).0 == q;
                        assert(es2[i].0 == q);
                    }
                    if exists|i: int| 0 <= i < es2.len() && (#[trigger] es2[i]).0 == q {
                        let i = choose|i: int| 0 <= i < es2.len() && (#[trigger] es2[i]).0 == q;
                        assert(es[i].0 == q);
                    }
                }
                assert forall|q: Seq<char>| #[trigger] self.as_map().dom().contains(q) implies self.as_map()[q] == old(self).as_map().insert(ks[j as int], vm)[q] by {
                    let i2 = choose|i: int| 0 <= i < es2.len() && (#[trigger] es2[i]).0 == q;
                    assert(self.keys()[i2] == q);
                    if q == ks[j as int] {
                        lemma_ascending_distinct(ks, i2, j as int);
                    } else {
                        let i1 = choose|i: int| 0 <= i < es.len() && (#[trigger] es[i]).0 == q;
                        assert(ks[i1] == q);
                        lemma_ascending_distinct(ks, i1, i2);
                    }
                }
                assert(self.as_map() =~= old(self).as_map().insert(key@, vm));
            }
        } else {
            let ghost vm = value@;
            let ghost km = key@;
            self.entries.insert(j, (key, value));
            proof {
                let es2 = self.entry_models();
                assert(es2 =~= es.insert(j as int, (km, vm)));
                let ks2 = self.keys();
                assert(ks2 =~= ks.insert(j as int, km));
                if j < n {
                    lemma_seq_less_total(km, ks[j as int]);
                }
                assert forall|a: int, b: int| 0 <= a < b < ks2.len() implies seq_less(#[trigger] ks2[a], #[trigger] ks2[b]) by {
                    if a < j && b == j {
                    } else if a < j && b > j {
                        if b - 1 > a {
                        }
                    } else if a == j && b > j {
                        if b - 1 > j {
                            lemma_seq_less_transitive(km, ks[j as int], ks[b - 1]);
                        }
                    } else if a > j {
                        assert(ks2[a] == ks[a - 1]);
                        assert(ks2[b] == ks[b - 1]);
                    }
                }
                assert forall|i: int| 0 <= i < n implies #[trigger] ks[i] != km by {
                    if i < j {
                        lemma_seq_less_irreflexive(km);
                    } else {
                        lemma_seq_less_irreflexive(km);
                        if i > j {
                            lemma_seq_less_transitive(km, ks[j as int], ks[i]);
                        }
                    }
                }
                assert forall|q: Seq<char>| true implies (#[trigger] self.as_map().dom().contains(q) == old(self).as_map().insert(km, vm).dom().contains(q)) by {
                    if exists|i: int| 0 <= i < es.len() && (#[trigger] es[i]).0 == q {
                        let i = choose|i: int| 0 <= i < es.len() && (#[trigger] es[i]).0 == q;
                        if i < j {
                            assert(es2[i].0 == q);
                        } else {
                            assert(es2[i + 1].0 == q);
                        }
                    }
                    if q == km {
                        assert(es2[j as int].0 == q);
                    }
                    if exists|i: int| 0 <= i < es2.len() && (#[trigger] es2[i]).0 == q {
                        let i = choose|i: int| 0 <= i < es2.len() && (#[trigger] es2[i]).0 == q;
                        if i < j {
                            assert(es[i].0 == q);
                        } else if i > j {
                            assert(es[i - 1].0 == q);
                        }
                    }
                }
                assert forall|q: Seq<char>| #[trigger] self.as_map().dom().contains(q) implies self.as_map()[q] == old(self).as_map().insert(km, vm)[q] by {
                    let i2 = choose|i: int| 0 <= i < es2.len() && (#[trigger] es2[i]).0 == q;
                    assert(ks2[i2] == q);
                    if q == km {
                        lemma_ascending_distinct(ks2, i2, j as int);
                    } else {
                        let i1 = choose|i: int| 0 <= i < es.len() && (#[trigger] es[i]).0 == q;
                        if i1 < j {
                            assert(ks2[i1] == q);
                            lemma_ascending_distinct(ks2, i1, i2);
                        } else {
                            assert(ks2[i1 + 1] == q);
                            lemma_ascending_distinct(ks2, i1 + 1, i2);
                        }
                    }
                }
                assert(self.as_map() =~= old(self).as_map().insert(km, vm));
            }
        }
    }
}

impl ValSet {
    /// The items ascend.
    pub open spec fn wf(self) -> bool {
        keys_ascending(self.item_models())
    }

    /// The set of items.
    pub open spec fn as_set(self) -> Set<Seq<char>> {
        self.item_models().to_set()
    }

    /// In a well-formed set the items are its members in ascending order.
    pub proof fn lemma_items_sorted(self)
        requires
            self.wf(),
        ensures
            self.as_set().finite(),
            self.item_models() == sorted_keys(self.as_set()),
    {
        lemma_sorted_keys(self.item_models());
    }

    /// An empty set.
    pub fn new() -> (res: ValSet)
        ensures
            res.wf(),
            res.item_models() == Seq::<Seq<char>>::empty(),
    {
        let res = ValSet { items: Vec::new() };
        assert(res.item_models() =~= Seq::<Seq<char>>::empty());
        res
    }

    /// The number of items.
    pub fn len(&self) -> (n: usize)
        ensures
            n == self.item_models().len(),
    {
        self.items.len()
    }

    /// The item at position `i` of the ascending order.
    pub fn item_at(&self, i: usize) -> (r: &String)
        requires
            i < self.item_models().len(),
        ensures
            r@ == self.item_models()[i as int],
    {
        &self.items[i]
    }

    /// Adds `item`; the items stay in ascending order, each once.
    pub fn insert(&mut self, item: String)
        requires
            old(self).wf(),
        ensures
            final(self).wf(),
            final(self).as_set() == old(self).as_set().insert(item@),
    {
        let ghost ks = self.item_models();
        let n = self.items.len();
        let mut j: usize = 0;
        while j < n && str_less(self.items[j].as_str(), item.as_str())
            invariant
                n == self.items@.len(),
                ks == self.item_models(),
                j <= n,
                forall|i: int| 0 <= i < j ==> seq_less(#[trigger] ks[i], item@),
            decreases n - j,
        {
            assert(ks[j as int] == self.items@[j as int]@);
            j = j + 1;
        }
        proof {
            assert(forall|i: int| 0 <= i < n ==> #[trigger] ks[i] == self.items@[i]@);
        }
        if j < n && self.items[j] == item {
            assert(ks[j as int] == item@);
            assert(ks.contains(item@));
            assert(ks.to_set().insert(item@) =~= ks.to_set());
        } else {
            let ghost km = item@;
            self.items.insert(j, item);
            proof {
                let ks2 = self.item_models();
                assert(ks2 =~= ks.insert(j as int, km));
                if j < n {
                    lemma_seq_less_total(km, ks[j as int]);
                }
                assert forall|a: int, b: int| 0 <= a < b < ks2.len() implies seq_less(#[trigger] ks2[a], #[trigger] ks2[b]) by {
                    if a == j && b > j {
                        if b - 1 > j {
                            lemma_seq_less_transitive(km, ks[j as int], ks[b - 1]);
                        }
                    } else if a > j {
                        assert(ks2[a] == ks[a - 1]);
                        assert(ks2[b] == ks[b - 1]);
                    }
                }
                assert forall|q: Seq<char>| true implies (#[trigger] ks2.to_set().contains(q) == ks.to_set().insert(km).contains(q)) by {
                    if ks.contains(q) {
                        let i = choose|i: int| 0 <= i < ks.len() && ks[i] == q;
                        if i < j {
                            assert(ks2[i] == q);
                        } else {
                            assert(ks2[i + 1] == q);
                        }
                    }
                    if q == km {
                        assert(ks2[j as int] == q);
                    }
                    if ks2.contains(q) {
                        let i = choose|i: int| 0 <= i < ks2.len() && ks2[i] == q;
                        if i < j {
                            assert(ks[i] == q);
                        } else if i > j {
                            assert(ks[i - 1] == q);
                        }
                    }
                }
                assert(ks2.to_set() =~= ks.to_set().insert(km));
            }
        }
    }
}

} // verus!
