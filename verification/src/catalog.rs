//! The compiled catalog: interned identifiers and per-kind stride tables.

use crate::radix::{
    lemma_prod_all_pos, lemma_prod_bounds, lemma_prod_skip_unfold, lemma_prod_zero, prod,
};
use crate::schema::{
    block_has_prop_name, block_has_value, block_props_unique, block_range_ok, block_sizes,
    check_schema, domain_len, domain_of, domain_values, range_start, schema_has_prop_name,
    schema_has_value, schema_ok, BlockDef, SchemaError,
};
use crate::text::{
    dec_repr, dec_val, is_dec_seq, parse_u16, str_same, table_find, table_insert, table_sorted,
    u32_to_dec,
};
use vstd::prelude::*;

verus! {

/// An interned block kind: its index in declaration order.
#[derive(Copy, Clone, PartialEq, Eq, Structural, Debug, Hash)]
pub struct BlockType(pub usize);

/// An interned property name: its index in the sorted name table.
#[derive(Copy, Clone, PartialEq, Eq, Structural, Debug, Hash)]
pub struct PropName(pub usize);

/// An interned property value string: its index in the sorted value table.
#[derive(Copy, Clone, PartialEq, Eq, Structural, Debug, Hash)]
pub struct PropValue(pub usize);

/// One property of a compiled block kind: its interned name, its mixed-radix
/// weight, and its domain as interned values in declaration order.
pub struct TypeProp {
    pub name: PropName,
    pub stride: u32,
    pub vals: Vec<PropValue>,
}

/// One compiled block kind: its name, id range, default id and properties.
pub struct TypeEntry {
    pub name: String,
    pub min: u16,
    pub max: u16,
    pub default: u16,
    pub props: Vec<TypeProp>,
}

/// The domain sizes of an entry's properties, in declaration order.
pub open spec fn entry_sizes(e: TypeEntry) -> Seq<int> {
    Seq::new(e.props@.len() as nat, |k: int| e.props@[k].vals@.len() as int)
}

/// A compiled entry is internally sound: its range starts at `start`, spans
/// exactly the product of its domain sizes, holds its default, and each
/// property has the suffix-product stride and in-range interned identifiers.
pub open spec fn entry_wf(e: TypeEntry, start: int, n_names: int, n_values: int) -> bool {
    &&& e.min as int == start
    &&& e.min <= e.max
    &&& e.max as int - e.min as int + 1 == prod(entry_sizes(e))
    &&& e.min <= e.default <= e.max
    &&& forall|k: int| 0 <= k < e.props@.len() ==> (#[trigger] e.props@[k]).name.0 < n_names
    &&& forall|k: int|
        0 <= k < e.props@.len() ==> (#[trigger] e.props@[k]).stride as int == prod(
            entry_sizes(e).skip(k + 1),
        )
    &&& forall|k: int| 0 <= k < e.props@.len() ==> 1 <= (#[trigger] e.props@[k]).stride <= 0x10000
    &&& forall|k: int|
        0 <= k < e.props@.len() ==> 1 <= (#[trigger] e.props@[k]).vals@.len() <= 0x10000
    &&& forall|k: int, v: int|
        0 <= k < e.props@.len() && 0 <= v < e.props@[k].vals@.len() ==> (#[trigger] e.props@[
            k
        ].vals@[v]).0 < n_values
    &&& forall|k1: int, k2: int|
        0 <= k1 < k2 < e.props@.len() ==> e.props@[k1].name != e.props@[k2].name
}

/// A compiled entry records exactly the schema block `b`, with every string
/// resolved through the interning tables.
pub open spec fn entry_matches(
    e: TypeEntry,
    b: BlockDef,
    names: Seq<Seq<char>>,
    values: Seq<Seq<char>>,
) -> bool {
    &&& e.name@ == b.name@
    &&& e.min == b.min_state_id
    &&& e.max == b.max_state_id
    &&& e.default == b.default_state
    &&& e.props@.len() == b.props@.len()
    &&& forall|k: int|
        0 <= k < e.props@.len() ==> names[(#[trigger] e.props@[k]).name.0 as int] == b.props@[
            k
        ].name@
    &&& forall|k: int|
        0 <= k < e.props@.len() ==> (#[trigger] e.props@[k]).vals@.len() == domain_of(
            b.props@[k],
        ).len()
    &&& forall|k: int, v: int|
        0 <= k < e.props@.len() && 0 <= v < e.props@[k].vals@.len() ==> values[(#[trigger] e.props@[
            k
        ].vals@[v]).0 as int] == domain_of(b.props@[k])[v]
}

/// The compiled, immutable lookup tables for one block schema.
pub struct Catalog {
    pub types: Vec<TypeEntry>,
    pub prop_names: Vec<String>,
    pub prop_values: Vec<String>,
}

impl Catalog {
    /// Where type `t`'s range must start: right after its predecessor's.
    pub open spec fn start_of(self, t: int) -> int {
        if t == 0 {
            0
        } else {
            self.types@[t - 1].max as int + 1
        }
    }

    /// One past the largest valid state id.
    pub open spec fn id_end(self) -> int {
        if self.types@.len() == 0 {
            0
        } else {
            self.types@[self.types@.len() - 1].max as int + 1
        }
    }

    /// The catalog's structural invariant: sorted, duplicate-free string
    /// tables; type names unique; and every entry sound, the ranges tiling
    /// the id space contiguously from zero.
    pub open spec fn wf(self) -> bool {
        &&& table_sorted(self.prop_names.deep_view())
        &&& table_sorted(self.prop_values.deep_view())
        &&& forall|t: int|
            0 <= t < self.types@.len() ==> entry_wf(
                #[trigger] self.types@[t],
                self.start_of(t),
                self.prop_names@.len() as int,
                self.prop_values@.len() as int,
            )
        &&& forall|t1: int, t2: int|
            0 <= t1 < t2 < self.types@.len() ==> self.types@[t1].name@ != self.types@[t2].name@
    }

    /// The catalog records exactly the given schema: entries in declaration
    /// order, and the string tables holding no more than the schema's names
    /// and value strings.
    pub open spec fn matches_schema(self, schema: Seq<BlockDef>) -> bool {
        &&& self.types@.len() == schema.len()
        &&& forall|t: int|
            0 <= t < schema.len() ==> entry_matches(
                #[trigger] self.types@[t],
                schema[t],
                self.prop_names.deep_view(),
                self.prop_values.deep_view(),
            )
        &&& forall|p: int|
            0 <= p < self.prop_names@.len() ==> schema_has_prop_name(
                schema,
                self.prop_names.deep_view()[p],
            )
        &&& forall|v: int|
            0 <= v < self.prop_values@.len() ==> schema_has_value(
                schema,
                self.prop_values.deep_view()[v],
            )
    }

    /// In a well-formed catalog, ranges of distinct types never meet.
    pub proof fn lemma_ranges_ordered(self, t1: int, t2: int)
        requires
            self.wf(),
            0 <= t1 < t2 < self.types@.len(),
        ensures
            self.types@[t1].max < self.types@[t2].min,
        decreases t2 - t1,
    {
        if t2 == t1 + 1 {
        } else {
            self.lemma_ranges_ordered(t1, t2 - 1);
        }
    }
}

/// Interns every property name and every domain value string of the schema
/// into two sorted, duplicate-free tables.
fn intern_tables(schema: &Vec<BlockDef>) -> (r: (Vec<String>, Vec<String>))
    ensures
        table_sorted(r.0.deep_view()),
        table_sorted(r.1.deep_view()),
        forall|x: Seq<char>| r.0.deep_view().contains(x) ==> schema_has_prop_name(schema@, x),
        forall|x: Seq<char>| r.1.deep_view().contains(x) ==> schema_has_value(schema@, x),
        forall|a: int, k: int|
            0 <= a < schema@.len() && 0 <= k < schema@[a].props@.len() ==> r.0.deep_view().contains(
                (#[trigger] schema@[a].props@[k]).name@,
            ),
        forall|a: int, k: int, v: int|
            0 <= a < schema@.len() && 0 <= k < schema@[a].props@.len() && 0 <= v < domain_of(
                schema@[a].props@[k],
            ).len() ==> r.1.deep_view().contains(
                #[trigger] domain_of(schema@[a].props@[k])[v],
            ),
{
    let mut names: Vec<String> = Vec::new();
    let mut values: Vec<String> = Vec::new();
    let mut i: usize = 0;
    while i < schema.len()
        invariant
            0 <= i <= schema@.len(),
            table_sorted(names.deep_view()),
            table_sorted(values.deep_view()),
            forall|x: Seq<char>| names.deep_view().contains(x) ==> schema_has_prop_name(schema@, x),
            forall|x: Seq<char>| values.deep_view().contains(x) ==> schema_has_value(schema@, x),
            forall|a: int, k: int|
                0 <= a < i && 0 <= k < schema@[a].props@.len() ==> names.deep_view().contains(
                    (#[trigger] schema@[a].props@[k]).name@,
                ),
            forall|a: int, k: int, v: int|
                0 <= a < i && 0 <= k < schema@[a].props@.len() && 0 <= v < domain_of(
                    schema@[a].props@[k],
                ).len() ==> values.deep_view().contains(
                    #[trigger] domain_of(schema@[a].props@[k])[v],
                ),
        decreases schema@.len() - i,
    {
        let b = &schema[i];
        let mut k: usize = 0;
        while k < b.props.len()
            invariant
                0 <= k <= b.props@.len(),
                0 <= i < schema@.len(),
                *b == schema@[i as int],
                table_sorted(names.deep_view()),
                table_sorted(values.deep_view()),
                forall|x: Seq<char>|
                    names.deep_view().contains(x) ==> schema_has_prop_name(schema@, x),
                forall|x: Seq<char>|
                    values.deep_view().contains(x) ==> schema_has_value(schema@, x),
                forall|a: int, k2: int|
                    0 <= a < i && 0 <= k2 < schema@[a].props@.len()
                        ==> names.deep_view().contains(
                        (#[trigger] schema@[a].props@[k2]).name@,
                    ),
                forall|a: int, k2: int, v: int|
                    0 <= a < i && 0 <= k2 < schema@[a].props@.len() && 0 <= v < domain_of(
                        schema@[a].props@[k2],
                    ).len() ==> values.deep_view().contains(
                        #[trigger] domain_of(schema@[a].props@[k2])[v],
                    ),
                forall|k2: int|
                    0 <= k2 < k ==> names.deep_view().contains(
                        (#[trigger] schema@[i as int].props@[k2]).name@,
                    ),
                forall|k2: int, v: int|
                    0 <= k2 < k && 0 <= v < domain_of(schema@[i as int].props@[k2]).len()
                        ==> values.deep_view().contains(
                        #[trigger] domain_of(schema@[i as int].props@[k2])[v],
                    ),
            decreases b.props@.len() - k,
        {
            table_insert(&mut names, b.props[k].name.as_str());
            proof {
                assert(schema_has_prop_name(schema@, schema@[i as int].props@[k as int].name@))
                    by {
                    assert(block_has_prop_name(
                        schema@[i as int],
                        schema@[i as int].props@[k as int].name@,
                    ));
                }
            }
            let dom: Vec<String> = domain_values(&b.props[k]);
            let mut v: usize = 0;
            while v < dom.len()
                invariant
                    0 <= v <= dom@.len(),
                    0 <= i < schema@.len(),
                    0 <= k < schema@[i as int].props@.len(),
                    *b == schema@[i as int],
                    dom.deep_view() == domain_of(schema@[i as int].props@[k as int]),
                    table_sorted(values.deep_view()),
                    forall|x: Seq<char>|
                        values.deep_view().contains(x) ==> schema_has_value(schema@, x),
                    forall|a: int, k2: int, v2: int|
                        0 <= a < i && 0 <= k2 < schema@[a].props@.len() && 0 <= v2 < domain_of(
                            schema@[a].props@[k2],
                        ).len() ==> values.deep_view().contains(
                            #[trigger] domain_of(schema@[a].props@[k2])[v2],
                        ),
                    forall|k2: int, v2: int|
                        0 <= k2 < k && 0 <= v2 < domain_of(schema@[i as int].props@[k2]).len()
                            ==> values.deep_view().contains(
                            #[trigger] domain_of(schema@[i as int].props@[k2])[v2],
                        ),
                    forall|v2: int|
                        0 <= v2 < v ==> values.deep_view().contains(
                            #[trigger] domain_of(schema@[i as int].props@[k as int])[v2],
                        ),
                decreases dom@.len() - v,
            {
                table_insert(&mut values, dom[v].as_str());
                proof {
                    assert(dom@[v as int]@ == domain_of(schema@[i as int].props@[k as int])[
                        v as int
                    ]) by {
                        assert(dom.deep_view()[v as int] == dom@[v as int]@);
                    }
                    assert(schema_has_value(
                        schema@,
                        domain_of(schema@[i as int].props@[k as int])[v as int],
                    )) by {
                        assert(block_has_value(
                            schema@[i as int],
                            domain_of(schema@[i as int].props@[k as int])[v as int],
                        ));
                    }
                }
                v = v + 1;
            }
            k = k + 1;
        }
        i = i + 1;
    }
    (names, values)
}

impl BlockType {
    /// The type with the given name, if the catalog declares one.
    pub fn from_str(cat: &Catalog, name: &str) -> (r: Option<BlockType>)
        ensures
            match r {
                Some(t) => t.0 < cat.types@.len() && cat.types@[t.0 as int].name@ == name@,
                None => forall|t: int|
                    0 <= t < cat.types@.len() ==> (#[trigger] cat.types@[t]).name@ != name@,
            },
    {
        let mut t: usize = 0;
        while t < cat.types.len()
            invariant
                0 <= t <= cat.types@.len(),
                forall|j: int| 0 <= j < t ==> (#[trigger] cat.types@[j]).name@ != name@,
            decreases cat.types@.len() - t,
        {
            if str_same(cat.types[t].name.as_str(), name) {
                return Some(BlockType(t));
            }
            t = t + 1;
        }
        None
    }

    /// This type's declared name.
    pub fn to_str(self, cat: &Catalog) -> (r: String)
        requires
            self.0 < cat.types@.len(),
        ensures
            r@ == cat.types@[self.0 as int].name@,
    {
        cat.types[self.0].name.clone()
    }

    /// The interned names of this type's properties, in declaration order.
    pub fn props(self, cat: &Catalog) -> (r: Vec<PropName>)
        requires
            self.0 < cat.types@.len(),
        ensures
            r@.len() == cat.types@[self.0 as int].props@.len(),
            forall|k: int|
                0 <= k < r@.len() ==> r@[k] == cat.types@[self.0 as int].props@[k].name,
    {
        let e = &cat.types[self.0];
        let mut r: Vec<PropName> = Vec::new();
        let mut k: usize = 0;
        while k < e.props.len()
            invariant
                0 <= k <= e.props@.len(),
                *e == cat.types@[self.0 as int],
                0 <= self.0 < cat.types@.len(),
                r@.len() == k,
                forall|j: int| 0 <= j < k ==> r@[j] == e.props@[j].name,
            decreases e.props@.len() - k,
        {
            r.push(e.props[k].name);
            k = k + 1;
        }
        r
    }

    /// Every type of the catalog, in declaration order.
    pub fn all(cat: &Catalog) -> (r: Vec<BlockType>)
        ensures
            r@.len() == cat.types@.len(),
            forall|t: int| 0 <= t < r@.len() ==> (#[trigger] r@[t]).0 == t,
    {
        let mut r: Vec<BlockType> = Vec::new();
        let mut t: usize = 0;
        while t < cat.types.len()
            invariant
                0 <= t <= cat.types@.len(),
                r@.len() == t,
                forall|j: int| 0 <= j < t ==> (#[trigger] r@[j]).0 == j,
            decreases cat.types@.len() - t,
        {
            r.push(BlockType(t));
            t = t + 1;
        }
        r
    }
}

impl PropName {
    /// The interned property name spelled `name`, if any block declares it.
    pub fn from_str(cat: &Catalog, name: &str) -> (r: Option<PropName>)
        ensures
            match r {
                Some(p) => p.0 < cat.prop_names@.len() && cat.prop_names@[p.0 as int]@ == name@,
                None => forall|i: int|
                    0 <= i < cat.prop_names@.len() ==> cat.prop_names@[i]@ != name@,
            },
    {
        match table_find(&cat.prop_names, name) {
            Some(i) => Some(PropName(i)),
            None => None,
        }
    }

    /// This identifier's spelling.
    pub fn to_str(self, cat: &Catalog) -> (r: String)
        requires
            self.0 < cat.prop_names@.len(),
        ensures
            r@ == cat.prop_names@[self.0 as int]@,
    {
        cat.prop_names[self.0].clone()
    }

    /// Every property name of the catalog, in its sorted order.
    pub fn all(cat: &Catalog) -> (r: Vec<PropName>)
        ensures
            r@.len() == cat.prop_names@.len(),
            forall|i: int| 0 <= i < r@.len() ==> (#[trigger] r@[i]).0 == i,
    {
        let mut r: Vec<PropName> = Vec::new();
        let mut i: usize = 0;
        while i < cat.prop_names.len()
            invariant
                0 <= i <= cat.prop_names@.len(),
                r@.len() == i,
                forall|j: int| 0 <= j < i ==> (#[trigger] r@[j]).0 == j,
            decreases cat.prop_names@.len() - i,
        {
            r.push(PropName(i));
            i = i + 1;
        }
        r
    }
}

impl PropValue {
    /// The interned value string spelled `name`, if any domain uses it.
    pub fn from_str(cat: &Catalog, name: &str) -> (r: Option<PropValue>)
        ensures
            match r {
                Some(v) => v.0 < cat.prop_values@.len() && cat.prop_values@[v.0 as int]@ == name@,
                None => forall|i: int|
                    0 <= i < cat.prop_values@.len() ==> cat.prop_values@[i]@ != name@,
            },
    {
        match table_find(&cat.prop_values, name) {
            Some(i) => Some(PropValue(i)),
            None => None,
        }
    }

    /// This identifier's spelling.
    pub fn to_str(self, cat: &Catalog) -> (r: String)
        requires
            self.0 < cat.prop_values@.len(),
        ensures
            r@ == cat.prop_values@[self.0 as int]@,
    {
        cat.prop_values[self.0].clone()
    }

    /// The value whose spelling is the canonical decimal form of `n`.
    pub fn from_u16(cat: &Catalog, n: u16) -> (r: Option<PropValue>)
        ensures
            match r {
                Some(v) => v.0 < cat.prop_values@.len() && cat.prop_values@[v.0 as int]@
                    == dec_repr(n as int),
                None => forall|i: int|
                    0 <= i < cat.prop_values@.len() ==> cat.prop_values@[i]@ != dec_repr(n as int),
            },
    {
        let s: String = u32_to_dec(n as u32);
        match table_find(&cat.prop_values, s.as_str()) {
            Some(i) => Some(PropValue(i)),
            None => None,
        }
    }

    /// The number this value's spelling denotes, when it is a decimal
    /// numeral that fits in sixteen bits.
    pub fn to_u16(self, cat: &Catalog) -> (r: Option<u16>)
        requires
            self.0 < cat.prop_values@.len(),
        ensures
            match r {
                Some(n) => is_dec_seq(cat.prop_values@[self.0 as int]@) && dec_val(
                    cat.prop_values@[self.0 as int]@,
                ) == n as int,
                None => !(is_dec_seq(cat.prop_values@[self.0 as int]@) && dec_val(
                    cat.prop_values@[self.0 as int]@,
                ) <= u16::MAX),
            },
    {
        parse_u16(cat.prop_values[self.0].as_str())
    }

    /// The value spelling the given boolean literal, if any domain uses it.
    pub fn from_bool(cat: &Catalog, b: bool) -> (r: Option<PropValue>)
        ensures
            match r {
                Some(v) => v.0 < cat.prop_values@.len() && cat.prop_values@[v.0 as int]@ == (if b {
                    "true"@
                } else {
                    "false"@
                }),
                None => forall|i: int|
                    0 <= i < cat.prop_values@.len() ==> cat.prop_values@[i]@ != (if b {
                        "true"@
                    } else {
                        "false"@
                    }),
            },
    {
        let lit: &str = if b {
            "true"
        } else {
            "false"
        };
        match table_find(&cat.prop_values, lit) {
            Some(i) => Some(PropValue(i)),
            None => None,
        }
    }

    /// The boolean this value spells, when it is one of the two literals.
    pub fn to_bool(self, cat: &Catalog) -> (r: Option<bool>)
        requires
            self.0 < cat.prop_values@.len(),
        ensures
            r == (if cat.prop_values@[self.0 as int]@ == "true"@ {
                Some(true)
            } else if cat.prop_values@[self.0 as int]@ == "false"@ {
                Some(false)
            } else {
                None::<bool>
            }),
    {
        let s = &cat.prop_values[self.0];
        if str_same(s.as_str(), "true") {
            Some(true)
        } else if str_same(s.as_str(), "false") {
            Some(false)
        } else {
            None
        }
    }

    /// Every property value of the catalog, in its sorted order.
    pub fn all(cat: &Catalog) -> (r: Vec<PropValue>)
        ensures
            r@.len() == cat.prop_values@.len(),
            forall|i: int| 0 <= i < r@.len() ==> (#[trigger] r@[i]).0 == i,
    {
        let mut r: Vec<PropValue> = Vec::new();
        let mut i: usize = 0;
        while i < cat.prop_values.len()
            invariant
                0 <= i <= cat.prop_values@.len(),
                r@.len() == i,
                forall|j: int| 0 <= j < i ==> (#[trigger] r@[j]).0 == j,
            decreases cat.prop_values@.len() - i,
        {
            r.push(PropValue(i));
            i = i + 1;
        }
        r
    }
}

/// Compiles one schema block against the interning tables.
fn build_entry(b: &BlockDef, names: &Vec<String>, values: &Vec<String>) -> (e: TypeEntry)
    requires
        b.min_state_id <= b.max_state_id,
        b.max_state_id as int - b.min_state_id as int + 1 == prod(block_sizes(*b)),
        b.min_state_id <= b.default_state <= b.max_state_id,
        block_props_unique(*b),
        table_sorted(names.deep_view()),
        table_sorted(values.deep_view()),
        forall|k: int|
            0 <= k < b.props@.len() ==> names.deep_view().contains(
                (#[trigger] b.props@[k]).name@,
            ),
        forall|k: int, v: int|
            0 <= k < b.props@.len() && 0 <= v < domain_of(b.props@[k]).len()
                ==> values.deep_view().contains(#[trigger] domain_of(b.props@[k])[v]),
    ensures
        entry_wf(e, b.min_state_id as int, names@.len() as int, values@.len() as int),
        entry_matches(e, *b, names.deep_view(), values.deep_view()),
{
    let ghost bsz: Seq<int> = block_sizes(*b);
    let n: usize = b.props.len();
    proof {
        assert forall|k: int| 0 <= k < bsz.len() implies bsz[k] >= 1 by {
            if bsz[k] < 1 {
                assert(forall|q: int| 0 <= q < bsz.len() ==> bsz[q] >= 0);
                lemma_prod_zero(bsz, k);
            }
        }
        assert(1 <= prod(bsz) <= 0x10000);
    }
    let mut strides_rev: Vec<u64> = Vec::new();
    let mut acc: u64 = 1;
    let mut j: usize = 0;
    proof {
        assert(bsz.skip(n as int) =~= Seq::<int>::empty());
    }
    while j < n
        invariant
            0 <= j <= n,
            n == b.props@.len(),
            bsz == block_sizes(*b),
            bsz.len() == n,
            forall|q: int| 0 <= q < bsz.len() ==> bsz[q] >= 1,
            prod(bsz) <= 0x10000,
            acc as int == prod(bsz.skip(n - j)),
            1 <= acc <= 0x10000,
            strides_rev@.len() == j,
            forall|q: int| 0 <= q < j ==> (#[trigger] strides_rev@[q]) as int == prod(
                bsz.skip(n - q),
            ),
            forall|q: int| 0 <= q < j ==> 1 <= #[trigger] strides_rev@[q] <= 0x10000,
        decreases n - j,
    {
        strides_rev.push(acc);
        let k: usize = n - 1 - j;
        let s: usize = domain_len(&b.props[k]);
        proof {
            lemma_prod_skip_unfold(bsz, k as int);
            lemma_prod_bounds(bsz, k as int);
            lemma_prod_all_pos(bsz.skip(k as int));
            assert((s as int) * (acc as int) == prod(bsz.skip(k as int)));
        }
        acc = (s as u64) * acc;
        j = j + 1;
    }
    let mut props: Vec<TypeProp> = Vec::new();
    let mut k: usize = 0;
    while k < n
        invariant
            0 <= k <= n,
            n == b.props@.len(),
            bsz == block_sizes(*b),
            bsz.len() == n,
            forall|q: int| 0 <= q < bsz.len() ==> bsz[q] >= 1,
            prod(bsz) <= 0x10000,
            table_sorted(names.deep_view()),
            table_sorted(values.deep_view()),
            forall|q: int|
                0 <= q < n ==> names.deep_view().contains((#[trigger] b.props@[q]).name@),
            forall|q: int, v: int|
                0 <= q < n && 0 <= v < domain_of(b.props@[q]).len()
                    ==> values.deep_view().contains(#[trigger] domain_of(b.props@[q])[v]),
            strides_rev@.len() == n,
            forall|q: int| 0 <= q < n ==> (#[trigger] strides_rev@[q]) as int == prod(
                bsz.skip(n - q),
            ),
            forall|q: int| 0 <= q < n ==> 1 <= #[trigger] strides_rev@[q] <= 0x10000,
            props@.len() == k,
            forall|q: int|
                0 <= q < k ==> (#[trigger] props@[q]).name.0 < names@.len()
                    && names.deep_view()[props@[q].name.0 as int] == b.props@[q].name@,
            forall|q: int|
                0 <= q < k ==> (#[trigger] props@[q]).stride as int == prod(bsz.skip(q + 1)) && 1
                    <= props@[q].stride <= 0x10000,
            forall|q: int|
                0 <= q < k ==> (#[trigger] props@[q]).vals@.len() == domain_of(b.props@[q]).len(),
            forall|q: int, v: int|
                0 <= q < k && 0 <= v < props@[q].vals@.len() ==> (#[trigger] props@[q].vals@[
                    v
                ]).0 < values@.len() && values.deep_view()[props@[q].vals@[v].0 as int]
                    == domain_of(b.props@[q])[v],
        decreases n - k,
    {
        let name_id: usize = match table_find(names, b.props[k].name.as_str()) {
            Some(id) => id,
            None => {
                proof {
                    let x = b.props@[k as int].name@;
                    assert(names.deep_view().contains(x));
                    let idx = choose|idx: int|
                        0 <= idx < names.deep_view().len() && names.deep_view()[idx] == x;
                    assert(names@[idx]@ == x);
                    assert(false);
                }
                0
            },
        };
        let dom: Vec<String> = domain_values(&b.props[k]);
        let mut vals: Vec<PropValue> = Vec::new();
        let mut v: usize = 0;
        while v < dom.len()
            invariant
                0 <= v <= dom@.len(),
                0 <= k < n,
                n == b.props@.len(),
                dom.deep_view() == domain_of(b.props@[k as int]),
                dom@.len() == domain_of(b.props@[k as int]).len(),
                forall|q: int, v2: int|
                    0 <= q < n && 0 <= v2 < domain_of(b.props@[q]).len()
                        ==> values.deep_view().contains(#[trigger] domain_of(b.props@[q])[v2]),
                vals@.len() == v,
                forall|v2: int|
                    0 <= v2 < v ==> (#[trigger] vals@[v2]).0 < values@.len()
                        && values.deep_view()[vals@[v2].0 as int] == domain_of(
                        b.props@[k as int],
                    )[v2],
            decreases dom@.len() - v,
        {
            proof {
                assert(dom@[v as int]@ == domain_of(b.props@[k as int])[v as int]) by {
                    assert(dom.deep_view()[v as int] == dom@[v as int]@);
                }
            }
            let val_id: usize = match table_find(values, dom[v].as_str()) {
                Some(id) => id,
                None => {
                    proof {
                        let x = domain_of(b.props@[k as int])[v as int];
                        assert(values.deep_view().contains(x));
                        let idx = choose|idx: int|
                            0 <= idx < values.deep_view().len() && values.deep_view()[idx] == x;
                        assert(values@[idx]@ == x);
                        assert(false);
                    }
                    0
                },
            };
            vals.push(PropValue(val_id));
            v = v + 1;
        }
        let stride64: u64 = strides_rev[n - 1 - k];
        proof {
            assert(strides_rev@[n - 1 - k as int] as int == prod(bsz.skip(k + 1)));
        }
        props.push(TypeProp { name: PropName(name_id), stride: stride64 as u32, vals });
        k = k + 1;
    }
    let e = TypeEntry {
        name: b.name.clone(),
        min: b.min_state_id,
        max: b.max_state_id,
        default: b.default_state,
        props,
    };
    proof {
        assert(entry_sizes(e) =~= bsz);
        assert forall|q: int|
            0 <= q < e.props@.len() implies 1 <= (#[trigger] e.props@[q]).vals@.len()
            <= 0x10000 by {
            assert(entry_sizes(e)[q] == e.props@[q].vals@.len());
            lemma_prod_bounds(bsz, q);
        }
        assert forall|k1: int, k2: int|
            0 <= k1 < k2 < e.props@.len() implies e.props@[k1].name != e.props@[k2].name by {
            if e.props@[k1].name == e.props@[k2].name {
                assert(names.deep_view()[e.props@[k1].name.0 as int] == b.props@[k1].name@);
                assert(names.deep_view()[e.props@[k2].name.0 as int] == b.props@[k2].name@);
            }
        }
    }
    e
}

/// Compiles a schema into its catalog.  Succeeds exactly on well-formed
/// schemas; the catalog then satisfies its structural invariant and records
/// the schema exactly.
pub fn compile(schema: &Vec<BlockDef>) -> (r: Result<Catalog, SchemaError>)
    ensures
        r is Ok <==> schema_ok(schema@),
        r matches Ok(cat) ==> cat.wf() && cat.matches_schema(schema@),
        r matches Err(e) ==> crate::schema::error_witness(schema@, e),
{
    match check_schema(schema) {
        Err(e) => {
            return Err(e);
        },
        Ok(()) => {},
    }
    let tables: (Vec<String>, Vec<String>) = intern_tables(schema);
    let names: Vec<String> = tables.0;
    let values: Vec<String> = tables.1;
    let mut types: Vec<TypeEntry> = Vec::new();
    let mut i: usize = 0;
    while i < schema.len()
        invariant
            0 <= i <= schema@.len(),
            types@.len() == i,
            schema_ok(schema@),
            table_sorted(names.deep_view()),
            table_sorted(values.deep_view()),
            forall|x: Seq<char>| names.deep_view().contains(x) ==> schema_has_prop_name(schema@, x),
            forall|x: Seq<char>| values.deep_view().contains(x) ==> schema_has_value(schema@, x),
            forall|a: int, k: int|
                0 <= a < schema@.len() && 0 <= k < schema@[a].props@.len()
                    ==> names.deep_view().contains((#[trigger] schema@[a].props@[k]).name@),
            forall|a: int, k: int, v: int|
                0 <= a < schema@.len() && 0 <= k < schema@[a].props@.len() && 0 <= v < domain_of(
                    schema@[a].props@[k],
                ).len() ==> values.deep_view().contains(
                    #[trigger] domain_of(schema@[a].props@[k])[v],
                ),
            forall|t: int|
                0 <= t < i ==> entry_wf(
                    #[trigger] types@[t],
                    schema@[t].min_state_id as int,
                    names@.len() as int,
                    values@.len() as int,
                ),
            forall|t: int|
                0 <= t < i ==> entry_matches(
                    #[trigger] types@[t],
                    schema@[t],
                    names.deep_view(),
                    values.deep_view(),
                ),
        decreases schema@.len() - i,
    {
        proof {
            assert(block_range_ok(schema@[i as int], range_start(schema@, i as int)));
            assert(block_props_unique(schema@[i as int]));
        }
        let e = build_entry(&schema[i], &names, &values);
        types.push(e);
        i = i + 1;
    }
    let cat = Catalog { types, prop_names: names, prop_values: values };
    proof {
        assert forall|t: int| 0 <= t < cat.types@.len() implies entry_wf(
            #[trigger] cat.types@[t],
            cat.start_of(t),
            cat.prop_names@.len() as int,
            cat.prop_values@.len() as int,
        ) by {
            assert(block_range_ok(schema@[t], range_start(schema@, t)));
            if t > 0 {
                assert(block_range_ok(schema@[t - 1], range_start(schema@, t - 1)));
                assert(cat.types@[t - 1].max == schema@[t - 1].max_state_id);
            }
            assert(cat.start_of(t) == schema@[t].min_state_id as int);
        }
        assert forall|t1: int, t2: int|
            0 <= t1 < t2 < cat.types@.len() implies cat.types@[t1].name@ != cat.types@[
            t2
        ].name@ by {
            assert(cat.types@[t1].name@ == schema@[t1].name@);
            assert(cat.types@[t2].name@ == schema@[t2].name@);
        }
        assert(cat.wf());
        assert(cat.matches_schema(schema@));
    }
    Ok(cat)
}

} // verus!
