//! The block schema: the declarative input the catalog is compiled from.

use crate::radix::{lemma_prod_capped, lemma_prod_take_step, prod};
use crate::text::str_same;
use vstd::prelude::*;

verus! {

/// How a property declares its value domain.
#[derive(Copy, Clone, PartialEq, Eq, Structural, Debug)]
pub enum PropKind {
    Enum,
    Int,
    Bool,
}

/// One declared property: a name and an ordered domain of value strings.
/// A `Bool` property carries no explicit values; its domain is implicitly
/// `"true"` then `"false"`.
pub struct PropDef {
    pub kind: PropKind,
    pub name: String,
    pub vals: Vec<String>,
}

/// One declared block kind: its name, its reserved contiguous id range
/// `[min_state_id, max_state_id]`, its default id, and its ordered properties.
pub struct BlockDef {
    pub name: String,
    pub default_state: u16,
    pub min_state_id: u16,
    pub max_state_id: u16,
    pub props: Vec<PropDef>,
}

/// The ordered value domain of a property, boolean literals included.
pub open spec fn domain_of(p: PropDef) -> Seq<Seq<char>> {
    if p.kind == PropKind::Bool {
        seq!["true"@, "false"@]
    } else {
        p.vals.deep_view()
    }
}

/// The domain sizes of a block's properties, in declaration order.
pub open spec fn block_sizes(b: BlockDef) -> Seq<int> {
    Seq::new(b.props@.len() as nat, |k: int| domain_of(b.props@[k]).len() as int)
}

/// Where block `i`'s range must begin: right after its predecessor's range.
pub open spec fn range_start(schema: Seq<BlockDef>, i: int) -> int {
    if i == 0 {
        0
    } else {
        schema[i - 1].max_state_id as int + 1
    }
}

/// A block's own range is sound: it starts where required, is non-empty,
/// spans exactly the product of its domain sizes, and contains its default.
pub open spec fn block_range_ok(b: BlockDef, start: int) -> bool {
    &&& b.min_state_id as int == start
    &&& b.min_state_id <= b.max_state_id
    &&& b.max_state_id as int - b.min_state_id as int + 1 == prod(block_sizes(b))
    &&& b.min_state_id <= b.default_state <= b.max_state_id
}

/// A block declares each property name at most once.
pub open spec fn block_props_unique(b: BlockDef) -> bool {
    forall|k1: int, k2: int|
        0 <= k1 < k2 < b.props@.len() ==> b.props@[k1].name@ != b.props@[k2].name@
}

/// No two blocks share a name.
pub open spec fn block_names_unique(schema: Seq<BlockDef>) -> bool {
    forall|i: int, j: int|
        0 <= i < j < schema.len() ==> schema[i].name@ != schema[j].name@
}

/// A schema the compiler accepts: unique names, and ranges that tile the id
/// space contiguously from zero with sizes matching the domain products.
pub open spec fn schema_ok(schema: Seq<BlockDef>) -> bool {
    &&& block_names_unique(schema)
    &&& forall|i: int| 0 <= i < schema.len() ==> block_props_unique(#[trigger] schema[i])
    &&& forall|i: int|
        0 <= i < schema.len() ==> block_range_ok(#[trigger] schema[i], range_start(schema, i))
}

/// Whether some property of `b` is named `x`.
pub open spec fn block_has_prop_name(b: BlockDef, x: Seq<char>) -> bool {
    exists|k: int| 0 <= k < b.props@.len() && (#[trigger] b.props@[k]).name@ == x
}

/// Whether some block of the schema declares a property named `x`.
pub open spec fn schema_has_prop_name(schema: Seq<BlockDef>, x: Seq<char>) -> bool {
    exists|i: int| 0 <= i < schema.len() && block_has_prop_name(#[trigger] schema[i], x)
}

/// Whether some property domain of `b` contains the value string `x`.
pub open spec fn block_has_value(b: BlockDef, x: Seq<char>) -> bool {
    exists|k: int, v: int|
        0 <= k < b.props@.len() && 0 <= v < domain_of(b.props@[k]).len() && #[trigger] domain_of(
            b.props@[k],
        )[v] == x
}

/// Whether any block's property domain contains the value string `x`.
pub open spec fn schema_has_value(schema: Seq<BlockDef>, x: Seq<char>) -> bool {
    exists|i: int| 0 <= i < schema.len() && block_has_value(#[trigger] schema[i], x)
}

/// Why a schema was rejected; `index` names the offending block.
#[derive(Copy, Clone, PartialEq, Eq, Structural, Debug)]
pub enum SchemaError {
    /// Two blocks share one name; `index` is the later of the two.
    DuplicateBlockName { index: usize },
    /// One block declares one property name twice.
    DuplicatePropName { index: usize },
    /// A block's range does not start right after its predecessor's.
    NonContiguous { index: usize },
    /// A block's range size differs from the product of its domain sizes,
    /// or the range is empty.
    SizeMismatch { index: usize },
    /// A block's default id lies outside its own range.
    DefaultOutOfRange { index: usize },
}

/// The error points at a real violation in the schema.
pub open spec fn error_witness(schema: Seq<BlockDef>, e: SchemaError) -> bool {
    match e {
        SchemaError::DuplicateBlockName { index } => index < schema.len()
            && exists|j: int| 0 <= j < index && schema[j].name@ == schema[index as int].name@,
        SchemaError::DuplicatePropName { index } => index < schema.len() && !block_props_unique(
            schema[index as int],
        ),
        SchemaError::NonContiguous { index } => index < schema.len()
            && schema[index as int].min_state_id as int != range_start(schema, index as int),
        SchemaError::SizeMismatch { index } => index < schema.len() && !(
        schema[index as int].min_state_id <= schema[index as int].max_state_id && schema[
            index as int
        ].max_state_id as int - schema[index as int].min_state_id as int + 1 == prod(
            block_sizes(schema[index as int]),
        )),
        SchemaError::DefaultOutOfRange { index } => index < schema.len() && !(
        schema[index as int].min_state_id <= schema[index as int].default_state <= schema[
            index as int
        ].max_state_id),
    }
}

/// The number of values in a property's domain.
pub fn domain_len(p: &PropDef) -> (r: usize)
    ensures
        r as int == domain_of(*p).len(),
{
    match p.kind {
        PropKind::Bool => 2,
        _ => p.vals.len(),
    }
}

/// The domain of a property as owned strings, boolean literals included.
pub fn domain_values(p: &PropDef) -> (r: Vec<String>)
    ensures
        r.deep_view() == domain_of(*p),
{
    match p.kind {
        PropKind::Bool => {
            let mut v: Vec<String> = Vec::new();
            v.push(String::from_str("true"));
            v.push(String::from_str("false"));
            proof {
                assert(v.deep_view() =~= domain_of(*p));
            }
            v
        },
        _ => {
            let mut v: Vec<String> = Vec::new();
            let mut i: usize = 0;
            while i < p.vals.len()
                invariant
                    0 <= i <= p.vals@.len(),
                    v@.len() == i,
                    forall|j: int| 0 <= j < i ==> v@[j]@ == p.vals@[j]@,
                decreases p.vals@.len() - i,
            {
                v.push(p.vals[i].clone());
                i = i + 1;
            }
            proof {
                assert(v.deep_view() =~= domain_of(*p));
            }
            v
        },
    }
}

/// The product of a block's domain sizes, capped: a result of `0x10001`
/// means the true product is zero or exceeds `0x10000`.
fn block_size_product(b: &BlockDef) -> (r: u64)
    ensures
        r <= 0x10001,
        r <= 0x10000 ==> r as int == prod(block_sizes(*b)),
        r == 0x10001 ==> prod(block_sizes(*b)) == 0 || prod(block_sizes(*b)) > 0x10000,
{
    let ghost sz: Seq<int> = block_sizes(*b);
    let mut acc: u64 = 1;
    let mut k: usize = 0;
    proof {
        assert(sz.take(0) =~= Seq::<int>::empty());
    }
    while k < b.props.len()
        invariant
            0 <= k <= b.props@.len(),
            sz == block_sizes(*b),
            sz.len() == b.props@.len(),
            1 <= acc <= 0x10000 || acc == 0,
            acc as int == prod(sz.take(k as int)),
        decreases b.props@.len() - k,
    {
        let s: usize = domain_len(&b.props[k]);
        proof {
            lemma_prod_take_step(sz, k as int);
        }
        if s > 0x10000 {
            if acc == 0 {
                proof {
                    lemma_prod_capped(sz, k as int, 0x10000);
                }
            } else {
                proof {
                    assert(prod(sz.take(k + 1)) > 0x10000) by (nonlinear_arith)
                        requires
                            prod(sz.take(k + 1)) == prod(sz.take(k as int)) * sz[k as int],
                            prod(sz.take(k as int)) >= 1,
                            sz[k as int] > 0x10000,
                    ;
                    lemma_prod_capped(sz, k as int + 1, 0x10000);
                }
            }
            return 0x10001;
        }
        proof {
            assert((acc as int) * (s as int) <= 0x100000000) by (nonlinear_arith)
                requires
                    0 <= acc as int <= 0x10000,
                    0 <= s as int <= 0x10000,
            ;
        }
        let next: u64 = acc * (s as u64);
        if next > 0x10000 {
            proof {
                lemma_prod_capped(sz, k as int + 1, 0x10000);
            }
            return 0x10001;
        }
        acc = next;
        k = k + 1;
    }
    proof {
        assert(sz.take(k as int) =~= sz);
    }
    acc
}

/// Checks a schema against every rule the compiler enforces: unique block
/// names, unique property names per block, and sound, contiguous ranges.
pub fn check_schema(schema: &Vec<BlockDef>) -> (r: Result<(), SchemaError>)
    ensures
        r is Ok <==> schema_ok(schema@),
        r matches Err(e) ==> error_witness(schema@, e),
{
    let mut i: usize = 0;
    while i < schema.len()
        invariant
            0 <= i <= schema@.len(),
            forall|a: int, b: int| 0 <= a < b < i ==> schema@[a].name@ != schema@[b].name@,
            forall|a: int| 0 <= a < i ==> block_props_unique(#[trigger] schema@[a]),
            forall|a: int|
                0 <= a < i ==> block_range_ok(#[trigger] schema@[a], range_start(schema@, a)),
        decreases schema@.len() - i,
    {
        let b = &schema[i];
        let mut j: usize = 0;
        while j < i
            invariant
                0 <= j <= i < schema@.len(),
                *b == schema@[i as int],
                forall|a: int| 0 <= a < j ==> schema@[a].name@ != schema@[i as int].name@,
            decreases i - j,
        {
            if str_same(schema[j].name.as_str(), b.name.as_str()) {
                return Err(SchemaError::DuplicateBlockName { index: i });
            }
            j = j + 1;
        }
        let mut k1: usize = 0;
        while k1 < b.props.len()
            invariant
                0 <= k1 <= b.props@.len(),
                0 <= i < schema@.len(),
                *b == schema@[i as int],
                forall|a: int, c: int|
                    0 <= a < c < b.props@.len() && c < k1 ==> b.props@[a].name@ != b.props@[c].name@,
            decreases b.props@.len() - k1,
        {
            let mut k0: usize = 0;
            while k0 < k1
                invariant
                    0 <= k0 <= k1 < b.props@.len(),
                    0 <= i < schema@.len(),
                    *b == schema@[i as int],
                    forall|a: int| 0 <= a < k0 ==> b.props@[a].name@ != b.props@[k1 as int].name@,
                decreases k1 - k0,
            {
                if str_same(b.props[k0].name.as_str(), b.props[k1].name.as_str()) {
                    proof {
                        assert(!block_props_unique(schema@[i as int])) by {
                            assert(schema@[i as int].props@[k0 as int].name@ == schema@[
                                i as int
                            ].props@[k1 as int].name@);
                        }
                    }
                    return Err(SchemaError::DuplicatePropName { index: i });
                }
                k0 = k0 + 1;
            }
            k1 = k1 + 1;
        }
        let expected_min: u32 = if i == 0 {
            0
        } else {
            schema[i - 1].max_state_id as u32 + 1
        };
        if b.min_state_id as u32 != expected_min {
            return Err(SchemaError::NonContiguous { index: i });
        }
        if b.min_state_id > b.max_state_id {
            return Err(SchemaError::SizeMismatch { index: i });
        }
        let size: u64 = b.max_state_id as u64 - b.min_state_id as u64 + 1;
        let p: u64 = block_size_product(b);
        if p != size {
            return Err(SchemaError::SizeMismatch { index: i });
        }
        if b.default_state < b.min_state_id || b.default_state > b.max_state_id {
            return Err(SchemaError::DefaultOutOfRange { index: i });
        }
        i = i + 1;
    }
    Ok(())
}

} // verus!
