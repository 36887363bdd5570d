//! Block states: one bounded integer id per (kind, property assignment).

use crate::catalog::{BlockType, Catalog, PropName, PropValue, TypeEntry, TypeProp};
use crate::radix::{lemma_prod_skip_unfold, lemma_radix_roundtrip, prod};
use vstd::arithmetic::div_mod::lemma_mod_division_less_than_divisor;
use vstd::prelude::*;

verus! {

/// A fully specified block: a state id inside some type's range.  Its total
/// order is the numeric order of the id.
#[derive(Copy, Clone, PartialEq, Eq, Structural, PartialOrd, Ord, Debug, Hash)]
pub struct BlockState(pub u16);

/// Whether the entry's id range contains `id`.
pub open spec fn contains_id(e: TypeEntry, id: int) -> bool {
    e.min <= id <= e.max
}

/// The index of the first property named `p`, if any.
pub open spec fn spec_find_prop(props: Seq<TypeProp>, p: PropName) -> Option<int>
    decreases props.len(),
{
    if props.len() == 0 {
        None
    } else if props[0].name == p {
        Some(0int)
    } else {
        match spec_find_prop(props.drop_first(), p) {
            None => None,
            Some(i) => Some(i + 1),
        }
    }
}

/// The index of the first occurrence of `v`, if any.
pub open spec fn spec_find_val(vals: Seq<PropValue>, v: PropValue) -> Option<int>
    decreases vals.len(),
{
    if vals.len() == 0 {
        None
    } else if vals[0] == v {
        Some(0int)
    } else {
        match spec_find_val(vals.drop_first(), v) {
            None => None,
            Some(i) => Some(i + 1),
        }
    }
}

/// A scan that saw no match before `k` and a match (or the end) at `k`
/// determines the result of `spec_find_prop`.
pub proof fn lemma_find_prop_scan(props: Seq<TypeProp>, p: PropName, k: int)
    requires
        0 <= k <= props.len(),
        forall|j: int| 0 <= j < k ==> props[j].name != p,
        k < props.len() ==> props[k].name == p,
    ensures
        spec_find_prop(props, p) == if k == props.len() {
            None::<int>
        } else {
            Some(k)
        },
    decreases k,
{
    if props.len() > 0 {
        if k > 0 {
            lemma_find_prop_scan(props.drop_first(), p, k - 1);
        }
    }
}

/// The same, for a value scan.
pub proof fn lemma_find_val_scan(vals: Seq<PropValue>, v: PropValue, k: int)
    requires
        0 <= k <= vals.len(),
        forall|j: int| 0 <= j < k ==> vals[j] != v,
        k < vals.len() ==> vals[k] == v,
    ensures
        spec_find_val(vals, v) == if k == vals.len() {
            None::<int>
        } else {
            Some(k)
        },
    decreases k,
{
    if vals.len() > 0 {
        if k > 0 {
            lemma_find_val_scan(vals.drop_first(), v, k - 1);
        }
    }
}

/// A found value is that value.
pub proof fn lemma_find_val_hit(vals: Seq<PropValue>, v: PropValue)
    requires
        spec_find_val(vals, v) is Some,
    ensures
        0 <= spec_find_val(vals, v)->Some_0 < vals.len(),
        vals[spec_find_val(vals, v)->Some_0] == v,
    decreases vals.len(),
{
    if vals.len() > 0 && vals[0] != v {
        lemma_find_val_hit(vals.drop_first(), v);
    }
}

/// A found property is at its index, inside the list.
pub proof fn lemma_find_prop_hit(props: Seq<TypeProp>, p: PropName)
    requires
        spec_find_prop(props, p) is Some,
    ensures
        0 <= spec_find_prop(props, p)->Some_0 < props.len(),
        props[spec_find_prop(props, p)->Some_0].name == p,
    decreases props.len(),
{
    if props.len() > 0 && props[0].name != p {
        lemma_find_prop_hit(props.drop_first(), p);
    }
}

impl Catalog {
    /// Every id below `id_end` falls in some type's range at or before `t`.
    proof fn lemma_id_covered_upto(self, id: int, t: int)
        requires
            self.wf(),
            0 <= t < self.types@.len(),
            0 <= id <= self.types@[t].max,
        ensures
            exists|u: int| 0 <= u <= t && contains_id(#[trigger] self.types@[u], id),
        decreases t,
    {
        if id >= self.types@[t].min {
            assert(contains_id(self.types@[t], id));
        } else {
            assert(t > 0);
            self.lemma_id_covered_upto(id, t - 1);
        }
    }

    /// The unique index of the type whose range holds `id`.
    pub open spec fn spec_type_of(self, id: int) -> int {
        choose|t: int| 0 <= t < self.types@.len() && contains_id(self.types@[t], id)
    }

    /// `spec_type_of` is well defined on every valid id: it picks the one
    /// and only containing range.
    pub proof fn lemma_type_of(self, id: int)
        requires
            self.wf(),
            0 <= id < self.id_end(),
        ensures
            0 <= self.spec_type_of(id) < self.types@.len(),
            contains_id(self.types@[self.spec_type_of(id)], id),
            forall|t: int|
                0 <= t < self.types@.len() && contains_id(#[trigger] self.types@[t], id) ==> t
                    == self.spec_type_of(id),
    {
        let last = self.types@.len() - 1;
        self.lemma_id_covered_upto(id, last);
        let u = choose|u: int| 0 <= u <= last && contains_id(#[trigger] self.types@[u], id);
        assert(contains_id(self.types@[self.spec_type_of(id)], id));
        assert forall|t: int|
            0 <= t < self.types@.len() && contains_id(#[trigger] self.types@[t], id) implies t
            == self.spec_type_of(id) by {
            let w = self.spec_type_of(id);
            if t < w {
                self.lemma_ranges_ordered(t, w);
            } else if t > w {
                self.lemma_ranges_ordered(w, t);
            }
        }
    }
}

impl BlockState {
    /// The id lies inside the compiled id space.
    pub open spec fn valid(self, cat: Catalog) -> bool {
        (self.0 as int) < cat.id_end()
    }

    /// What `from_raw` yields: a state for every id up to the maximum, and
    /// nothing beyond it.
    pub open spec fn spec_from_raw(cat: Catalog, id: u16) -> Option<BlockState> {
        if (id as int) < cat.id_end() {
            Some(BlockState(id))
        } else {
            None
        }
    }

    /// What `get` yields: the domain value stored at this id's digit for the
    /// first property named `p` of this id's type, if there is one.
    pub open spec fn spec_get(self, cat: Catalog, p: PropName) -> Option<PropValue> {
        let e = cat.types@[cat.spec_type_of(self.0 as int)];
        match spec_find_prop(e.props@, p) {
            None => None,
            Some(k) => {
                let pr = e.props@[k];
                let idx = ((self.0 - e.min) / (pr.stride as int)) % (pr.vals@.len() as int);
                Some(pr.vals@[idx])
            },
        }
    }

    /// What `set` yields: the id with that property's digit rewritten to the
    /// first occurrence of `v` in its domain, or the state unchanged when the
    /// type lacks the property or the domain lacks the value.
    pub open spec fn spec_set(self, cat: Catalog, p: PropName, v: PropValue) -> BlockState {
        let e = cat.types@[cat.spec_type_of(self.0 as int)];
        match spec_find_prop(e.props@, p) {
            None => self,
            Some(k) => {
                let pr = e.props@[k];
                match spec_find_val(pr.vals@, v) {
                    None => self,
                    Some(n) => {
                        let off = self.0 - e.min;
                        let c = (off / (pr.stride as int)) % (pr.vals@.len() as int);
                        BlockState((self.0 - c * (pr.stride as int) + n * (pr.stride as int)) as u16)
                    },
                }
            },
        }
    }

    /// The default state of the given type.
    pub fn from_type(cat: &Catalog, t: BlockType) -> (r: BlockState)
        requires
            cat.wf(),
            t.0 < cat.types@.len(),
        ensures
            r.0 == cat.types@[t.0 as int].default,
            r.valid(*cat),
            cat.spec_type_of(r.0 as int) == t.0 as int,
    {
        let r = BlockState(cat.types[t.0].default);
        proof {
            if t.0 + 1 < cat.types@.len() {
                cat.lemma_ranges_ordered(t.0 as int, cat.types@.len() - 1);
            }
            cat.lemma_type_of(r.0 as int);
            assert(contains_id(cat.types@[t.0 as int], r.0 as int));
        }
        r
    }

    /// A state from a raw id: accepted exactly when the id does not exceed
    /// the catalog's maximum.
    pub fn from_raw(cat: &Catalog, id: u16) -> (r: Option<BlockState>)
        requires
            cat.wf(),
        ensures
            r == BlockState::spec_from_raw(*cat, id),
            r matches Some(s) ==> s.valid(*cat) && s.0 == id,
    {
        if cat.types.len() == 0 {
            None
        } else if id <= cat.types[cat.types.len() - 1].max {
            Some(BlockState(id))
        } else {
            None
        }
    }

    /// The raw id; `from_raw` accepts it back.
    pub fn to_raw(self) -> (r: u16)
        ensures
            r == self.0,
    {
        self.0
    }

    /// The type whose range holds this id.
    #[verifier::rlimit(100)]
    pub fn to_type(self, cat: &Catalog) -> (r: BlockType)
        requires
            cat.wf(),
            self.valid(*cat),
        ensures
            r.0 as int == cat.spec_type_of(self.0 as int),
            r.0 < cat.types@.len(),
            contains_id(cat.types@[r.0 as int], self.0 as int),
    {
        proof {
            cat.lemma_type_of(self.0 as int);
            assert forall|j: int|
                0 <= j < cat.types@.len() implies (#[trigger] cat.types@[j]).min as int
                == cat.start_of(j) by {
                assert(crate::catalog::entry_wf(
                    cat.types@[j],
                    cat.start_of(j),
                    cat.prop_names@.len() as int,
                    cat.prop_values@.len() as int,
                ));
            }
        }
        let n_types: usize = cat.types.len();
        let mut t: usize = 0;
        loop
            invariant_except_break
                0 <= t < cat.types@.len(),
                n_types == cat.types@.len(),
                (self.0 as int) < cat.id_end(),
                forall|j: int|
                    0 <= j < cat.types@.len() ==> (#[trigger] cat.types@[j]).min as int
                        == cat.start_of(j),
                forall|j: int| 0 <= j < t ==> (#[trigger] cat.types@[j]).max < self.0,
            ensures
                0 <= t < cat.types@.len(),
                contains_id(cat.types@[t as int], self.0 as int),
            decreases cat.types@.len() - t,
        {
            if self.0 <= cat.types[t].max {
                proof {
                    if t > 0 {
                        assert(cat.types@[t - 1].max < self.0);
                        assert(cat.types@[t as int].min as int == cat.start_of(t as int));
                    }
                }
                break ;
            }
            proof {
                if t + 1 >= cat.types@.len() {
                    assert(cat.types@[cat.types@.len() - 1].max < self.0);
                    assert(false);
                }
            }
            t = t + 1;
        }
        proof {
            cat.lemma_type_of(self.0 as int);
        }
        BlockType(t)
    }

    /// Reads the value of the property named `name`, or `None` when this
    /// state's type has no such property.
    #[verifier::rlimit(50)]
    pub fn get(self, cat: &Catalog, name: PropName) -> (r: Option<PropValue>)
        requires
            cat.wf(),
            self.valid(*cat),
        ensures
            r == self.spec_get(*cat, name),
    {
        let t = self.to_type(cat);
        let e = &cat.types[t.0];
        let mut k: usize = 0;
        loop
            invariant_except_break
                0 <= k <= e.props@.len(),
                forall|j: int| 0 <= j < k ==> (#[trigger] e.props@[j]).name != name,
            ensures
                0 <= k <= e.props@.len(),
                k < e.props@.len() ==> e.props@[k as int].name == name,
                spec_find_prop(e.props@, name) == if k == e.props@.len() {
                    None::<int>
                } else {
                    Some(k as int)
                },
            decreases e.props@.len() - k,
        {
            if k == e.props.len() || e.props[k].name.0 == name.0 {
                proof {
                    lemma_find_prop_scan(e.props@, name, k as int);
                }
                break ;
            }
            k = k + 1;
        }
        if k == e.props.len() {
            return None;
        }
        let pr = &e.props[k];
        proof {
            assert(crate::catalog::entry_wf(
                cat.types@[t.0 as int],
                cat.start_of(t.0 as int),
                cat.prop_names@.len() as int,
                cat.prop_values@.len() as int,
            ));
            assert(1 <= pr.stride);
            assert(1 <= pr.vals@.len() <= 0x10000);
        }
        let off: u32 = (self.0 - e.min) as u32;
        let m: u32 = pr.vals.len() as u32;
        let idx: u32 = (off / pr.stride) % m;
        proof {
            lemma_mod_division_less_than_divisor((off as int) / (pr.stride as int), m as int);
            assert(idx as int == ((self.0 - e.min) / (pr.stride as int)) % (pr.vals@.len() as int));
        }
        Some(pr.vals[idx as usize])
    }

    /// Writes the property named `name` to the value `val`, returning the
    /// changed state; when the type lacks the property or its domain lacks
    /// the value, returns this state unchanged.
    #[verifier::rlimit(100)]
    pub fn set(self, cat: &Catalog, name: PropName, val: PropValue) -> (r: BlockState)
        requires
            cat.wf(),
            self.valid(*cat),
        ensures
            r == self.spec_set(*cat, name, val),
            r.valid(*cat),
            cat.spec_type_of(r.0 as int) == cat.spec_type_of(self.0 as int),
    {
        let t = self.to_type(cat);
        let e = &cat.types[t.0];
        let ghost ti = t.0 as int;
        let mut k: usize = 0;
        loop
            invariant_except_break
                0 <= k <= e.props@.len(),
                forall|j: int| 0 <= j < k ==> (#[trigger] e.props@[j]).name != name,
            ensures
                0 <= k <= e.props@.len(),
                spec_find_prop(e.props@, name) == if k == e.props@.len() {
                    None::<int>
                } else {
                    Some(k as int)
                },
            decreases e.props@.len() - k,
        {
            if k == e.props.len() || e.props[k].name.0 == name.0 {
                proof {
                    lemma_find_prop_scan(e.props@, name, k as int);
                }
                break ;
            }
            k = k + 1;
        }
        if k == e.props.len() {
            return self;
        }
        let pr = &e.props[k];
        let mut n: usize = 0;
        loop
            invariant_except_break
                0 <= n <= pr.vals@.len(),
                forall|j: int| 0 <= j < n ==> (#[trigger] pr.vals@[j]) != val,
            ensures
                0 <= n <= pr.vals@.len(),
                spec_find_val(pr.vals@, val) == if n == pr.vals@.len() {
                    None::<int>
                } else {
                    Some(n as int)
                },
                n < pr.vals@.len() ==> pr.vals@[n as int] == val,
            decreases pr.vals@.len() - n,
        {
            if n == pr.vals.len() || pr.vals[n].0 == val.0 {
                proof {
                    lemma_find_val_scan(pr.vals@, val, n as int);
                }
                break ;
            }
            n = n + 1;
        }
        if n == pr.vals.len() {
            return self;
        }
        proof {
            assert(crate::catalog::entry_wf(
                cat.types@[ti],
                cat.start_of(ti),
                cat.prop_names@.len() as int,
                cat.prop_values@.len() as int,
            ));
            assert(1 <= pr.stride);
            assert(1 <= pr.vals@.len() <= 0x10000);
        }
        let off: u32 = (self.0 - e.min) as u32;
        let m: u32 = pr.vals.len() as u32;
        let stride: u32 = pr.stride;
        let c: u32 = (off / stride) % m;
        let ghost e0 = cat.types@[ti];
        let ghost sz = crate::catalog::entry_sizes(e0);
        let ghost outer = prod(sz.take(k as int));
        proof {
            assert(sz[k as int] == m as int);
            assert(stride as int == prod(sz.skip(k as int + 1)));
            assert forall|q: int| 0 <= q < sz.len() implies sz[q] >= 1 by {
                assert(sz[q] == e0.props@[q].vals@.len() as int);
            }
            assert forall|q: int|
                0 <= q < sz.take(k as int).len() implies sz.take(k as int)[q] >= 1 by {
                assert(sz.take(k as int)[q] == sz[q]);
            }
            crate::radix::lemma_prod_all_pos(sz.take(k as int));
            crate::radix::lemma_prod_split(sz, k as int);
            lemma_prod_skip_unfold(sz, k as int);
            assert(prod(sz) == outer * (m as int) * (stride as int)) by (nonlinear_arith)
                requires
                    prod(sz) == outer * prod(sz.skip(k as int)),
                    prod(sz.skip(k as int)) == (m as int) * (stride as int),
            ;
            assert(e0.max as int - e0.min as int + 1 == prod(sz));
            assert(off as int == self.0 - e0.min);
            assert(0 <= (off as int) < outer * (m as int) * (stride as int));
            lemma_radix_roundtrip(off as int, stride as int, m as int, outer, n as int);
            assert((n as int) * (stride as int) < (m as int) * (stride as int))
                by (nonlinear_arith)
                requires
                    0 <= n < m as int,
                    stride >= 1,
            ;
            assert((c as int) * (stride as int) <= off as int);
        }
        let id2: u32 = (self.0 as u32) - c * stride + (n as u32) * stride;
        proof {
            assert(id2 as int == self.0 - (c as int) * (stride as int) + (n as int) * (stride
                as int));
            assert(id2 as int == e0.min + (off - (c as int) * (stride as int) + (n as int) * (
            stride as int)));
            assert(id2 <= e0.max);
            if ti + 1 < cat.types@.len() {
                cat.lemma_ranges_ordered(ti, cat.types@.len() - 1);
            }
            assert((id2 as int) < cat.id_end());
            cat.lemma_type_of(self.0 as int);
            cat.lemma_type_of(id2 as int);
            assert(contains_id(cat.types@[ti], id2 as int));
        }
        BlockState(id2 as u16)
    }
}

impl BlockType {
    /// The default state of this type.
    pub fn to_state(self, cat: &Catalog) -> (r: BlockState)
        requires
            cat.wf(),
            self.0 < cat.types@.len(),
        ensures
            r.0 == cat.types@[self.0 as int].default,
            r.valid(*cat),
            cat.spec_type_of(r.0 as int) == self.0 as int,
    {
        BlockState::from_type(cat, self)
    }
}

/// Writing any value of a property's domain and reading that property back
/// yields exactly the value written, from any state of a type that has the
/// property — the set/get round trip over the mixed-radix encoding.
#[verifier::rlimit(100)]
pub proof fn lemma_set_get_roundtrip(cat: Catalog, s: BlockState, p: PropName, v: PropValue)
    requires
        cat.wf(),
        s.valid(cat),
        spec_find_prop(cat.types@[cat.spec_type_of(s.0 as int)].props@, p) is Some,
        spec_find_val(
            cat.types@[cat.spec_type_of(s.0 as int)].props@[spec_find_prop(
                cat.types@[cat.spec_type_of(s.0 as int)].props@,
                p,
            )->Some_0].vals@,
            v,
        ) is Some,
    ensures
        s.spec_set(cat, p, v).spec_get(cat, p) == Some(v),
        s.spec_set(cat, p, v).valid(cat),
{
    cat.lemma_type_of(s.0 as int);
    let ti = cat.spec_type_of(s.0 as int);
    let e0 = cat.types@[ti];
    let k = spec_find_prop(e0.props@, p)->Some_0;
    lemma_find_prop_hit(e0.props@, p);
    let pr = e0.props@[k];
    let n = spec_find_val(pr.vals@, v)->Some_0;
    lemma_find_val_hit(pr.vals@, v);
    assert(crate::catalog::entry_wf(
        cat.types@[ti],
        cat.start_of(ti),
        cat.prop_names@.len() as int,
        cat.prop_values@.len() as int,
    ));
    let sz = crate::catalog::entry_sizes(e0);
    let m = pr.vals@.len() as int;
    let stride = pr.stride as int;
    let outer = prod(sz.take(k));
    assert(sz[k] == m);
    assert(stride == prod(sz.skip(k + 1)));
    assert forall|q: int| 0 <= q < sz.len() implies sz[q] >= 1 by {
        assert(sz[q] == e0.props@[q].vals@.len() as int);
    }
    assert forall|q: int| 0 <= q < sz.take(k).len() implies sz.take(k)[q] >= 1 by {
        assert(sz.take(k)[q] == sz[q]);
    }
    crate::radix::lemma_prod_all_pos(sz.take(k));
    crate::radix::lemma_prod_split(sz, k);
    lemma_prod_skip_unfold(sz, k);
    assert(prod(sz) == outer * m * stride) by (nonlinear_arith)
        requires
            prod(sz) == outer * prod(sz.skip(k)),
            prod(sz.skip(k)) == m * stride,
    ;
    let off = s.0 - e0.min;
    assert(e0.max as int - e0.min as int + 1 == prod(sz));
    lemma_radix_roundtrip(off, stride, m, outer, n);
    let c = (off / stride) % m;
    let off2 = off - c * stride + n * stride;
    let s2 = s.spec_set(cat, p, v);
    assert(s2.0 as int == e0.min + off2);
    assert(contains_id(e0, s2.0 as int));
    if ti + 1 < cat.types@.len() {
        cat.lemma_ranges_ordered(ti, cat.types@.len() - 1);
    }
    assert((s2.0 as int) < cat.id_end());
    cat.lemma_type_of(s2.0 as int);
    assert(cat.spec_type_of(s2.0 as int) == ti);
    assert(((s2.0 - e0.min) / stride) % m == n);
    assert(s2.spec_get(cat, p) == Some(pr.vals@[n]));
    assert(pr.vals@[n] == v);
}

/// Writing a property the state's type does not have is a no-op, whatever
/// the value.
pub proof fn lemma_set_missing_noop(cat: Catalog, s: BlockState, p: PropName, v: PropValue)
    requires
        cat.wf(),
        s.valid(cat),
        forall|k: int|
            0 <= k < cat.types@[cat.spec_type_of(s.0 as int)].props@.len() ==> (#[trigger] cat.types@[
                cat.spec_type_of(s.0 as int)
            ].props@[k]).name != p,
    ensures
        s.spec_set(cat, p, v) == s,
{
    let e0 = cat.types@[cat.spec_type_of(s.0 as int)];
    lemma_find_prop_scan(e0.props@, p, e0.props@.len() as int);
}

/// Raw ids and states are in bijection: every valid state comes back from
/// its own raw id, and ids beyond the maximum yield nothing.
pub proof fn lemma_raw_bijection(cat: Catalog, s: BlockState, id: u16)
    requires
        cat.wf(),
    ensures
        s.valid(cat) ==> BlockState::spec_from_raw(cat, s.0) == Some(s),
        (id as int) >= cat.id_end() ==> BlockState::spec_from_raw(cat, id) is None,
{
}

/// The compiled ranges partition the id space: they start at zero, are
/// pairwise disjoint, leave no gaps, and every valid id falls in exactly
/// one of them.
pub proof fn lemma_partition(cat: Catalog)
    requires
        cat.wf(),
    ensures
        cat.types@.len() > 0 ==> cat.types@[0].min == 0,
        forall|t: int|
            0 < t < cat.types@.len() ==> (#[trigger] cat.types@[t]).min as int == cat.types@[t
                - 1].max as int + 1,
        forall|t: int|
            0 <= t < cat.types@.len() ==> (#[trigger] cat.types@[t]).min <= cat.types@[t].max,
        forall|t1: int, t2: int|
            0 <= t1 < t2 < cat.types@.len() ==> cat.types@[t1].max < cat.types@[t2].min,
        forall|id: int|
            0 <= id < cat.id_end() ==> 0 <= #[trigger] cat.spec_type_of(id) < cat.types@.len()
                && contains_id(cat.types@[cat.spec_type_of(id)], id) && forall|t: int|
                0 <= t < cat.types@.len() && contains_id(#[trigger] cat.types@[t], id) ==> t
                    == cat.spec_type_of(id),
{
    assert forall|t: int|
        0 <= t < cat.types@.len() implies (#[trigger] cat.types@[t]).min as int == cat.start_of(t)
        && cat.types@[t].min <= cat.types@[t].max by {
        assert(crate::catalog::entry_wf(
            cat.types@[t],
            cat.start_of(t),
            cat.prop_names@.len() as int,
            cat.prop_values@.len() as int,
        ));
    }
    assert forall|t1: int, t2: int|
        0 <= t1 < t2 < cat.types@.len() implies cat.types@[t1].max < cat.types@[t2].min by {
        cat.lemma_ranges_ordered(t1, t2);
    }
    assert forall|id: int| 0 <= id < cat.id_end() implies 0 <= #[trigger] cat.spec_type_of(id)
        < cat.types@.len() && contains_id(cat.types@[cat.spec_type_of(id)], id) && forall|t: int|
        0 <= t < cat.types@.len() && contains_id(#[trigger] cat.types@[t], id) ==> t
            == cat.spec_type_of(id) by {
        cat.lemma_type_of(id);
    }
}

} // verus!
