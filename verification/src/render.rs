//! Text rendering of a block state for debugging and display.

use crate::catalog::{entry_wf, Catalog};
use crate::state::{contains_id, BlockState};
use vstd::arithmetic::div_mod::lemma_mod_division_less_than_divisor;
use vstd::prelude::*;

verus! {

/// The digit this state stores for property `k` of type `t`.
pub open spec fn digit_of(cat: Catalog, s: BlockState, t: int, k: int) -> int {
    let e = cat.types@[t];
    let pr = e.props@[k];
    ((s.0 - e.min) / (pr.stride as int)) % (pr.vals@.len() as int)
}

/// The `name=value` text of property `k` of type `t` in this state.
pub open spec fn pair_text(cat: Catalog, s: BlockState, t: int, k: int) -> Seq<char> {
    let pr = cat.types@[t].props@[k];
    cat.prop_names@[pr.name.0 as int]@ + "="@ + cat.prop_values@[pr.vals@[digit_of(
        cat,
        s,
        t,
        k,
    )].0 as int]@
}

/// The comma-separated text of the first `k` property pairs.
pub open spec fn pairs_text(cat: Catalog, s: BlockState, t: int, k: int) -> Seq<char>
    decreases k,
{
    if k <= 0 {
        Seq::empty()
    } else {
        pairs_text(cat, s, t, k - 1) + (if k > 1 {
            ", "@
        } else {
            Seq::<char>::empty()
        }) + pair_text(cat, s, t, k - 1)
    }
}

/// The full rendering: the type name, then, only for types with properties,
/// the bracketed `name=value` list in declaration order.
pub open spec fn render_state(cat: Catalog, s: BlockState) -> Seq<char> {
    let t = cat.spec_type_of(s.0 as int);
    let e = cat.types@[t];
    if e.props@.len() == 0 {
        e.name@
    } else {
        e.name@ + "["@ + pairs_text(cat, s, t, e.props@.len() as int) + "]"@
    }
}

/// Renders a state as its type name followed, when the type has properties,
/// by its `name=value` pairs in declaration order.
#[verifier::rlimit(100)]
pub fn fmt_block_state(cat: &Catalog, bs: BlockState) -> (r: String)
    requires
        cat.wf(),
        bs.valid(*cat),
    ensures
        r@ == render_state(*cat, bs),
{
    let t = bs.to_type(cat);
    let ghost ti = t.0 as int;
    let e = &cat.types[t.0];
    let mut out: String = e.name.clone();
    if e.props.len() == 0 {
        return out;
    }
    proof {
        assert(entry_wf(
            cat.types@[ti],
            cat.start_of(ti),
            cat.prop_names@.len() as int,
            cat.prop_values@.len() as int,
        ));
    }
    out.append("[");
    let mut k: usize = 0;
    while k < e.props.len()
        invariant
            0 <= k <= e.props@.len(),
            *e == cat.types@[ti],
            0 <= ti < cat.types@.len(),
            contains_id(cat.types@[ti], bs.0 as int),
            forall|q: int| 0 <= q < e.props@.len() ==> 1 <= (#[trigger] e.props@[q]).stride,
            forall|q: int|
                0 <= q < e.props@.len() ==> 1 <= (#[trigger] e.props@[q]).vals@.len() <= 0x10000,
            forall|q: int|
                0 <= q < e.props@.len() ==> (#[trigger] e.props@[q]).name.0
                    < cat.prop_names@.len(),
            forall|q: int, v: int|
                0 <= q < e.props@.len() && 0 <= v < e.props@[q].vals@.len() ==> (#[trigger] e.props@[
                    q
                ].vals@[v]).0 < cat.prop_values@.len(),
            out@ == cat.types@[ti].name@ + "["@ + pairs_text(*cat, bs, ti, k as int),
        decreases e.props@.len() - k,
    {
        if k > 0 {
            out.append(", ");
        }
        let pr = &e.props[k];
        out.append(cat.prop_names[pr.name.0].as_str());
        out.append("=");
        let off: u32 = (bs.0 - e.min) as u32;
        let m: u32 = pr.vals.len() as u32;
        let idx: u32 = (off / pr.stride) % m;
        proof {
            lemma_mod_division_less_than_divisor((off as int) / (pr.stride as int), m as int);
            assert(idx as int == digit_of(*cat, bs, ti, k as int));
        }
        out.append(cat.prop_values[pr.vals[idx as usize].0].as_str());
        proof {
            assert(out@ =~= cat.types@[ti].name@ + "["@ + pairs_text(*cat, bs, ti, k + 1));
        }
        k = k + 1;
    }
    out.append("]");
    proof {
        assert(ti == cat.spec_type_of(bs.0 as int));
        assert(out@ =~= render_state(*cat, bs));
    }
    out
}

} // verus!
