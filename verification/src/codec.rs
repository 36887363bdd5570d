//! The wire codec: a state id as a variable-length integer.

use crate::catalog::Catalog;
use crate::state::BlockState;
use vstd::arithmetic::div_mod::lemma_multiply_divide_lt;
use vstd::prelude::*;
use vstd::slice::{slice_index_get, slice_subrange};

verus! {

/// The wire form of `x`: seven payload bits per byte, least significant
/// group first, the high bit of each byte marking a continuation.
pub open spec fn varint_bytes(x: nat) -> Seq<u8>
    decreases x,
{
    if x < 0x80 {
        seq![x as u8]
    } else {
        seq![(x % 0x80 + 0x80) as u8] + varint_bytes(x / 0x80)
    }
}

/// What reading a variable-length integer from the head of `b` yields: the
/// value and the number of bytes consumed, or nothing when the bytes run out
/// or a sixth continuation byte appears.
pub open spec fn spec_decode_varint(b: Seq<u8>) -> Option<(nat, int)>
    decreases b.len(),
{
    if b.len() == 0 {
        None
    } else if b[0] < 0x80 {
        Some((b[0] as nat, 1int))
    } else {
        match spec_decode_varint(b.drop_first()) {
            None => None,
            Some((v, n)) => if n >= 5 {
                None
            } else {
                Some(((b[0] - 0x80) as nat + v * 0x80, n + 1))
            },
        }
    }
}

/// How long the wire form of `x` is, by the size of `x`.
pub proof fn lemma_varint_len(x: nat)
    requires
        x < 0x100000000,
    ensures
        x < 0x80 ==> varint_bytes(x).len() == 1,
        x < 0x4000 ==> varint_bytes(x).len() <= 2,
        x < 0x200000 ==> varint_bytes(x).len() <= 3,
        x < 0x10000000 ==> varint_bytes(x).len() <= 4,
        1 <= varint_bytes(x).len() <= 5,
    decreases x,
{
    if x >= 0x80 {
        lemma_multiply_divide_lt(x as int, 0x80, 0x2000000);
        if x < 0x4000 {
            lemma_multiply_divide_lt(x as int, 0x80, 0x80);
        }
        if x < 0x200000 {
            lemma_multiply_divide_lt(x as int, 0x80, 0x4000);
        }
        if x < 0x10000000 {
            lemma_multiply_divide_lt(x as int, 0x80, 0x200000);
        }
        lemma_varint_len(x / 0x80);
    }
}

/// A decoded value is bounded by the bytes it came from.
pub proof fn lemma_decode_bound(b: Seq<u8>)
    requires
        spec_decode_varint(b) is Some,
    ensures
        ({
            let (v, n) = spec_decode_varint(b)->Some_0;
            &&& 1 <= n <= 5
            &&& n <= b.len()
            &&& (n <= 1 ==> v < 0x80)
            &&& (n <= 2 ==> v < 0x4000)
            &&& (n <= 3 ==> v < 0x200000)
            &&& (n <= 4 ==> v < 0x10000000)
            &&& v < 0x800000000
        }),
    decreases b.len(),
{
    if b.len() > 0 && b[0] >= 0x80 {
        lemma_decode_bound(b.drop_first());
    }
}

/// Reading back what was written recovers the value, whatever follows it.
pub proof fn lemma_varint_roundtrip(x: nat, rest: Seq<u8>)
    requires
        x < 0x100000000,
    ensures
        spec_decode_varint(varint_bytes(x) + rest) == Some((x, varint_bytes(x).len() as int)),
    decreases x,
{
    lemma_varint_len(x);
    let b = varint_bytes(x) + rest;
    if x < 0x80 {
        assert(b[0] == x as u8);
    } else {
        lemma_multiply_divide_lt(x as int, 0x80, 0x2000000);
        lemma_varint_roundtrip(x / 0x80, rest);
        lemma_varint_len(x / 0x80);
        assert(b.drop_first() =~= varint_bytes(x / 0x80) + rest);
        assert(b[0] == (x % 0x80 + 0x80) as u8);
        assert((b[0] - 0x80) as nat + (x / 0x80) * 0x80 == x) by (nonlinear_arith)
            requires
                b[0] == (x % 0x80 + 0x80) as u8,
                0 <= x % 0x80 < 0x80,
                x == 0x80 * (x / 0x80) + x % 0x80,
        ;
    }
}

/// Writes `x` in variable-length form.
pub fn encode_varint(x: u32) -> (r: Vec<u8>)
    ensures
        r@ == varint_bytes(x as nat),
    decreases x,
{
    if x < 0x80 {
        let mut v: Vec<u8> = Vec::new();
        v.push(x as u8);
        proof {
            assert(v@ =~= varint_bytes(x as nat));
        }
        v
    } else {
        let mut v: Vec<u8> = Vec::new();
        v.push(((x % 0x80) + 0x80) as u8);
        let mut rest = encode_varint(x / 0x80);
        v.append(&mut rest);
        proof {
            assert(v@ =~= varint_bytes(x as nat));
        }
        v
    }
}

/// Why a state id could not be read off the wire.
#[derive(Copy, Clone, PartialEq, Eq, Structural, Debug)]
pub enum DecodeError {
    /// The buffer ended inside the variable-length integer.
    UnexpectedEnd,
    /// A sixth continuation byte appeared.
    TooLong,
    /// The integer was read but is no state id; carries the offending value.
    InvalidStateId { value: u64 },
}

/// Reads a variable-length integer from the head of `buf`.
fn decode_varint(buf: &[u8]) -> (r: Result<(u64, usize), DecodeError>)
    ensures
        r matches Ok(p) ==> spec_decode_varint(buf@) == Some((p.0 as nat, p.1 as int)),
        r is Err ==> spec_decode_varint(buf@) is None,
        r matches Err(e) ==> (e == DecodeError::UnexpectedEnd || e == DecodeError::TooLong),
        spec_decode_varint(buf@) is Some ==> r is Ok,
    decreases buf@.len(),
{
    if buf.len() == 0 {
        return Err(DecodeError::UnexpectedEnd);
    }
    let b0: u8 = *slice_index_get(buf, 0);
    if b0 < 0x80 {
        return Ok((b0 as u64, 1));
    }
    let tail: &[u8] = slice_subrange(buf, 1, buf.len());
    proof {
        assert(tail@ =~= buf@.drop_first());
    }
    match decode_varint(tail) {
        Err(e) => Err(e),
        Ok((v, n)) => {
            if n >= 5 {
                Err(DecodeError::TooLong)
            } else {
                proof {
                    lemma_decode_bound(tail@);
                }
                Ok(((b0 - 0x80) as u64 + v * 0x80, n + 1))
            }
        },
    }
}

impl BlockState {
    /// The wire form of this state's id: at most three bytes.
    pub fn encode(self) -> (r: Vec<u8>)
        ensures
            r@ == varint_bytes(self.0 as nat),
            1 <= r@.len() <= 3,
    {
        proof {
            lemma_varint_len(self.0 as nat);
        }
        encode_varint(self.0 as u32)
    }

    /// How many bytes `encode` emits.
    pub fn encoded_len(self) -> (r: usize)
        ensures
            r == varint_bytes(self.0 as nat).len(),
    {
        proof {
            lemma_varint_len(self.0 as nat);
        }
        if self.0 < 0x80 {
            1
        } else if self.0 < 0x4000 {
            proof {
                lemma_multiply_divide_lt(self.0 as int, 0x80, 0x80);
                lemma_varint_len((self.0 / 0x80) as nat);
            }
            2
        } else {
            proof {
                vstd::arithmetic::div_mod::lemma_div_is_ordered(0x4000, self.0 as int, 0x80);
                lemma_multiply_divide_lt(self.0 as int, 0x80, 0x4000);
                lemma_multiply_divide_lt(self.0 as int / 0x80, 0x80, 0x80);
                lemma_varint_len((self.0 / 0x80) as nat);
                lemma_varint_len(((self.0 / 0x80) / 0x80) as nat);
                assert(varint_bytes(self.0 as nat).len() == 1 + varint_bytes(
                    (self.0 / 0x80) as nat,
                ).len());
                assert(varint_bytes((self.0 / 0x80) as nat).len() == 1 + varint_bytes(
                    ((self.0 / 0x80) / 0x80) as nat,
                ).len());
            }
            3
        }
    }

    /// Reads one state from the head of `buf`: the decoded id must not
    /// exceed the catalog's maximum.  Returns the state and the number of
    /// bytes consumed.
    pub fn decode(cat: &Catalog, buf: &[u8]) -> (r: Result<(BlockState, usize), DecodeError>)
        requires
            cat.wf(),
        ensures
            r matches Ok(p) ==> spec_decode_varint(buf@) == Some((p.0.0 as nat, p.1 as int))
                && p.0.valid(*cat),
            r matches Err(e) ==> match e {
                DecodeError::InvalidStateId { value } => spec_decode_varint(buf@) is Some
                    && spec_decode_varint(buf@)->Some_0.0 == value as nat && (value as int)
                    >= cat.id_end(),
                _ => spec_decode_varint(buf@) is None,
            },
            spec_decode_varint(buf@) matches Some(p) && (p.0 as int) < cat.id_end() ==> r is Ok,
    {
        match decode_varint(buf) {
            Err(e) => Err(e),
            Ok((v, n)) => {
                if v > 0xFFFF {
                    return Err(DecodeError::InvalidStateId { value: v });
                }
                match BlockState::from_raw(cat, v as u16) {
                    Some(s) => Ok((s, n)),
                    None => Err(DecodeError::InvalidStateId { value: v }),
                }
            },
        }
    }
}

/// Encoding a valid state and decoding it back yields that state's id and
/// consumes exactly the encoding, whatever bytes follow on the wire.
pub proof fn lemma_codec_roundtrip(cat: Catalog, s: BlockState, rest: Seq<u8>)
    requires
        cat.wf(),
        s.valid(cat),
    ensures
        spec_decode_varint(varint_bytes(s.0 as nat) + rest) == Some(
            (s.0 as nat, varint_bytes(s.0 as nat).len() as int),
        ),
        BlockState::spec_from_raw(cat, s.0) == Some(s),
{
    lemma_varint_roundtrip(s.0 as nat, rest);
}

} // verus!
