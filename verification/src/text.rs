//! Ordering, lookup and decimal conversion for the catalog's strings.

use vstd::prelude::*;

verus! {

/// Strict lexicographic order on character sequences, comparing code points.
pub open spec fn lex_lt(a: Seq<char>, b: Seq<char>) -> bool
    decreases a.len(),
{
    if b.len() == 0 {
        false
    } else if a.len() == 0 {
        true
    } else if a[0] == b[0] {
        lex_lt(a.drop_first(), b.drop_first())
    } else {
        (a[0] as u32) < (b[0] as u32)
    }
}

/// Two characters are equal exactly when their code points are.
proof fn lemma_char_code_eq(x: char, y: char)
    ensures
        (x == y) <==> ((x as u32) == (y as u32)),
{
}

pub proof fn lemma_lex_lt_irreflexive(a: Seq<char>)
    ensures
        !lex_lt(a, a),
    decreases a.len(),
{
    if a.len() > 0 {
        lemma_lex_lt_irreflexive(a.drop_first());
    }
}

pub proof fn lemma_lex_lt_transitive(a: Seq<char>, b: Seq<char>, c: Seq<char>)
    requires
        lex_lt(a, b),
        lex_lt(b, c),
    ensures
        lex_lt(a, c),
    decreases a.len(),
{
    if a.len() > 0 {
        if a[0] == b[0] && b[0] == c[0] {
            lemma_lex_lt_transitive(a.drop_first(), b.drop_first(), c.drop_first());
        }
    }
}

/// Two sequences are equal, or exactly one is lexicographically below the other.
pub proof fn lemma_lex_lt_connex(a: Seq<char>, b: Seq<char>)
    ensures
        a == b || lex_lt(a, b) || lex_lt(b, a),
    decreases a.len(),
{
    if a.len() == 0 && b.len() == 0 {
        assert(a =~= b);
    } else if a.len() > 0 && b.len() > 0 && a[0] == b[0] {
        lemma_lex_lt_connex(a.drop_first(), b.drop_first());
        if a.drop_first() == b.drop_first() {
            assert(a.drop_first().len() == b.drop_first().len());
            assert(a.len() == b.len());
            assert forall|i: int| 0 <= i < a.len() implies a[i] == b[i] by {
                if i > 0 {
                    assert(a[i] == a.drop_first()[i - 1]);
                    assert(b[i] == b.drop_first()[i - 1]);
                }
            }
            assert(a =~= b);
        }
    } else if a.len() == 0 {
        assert(lex_lt(a, b));
    } else if b.len() == 0 {
        assert(lex_lt(b, a));
    } else {
        lemma_char_code_eq(a[0], b[0]);
        if (a[0] as u32) < (b[0] as u32) {
            assert(lex_lt(a, b));
        } else {
            assert((b[0] as u32) < (a[0] as u32));
            assert(lex_lt(b, a));
        }
    }
}

pub proof fn lemma_lex_lt_asymmetric(a: Seq<char>, b: Seq<char>)
    requires
        lex_lt(a, b),
    ensures
        !lex_lt(b, a),
        a != b,
{
    lemma_lex_lt_irreflexive(a);
    if lex_lt(b, a) {
        lemma_lex_lt_transitive(a, b, a);
    }
}

/// The outcome of a three-way string comparison.
#[derive(Copy, Clone, PartialEq, Eq, Structural, Debug)]
pub enum StrOrder {
    Below,
    Same,
    Above,
}

/// If `a` and `b` agree up to `i` and differ there (or `a` runs out first),
/// then `a` is lexicographically below `b`.
proof fn lemma_lex_lt_at(a: Seq<char>, b: Seq<char>, i: int)
    requires
        0 <= i <= a.len(),
        i <= b.len(),
        forall|j: int| 0 <= j < i ==> a[j] == b[j],
        (i == a.len() && i < b.len()) || (i < a.len() && i < b.len() && a[i] != b[i] && (a[i]
            as u32) < (b[i] as u32)),
    ensures
        lex_lt(a, b),
    decreases i,
{
    if i > 0 {
        lemma_lex_lt_at(a.drop_first(), b.drop_first(), i - 1);
    }
}

/// Three-way comparison of two strings in lexicographic code-point order.
pub fn str_order(a: &str, b: &str) -> (r: StrOrder)
    ensures
        (r == StrOrder::Below) == lex_lt(a@, b@),
        (r == StrOrder::Same) == (a@ == b@),
        (r == StrOrder::Above) == lex_lt(b@, a@),
{
    let alen: usize = a.unicode_len();
    let blen: usize = b.unicode_len();
    let mut i: usize = 0;
    loop
        invariant
            0 <= i <= alen,
            i <= blen,
            alen == a@.len(),
            blen == b@.len(),
            forall|j: int| 0 <= j < i ==> a@[j] == b@[j],
        decreases alen - i,
    {
        if i == alen || i == blen {
            if alen == blen {
                proof {
                    assert(a@ =~= b@);
                    lemma_lex_lt_irreflexive(a@);
                }
                return StrOrder::Same;
            } else if alen < blen {
                proof {
                    lemma_lex_lt_at(a@, b@, i as int);
                    lemma_lex_lt_asymmetric(a@, b@);
                }
                return StrOrder::Below;
            } else {
                proof {
                    lemma_lex_lt_at(b@, a@, i as int);
                    lemma_lex_lt_asymmetric(b@, a@);
                }
                return StrOrder::Above;
            }
        }
        let ca: char = a.get_char(i);
        let cb: char = b.get_char(i);
        if ca != cb {
            proof {
                lemma_char_code_eq(ca, cb);
            }
            if (ca as u32) < (cb as u32) {
                proof {
                    lemma_lex_lt_at(a@, b@, i as int);
                    lemma_lex_lt_asymmetric(a@, b@);
                }
                return StrOrder::Below;
            } else {
                proof {
                    lemma_lex_lt_at(b@, a@, i as int);
                    lemma_lex_lt_asymmetric(b@, a@);
                }
                return StrOrder::Above;
            }
        }
        i = i + 1;
    }
}

/// Whether two strings spell the same character sequence.
pub fn str_same(a: &str, b: &str) -> (r: bool)
    ensures
        r == (a@ == b@),
{
    match str_order(a, b) {
        StrOrder::Same => true,
        _ => false,
    }
}

/// A table of strings is strictly sorted: no duplicates, ascending order.
pub open spec fn table_sorted(t: Seq<Seq<char>>) -> bool {
    forall|i: int, j: int| 0 <= i < j < t.len() ==> lex_lt(#[trigger] t[i], #[trigger] t[j])
}

/// The index of `s` in the table, if present.
pub fn table_find(t: &Vec<String>, s: &str) -> (r: Option<usize>)
    ensures
        match r {
            Some(i) => i < t@.len() && t@[i as int]@ == s@,
            None => forall|i: int| 0 <= i < t@.len() ==> t@[i]@ != s@,
        },
{
    let mut i: usize = 0;
    while i < t.len()
        invariant
            0 <= i <= t@.len(),
            forall|j: int| 0 <= j < i ==> t@[j]@ != s@,
        decreases t@.len() - i,
    {
        if str_same(t[i].as_str(), s) {
            return Some(i);
        }
        i = i + 1;
    }
    None
}

/// Inserts `s` into a sorted table unless it is already there, keeping the
/// table sorted; afterwards the table holds exactly the old strings and `s`.
pub fn table_insert(t: &mut Vec<String>, s: &str)
    requires
        table_sorted(old(t).deep_view()),
    ensures
        table_sorted(final(t).deep_view()),
        forall|x: Seq<char>|
            final(t).deep_view().contains(x) == (old(t).deep_view().contains(x) || x == s@),
{
    let ghost t0: Seq<Seq<char>> = old(t).deep_view();
    let ghost tv0: Seq<String> = old(t)@;
    proof {
        assert(t0.len() == t@.len());
    }
    let mut p: usize = 0;
    loop
        invariant_except_break
            0 <= p <= t@.len(),
            *t == *old(t),
            t0 == t.deep_view(),
            t0.len() == t@.len(),
            forall|j: int| 0 <= j < p ==> lex_lt(t0[j], s@),
        ensures
            0 <= p <= t@.len(),
            *t == *old(t),
            t0 == t.deep_view(),
            t0.len() == t@.len(),
            forall|j: int| 0 <= j < p ==> lex_lt(t0[j], s@),
            p < t@.len() ==> !lex_lt(t0[p as int], s@),
        decreases t@.len() - p,
    {
        if p == t.len() {
            break ;
        }
        let below: bool = match str_order(t[p].as_str(), s) {
            StrOrder::Below => true,
            _ => false,
        };
        proof {
            assert(t.deep_view()[p as int] == t@[p as int]@);
            assert(t0[p as int] == t@[p as int]@);
        }
        if !below {
            break ;
        }
        p = p + 1;
    }
    if p < t.len() && str_same(t[p].as_str(), s) {
        proof {
            assert(t.deep_view()[p as int] == t@[p as int]@);
            assert(t0[p as int] == s@);
            assert forall|x: Seq<char>|
                t.deep_view().contains(x) == (t0.contains(x) || x == s@) by {
                if x == s@ {
                    assert(t0.contains(x)) by {
                        assert(t0[p as int] == x);
                    }
                }
            }
        }
        return ;
    }
    proof {
        if p < t0.len() {
            assert(t.deep_view()[p as int] == t@[p as int]@);
            lemma_lex_lt_connex(t0[p as int], s@);
            assert(lex_lt(s@, t0[p as int]));
        }
    }
    let ns: String = String::from_str(s);
    t.insert(p, ns);
    proof {
        tv0.insert_ensures(p as int, ns);
        let t1 = t.deep_view();
        assert(t@ == tv0.insert(p as int, ns));
        assert(t1.len() == t0.len() + 1);
        assert forall|i: int| 0 <= i < t1.len() implies t1[i] == (if i < p {
            t0[i]
        } else if i == p {
            s@
        } else {
            t0[i - 1]
        }) by {
            assert(t1[i] == t@[i]@);
            if i < p {
                assert(t@[i] == tv0[i]);
                assert(t0[i] == tv0[i]@);
            } else if i == p {
                assert(t@[i] == ns);
            } else {
                assert(t@[i] == tv0[i - 1]);
                assert(t0[i - 1] == tv0[i - 1]@);
            }
        }
        assert forall|i: int, j: int| 0 <= i < j < t1.len() implies lex_lt(t1[i], t1[j]) by {
            if j < p {
            } else if i < p && j == p {
                assert(lex_lt(t0[i], s@));
            } else if i < p && j > p {
                if j - 1 == p {
                    if p < t0.len() {
                        lemma_lex_lt_transitive(t0[i], s@, t0[j - 1]);
                    }
                }
            } else if i == p {
                if j - 1 > p {
                    lemma_lex_lt_transitive(s@, t0[p as int], t0[j - 1]);
                }
            }
        }
        assert forall|x: Seq<char>| t.deep_view().contains(x) == (t0.contains(x) || x == s@) by {
            if t1.contains(x) {
                let i = choose|i: int| 0 <= i < t1.len() && t1[i] == x;
                if i < p {
                    assert(t0.contains(x)) by {
                        assert(t0[i] == x);
                    }
                } else if i > p {
                    assert(t0.contains(x)) by {
                        assert(t0[i - 1] == x);
                    }
                }
            }
            if t0.contains(x) {
                let i = choose|i: int| 0 <= i < t0.len() && t0[i] == x;
                if i < p {
                    assert(t1.contains(x)) by {
                        assert(t1[i] == x);
                    }
                } else {
                    assert(t1.contains(x)) by {
                        assert(t1[i + 1] == x);
                    }
                }
            }
            if x == s@ {
                assert(t1.contains(x)) by {
                    assert(t1[p as int] == x);
                }
            }
        }
        assert(forall|x: Seq<char>|
            t.deep_view().contains(x) == (old(t).deep_view().contains(x) || x == s@));
    }
}

/// Whether `c` is a decimal digit.
pub open spec fn is_digit(c: char) -> bool {
    ('0' as u32) <= (c as u32) && (c as u32) <= ('9' as u32)
}

/// The numeric value of a digit character.
pub open spec fn digit_val(c: char) -> int {
    (c as u32) - ('0' as u32)
}

/// Whether `s` is a non-empty string of decimal digits.
pub open spec fn is_dec_seq(s: Seq<char>) -> bool {
    s.len() > 0 && forall|i: int| 0 <= i < s.len() ==> is_digit(#[trigger] s[i])
}

/// The number a digit string denotes, most significant digit first.
pub open spec fn dec_val(s: Seq<char>) -> int
    decreases s.len(),
{
    if s.len() == 0 {
        0
    } else {
        dec_val(s.drop_last()) * 10 + digit_val(s.last())
    }
}

/// The canonical decimal spelling of `n >= 0`: no sign, no leading zero.
pub open spec fn dec_repr(n: int) -> Seq<char>
    decreases n,
{
    if n < 10 {
        seq![digit_char(n)]
    } else {
        dec_repr(n / 10).push(digit_char(n % 10))
    }
}

/// The digit character for `d` in `0..10`.
pub open spec fn digit_char(d: int) -> char {
    if d == 0 {
        '0'
    } else if d == 1 {
        '1'
    } else if d == 2 {
        '2'
    } else if d == 3 {
        '3'
    } else if d == 4 {
        '4'
    } else if d == 5 {
        '5'
    } else if d == 6 {
        '6'
    } else if d == 7 {
        '7'
    } else if d == 8 {
        '8'
    } else {
        '9'
    }
}

proof fn lemma_dec_val_nonneg(s: Seq<char>)
    requires
        forall|i: int| 0 <= i < s.len() ==> is_digit(#[trigger] s[i]),
    ensures
        dec_val(s) >= 0,
    decreases s.len(),
{
    if s.len() > 0 {
        lemma_dec_val_nonneg(s.drop_last());
    }
}

/// A digit string is at least as large as any of its prefixes.
proof fn lemma_dec_val_prefix(s: Seq<char>, i: int)
    requires
        0 <= i <= s.len(),
        forall|j: int| 0 <= j < s.len() ==> is_digit(#[trigger] s[j]),
    ensures
        dec_val(s.take(i)) <= dec_val(s),
    decreases s.len() - i,
{
    if i == s.len() {
        assert(s.take(i) =~= s);
    } else {
        lemma_dec_val_prefix(s, i + 1);
        assert(s.take(i + 1).drop_last() =~= s.take(i));
        lemma_dec_val_nonneg(s.take(i));
        assert(dec_val(s.take(i + 1)) == dec_val(s.take(i)) * 10 + digit_val(s[i]));
    }
}

/// Reads `s` as an unsigned decimal number, if that is what it spells and the
/// number fits in sixteen bits.
pub fn parse_u16(s: &str) -> (r: Option<u16>)
    ensures
        match r {
            Some(n) => is_dec_seq(s@) && dec_val(s@) == n as int,
            None => !(is_dec_seq(s@) && dec_val(s@) <= u16::MAX),
        },
{
    let len: usize = s.unicode_len();
    if len == 0 {
        return None;
    }
    let mut i: usize = 0;
    let mut acc: u32 = 0;
    while i < len
        invariant
            0 <= i <= len,
            len == s@.len(),
            forall|j: int| 0 <= j < i ==> is_digit(#[trigger] s@[j]),
            acc <= u16::MAX,
            acc as int == dec_val(s@.take(i as int)),
        decreases len - i,
    {
        let c: char = s.get_char(i);
        let cc: u32 = c as u32;
        if cc < 48 || cc > 57 {
            return None;
        }
        let next: u32 = acc * 10 + (cc - 48);
        proof {
            assert(s@.take(i + 1).drop_last() =~= s@.take(i as int));
            assert(dec_val(s@.take(i + 1)) == acc as int * 10 + digit_val(s@[i as int]));
        }
        if next > 65535 {
            proof {
                if is_dec_seq(s@) {
                    lemma_dec_val_prefix(s@, i + 1);
                }
            }
            return None;
        }
        acc = next;
        i = i + 1;
    }
    proof {
        assert(s@.take(len as int) =~= s@);
    }
    Some(acc as u16)
}

/// The one-character string for digit `d`.
fn digit_str(d: u32) -> (r: &'static str)
    requires
        d < 10,
    ensures
        r@ =~= seq![digit_char(d as int)],
{
    proof {
        reveal_strlit("0");
        reveal_strlit("1");
        reveal_strlit("2");
        reveal_strlit("3");
        reveal_strlit("4");
        reveal_strlit("5");
        reveal_strlit("6");
        reveal_strlit("7");
        reveal_strlit("8");
        reveal_strlit("9");
    }
    if d == 0 {
        "0"
    } else if d == 1 {
        "1"
    } else if d == 2 {
        "2"
    } else if d == 3 {
        "3"
    } else if d == 4 {
        "4"
    } else if d == 5 {
        "5"
    } else if d == 6 {
        "6"
    } else if d == 7 {
        "7"
    } else if d == 8 {
        "8"
    } else {
        "9"
    }
}

/// Writes `n` in its canonical decimal spelling.
pub fn u32_to_dec(n: u32) -> (r: String)
    ensures
        r@ == dec_repr(n as int),
    decreases n,
{
    if n < 10 {
        let mut r = String::new();
        r.append(digit_str(n));
        proof {
            assert(r@ =~= dec_repr(n as int));
        }
        r
    } else {
        let mut r = u32_to_dec(n / 10);
        r.append(digit_str(n % 10));
        proof {
            assert(r@ =~= dec_repr(n as int));
        }
        r
    }
}

} // verus!
