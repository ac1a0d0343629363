//! The byte layout of entity-attribute-value keys.
use vstd::prelude::*;

use crate::value::{AttrId, DataValue, EntityId, Validity, ValueView};

verus! {

/// The tag byte that starts an entity-attribute-value key.
pub const TAG_TRIPLE_EAV: u8 = 1;

/// `256^n`.
pub open spec fn pow256(n: nat) -> nat
    decreases n,
{
    if n == 0 {
        1
    } else {
        256 * pow256((n - 1) as nat)
    }
}

/// The `n` big-endian bytes of `x`.
pub open spec fn be_bytes(x: nat, n: nat) -> Seq<u8>
    decreases n,
{
    if n == 0 {
        Seq::empty()
    } else {
        be_bytes(x / 256, (n - 1) as nat).push((x % 256) as u8)
    }
}

/// The number that big-endian bytes spell.
pub open spec fn from_be(s: Seq<u8>) -> nat
    decreases s.len(),
{
    if s.len() == 0 {
        0
    } else {
        from_be(s.drop_last()) * 256 + s.last() as nat
    }
}

/// The stored form of a validity: inverted, so that later validities sort first.
pub open spec fn validity_code(v: i64) -> nat {
    (0x7fff_ffff_ffff_ffff - v) as nat
}

/// The bytes of a string: each character as four big-endian bytes.
pub open spec fn chars_bytes(s: Seq<char>) -> Seq<u8>
    decreases s.len(),
{
    if s.len() == 0 {
        Seq::empty()
    } else {
        chars_bytes(s.drop_last()) + be_bytes(s.last() as u32 as nat, 4)
    }
}

/// The bytes of a value: a type tag, then its content.
pub open spec fn value_bytes(v: ValueView) -> Seq<u8> {
    match v {
        ValueView::Null => seq![1u8],
        ValueView::Bool(b) => seq![2u8, if b { 1u8 } else { 0u8 }],
        ValueView::Int(i) => seq![3u8] + be_bytes((i as int + 0x8000_0000_0000_0000) as nat, 8),
        ValueView::Str(s) => seq![4u8] + chars_bytes(s),
        ValueView::EnId(e) => seq![5u8] + be_bytes(e as nat, 8),
        ValueView::Bottom => seq![255u8],
    }
}

/// The key of a fact in entity-attribute-value order.
pub open spec fn eav_key(e: u64, a: u32, vld: i64, v: ValueView) -> Seq<u8> {
    seq![TAG_TRIPLE_EAV] + be_bytes(e as nat, 8) + be_bytes(a as nat, 4) + be_bytes(validity_code(vld), 8)
        + value_bytes(v)
}

/// The length of big-endian bytes.
pub proof fn lemma_be_len(x: nat, n: nat)
    ensures
        be_bytes(x, n).len() == n,
    decreases n,
{
    if n > 0 {
        lemma_be_len(x / 256, (n - 1) as nat);
    }
}

/// Big-endian bytes spell back the number they were made from.
pub proof fn lemma_be_round_trip(x: nat, n: nat)
    requires
        x < pow256(n),
    ensures
        from_be(be_bytes(x, n)) == x,
    decreases n,
{
    if n > 0 {
        assert(x / 256 < pow256((n - 1) as nat)) by (nonlinear_arith)
            requires
                x < 256 * pow256((n - 1) as nat),
        ;
        lemma_be_round_trip(x / 256, (n - 1) as nat);
        let s = be_bytes(x, n);
        assert(s.drop_last() =~= be_bytes(x / 256, (n - 1) as nat));
        assert(x == (x / 256) * 256 + x % 256) by (nonlinear_arith);
    }
}

/// Appends the `n` big-endian bytes of `x`.
pub fn push_be(out: &mut Vec<u8>, x: u64, n: usize)
    requires
        n <= 8,
        x < pow256(n as nat),
    ensures
        final(out)@ == old(out)@ + be_bytes(x as nat, n as nat),
    decreases n,
{
    if n > 0 {
        assert(x / 256 < pow256((n - 1) as nat)) by (nonlinear_arith)
            requires
                x < 256 * pow256((n - 1) as nat),
        ;
        push_be(out, x / 256, n - 1);
        let b = (x % 256) as u8;
        out.push(b);
        proof {
            assert(final(out)@ =~= old(out)@ + be_bytes(x as nat, n as nat));
        }
    }
}

/// The number spelled by `n` bytes of `bytes` from `start`.
pub fn read_be(bytes: &Vec<u8>, start: usize, n: usize) -> (r: u64)
    requires
        n <= 8,
        start + n <= bytes@.len(),
    ensures
        r as nat == from_be(bytes@.subrange(start as int, start + n)),
{
    let mut acc: u64 = 0;
    let mut i: usize = 0;
    proof {
        lemma_pow256_8();
    }
    while i < n
        invariant
            i <= n <= 8,
            start + n <= bytes.len(),
            acc as nat == from_be(bytes@.subrange(start as int, start + i)),
            acc < pow256(i as nat),
            pow256(8) == 0x1_0000_0000_0000_0000,
        decreases n - i,
    {
        proof {
            lemma_pow256_mono(i as nat, 7);
            let s = bytes@.subrange(start as int, start + i + 1);
            assert(s.drop_last() =~= bytes@.subrange(start as int, start + i));
            assert(acc * 256 + 255 < pow256((i + 1) as nat)) by (nonlinear_arith)
                requires
                    acc < pow256(i as nat),
                    pow256((i + 1) as nat) == 256 * pow256(i as nat),
            ;
        }
        acc = acc * 256 + bytes[start + i] as u64;
        i += 1;
    }
    acc
}

/// `256^8` is `2^64`.
pub proof fn lemma_pow256_8()
    ensures
        pow256(8) == 0x1_0000_0000_0000_0000,
{
    reveal_with_fuel(pow256, 9);
}

/// Powers of 256 grow.
pub proof fn lemma_pow256_mono(i: nat, j: nat)
    requires
        i <= j,
    ensures
        pow256(i) <= pow256(j),
    decreases j,
{
    if i < j {
        lemma_pow256_mono(i, (j - 1) as nat);
    }
}

/// Bytes spell a number below `256^len`, and spell it in exactly those bytes.
pub proof fn lemma_from_be(s: Seq<u8>)
    ensures
        from_be(s) < pow256(s.len()),
        be_bytes(from_be(s), s.len()) == s,
    decreases s.len(),
{
    if s.len() > 0 {
        let init = s.drop_last();
        lemma_from_be(init);
        let x = from_be(s);
        assert(x < pow256(s.len())) by (nonlinear_arith)
            requires
                x == from_be(init) * 256 + s.last() as nat,
                from_be(init) < pow256(init.len()),
                pow256(s.len()) == 256 * pow256(init.len()),
                s.last() < 256,
        ;
        assert(x / 256 == from_be(init) && x % 256 == s.last() as nat) by (nonlinear_arith)
            requires
                x == from_be(init) * 256 + s.last() as nat,
                s.last() < 256,
        ;
        assert(be_bytes(x, s.len()) =~= s);
    }
}

/// `256^4` is `2^32`.
pub proof fn lemma_pow256_4()
    ensures
        pow256(4) == 0x1_0000_0000,
{
    reveal_with_fuel(pow256, 5);
}

/// A string takes four bytes per character.
pub proof fn lemma_chars_len(s: Seq<char>)
    ensures
        chars_bytes(s).len() == 4 * s.len(),
    decreases s.len(),
{
    if s.len() > 0 {
        lemma_chars_len(s.drop_last());
        lemma_be_len(s.last() as u32 as nat, 4);
    }
}

/// Strings with the same bytes are equal.
pub proof fn lemma_chars_injective(s1: Seq<char>, s2: Seq<char>)
    requires
        chars_bytes(s1) == chars_bytes(s2),
    ensures
        s1 == s2,
    decreases s1.len(),
{
    lemma_chars_len(s1);
    lemma_chars_len(s2);
    if s1.len() > 0 {
        let b1 = chars_bytes(s1.drop_last());
        let b2 = chars_bytes(s2.drop_last());
        lemma_chars_len(s1.drop_last());
        lemma_chars_len(s2.drop_last());
        lemma_be_len(s1.last() as u32 as nat, 4);
        lemma_be_len(s2.last() as u32 as nat, 4);
        let whole = chars_bytes(s1);
        assert(b1 =~= whole.subrange(0, whole.len() - 4));
        assert(b2 =~= whole.subrange(0, whole.len() - 4));
        lemma_chars_injective(s1.drop_last(), s2.drop_last());
        let t1 = be_bytes(s1.last() as u32 as nat, 4);
        let t2 = be_bytes(s2.last() as u32 as nat, 4);
        assert(t1 =~= whole.subrange(whole.len() - 4, whole.len() as int));
        assert(t2 =~= whole.subrange(whole.len() - 4, whole.len() as int));
        lemma_pow256_4();
        lemma_be_round_trip(s1.last() as u32 as nat, 4);
        lemma_be_round_trip(s2.last() as u32 as nat, 4);
        assert(s1.last() as u32 == s2.last() as u32);
        vstd::utf8::char_u32_cast(s1.last(), s1.last() as u32);
        vstd::utf8::char_u32_cast(s2.last(), s2.last() as u32);
        assert(s1.last() == s2.last());
        assert(s1 =~= s1.drop_last().push(s1.last()));
        assert(s2 =~= s2.drop_last().push(s2.last()));
    } else {
        assert(s1 =~= s2);
    }
}

/// Values with the same bytes are equal.
pub proof fn lemma_value_injective(v1: ValueView, v2: ValueView)
    requires
        value_bytes(v1) == value_bytes(v2),
    ensures
        v1 == v2,
{
    let b = value_bytes(v1);
    assert(b[0] == value_bytes(v2)[0]);
    lemma_pow256_8();
    if v1 is Int {
        let x1 = (v1->Int_0 as int + 0x8000_0000_0000_0000) as nat;
        let x2 = (v2->Int_0 as int + 0x8000_0000_0000_0000) as nat;
        assert(be_bytes(x1, 8) =~= b.subrange(1, b.len() as int));
        assert(be_bytes(x2, 8) =~= b.subrange(1, b.len() as int));
        lemma_be_round_trip(x1, 8);
        lemma_be_round_trip(x2, 8);
    } else if v1 is EnId {
        assert(be_bytes(v1->EnId_0 as nat, 8) =~= b.subrange(1, b.len() as int));
        assert(be_bytes(v2->EnId_0 as nat, 8) =~= b.subrange(1, b.len() as int));
        lemma_be_round_trip(v1->EnId_0 as nat, 8);
        lemma_be_round_trip(v2->EnId_0 as nat, 8);
    } else if v1 is Str {
        assert(chars_bytes(v1->Str_0) =~= b.subrange(1, b.len() as int));
        assert(chars_bytes(v2->Str_0) =~= b.subrange(1, b.len() as int));
        lemma_chars_injective(v1->Str_0, v2->Str_0);
    } else if v1 is Bool {
        assert(b[1] == value_bytes(v2)[1]);
    }
}

/// Distinct facts have distinct keys: the key layout is injective.
pub proof fn lemma_eav_key_injective(
    e1: u64, a1: u32, vld1: i64, v1: ValueView,
    e2: u64, a2: u32, vld2: i64, v2: ValueView,
)
    requires
        eav_key(e1, a1, vld1, v1) == eav_key(e2, a2, vld2, v2),
    ensures
        e1 == e2 && a1 == a2 && vld1 == vld2 && v1 == v2,
{
    let k = eav_key(e1, a1, vld1, v1);
    lemma_be_len(e1 as nat, 8);
    lemma_be_len(e2 as nat, 8);
    lemma_be_len(a1 as nat, 4);
    lemma_be_len(a2 as nat, 4);
    lemma_be_len(validity_code(vld1), 8);
    lemma_be_len(validity_code(vld2), 8);
    lemma_pow256_8();
    lemma_pow256_4();
    assert(be_bytes(e1 as nat, 8) =~= k.subrange(1, 9));
    assert(be_bytes(e2 as nat, 8) =~= k.subrange(1, 9));
    assert(be_bytes(a1 as nat, 4) =~= k.subrange(9, 13));
    assert(be_bytes(a2 as nat, 4) =~= k.subrange(9, 13));
    assert(be_bytes(validity_code(vld1), 8) =~= k.subrange(13, 21));
    assert(be_bytes(validity_code(vld2), 8) =~= k.subrange(13, 21));
    assert(value_bytes(v1) =~= k.subrange(21, k.len() as int));
    assert(value_bytes(v2) =~= k.subrange(21, k.len() as int));
    lemma_be_round_trip(e1 as nat, 8);
    lemma_be_round_trip(e2 as nat, 8);
    lemma_be_round_trip(a1 as nat, 4);
    lemma_be_round_trip(a2 as nat, 4);
    lemma_be_round_trip(validity_code(vld1), 8);
    lemma_be_round_trip(validity_code(vld2), 8);
    lemma_value_injective(v1, v2);
}

/// `a` sorts before `b` byte-wise: they agree up to a position where `a` has the smaller byte.
pub open spec fn lex_lt(a: Seq<u8>, b: Seq<u8>) -> bool {
    exists|i: int| 0 <= i < a.len() && i < b.len() && #[trigger] a.take(i) == b.take(i) && a[i] < b[i]
}

/// Appending anything to two byte strings of one length keeps their order.
pub proof fn lemma_lex_append(x: Seq<u8>, y: Seq<u8>, p: Seq<u8>, q: Seq<u8>)
    requires
        lex_lt(x, y),
        x.len() == y.len(),
    ensures
        lex_lt(x + p, y + q),
{
    let i = choose|i: int| 0 <= i < x.len() && i < y.len() && #[trigger] x.take(i) == y.take(i) && x[i] < y[i];
    assert((x + p).take(i) =~= x.take(i));
    assert((y + q).take(i) =~= y.take(i));
    assert((x + p)[i] == x[i]);
    assert((y + q)[i] == y[i]);
}

/// A common prefix keeps the order of what follows it.
pub proof fn lemma_lex_prefix(w: Seq<u8>, x: Seq<u8>, y: Seq<u8>)
    requires
        lex_lt(x, y),
    ensures
        lex_lt(w + x, w + y),
{
    let i = choose|i: int| 0 <= i < x.len() && i < y.len() && #[trigger] x.take(i) == y.take(i) && x[i] < y[i];
    let j = w.len() + i;
    assert((w + x).take(j) =~= w + x.take(i));
    assert((w + y).take(j) =~= w + y.take(i));
    assert((w + x)[j] == x[i]);
    assert((w + y)[j] == y[i]);
}

/// Big-endian bytes of one width sort as the numbers do.
pub proof fn lemma_be_order(x: nat, y: nat, n: nat)
    requires
        x < y < pow256(n),
    ensures
        lex_lt(be_bytes(x, n), be_bytes(y, n)),
    decreases n,
{
    if n == 0 {
        assert(false);
    } else {
        let m = (n - 1) as nat;
        lemma_be_len(x / 256, m);
        lemma_be_len(y / 256, m);
        assert(x / 256 <= y / 256) by (nonlinear_arith)
            requires
                x < y,
        ;
        assert(y / 256 < pow256(m)) by (nonlinear_arith)
            requires
                y < 256 * pow256(m),
        ;
        let bx = be_bytes(x, n);
        let by_ = be_bytes(y, n);
        if x / 256 < y / 256 {
            lemma_be_order(x / 256, y / 256, m);
            lemma_lex_append(be_bytes(x / 256, m), be_bytes(y / 256, m), seq![(x % 256) as u8], seq![(y % 256) as u8]);
            assert(bx =~= be_bytes(x / 256, m) + seq![(x % 256) as u8]);
            assert(by_ =~= be_bytes(y / 256, m) + seq![(y % 256) as u8]);
        } else {
            assert(x % 256 < y % 256) by (nonlinear_arith)
                requires
                    x < y,
                    x / 256 == y / 256,
            ;
            let i = m as int;
            assert(bx.take(i) =~= be_bytes(x / 256, m));
            assert(by_.take(i) =~= be_bytes(y / 256, m));
            assert(bx[i] < by_[i]);
        }
    }
}

/// Keys sort by entity, then attribute, then validity from latest to
/// earliest: a fact that comes first in that order has the smaller key.
pub proof fn lemma_eav_key_order(
    e1: u64, a1: u32, vld1: i64, v1: ValueView,
    e2: u64, a2: u32, vld2: i64, v2: ValueView,
)
    requires
        e1 < e2 || (e1 == e2 && a1 < a2) || (e1 == e2 && a1 == a2 && vld1 > vld2),
    ensures
        lex_lt(eav_key(e1, a1, vld1, v1), eav_key(e2, a2, vld2, v2)),
{
    lemma_pow256_8();
    lemma_pow256_4();
    let t = seq![TAG_TRIPLE_EAV];
    let be1 = be_bytes(e1 as nat, 8);
    let be2 = be_bytes(e2 as nat, 8);
    let ba1 = be_bytes(a1 as nat, 4);
    let ba2 = be_bytes(a2 as nat, 4);
    let bc1 = be_bytes(validity_code(vld1), 8);
    let bc2 = be_bytes(validity_code(vld2), 8);
    lemma_be_len(e1 as nat, 8);
    lemma_be_len(e2 as nat, 8);
    lemma_be_len(a1 as nat, 4);
    lemma_be_len(a2 as nat, 4);
    lemma_be_len(validity_code(vld1), 8);
    lemma_be_len(validity_code(vld2), 8);
    if e1 < e2 {
        lemma_be_order(e1 as nat, e2 as nat, 8);
        lemma_lex_prefix(t, be1, be2);
        lemma_lex_append(t + be1, t + be2, ba1 + bc1 + value_bytes(v1), ba2 + bc2 + value_bytes(v2));
        assert(eav_key(e1, a1, vld1, v1) =~= (t + be1) + (ba1 + bc1 + value_bytes(v1)));
        assert(eav_key(e2, a2, vld2, v2) =~= (t + be2) + (ba2 + bc2 + value_bytes(v2)));
    } else if a1 < a2 {
        lemma_be_order(a1 as nat, a2 as nat, 4);
        lemma_lex_prefix(t + be1, ba1, ba2);
        lemma_lex_append(t + be1 + ba1, t + be1 + ba2, bc1 + value_bytes(v1), bc2 + value_bytes(v2));
        assert(eav_key(e1, a1, vld1, v1) =~= (t + be1 + ba1) + (bc1 + value_bytes(v1)));
        assert(eav_key(e2, a2, vld2, v2) =~= (t + be1 + ba2) + (bc2 + value_bytes(v2)));
    } else {
        lemma_be_order(validity_code(vld1), validity_code(vld2), 8);
        lemma_lex_prefix(t + be1 + ba1, bc1, bc2);
        lemma_lex_append(t + be1 + ba1 + bc1, t + be1 + ba1 + bc2, value_bytes(v1), value_bytes(v2));
    }
}

/// Among keys of one entity, attribute and validity, integer values sort by size.
pub proof fn lemma_eav_key_int_order(e: u64, a: u32, vld: i64, i1: i64, i2: i64)
    requires
        i1 < i2,
    ensures
        lex_lt(eav_key(e, a, vld, ValueView::Int(i1)), eav_key(e, a, vld, ValueView::Int(i2))),
{
    lemma_pow256_8();
    let w = seq![TAG_TRIPLE_EAV] + be_bytes(e as nat, 8) + be_bytes(a as nat, 4) + be_bytes(validity_code(vld), 8)
        + seq![3u8];
    let x1 = (i1 as int + 0x8000_0000_0000_0000) as nat;
    let x2 = (i2 as int + 0x8000_0000_0000_0000) as nat;
    lemma_be_order(x1, x2, 8);
    lemma_lex_prefix(w, be_bytes(x1, 8), be_bytes(x2, 8));
    assert(eav_key(e, a, vld, ValueView::Int(i1)) =~= w + be_bytes(x1, 8));
    assert(eav_key(e, a, vld, ValueView::Int(i2)) =~= w + be_bytes(x2, 8));
}

/// Relies on char::from_u32: a character exactly for a Unicode scalar value.
#[verifier::external_body]
fn char_from_u32(x: u32) -> (r: Option<char>)
    ensures
        r is Some ==> r->0 as u32 == x,
        (x < 0xD800 || (0xE000 <= x && x <= 0x10FFFF)) ==> r is Some,
{
    char::from_u32(x)
}

/// Relies on String::push: appends one character.
#[verifier::external_body]
fn push_char(s: &mut String, c: char)
    ensures
        final(s)@ == old(s)@.push(c),
{
    s.push(c)
}

/// Appends the bytes of a value.
fn push_value(out: &mut Vec<u8>, v: &DataValue)
    ensures
        final(out)@ == old(out)@ + value_bytes(v@),
{
    proof {
        lemma_pow256_8();
        lemma_pow256_4();
    }
    let ghost start = out@;
    match v {
        DataValue::Null => {
            out.push(1u8);
        },
        DataValue::Bool(b) => {
            out.push(2u8);
            out.push(if *b { 1u8 } else { 0u8 });
        },
        DataValue::Int(i) => {
            out.push(3u8);
            push_be(out, (*i as i128 + 0x8000_0000_0000_0000i128) as u64, 8);
        },
        DataValue::Str(s) => {
            out.push(4u8);
            let text = s.as_str();
            let n = text.unicode_len();
            let mut j: usize = 0;
            while j < n
                invariant
                    j <= n,
                    n == s@.len(),
                    text@ == s@,
                    pow256(4) == 0x1_0000_0000,
                    out@ == start + seq![4u8] + chars_bytes(s@.take(j as int)),
                decreases n - j,
            {
                let c = text.get_char(j);
                push_be(out, c as u32 as u64, 4);
                proof {
                    assert(s@.take(j + 1).drop_last() =~= s@.take(j as int));
                }
                j += 1;
            }
            proof {
                assert(s@.take(n as int) =~= s@);
            }
        },
        DataValue::EnId(e) => {
            out.push(5u8);
            push_be(out, e.0, 8);
        },
        DataValue::Bottom => {
            out.push(255u8);
        },
    }
    proof {
        assert(out@ =~= start + value_bytes(v@));
    }
}

/// The key of a fact in entity-attribute-value order.
pub fn encode_eav_key(e: EntityId, a: AttrId, v: &DataValue, vld: Validity) -> (r: Vec<u8>)
    ensures
        r@ == eav_key(e.0, a.0, vld.0, v@),
{
    proof {
        lemma_pow256_8();
        lemma_pow256_4();
    }
    let mut out: Vec<u8> = Vec::new();
    out.push(TAG_TRIPLE_EAV);
    push_be(&mut out, e.0, 8);
    push_be(&mut out, a.0 as u64, 4);
    push_be(&mut out, (0x7fff_ffff_ffff_ffffi128 - vld.0 as i128) as u64, 8);
    push_value(&mut out, v);
    proof {
        assert(out@ =~= eav_key(e.0, a.0, vld.0, v@));
    }
    out
}

/// The bytes of a concatenation of strings.
pub proof fn lemma_chars_concat(a: Seq<char>, b: Seq<char>)
    ensures
        chars_bytes(a + b) == chars_bytes(a) + chars_bytes(b),
    decreases b.len(),
{
    if b.len() == 0 {
        assert(a + b =~= a);
        assert(chars_bytes(a) + chars_bytes(b) =~= chars_bytes(a));
    } else {
        lemma_chars_concat(a, b.drop_last());
        assert((a + b).drop_last() =~= a + b.drop_last());
        assert(chars_bytes(a + b) =~= chars_bytes(a) + chars_bytes(b));
    }
}

/// The bytes of a one-character string.
pub proof fn lemma_chars_single(c: char)
    ensures
        chars_bytes(seq![c]) == be_bytes(c as u32 as nat, 4),
{
    assert(seq![c].drop_last() =~= Seq::<char>::empty());
    assert(chars_bytes(Seq::<char>::empty()) =~= Seq::<u8>::empty());
    assert(chars_bytes(seq![c]) =~= be_bytes(c as u32 as nat, 4));
}

/// The four bytes of character `j` of a string.
pub proof fn lemma_chunk(t: Seq<char>, j: int, whole: Seq<u8>)
    requires
        chars_bytes(t) == whole,
        0 <= j < t.len(),
    ensures
        whole.subrange(4 * j, 4 * j + 4) == be_bytes(t[j] as u32 as nat, 4),
{
    assert(t =~= t.take(j) + t.skip(j));
    lemma_chars_concat(t.take(j), t.skip(j));
    lemma_chars_len(t.take(j));
    let rest = t.skip(j);
    assert(rest =~= seq![rest[0]] + rest.skip(1));
    lemma_chars_concat(seq![rest[0]], rest.skip(1));
    lemma_chars_single(rest[0]);
    lemma_be_len(rest[0] as u32 as nat, 4);
    assert(whole.subrange(4 * j, 4 * j + 4) =~= be_bytes(t[j] as u32 as nat, 4));
}

/// Decodes a string from the bytes of `k` from `start` to the end.
fn decode_str(k: &Vec<u8>, start: usize) -> (r: Option<String>)
    requires
        start <= k@.len(),
    ensures
        r is Some ==> chars_bytes(r->0@) == k@.subrange(start as int, k@.len() as int),
        forall|s: Seq<char>| #[trigger] chars_bytes(s) == k@.subrange(start as int, k@.len() as int)
            ==> r is Some && r->0@ == s,
{
    let len = k.len();
    if (len - start) % 4 != 0 {
        proof {
            assert forall|s: Seq<char>| #[trigger] chars_bytes(s) != k@.subrange(start as int, k@.len() as int) by {
                lemma_chars_len(s);
                assert((4 * s.len()) % 4 == 0) by (nonlinear_arith);
            }
        }
        return None;
    }
    let ghost whole = k@.subrange(start as int, k@.len() as int);
    let ghost target: Option<Seq<char>> = if exists|s: Seq<char>| #[trigger] chars_bytes(s) == whole {
        Some(choose|s: Seq<char>| #[trigger] chars_bytes(s) == whole)
    } else {
        None
    };
    proof {
        if target is Some {
            lemma_chars_len(target->0);
        } else {
            assert forall|s: Seq<char>| #[trigger] chars_bytes(s) != whole by {
                if chars_bytes(s) == whole {
                    assert(exists|s: Seq<char>| #[trigger] chars_bytes(s) == whole);
                }
            }
        }
        lemma_pow256_4();
    }
    let mut out = String::new();
    let mut pos: usize = start;
    while pos < len
        invariant
            start <= pos <= len,
            len == k@.len(),
            (len - pos) % 4 == 0,
            pow256(4) == 0x1_0000_0000,
            whole == k@.subrange(start as int, k@.len() as int),
            chars_bytes(out@) == k@.subrange(start as int, pos as int),
            target is Some ==> chars_bytes(target->0) == whole && 4 * target->0.len() == len - start,
            target is None ==> forall|s: Seq<char>| #[trigger] chars_bytes(s) != whole,
            target is Some ==> out@ == target->0.take(out@.len() as int) && pos - start == 4 * out@.len(),
        decreases len - pos,
    {
        let code = read_be(k, pos, 4);
        proof {
            lemma_from_be(k@.subrange(pos as int, pos + 4));
        }
        let c = match char_from_u32(code as u32) {
            Some(c) => c,
            None => {
                proof {
                    if target is Some {
                        let t = target->0;
                        let j = out@.len() as int;
                        lemma_chunk(t, j, whole);
                        assert(k@.subrange(pos as int, pos + 4) =~= whole.subrange(4 * j, 4 * j + 4));
                        let rest = t.skip(j);
                        assert(rest[0] == t[j]);
                        lemma_be_round_trip(rest[0] as u32 as nat, 4);
                        vstd::utf8::char_is_scalar(rest[0]);
                        assert(false);
                    }
                }
                return None;
            },
        };
        let ghost before = out@;
        push_char(&mut out, c);
        proof {
            assert(out@.drop_last() =~= before);
            lemma_be_round_trip(c as u32 as nat, 4);
            assert(be_bytes(c as u32 as nat, 4) =~= k@.subrange(pos as int, pos + 4)) by {
                lemma_from_be(k@.subrange(pos as int, pos + 4));
            }
            assert(chars_bytes(out@) =~= k@.subrange(start as int, pos + 4));
            if target is Some {
                let t = target->0;
                let j = before.len() as int;
                lemma_chunk(t, j, whole);
                assert(k@.subrange(pos as int, pos + 4) =~= whole.subrange(4 * j, 4 * j + 4));
                let rest = t.skip(j);
                assert(rest[0] == t[j]);
                lemma_be_round_trip(rest[0] as u32 as nat, 4);
                vstd::utf8::char_u32_cast(c, c as u32);
                vstd::utf8::char_u32_cast(rest[0], rest[0] as u32);
                assert(out@ =~= t.take(j + 1));
            }
        }
        pos = pos + 4;
    }
    proof {
        if target is Some {
            assert(target->0.take(out@.len() as int) =~= target->0);
        }
        assert forall|s: Seq<char>| #[trigger] chars_bytes(s) == whole implies out@ == s by {
            assert(target is Some);
            lemma_chars_injective(s, target->0);
        }
    }
    Some(out)
}

/// Decodes a value from the bytes of `k` from `start` to the end.
fn decode_value(k: &Vec<u8>, start: usize) -> (r: Option<DataValue>)
    requires
        start <= k@.len(),
    ensures
        r is Some ==> value_bytes(r->0@) == k@.subrange(start as int, k@.len() as int),
        forall|v: ValueView| #[trigger] value_bytes(v) == k@.subrange(start as int, k@.len() as int) ==> r is Some,
{
    let ghost rest = k@.subrange(start as int, k@.len() as int);
    proof {
        lemma_pow256_8();
        lemma_be_len(0, 8);
        assert forall|v: ValueView| #[trigger] value_bytes(v) == rest implies rest.len() >= 1 && rest[0] == value_bytes(v)[0] by {
        }
    }
    let n = k.len() - start;
    if n == 0 {
        return None;
    }
    let tag = k[start];
    if tag == 1 && n == 1 {
        proof {
            assert(value_bytes(ValueView::Null) =~= rest);
        }
        return Some(DataValue::Null);
    }
    if tag == 255 && n == 1 {
        proof {
            assert(value_bytes(ValueView::Bottom) =~= rest);
        }
        return Some(DataValue::Bottom);
    }
    if tag == 2 && n == 2 && k[start + 1] <= 1 {
        let b = k[start + 1] == 1;
        proof {
            assert(value_bytes(ValueView::Bool(b)) =~= rest);
        }
        return Some(DataValue::Bool(b));
    }
    if (tag == 3 || tag == 5) && n == 9 {
        let x = read_be(k, start + 1, 8);
        proof {
            lemma_from_be(k@.subrange(start + 1, start + 9));
        }
        if tag == 3 {
            let i = (x as i128 - 0x8000_0000_0000_0000i128) as i64;
            proof {
                assert((i as int + 0x8000_0000_0000_0000) as nat == x as nat);
                assert(value_bytes(ValueView::Int(i)) =~= rest);
            }
            return Some(DataValue::Int(i));
        } else {
            proof {
                assert(value_bytes(ValueView::EnId(x)) =~= rest);
            }
            return Some(DataValue::EnId(EntityId(x)));
        }
    }
    if tag == 4 {
        match decode_str(k, start + 1) {
            Some(text) => {
                proof {
                    assert(value_bytes(ValueView::Str(text@)) =~= rest);
                }
                return Some(DataValue::Str(text));
            },
            None => {
                proof {
                    assert forall|v: ValueView| #[trigger] value_bytes(v) != rest by {
                        if value_bytes(v) == rest && v is Str {
                            assert(chars_bytes(v->Str_0) =~= value_bytes(v).subrange(1, value_bytes(v).len() as int));
                            assert(chars_bytes(v->Str_0) =~= k@.subrange(start + 1, k@.len() as int));
                        }
                    }
                }
                return None;
            },
        }
    }
    proof {
        assert forall|v: ValueView| #[trigger] value_bytes(v) != rest by {
            if value_bytes(v) == rest {
                lemma_be_len((v->Int_0 as int + 0x8000_0000_0000_0000) as nat, 8);
                lemma_be_len(v->EnId_0 as nat, 8);
                if v is Bool {
                    assert(rest[1] == value_bytes(v)[1]);
                }
            }
        }
    }
    None
}

/// Decodes a key in entity-attribute-value order. Every key that
/// `encode_eav_key` makes decodes to the fact it was made from.
pub fn decode_eav_key(k: &Vec<u8>) -> (r: Option<(EntityId, AttrId, Validity, DataValue)>)
    ensures
        r matches Some((e1, a1, vld1, v1)) ==> eav_key(e1.0, a1.0, vld1.0, v1@) == k@,
        forall|e: u64, a: u32, vld: i64, v: ValueView| #[trigger] eav_key(e, a, vld, v) == k@
            ==> (r matches Some((e1, a1, vld1, v1)) && e1.0 == e && a1.0 == a && vld1.0 == vld && v1@ == v),
{
    proof {
        lemma_pow256_8();
        lemma_pow256_4();
        lemma_be_len(0, 8);
        lemma_be_len(0, 4);
        assert forall|e: u64, a: u32, vld: i64, v: ValueView| #[trigger] eav_key(e, a, vld, v) == k@
            implies k@.len() >= 22 && k@[0] == TAG_TRIPLE_EAV
            && value_bytes(v) == k@.subrange(21, k@.len() as int) by {
            lemma_be_len(e as nat, 8);
            lemma_be_len(a as nat, 4);
            lemma_be_len(validity_code(vld), 8);
            assert(value_bytes(v) =~= k@.subrange(21, k@.len() as int));
        }
    }
    if k.len() < 22 || k[0] != TAG_TRIPLE_EAV {
        return None;
    }
    let e = read_be(k, 1, 8);
    let a = read_be(k, 9, 4);
    let code = read_be(k, 13, 8);
    proof {
        lemma_from_be(k@.subrange(1, 9));
        lemma_from_be(k@.subrange(9, 13));
        lemma_from_be(k@.subrange(13, 21));
    }
    let vld = (0x7fff_ffff_ffff_ffffi128 - code as i128) as i64;
    let a = a as u32;
    match decode_value(k, 21) {
        Some(v) => {
            proof {
                assert(validity_code(vld) == code as nat);
                assert(eav_key(e, a, vld, v@) =~= k@);
                assert forall|e2: u64, a2: u32, vld2: i64, v2: ValueView| #[trigger] eav_key(e2, a2, vld2, v2) == k@
                    implies e == e2 && a == a2 && vld == vld2 && v@ == v2 by {
                    lemma_eav_key_injective(e, a, vld, v@, e2, a2, vld2, v2);
                }
            }
            Some((EntityId(e), AttrId(a), Validity(vld), v))
        },
        None => None,
    }
}

} // verus!
