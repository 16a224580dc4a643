//! Variable-byte encoding of unsigned integers: base-128 digits, most
//! significant first, with the high bit set on the last byte only.
use vstd::prelude::*;

verus! {

/// Base-128 digits of `n`, most significant first (each below 128).
pub open spec fn vb_digits(n: nat) -> Seq<u8>
    decreases n,
{
    if n < 128 {
        seq![n as u8]
    } else {
        vb_digits(n / 128).push((n % 128) as u8)
    }
}

/// The variable-byte encoding of `n`: its digits with 128 added to the last one.
pub open spec fn vb_encoding(n: nat) -> Seq<u8> {
    let d = vb_digits(n);
    d.update(d.len() - 1, (d.last() + 128) as u8)
}

/// The number that the bytes of `s` spell, each byte taken modulo 128.
pub open spec fn vb_value(s: Seq<u8>) -> nat
    decreases s.len(),
{
    if s.len() == 0 {
        0
    } else {
        vb_value(s.drop_last()) * 128 + (s.last() % 128) as nat
    }
}

/// Index of the first byte with its high bit set, among the first five bytes
/// of `s` from index `i` on.
pub open spec fn vb_end_from(s: Seq<u8>, i: nat) -> Option<nat>
    decreases 5 - i,
{
    if i >= 5 || i >= s.len() {
        None
    } else if s[i as int] >= 128 {
        Some(i)
    } else {
        vb_end_from(s, i + 1)
    }
}

/// How many bytes a decoder looks at: through the terminating byte, or the
/// first five (or fewer) bytes when none terminates.
pub open spec fn vb_scan_len(s: Seq<u8>) -> nat {
    match vb_end_from(s, 0) {
        Some(i) => i + 1,
        None => if s.len() < 5 { s.len() } else { 5 },
    }
}

/// What decoding `s` gives: the number and the count of bytes it used.
pub open spec fn vb_decoded(s: Seq<u8>) -> Option<(nat, nat)> {
    match vb_end_from(s, 0) {
        Some(i) => Some((vb_value(s.take(i + 1 as int)), i + 1)),
        None => None,
    }
}

pub(crate) proof fn lemma_digits_props(n: nat)
    ensures
        vb_digits(n).len() >= 1,
        forall|i: int| 0 <= i < vb_digits(n).len() ==> #[trigger] vb_digits(n)[i] < 128,
        vb_value(vb_digits(n)) == n,
        n < 128 ==> vb_digits(n).len() == 1,
        n >= 128 ==> vb_digits(n).len() == vb_digits(n / 128).len() + 1,
    decreases n,
{
    if n >= 128 {
        lemma_digits_props(n / 128);
        let d = vb_digits(n);
        assert(d.drop_last() =~= vb_digits(n / 128));
        assert(d.last() == (n % 128) as u8);
        assert(vb_value(d) == (n / 128) * 128 + n % 128);
    } else {
        let d = vb_digits(n);
        assert(d.drop_last() =~= Seq::<u8>::empty());
        assert(vb_value(d.drop_last()) == 0);
    }
}

proof fn lemma_digits_len_bound(n: nat, k: nat, p: nat)
    requires
        k >= 1,
        p == pow128(k),
        n < p,
    ensures
        vb_digits(n).len() <= k,
    decreases k,
{
    lemma_digits_props(n);
    if n >= 128 {
        assert(k >= 2) by {
            if k == 1 {
                assert(pow128(1) == 128 * pow128(0));
            }
        }
        assert(p == 128 * pow128((k - 1) as nat));
        assert(n / 128 < pow128((k - 1) as nat)) by (nonlinear_arith)
            requires n < 128 * pow128((k - 1) as nat);
        lemma_digits_len_bound(n / 128, (k - 1) as nat, pow128((k - 1) as nat));
    }
}

proof fn lemma_pow128_5()
    ensures
        pow128(5) == 34359738368,
        forall|i: nat| i <= 5 ==> #[trigger] pow128(i) <= 34359738368,
{
    reveal_with_fuel(pow128, 6);
    assert forall|i: nat| i <= 5 implies #[trigger] pow128(i) <= 34359738368 by {
        reveal_with_fuel(pow128, 6);
        if i == 0 {} else if i == 1 {} else if i == 2 {} else if i == 3 {} else if i == 4 {} else {}
    }
}

/// 128 to the power `k`.
pub open spec fn pow128(k: nat) -> nat
    decreases k,
{
    if k == 0 {
        1
    } else {
        128 * pow128((k - 1) as nat)
    }
}

proof fn lemma_value_mod(s: Seq<u8>, t: Seq<u8>)
    requires
        s.len() == t.len(),
        forall|i: int| 0 <= i < s.len() ==> #[trigger] s[i] % 128 == t[i] % 128,
    ensures
        vb_value(s) == vb_value(t),
    decreases s.len(),
{
    if s.len() > 0 {
        lemma_value_mod(s.drop_last(), t.drop_last());
    }
}

proof fn lemma_end_from_first_high(s: Seq<u8>, i: nat, e: nat)
    requires
        i <= e < 5,
        e < s.len(),
        s[e as int] >= 128,
        forall|j: int| i <= j < e ==> #[trigger] s[j] < 128,
    ensures
        vb_end_from(s, i) == Some(e),
    decreases e - i,
{
    if i < e {
        lemma_end_from_first_high(s, i + 1, e);
    }
}

/// Every number below 2^32 is encoded in at most five bytes, and decoding its
/// encoding, whatever bytes follow it, gives the number back and the count of
/// bytes that the encoding holds.
pub proof fn lemma_decode_encode(n: u32, tail: Seq<u8>)
    ensures
        1 <= vb_encoding(n as nat).len() <= 5,
        vb_decoded(vb_encoding(n as nat) + tail) == Some((n as nat, vb_encoding(n as nat).len())),
        vb_value((vb_encoding(n as nat) + tail).take(vb_scan_len(vb_encoding(n as nat) + tail) as int))
            <= u32::MAX,
{
    let d = vb_digits(n as nat);
    let e = vb_encoding(n as nat);
    let s = e + tail;
    lemma_digits_props(n as nat);
    lemma_pow128_5();
    lemma_digits_len_bound(n as nat, 5, pow128(5));
    let k = e.len();
    assert forall|j: int| 0 <= j < k - 1 implies #[trigger] s[j] < 128 by {
        assert(s[j] == d[j]);
    }
    assert(s[k - 1] >= 128);
    lemma_end_from_first_high(s, 0, (k - 1) as nat);
    assert(s.take(k as int) =~= e);
    lemma_value_mod(e, d);
}

/// Prepends the bytes of `stuff_to_prepend` to `prepend`, leaving
/// `stuff_to_prepend` empty.
pub fn prepend(stuff_to_prepend: &mut Vec<u8>, prepend: &mut Vec<u8>)
    ensures
        final(prepend)@ == old(stuff_to_prepend)@ + old(prepend)@,
        final(stuff_to_prepend)@ == Seq::<u8>::empty(),
{
    stuff_to_prepend.append(prepend);
    prepend.append(stuff_to_prepend);
}

/// Variable-byte encoding of `number`.
pub fn encode(number: u32) -> (bytes: Vec<u8>)
    ensures
        bytes@ == vb_encoding(number as nat),
{
    let ghost n0 = number as nat;
    let mut number = number;
    let mut bytes: Vec<u8> = Vec::new();
    proof {
        lemma_digits_props(n0);
    }
    loop
        invariant_except_break
            vb_digits(n0) == vb_digits(number as nat) + bytes@,
        ensures
            vb_digits(n0) == bytes@,
        decreases number,
    {
        proof {
            lemma_digits_props(number as nat);
        }
        let mut digit = vec![(number % 128) as u8];
        prepend(&mut digit, &mut bytes);
        if number < 128 {
            assert(vb_digits(number as nat) =~= seq![(number % 128) as u8]);
            break;
        }
        assert(vb_digits(number as nat) == vb_digits((number / 128) as nat).push((number % 128) as u8));
        assert(vb_digits(n0) =~= vb_digits((number / 128) as nat) + bytes@);
        number = number / 128;
    }
    proof {
        lemma_digits_props(n0);
    }
    let last = bytes.len() - 1;
    let b = bytes[last];
    assert(b < 128);
    bytes.set(last, b + 128);
    assert(bytes@ =~= vb_encoding(n0));
    bytes
}

/// Decodes one variable-byte number from the start of `buf` (at most five
/// bytes are looked at), giving the number and how many bytes it took, or
/// `None` when none of those bytes terminates a number.
pub fn decode(buf: &[u8]) -> (r: Option<(u32, u32)>)
    requires
        vb_value(buf@.take(vb_scan_len(buf@) as int)) <= u32::MAX,
    ensures
        match vb_decoded(buf@) {
            Some((v, c)) => r == Some((v as u32, c as u32)),
            None => r is None,
        },
{
    let mut number: u64 = 0;
    let mut counter: u32 = 1;
    let mut i: usize = 0;
    while i < buf.len() && i < 5
        invariant
            i <= buf.len(),
            i <= 5,
            counter == i + 1,
            number == vb_value(buf@.take(i as int)),
            number < pow128(i as nat),
            vb_end_from(buf@, 0) == vb_end_from(buf@, i as nat),
            vb_value(buf@.take(vb_scan_len(buf@) as int)) <= u32::MAX,
        decreases 5 - i,
    {
        assert(buf@.take(i + 1).drop_last() =~= buf@.take(i as int));
        let byte = buf[i];
        assert(pow128((i + 1) as nat) == 128 * pow128(i as nat));
        assert(number * 128 + 127 < pow128((i + 1) as nat)) by (nonlinear_arith)
            requires number < pow128(i as nat), pow128((i + 1) as nat) == 128 * pow128(i as nat);
        proof {
            lemma_pow128_5();
            assert(pow128((i + 1) as nat) <= 34359738368);
        }
        if byte < 128 {
            number = 128 * number + byte as u64;
        } else {
            number = 128 * number + (byte as u64 - 128);
            assert(vb_end_from(buf@, i as nat) == Some(i as nat));
            proof {
                assert(buf@.take(i + 1).last() == byte);
            }
            return Some((number as u32, counter));
        }
        counter = counter + 1;
        i = i + 1;
    }
    None
}

/// The number that a decoder reads from the start of `buf`, through the
/// terminating byte or over the first five (or fewer) bytes when none
/// terminates.
pub fn scanned_value(buf: &[u8]) -> (n: u64)
    ensures
        n as nat == vb_value(buf@.take(vb_scan_len(buf@) as int)),
{
    let mut number: u64 = 0;
    let mut i: usize = 0;
    while i < buf.len() && i < 5
        invariant
            i <= buf.len(),
            i <= 5,
            number == vb_value(buf@.take(i as int)),
            number < pow128(i as nat),
            vb_end_from(buf@, 0) == vb_end_from(buf@, i as nat),
        decreases 5 - i,
    {
        assert(buf@.take(i + 1).drop_last() =~= buf@.take(i as int));
        let byte = buf[i];
        assert(pow128((i + 1) as nat) == 128 * pow128(i as nat));
        assert(number * 128 + 127 < pow128((i + 1) as nat)) by (nonlinear_arith)
            requires number < pow128(i as nat), pow128((i + 1) as nat) == 128 * pow128(i as nat);
        proof {
            lemma_pow128_5();
            assert(pow128((i + 1) as nat) <= 34359738368);
            assert(buf@.take(i + 1).last() == byte);
        }
        number = 128 * number + (byte % 128) as u64;
        if byte >= 128 {
            assert(vb_end_from(buf@, i as nat) == Some(i as nat));
            return number;
        }
        i = i + 1;
    }
    number
}

} // verus!
