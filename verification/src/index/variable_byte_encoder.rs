//! A second variable-byte encoder, which writes zero as the single byte 0.
use vstd::prelude::*;
use crate::index::variable_byte::{vb_digits, vb_encoding};

verus! {

/// Returns the bytes of `to_prepend` followed by those of `current`.
pub fn prepend(current: Vec<u8>, to_prepend: Vec<u8>) -> (res: Vec<u8>)
    ensures
        res@ == to_prepend@ + current@,
{
    let mut current = current;
    let mut res = to_prepend;
    res.append(&mut current);
    res
}

/// Variable-byte encoding of `number`, except that zero is the byte 0.
pub fn vb_encode(number: u32) -> (bytes: Vec<u8>)
    ensures
        number == 0 ==> bytes@ == seq![0u8],
        number != 0 ==> bytes@ == vb_encoding(number as nat),
{
    if number == 0 {
        return vec![0u8];
    }
    let ghost n0 = number as nat;
    let mut n = number;
    let mut bytes: Vec<u8> = Vec::new();
    loop
        invariant_except_break
            vb_digits(n0) == vb_digits(n as nat) + bytes@,
        ensures
            vb_digits(n0) == bytes@,
        decreases n,
    {
        bytes = prepend(bytes, vec![(n % 128) as u8]);
        if n < 128 {
            assert(vb_digits(n as nat) =~= seq![(n % 128) as u8]);
            break;
        }
        assert(vb_digits(n as nat) == vb_digits((n / 128) as nat).push((n % 128) as u8));
        assert(vb_digits(n0) =~= vb_digits((n / 128) as nat) + bytes@);
        n = n / 128;
    }
    proof {
        crate::index::variable_byte::lemma_digits_props(n0);
    }
    let last = bytes.len() - 1;
    let b = bytes[last];
    assert(b < 128);
    bytes.set(last, b + 128);
    assert(bytes@ =~= vb_encoding(n0));
    bytes
}

} // verus!
