use vstd::prelude::*;

verus! {

/// The `len` low bytes of `n`, the lowest first.
pub open spec fn le_bytes(n: nat, len: nat) -> Seq<u8>
    decreases len,
{
    if len == 0 {
        Seq::empty()
    } else {
        seq![(n % 256) as u8] + le_bytes(n / 256, (len - 1) as nat)
    }
}

/// The number that a byte string stands for when its first byte is the lowest.
pub open spec fn le_value(s: Seq<u8>) -> nat
    decreases s.len(),
{
    if s.len() == 0 {
        0
    } else {
        s[0] as nat + 256 * le_value(s.drop_first())
    }
}

/// The number that a byte string stands for when its first byte is the highest.
pub open spec fn be_value(s: Seq<u8>) -> nat
    decreases s.len(),
{
    if s.len() == 0 {
        0
    } else {
        256 * be_value(s.drop_last()) + s.last() as nat
    }
}

/// The number of byte strings of length `k`.
pub open spec fn byte_strings(k: nat) -> nat
    decreases k,
{
    if k == 0 {
        1
    } else {
        256 * byte_strings((k - 1) as nat)
    }
}

/// What `le_bytes` writes, `le_value` reads.
pub proof fn lemma_le_round_trip(n: nat, len: nat)
    requires
        n < byte_strings(len),
    ensures
        le_bytes(n, len).len() == len,
        le_value(le_bytes(n, len)) == n,
    decreases len,
{
    if len > 0 {
        let rest = (len - 1) as nat;
        assert(n / 256 < byte_strings(rest));
        lemma_le_round_trip(n / 256, rest);
        assert(le_bytes(n, len).drop_first() =~= le_bytes(n / 256, rest));
    }
}

/// A number that is read from bytes is below the number of byte strings of that length.
pub proof fn lemma_le_bound(s: Seq<u8>)
    ensures
        le_value(s) < byte_strings(s.len()),
    decreases s.len(),
{
    if s.len() > 0 {
        lemma_le_bound(s.drop_first());
    }
}

/// Every `u64` fits in eight bytes.
pub proof fn lemma_u64_fits()
    ensures
        byte_strings(8) == 0x1_0000_0000_0000_0000,
{
    reveal_with_fuel(byte_strings, 9);
}

proof fn lemma_u128_fits()
    ensures
        byte_strings(16) == 0x1_0000_0000_0000_0000_0000_0000_0000_0000,
{
    reveal_with_fuel(byte_strings, 17);
}

proof fn lemma_byte_strings_grow(a: nat, b: nat)
    requires
        a <= b,
    ensures
        byte_strings(a) <= byte_strings(b),
    decreases b,
{
    if a < b {
        lemma_byte_strings_grow(a, (b - 1) as nat);
    }
}

proof fn lemma_be_bound(s: Seq<u8>)
    ensures
        be_value(s) < byte_strings(s.len()),
    decreases s.len(),
{
    if s.len() > 0 {
        lemma_be_bound(s.drop_last());
    }
}

/// Sixteen bytes stand for a `u128`.
pub proof fn lemma_be_fits(s: Seq<u8>)
    requires
        s.len() == 16,
    ensures
        be_value(s) <= u128::MAX,
{
    lemma_be_bound(s);
    lemma_u128_fits();
}

/// The sixteen bytes of `bytes` from `start` on, as a big-endian number.
pub fn be_u128(bytes: &Vec<u8>, start: usize) -> (value: u128)
    requires
        start + 16 <= bytes.len(),
    ensures
        value == be_value(bytes@.subrange(start as int, start + 16)),
{
    let mut value: u128 = 0;
    let mut i: usize = 0;
    assert(bytes@.subrange(start as int, start as int) =~= Seq::<u8>::empty());
    while i < 16
        invariant
            i <= 16,
            start + 16 <= bytes.len(),
            value == be_value(bytes@.subrange(start as int, start + i)),
        decreases 16 - i,
    {
        proof {
            let prefix = bytes@.subrange(start as int, start + i);
            let longer = bytes@.subrange(start as int, start + i + 1);
            assert(longer.drop_last() =~= prefix);
            lemma_be_bound(longer);
            lemma_byte_strings_grow((i + 1) as nat, 16);
            lemma_u128_fits();
        }
        value = 256 * value + bytes[start + i] as u128;
        i = i + 1;
    }
    value
}

/// Whether two byte strings are the same.
pub fn same_bytes(a: &Vec<u8>, b: &Vec<u8>) -> (same: bool)
    ensures
        same == (a@ == b@),
{
    if a.len() != b.len() {
        return false;
    }
    let mut i: usize = 0;
    while i < a.len()
        invariant
            i <= a.len(),
            a.len() == b.len(),
            forall|j: int| 0 <= j < i ==> a[j] == b[j],
        decreases a.len() - i,
    {
        if a[i] != b[i] {
            return false;
        }
        i = i + 1;
    }
    assert(a@ =~= b@);
    true
}

/// A copy of a byte string.
pub fn copy_bytes(a: &Vec<u8>) -> (copy: Vec<u8>)
    ensures
        copy@ == a@,
{
    let copy = a.clone();
    assert(copy@ =~= a@);
    copy
}

} // verus!
