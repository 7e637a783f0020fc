//! Unsigned LEB128: base-128 groups, least significant first, the high bit of
//! each byte set on every group but the last.
use vstd::prelude::*;

verus! {

/// The unsigned LEB128 encoding of `n`, in its shortest form.
pub open spec fn leb_encode(n: nat) -> Seq<u8>
    decreases n,
{
    if n < 128 {
        seq![n as u8]
    } else {
        seq![(n % 128 + 128) as u8] + leb_encode(n / 128)
    }
}

/// Reads an unsigned LEB128 value at `pos` that takes at most `budget` bytes:
/// its value and the position just past it.
pub open spec fn leb_decode(s: Seq<u8>, pos: int, budget: nat) -> Option<(nat, int)>
    decreases budget,
{
    if budget == 0 || pos < 0 || pos >= s.len() {
        None
    } else if s[pos] < 128 {
        Some((s[pos] as nat, pos + 1))
    } else {
        match leb_decode(s, pos + 1, (budget - 1) as nat) {
            Some((v, next)) => Some(((s[pos] - 128) as nat + 128 * v, next)),
            None => None,
        }
    }
}

/// `128` to the power `k`.
pub open spec fn radix_pow(k: nat) -> nat
    decreases k,
{
    if k == 0 {
        1
    } else {
        128 * radix_pow((k - 1) as nat)
    }
}

/// A decoded value stays below `128` to the power of the bytes allowed, and
/// the value ends strictly after where it starts.
pub proof fn lemma_decode_bounds(s: Seq<u8>, pos: int, budget: nat)
    ensures
        leb_decode(s, pos, budget) matches Some((v, next)) ==> v < radix_pow(budget) && pos
            < next <= pos + budget && next <= s.len(),
    decreases budget,
{
    if budget > 0 && 0 <= pos < s.len() && s[pos] >= 128 {
        lemma_decode_bounds(s, pos + 1, (budget - 1) as nat);
        if let Some((v, next)) = leb_decode(s, pos + 1, (budget - 1) as nat) {
            let b = (s[pos] - 128) as nat;
            let c = radix_pow((budget - 1) as nat);
            assert(b + 128 * v < 128 * c) by (nonlinear_arith)
                requires
                    b < 128,
                    v < c,
            ;
        }
    } else if budget > 0 && 0 <= pos < s.len() {
        assert(radix_pow(budget) == 128 * radix_pow((budget - 1) as nat));
        lemma_radix_pow_positive((budget - 1) as nat);
    }
}

pub proof fn lemma_radix_pow_positive(k: nat)
    ensures
        radix_pow(k) >= 1,
    decreases k,
{
    if k > 0 {
        lemma_radix_pow_positive((k - 1) as nat);
    }
}

/// The encoding of a value below `128^k` takes at most `k` bytes.
pub proof fn lemma_encode_len(n: nat, k: nat)
    requires
        k >= 1,
        n < radix_pow(k),
    ensures
        1 <= leb_encode(n).len() <= k,
    decreases n,
{
    if n < 128 {
    } else {
        let c = radix_pow((k - 1) as nat);
        assert(n / 128 < c) by (nonlinear_arith)
            requires
                n < 128 * c,
        ;
        assert(radix_pow(0) == 1);
        lemma_encode_len(n / 128, (k - 1) as nat);
    }
}

/// Decoding the encoding of `n`, whatever follows it, gives back `n` and the
/// position just past the encoding.
pub proof fn lemma_decode_encode(s: Seq<u8>, pos: int, n: nat, budget: nat)
    requires
        0 <= pos,
        pos + leb_encode(n).len() <= s.len(),
        s.subrange(pos, pos + leb_encode(n).len()) == leb_encode(n),
        leb_encode(n).len() <= budget,
    ensures
        leb_decode(s, pos, budget) == Some((n, pos + leb_encode(n).len())),
    decreases n,
{
    let e = leb_encode(n);
    assert(s[pos] == e[0]);
    if n >= 128 {
        let rest = leb_encode(n / 128);
        assert(e.len() == 1 + rest.len());
        assert(s.subrange(pos + 1, pos + 1 + rest.len()) =~= rest) by {
            assert forall|i: int| 0 <= i < rest.len() implies s[pos + 1 + i] == rest[i] by {
                assert(s.subrange(pos, pos + e.len())[1 + i] == e[1 + i]);
            }
        }
        lemma_decode_encode(s, pos + 1, n / 128, (budget - 1) as nat);
    }
}

/// Relies on leb128::write::unsigned: appends the shortest unsigned LEB128
/// encoding of `n`, low group first. Writing into a `Vec` cannot fail.
#[verifier::external_body]
pub(crate) fn write_unsigned(out: &mut Vec<u8>, n: u64)
    ensures
        final(out)@ == old(out)@ + leb_encode(n as nat),
{
    let _ = leb128::write::unsigned(out, n);
}

/// Reads an unsigned LEB128 value of at most `budget` bytes at `pos`.
pub fn read_unsigned(s: &[u8], pos: usize, budget: usize) -> (r: Option<(u64, usize)>)
    requires
        budget <= 9,
    ensures
        match leb_decode(s@, pos as int, budget as nat) {
            Some((v, next)) => r matches Some((x, n)) && x as nat == v && n as int == next,
            None => r is None,
        },
    decreases budget,
{
    if budget == 0 || pos >= s.len() {
        None
    } else if s[pos] < 128 {
        Some((s[pos] as u64, pos + 1))
    } else {
        match read_unsigned(s, pos + 1, budget - 1) {
            Some((v, next)) => {
                proof {
                    lemma_decode_bounds(s@, pos + 1, (budget - 1) as nat);
                    lemma_pow_bound((budget - 1) as nat);
                }
                Some(((s[pos] - 128) as u64 + 128 * v, next))
            },
            None => None,
        }
    }
}

/// Ten groups hold any 64-bit value.
pub proof fn lemma_radix_pow_ten()
    ensures
        radix_pow(10) > 0xffff_ffff_ffff_ffff,
        radix_pow(5) == 0x8_0000_0000,
{
    reveal_with_fuel(radix_pow, 11);
}

/// A decoded value does not depend on what follows it.
pub proof fn lemma_decode_extend(s: Seq<u8>, t: Seq<u8>, pos: int, budget: nat)
    requires
        leb_decode(s, pos, budget) is Some,
    ensures
        leb_decode(s + t, pos, budget) == leb_decode(s, pos, budget),
    decreases budget,
{
    assert((s + t)[pos] == s[pos]);
    if s[pos] >= 128 {
        lemma_decode_extend(s, t, pos + 1, (budget - 1) as nat);
    }
}

proof fn lemma_pow_bound(k: nat)
    requires
        k <= 8,
    ensures
        radix_pow(k) <= 0x100_0000_0000_0000,
{
    reveal_with_fuel(radix_pow, 9);
}

} // verus!
