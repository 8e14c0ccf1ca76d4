//! Numbers of variable length: seven bits to a byte, least significant first.

use crate::error::Error;
use vstd::prelude::*;

verus! {

/// 128 to the power `n`.
pub open spec fn pow128(n: nat) -> nat
    decreases n,
{
    if n == 0 {
        1
    } else {
        128 * pow128((n - 1) as nat)
    }
}

/// The low seven bits of a byte.
pub open spec fn low7(b: u8) -> nat {
    (b % 128) as nat
}

/// The number that the varint at the start of `s` stands for, and the number
/// of bytes it occupies. Each byte gives seven bits, least significant group
/// first; a byte of 128 or more says that another follows. `None` where `s`
/// ends before the varint does.
pub open spec fn varint_decoding(s: Seq<u8>) -> Option<(nat, nat)>
    decreases s.len(),
{
    if s.len() == 0 {
        None
    } else if s[0] < 128 {
        Some((s[0] as nat, 1nat))
    } else {
        match varint_decoding(s.skip(1)) {
            Some((rest, used)) => Some((low7(s[0]) + 128 * rest, used + 1)),
            None => None,
        }
    }
}

/// The shortest varint that stands for `n`.
pub open spec fn varint_encoding(n: nat) -> Seq<u8>
    decreases n,
{
    if n < 128 {
        seq![n as u8]
    } else {
        seq![(128 + n % 128) as u8] + varint_encoding(n / 128)
    }
}

/// The number of binary digits of `n`; zero has none.
pub open spec fn bit_length(n: nat) -> nat
    decreases n,
{
    if n == 0 {
        0
    } else {
        1 + bit_length(n / 2)
    }
}

/// What the first `i` bytes of `s` contribute to a varint of which they are
/// all continuation bytes.
pub open spec fn prefix_value(s: Seq<u8>, i: nat) -> nat
    decreases i,
{
    if i == 0 {
        0
    } else {
        prefix_value(s, (i - 1) as nat) + low7(s[i - 1]) * pow128((i - 1) as nat)
    }
}

/// No power of 128 is zero.
proof fn lemma_pow128_positive(n: nat)
    ensures
        pow128(n) >= 1,
    decreases n,
{
    if n > 0 {
        lemma_pow128_positive((n - 1) as nat);
    }
}

/// A varint whose first `i` bytes all continue is the value of those bytes
/// plus 128^i times the varint that starts after them.
proof fn lemma_decoding_after_prefix(s: Seq<u8>, i: nat)
    requires
        i <= s.len(),
        forall|j: int| 0 <= j < i ==> s[j] >= 128,
    ensures
        varint_decoding(s) == match varint_decoding(s.skip(i as int)) {
            Some((rest, used)) => Some((prefix_value(s, i) + pow128(i) * rest, used + i)),
            None => None,
        },
    decreases i,
{
    if i == 0 {
        assert(s.skip(0) =~= s);
        assert(pow128(0) == 1);
        assert(prefix_value(s, 0) == 0);
    } else {
        let k = (i - 1) as nat;
        lemma_decoding_after_prefix(s, k);
        let t = s.skip(k as int);
        assert(t.len() > 0);
        assert(t[0] == s[k as int]);
        assert(t.skip(1) =~= s.skip(i as int));
        assert(pow128(i) == 128 * pow128(k));
        assert(prefix_value(s, i) == prefix_value(s, k) + low7(s[k as int]) * pow128(k));
        match varint_decoding(s.skip(i as int)) {
            Some((rest, used)) => {
                let inner = low7(s[k as int]) + 128 * rest;
                assert(varint_decoding(t) == Some((inner, used + 1)));
                assert(pow128(k) * inner == low7(s[k as int]) * pow128(k) + pow128(i) * rest)
                    by (nonlinear_arith)
                    requires
                        inner == low7(s[k as int]) + 128 * rest,
                        pow128(i) == 128 * pow128(k),
                ;
            },
            None => {
                assert(varint_decoding(t) is None);
            },
        }
    }
}

/// The number a varint stands for is at least what its first byte gives.
proof fn lemma_decoding_at_least_first(s: Seq<u8>)
    ensures
        varint_decoding(s) matches Some((value, _)) ==> value >= low7(s[0]),
{
}

/// Where the bytes before `i` all continue and the group at `i` alone, at its
/// place, goes beyond a bound, the whole varint does so too.
proof fn lemma_decoding_exceeds(s: Seq<u8>, i: nat, bound: nat)
    requires
        i < s.len(),
        forall|j: int| 0 <= j < i ==> s[j] >= 128,
        prefix_value(s, i) + low7(s[i as int]) * pow128(i) > bound,
    ensures
        varint_decoding(s) matches Some((value, _)) ==> value > bound,
{
    lemma_decoding_after_prefix(s, i);
    let t = s.skip(i as int);
    assert(t[0] == s[i as int]);
    lemma_decoding_at_least_first(t);
    if let Some((rest, used)) = varint_decoding(t) {
        assert(pow128(i) * rest >= low7(s[i as int]) * pow128(i)) by (nonlinear_arith)
            requires
                rest >= low7(s[i as int]),
        ;
    }
}

/// A varint occupies at least one byte and no more bytes than there are.
pub proof fn lemma_varint_within(s: Seq<u8>)
    ensures
        varint_decoding(s) matches Some((_, used)) ==> 0 < used <= s.len(),
    decreases s.len(),
{
    if s.len() > 0 && s[0] >= 128 {
        lemma_varint_within(s.skip(1));
    }
}

/// Reads the varint at the start of `data`: its value and the number of bytes
/// it occupies. Fails where `data` ends inside the varint, or where the value
/// does not fit in 64 bits.
pub fn process_var_int(data: &[u8]) -> (r: Result<(u64, usize), Error>)
    ensures
        match r {
            Ok((value, used)) => varint_decoding(data@) == Some((value as nat, used as nat)),
            Err(e) => e == Error::Malformed && match varint_decoding(data@) {
                Some((value, _)) => value > u64::MAX,
                None => true,
            },
        },
{
    let mut i: usize = 0;
    let mut acc: u64 = 0;
    let mut scale: Option<u64> = Some(1);
    while i < data.len()
        invariant
            i <= data.len(),
            forall|j: int| 0 <= j < i ==> data@[j] >= 128,
            acc == prefix_value(data@, i as nat),
            match scale {
                Some(m) => m == pow128(i as nat),
                None => pow128(i as nat) > u64::MAX,
            },
        decreases data.len() - i,
    {
        let b: u8 = data[i];
        let group: u8 = b & 0x7f;
        let last: bool = b & 0x80 == 0;
        proof {
            assert(b & 0x7f == b % 128) by (bit_vector);
            assert((b & 0x80 == 0) == (b < 128)) by (bit_vector);
            lemma_pow128_positive(i as nat);
        }
        let ghost at_place = low7(b) * pow128(i as nat);
        if group != 0 {
            let shifted: Option<u64> = match scale {
                Some(m) => (group as u64).checked_mul(m),
                None => None,
            };
            proof {
                if shifted is None {
                    assert(at_place > u64::MAX) by (nonlinear_arith)
                        requires
                            at_place == low7(b) * pow128(i as nat),
                            low7(b) >= 1,
                            pow128(i as nat) > u64::MAX || low7(b) * pow128(i as nat) > u64::MAX,
                    ;
                }
            }
            let sum: Option<u64> = match shifted {
                Some(t) => acc.checked_add(t),
                None => None,
            };
            match sum {
                Some(a) => {
                    acc = a;
                },
                None => {
                    proof {
                        lemma_decoding_exceeds(data@, i as nat, u64::MAX as nat);
                    }
                    return Err(Error::Malformed);
                },
            }
        } else {
            assert(at_place == 0) by (nonlinear_arith)
                requires
                    at_place == low7(b) * pow128(i as nat),
                    low7(b) == 0,
            ;
        }
        assert(acc == prefix_value(data@, (i + 1) as nat));
        if last {
            proof {
                lemma_decoding_after_prefix(data@, i as nat);
                assert(data@.skip(i as int)[0] == b);
                assert(pow128(i as nat) * (b as nat) == at_place) by (nonlinear_arith)
                    requires
                        at_place == low7(b) * pow128(i as nat),
                        low7(b) == b as nat,
                ;
            }
            return Ok((acc, i + 1));
        }
        scale = match scale {
            Some(m) => m.checked_mul(128),
            None => None,
        };
        i = i + 1;
    }
    proof {
        lemma_decoding_after_prefix(data@, i as nat);
    }
    Err(Error::Malformed)
}

/// Writes `n` as the shortest varint that stands for it.
pub fn encode_varint(n: u64) -> (out: Vec<u8>)
    ensures
        out@ == varint_encoding(n as nat),
{
    let mut out: Vec<u8> = Vec::new();
    let mut rest: u64 = n;
    while rest >= 128
        invariant
            out@ + varint_encoding(rest as nat) == varint_encoding(n as nat),
        decreases rest,
    {
        let b: u8 = (128 + rest % 128) as u8;
        proof {
            let tail = varint_encoding((rest / 128) as nat);
            assert(varint_encoding(rest as nat) == seq![b] + tail);
            assert(out@.push(b) + tail =~= out@ + (seq![b] + tail));
        }
        out.push(b);
        rest = rest / 128;
    }
    proof {
        assert(varint_encoding(rest as nat) == seq![rest as u8]);
        assert(out@.push(rest as u8) =~= out@ + seq![rest as u8]);
    }
    out.push(rest as u8);
    out
}

/// Decoding what `varint_encoding` wrote gives the number back and consumes
/// exactly the bytes written, whatever follows them.
pub proof fn lemma_varint_round_trip(n: nat, rest: Seq<u8>)
    ensures
        varint_decoding(varint_encoding(n) + rest) == Some((n, varint_encoding(n).len())),
    decreases n,
{
    let enc = varint_encoding(n);
    let s = enc + rest;
    if n < 128 {
        assert(s[0] == n as u8);
    } else {
        let tail = varint_encoding(n / 128);
        lemma_varint_round_trip(n / 128, rest);
        assert(s[0] == (128 + n % 128) as u8);
        assert(s.skip(1) =~= tail + rest);
        assert(low7(s[0]) == n % 128);
    }
}

/// A number of 128 or more has seven binary digits more than its 128th
/// part.
proof fn lemma_bit_length_shift7(n: nat)
    requires
        n >= 128,
    ensures
        bit_length(n) == 7 + bit_length(n / 128),
{
    reveal_with_fuel(bit_length, 8);
    assert(n / 2 / 2 / 2 / 2 / 2 / 2 / 2 == n / 128);
}

/// A positive number below 128 has from one to seven binary digits.
proof fn lemma_bit_length_small(n: nat)
    requires
        0 < n < 128,
    ensures
        1 <= bit_length(n) <= 7,
{
    reveal_with_fuel(bit_length, 9);
}

/// The shortest varint of a positive number has one byte for every seven
/// binary digits of the number, rounded up.
pub proof fn lemma_varint_length(n: nat)
    requires
        n > 0,
    ensures
        varint_encoding(n).len() == (bit_length(n) + 6) / 7,
    decreases n,
{
    if n < 128 {
        lemma_bit_length_small(n);
    } else {
        lemma_bit_length_shift7(n);
        lemma_varint_length(n / 128);
    }
}

/// Zero is written as a single zero byte.
pub proof fn lemma_varint_of_zero()
    ensures
        varint_encoding(0) == seq![0u8],
        bit_length(0) == 0,
{
}

} // verus!
