use vstd::prelude::*;
use crate::pool_cache::PoolReading;
use crate::uint256::{half_base, Uint256};

verus! {

/// `IGNORE_CALC_AVAILABLE()`: the pool's flag that keeps it out of availability computations.
#[allow(non_camel_case_types)]
#[derive(Clone, Copy, Debug, PartialEq, Eq, Structural)]
pub struct IGNORE_CALC_AVAILABLECall {}

/// `IGNORE_CALC_LOAN()`: the pool's flag that keeps it out of loan computations.
#[allow(non_camel_case_types)]
#[derive(Clone, Copy, Debug, PartialEq, Eq, Structural)]
pub struct IGNORE_CALC_LOANCall {}

/// `MINIMUM_LIQUIDITY()`: the reserve below which the pool is not acted on.
#[allow(non_camel_case_types)]
#[derive(Clone, Copy, Debug, PartialEq, Eq, Structural)]
pub struct MINIMUM_LIQUIDITYCall {}

/// The read-only calls of a pool contract. Each takes no argument and
/// returns one `uint256` word.
#[allow(non_camel_case_types)]
#[derive(Clone, Copy, Debug, PartialEq, Eq, Structural)]
pub enum PoolUtilsCalls {
    IGNORE_CALC_AVAILABLE(IGNORE_CALC_AVAILABLECall),
    IGNORE_CALC_LOAN(IGNORE_CALC_LOANCall),
    MINIMUM_LIQUIDITY(MINIMUM_LIQUIDITYCall),
}

/// Why bytes did not decode.
#[derive(Clone, Copy, Debug, PartialEq, Eq)]
pub enum DecodeError {
    /// No call or error of this interface has the selector.
    UnknownSelector { selector: [u8; 4] },
    /// The data holds fewer bytes than the encoding needs.
    Overrun { needed: usize, available: usize },
    /// A word is not in canonical form: an address word whose twelve
    /// leading bytes are not all zero.
    NonCanonical { word: usize },
}

/// The four-byte selectors, in ascending order: `IGNORE_CALC_LOAN()`,
/// `MINIMUM_LIQUIDITY()`, `IGNORE_CALC_AVAILABLE()`.
pub open spec fn selector_table() -> Seq<Seq<u8>> {
    seq![seq![120u8, 61u8, 9u8, 113u8], seq![186u8, 154u8, 122u8, 86u8], seq![221u8, 46u8, 10u8, 96u8]]
}

pub open spec fn selector_spec(call: PoolUtilsCalls) -> Seq<u8> {
    match call {
        PoolUtilsCalls::IGNORE_CALC_LOAN(_) => selector_table()[0],
        PoolUtilsCalls::MINIMUM_LIQUIDITY(_) => selector_table()[1],
        PoolUtilsCalls::IGNORE_CALC_AVAILABLE(_) => selector_table()[2],
    }
}

/// The call that a selector names, if any.
pub open spec fn call_for(selector: Seq<u8>) -> Option<PoolUtilsCalls> {
    if selector == selector_table()[0] {
        Some(PoolUtilsCalls::IGNORE_CALC_LOAN(IGNORE_CALC_LOANCall {  }))
    } else if selector == selector_table()[1] {
        Some(PoolUtilsCalls::MINIMUM_LIQUIDITY(MINIMUM_LIQUIDITYCall {  }))
    } else if selector == selector_table()[2] {
        Some(PoolUtilsCalls::IGNORE_CALC_AVAILABLE(IGNORE_CALC_AVAILABLECall {  }))
    } else {
        None
    }
}

/// Every call's selector names that call back, and the three selectors
/// differ: calldata built from a call decodes to the same call.
pub proof fn lemma_selector_round_trip(call: PoolUtilsCalls)
    ensures
        call_for(selector_spec(call)) == Some(call),
{
    let t = selector_table();
    assert(t[0] != t[1]) by {
        assert(t[0][0] != t[1][0]);
    }
    assert(t[0] != t[2]) by {
        assert(t[0][0] != t[2][0]);
    }
    assert(t[1] != t[2]) by {
        assert(t[1][0] != t[2][0]);
    }
}

/// The number that bytes spell most significant first.
pub open spec fn be_value(bytes: Seq<u8>) -> nat
    decreases bytes.len(),
{
    if bytes.len() == 0 {
        0
    } else {
        be_value(bytes.drop_last()) * 256 + bytes.last() as nat
    }
}

pub open spec fn pow256(n: nat) -> nat
    decreases n,
{
    if n == 0 {
        1
    } else {
        256 * pow256((n - 1) as nat)
    }
}

proof fn lemma_be_value_bound(bytes: Seq<u8>)
    ensures
        be_value(bytes) < pow256(bytes.len()),
    decreases bytes.len(),
{
    if bytes.len() > 0 {
        let prev = bytes.drop_last();
        lemma_be_value_bound(prev);
        let (v, p, b) = (be_value(prev) as int, pow256(prev.len()) as int, bytes.last() as int);
        assert(v * 256 + b < 256 * p) by (nonlinear_arith)
            requires
                0 <= v < p,
                0 <= b < 256,
        ;
    }
}

proof fn lemma_be_value_concat(a: Seq<u8>, b: Seq<u8>)
    ensures
        be_value(a + b) == be_value(a) * pow256(b.len()) + be_value(b),
    decreases b.len(),
{
    if b.len() == 0 {
        assert(a + b =~= a);
        assert(pow256(0) == 1);
        assert(be_value(b) == 0);
    } else {
        let prev = b.drop_last();
        lemma_be_value_concat(a, prev);
        assert((a + b).drop_last() =~= a + prev);
        assert((a + b).last() == b.last());
        assert(pow256(b.len()) == 256 * pow256(prev.len()));
        let (va, p, vp, l) = (be_value(a) as int, pow256(prev.len()) as int, be_value(prev) as int, b.last() as int);
        assert(be_value(b) == vp * 256 + l);
        assert(be_value(a + b) == be_value(a + prev) * 256 + l);
        assert(be_value(a + prev) == va * p + vp);
        assert((va * p + vp) * 256 + l == va * (256 * p) + (vp * 256 + l)) by (nonlinear_arith);
    }
}

/// Reads sixteen bytes from `start` as a big-endian number.
fn read_u128_be(data: &[u8], start: usize) -> (r: u128)
    requires
        start + 16 <= data@.len(),
    ensures
        r == be_value(data@.subrange(start as int, start + 16)),
{
    proof {
        assert(data.len() == data@.len());
    }
    let mut acc: u128 = 0;
    let mut i: usize = 0;
    proof {
        reveal_with_fuel(pow256, 17);
        assert(data@.subrange(start as int, start as int) =~= Seq::<u8>::empty());
    }
    while i < 16
        invariant
            start + 16 <= data@.len(),
            data@.len() <= usize::MAX,
            0 <= i <= 16,
            acc == be_value(data@.subrange(start as int, start + i)),
            pow256(16) == half_base(),
        decreases 16 - i,
    {
        let ghost prefix = data@.subrange(start as int, start + i);
        let ghost next = data@.subrange(start as int, start + i + 1);
        proof {
            lemma_be_value_bound(prefix);
            assert(next.drop_last() =~= prefix);
            assert(pow256(i as nat) * 256 <= pow256(16)) by {
                lemma_pow256_monotone((i + 1) as nat, 16);
            }
            assert(acc * 256 + 255 < pow256(16)) by (nonlinear_arith)
                requires
                    acc < pow256(i as nat),
                    pow256(i as nat) * 256 <= pow256(16),
            ;
        }
        acc = acc * 256 + data[start + i] as u128;
        i = i + 1;
    }
    acc
}

proof fn lemma_pow256_monotone(a: nat, b: nat)
    requires
        a <= b,
    ensures
        pow256(a) <= pow256(b),
        a > 0 ==> pow256((a - 1) as nat) * 256 == pow256(a),
    decreases b - a,
{
    if a < b {
        lemma_pow256_monotone(a, (b - 1) as nat);
        assert(pow256(b) == 256 * pow256((b - 1) as nat));
    }
}

/// Appends `v` as sixteen bytes, most significant first.
fn push_u128_be(out: &mut Vec<u8>, v: u128)
    ensures
        final(out)@.len() == old(out)@.len() + 16int,
        final(out)@.subrange(0, old(out)@.len() as int) == old(out)@,
        be_value(final(out)@.subrange(old(out)@.len() as int, old(out)@.len() + 16int)) == v,
{
    let mut bytes: [u8; 16] = [0u8; 16];
    let mut rem: u128 = v;
    let mut k: usize = 16;
    proof {
        reveal_with_fuel(pow256, 17);
        assert(bytes@.subrange(16, 16) =~= Seq::<u8>::empty());
        assert(be_value(Seq::<u8>::empty()) == 0);
        assert(pow256(0) == 1);
        assert(pow256((16 - k) as nat) == 1);
        assert(be_value(bytes@.subrange(k as int, 16)) == 0);
        assert(rem as nat * pow256((16 - k) as nat) == v);
    }
    while k > 0
        invariant
            0 <= k <= 16,
            bytes@.len() == 16,
            rem as nat * pow256((16 - k) as nat) + be_value(bytes@.subrange(k as int, 16)) == v,
        decreases k,
    {
        let b = (rem % 256) as u8;
        let ghost old_rem = rem;
        let ghost tail = bytes@.subrange(k as int, 16);
        bytes[k - 1] = b;
        rem = rem / 256;
        proof {
            let n = (16 - k) as nat;
            assert(bytes@.subrange(k as int, 16) == tail);
            assert(bytes@.subrange(k - 1, 16) =~= seq![b] + tail);
            lemma_be_value_concat(seq![b], tail);
            assert(be_value(seq![b]) == b as nat) by {
                assert(seq![b].drop_last() =~= Seq::<u8>::empty());
                assert(be_value(Seq::<u8>::empty()) == 0);
                assert(seq![b].last() == b);
                assert(be_value(seq![b]) == be_value(seq![b].drop_last()) * 256 + seq![b].last() as nat);
            }
            assert(pow256(n + 1) == 256 * pow256(n));
            assert(old_rem == 256 * rem + b);
            assert(old_rem * pow256(n) == rem * pow256(n + 1) + b * pow256(n)) by (nonlinear_arith)
                requires
                    old_rem == 256 * rem + b,
                    pow256(n + 1) == 256 * pow256(n),
            ;
        }
        k = k - 1;
    }
    proof {
        assert(bytes@.subrange(0, 16) =~= bytes@);
        lemma_be_value_bound(bytes@);
        assert(pow256(16) == half_base());
        assert(rem == 0) by (nonlinear_arith)
            requires
                rem * pow256(16) + be_value(bytes@) == v,
                v < half_base(),
                pow256(16) == half_base(),
        ;
    }
    let ghost start = out@;
    let mut i: usize = 0;
    while i < 16
        invariant
            0 <= i <= 16,
            bytes@.len() == 16,
            out@.len() == start.len() + i,
            out@.subrange(0, start.len() as int) == start,
            forall|j: int| 0 <= j < i ==> out@[start.len() + j] == bytes@[j],
        decreases 16 - i,
    {
        out.push(bytes[i]);
        proof {
            assert(out@.subrange(0, start.len() as int) =~= start);
        }
        i = i + 1;
    }
    assert(out@.subrange(start.len() as int, start.len() + 16int) =~= bytes@);
}

/// Appends `v` as one 32-byte word, most significant byte first.
pub fn push_word(out: &mut Vec<u8>, v: Uint256)
    ensures
        final(out)@.len() == old(out)@.len() + 32,
        final(out)@.subrange(0, old(out)@.len() as int) == old(out)@,
        be_value(final(out)@.subrange(old(out)@.len() as int, old(out)@.len() + 32int)) == v@,
{
    let ghost start = out@;
    push_u128_be(out, v.hi);
    let ghost mid = out@;
    push_u128_be(out, v.lo);
    proof {
        let a = out@.subrange(start.len() as int, start.len() + 16int);
        let b = out@.subrange(start.len() + 16int, start.len() + 32int);
        assert(a =~= mid.subrange(start.len() as int, start.len() + 16int));
        assert(out@.subrange(start.len() as int, start.len() + 32int) =~= a + b);
        assert(out@.subrange(0, start.len() as int) =~= mid.subrange(0, start.len() as int));
        lemma_be_value_concat(a, b);
        reveal_with_fuel(pow256, 17);
    }
}

/// Reads the 32-byte word at `start` as a big-endian number.
pub fn read_word(data: &[u8], start: usize) -> (r: Uint256)
    requires
        start + 32 <= data@.len(),
    ensures
        r@ == be_value(data@.subrange(start as int, start + 32)),
{
    proof {
        assert(data.len() == data@.len());
    }
    let hi = read_u128_be(data, start);
    let lo = read_u128_be(data, start + 16);
    proof {
        let a = data@.subrange(start as int, start + 16);
        let b = data@.subrange(start + 16, start + 32);
        assert(data@.subrange(start as int, start + 32) =~= a + b);
        lemma_be_value_concat(a, b);
        reveal_with_fuel(pow256, 17);
    }
    Uint256::new(hi, lo)
}

/// Decodes a call's return data as one `uint256` word: the first 32 bytes,
/// most significant first. Fails when fewer than 32 bytes came back.
pub fn decode_uint256_return(data: &[u8]) -> (r: Result<Uint256, DecodeError>)
    ensures
        data@.len() < 32 ==> r == Err::<Uint256, DecodeError>(
            DecodeError::Overrun { needed: 32, available: data@.len() as usize },
        ),
        data@.len() >= 32 ==> (r matches Ok(v) && v@ == be_value(data@.subrange(0, 32))),
{
    if data.len() < 32 {
        return Err(DecodeError::Overrun { needed: 32, available: data.len() });
    }
    Ok(read_word(data, 0))
}

/// What `IGNORE_CALC_AVAILABLE()` returns.
#[allow(non_camel_case_types)]
#[derive(Clone, Copy, Debug, PartialEq, Eq, Structural)]
pub struct IGNORE_CALC_AVAILABLEReturn {
    pub _0: Uint256,
}

impl IGNORE_CALC_AVAILABLECall {
    /// Decodes this call's return data: one `uint256` word.
    pub fn abi_decode_returns(data: &[u8]) -> (r: Result<IGNORE_CALC_AVAILABLEReturn, DecodeError>)
        ensures
            data@.len() < 32 ==> r == Err::<IGNORE_CALC_AVAILABLEReturn, DecodeError>(
                DecodeError::Overrun { needed: 32, available: data@.len() as usize },
            ),
            data@.len() >= 32 ==> (r matches Ok(v) && v._0@ == be_value(data@.subrange(0, 32))),
    {
        match decode_uint256_return(data) {
            Ok(w) => Ok(IGNORE_CALC_AVAILABLEReturn { _0: w }),
            Err(e) => Err(e),
        }
    }
}

/// What `IGNORE_CALC_LOAN()` returns.
#[allow(non_camel_case_types)]
#[derive(Clone, Copy, Debug, PartialEq, Eq, Structural)]
pub struct IGNORE_CALC_LOANReturn {
    pub _0: Uint256,
}

impl IGNORE_CALC_LOANCall {
    /// Decodes this call's return data: one `uint256` word.
    pub fn abi_decode_returns(data: &[u8]) -> (r: Result<IGNORE_CALC_LOANReturn, DecodeError>)
        ensures
            data@.len() < 32 ==> r == Err::<IGNORE_CALC_LOANReturn, DecodeError>(
                DecodeError::Overrun { needed: 32, available: data@.len() as usize },
            ),
            data@.len() >= 32 ==> (r matches Ok(v) && v._0@ == be_value(data@.subrange(0, 32))),
    {
        match decode_uint256_return(data) {
            Ok(w) => Ok(IGNORE_CALC_LOANReturn { _0: w }),
            Err(e) => Err(e),
        }
    }
}

/// What `MINIMUM_LIQUIDITY()` returns.
#[allow(non_camel_case_types)]
#[derive(Clone, Copy, Debug, PartialEq, Eq, Structural)]
pub struct MINIMUM_LIQUIDITYReturn {
    pub _0: Uint256,
}

impl MINIMUM_LIQUIDITYCall {
    /// Decodes this call's return data: one `uint256` word.
    pub fn abi_decode_returns(data: &[u8]) -> (r: Result<MINIMUM_LIQUIDITYReturn, DecodeError>)
        ensures
            data@.len() < 32 ==> r == Err::<MINIMUM_LIQUIDITYReturn, DecodeError>(
                DecodeError::Overrun { needed: 32, available: data@.len() as usize },
            ),
            data@.len() >= 32 ==> (r matches Ok(v) && v._0@ == be_value(data@.subrange(0, 32))),
    {
        match decode_uint256_return(data) {
            Ok(w) => Ok(MINIMUM_LIQUIDITYReturn { _0: w }),
            Err(e) => Err(e),
        }
    }
}

/// A pool read from the four words its calls return: the reserve, the
/// minimum liquidity, and the two "ignore" words, any non-zero word meaning
/// the pool is excluded.
pub fn reading_from_words(
    reserve: Uint256,
    minimum_liquidity: Uint256,
    ignore_calc_available: Uint256,
    ignore_calc_loan: Uint256,
) -> (r: PoolReading)
    ensures
        r.reserve == reserve,
        r.minimum_liquidity == minimum_liquidity,
        r.ignore_calc_available == (ignore_calc_available@ != 0),
        r.ignore_calc_loan == (ignore_calc_loan@ != 0),
{
    PoolReading {
        reserve,
        minimum_liquidity,
        ignore_calc_available: !ignore_calc_available.is_zero(),
        ignore_calc_loan: !ignore_calc_loan.is_zero(),
    }
}

impl PoolUtilsCalls {
    /// Every selector of these calls, in ascending order.
    pub const SELECTORS: [[u8; 4]; 3] = [[120u8, 61u8, 9u8, 113u8], [186u8, 154u8, 122u8, 86u8], [221u8, 46u8, 10u8, 96u8]];

    /// The selector of this call.
    pub fn selector(&self) -> (r: [u8; 4])
        ensures
            r@ == selector_spec(*self),
    {
        let r = match self {
            PoolUtilsCalls::IGNORE_CALC_LOAN(_) => [120u8, 61u8, 9u8, 113u8],
            PoolUtilsCalls::MINIMUM_LIQUIDITY(_) => [186u8, 154u8, 122u8, 86u8],
            PoolUtilsCalls::IGNORE_CALC_AVAILABLE(_) => [221u8, 46u8, 10u8, 96u8],
        };
        assert(r@ =~= selector_spec(*self));
        r
    }

    /// The `i`-th selector in ascending order, if there is one.
    pub fn selector_at(i: usize) -> (r: Option<[u8; 4]>)
        ensures
            i < 3 ==> (r matches Some(s) && s@ == selector_table()[i as int]),
            i >= 3 ==> r is None,
    {
        let r = if i == 0 {
            Some([120u8, 61u8, 9u8, 113u8])
        } else if i == 1 {
            Some([186u8, 154u8, 122u8, 86u8])
        } else if i == 2 {
            Some([221u8, 46u8, 10u8, 96u8])
        } else {
            None
        };
        proof {
            if let Some(s) = r {
                assert(s@ =~= selector_table()[i as int]);
            }
        }
        r
    }

    /// Whether the selector names one of these calls.
    pub fn valid_selector(selector: [u8; 4]) -> (r: bool)
        ensures
            r == call_for(selector@) is Some,
    {
        Self::decode_selector(selector).is_some()
    }

    /// The call a selector names.
    pub fn decode_selector(selector: [u8; 4]) -> (r: Option<PoolUtilsCalls>)
        ensures
            r == call_for(selector@),
    {
        let s = selector;
        let r = if s[0] == 120 && s[1] == 61 && s[2] == 9 && s[3] == 113 {
            Some(PoolUtilsCalls::IGNORE_CALC_LOAN(IGNORE_CALC_LOANCall {  }))
        } else if s[0] == 186 && s[1] == 154 && s[2] == 122 && s[3] == 86 {
            Some(PoolUtilsCalls::MINIMUM_LIQUIDITY(MINIMUM_LIQUIDITYCall {  }))
        } else if s[0] == 221 && s[1] == 46 && s[2] == 10 && s[3] == 96 {
            Some(PoolUtilsCalls::IGNORE_CALC_AVAILABLE(IGNORE_CALC_AVAILABLECall {  }))
        } else {
            None
        };
        proof {
            let t = selector_table();
            assert(s@.len() == 4);
            if s@ == t[0] {
                assert(s@[0] == 120 && s@[1] == 61 && s@[2] == 9 && s@[3] == 113);
            } else if s@ == t[1] {
                assert(s@[0] == 186 && s@[1] == 154 && s@[2] == 122 && s@[3] == 86);
            } else if s@ == t[2] {
                assert(s@[0] == 221 && s@[1] == 46 && s@[2] == 10 && s@[3] == 96);
            }
            if s[0] == 120 && s[1] == 61 && s[2] == 9 && s[3] == 113 {
                assert(s@ =~= t[0]);
            } else if s[0] == 186 && s[1] == 154 && s[2] == 122 && s[3] == 86 {
                assert(s@ =~= t[1]);
            } else if s[0] == 221 && s[1] == 46 && s[2] == 10 && s[3] == 96 {
                assert(s@ =~= t[2]);
            }
        }
        r
    }

    /// The size of the encoded arguments, selector excluded: none of these
    /// calls takes any.
    pub fn abi_encoded_size(&self) -> (r: usize)
        ensures
            r == 0,
    {
        0
    }

    /// Appends the encoded arguments, selector excluded: nothing, as none of
    /// these calls takes any.
    pub fn abi_encode_raw(&self, out: &mut Vec<u8>)
        ensures
            final(out)@ == old(out)@,
    {
    }

    /// The call that a selector names; these calls have no argument words,
    /// so whatever follows the selector is ignored.
    pub fn abi_decode_raw(selector: [u8; 4], data: &[u8]) -> (r: Result<PoolUtilsCalls, DecodeError>)
        ensures
            call_for(selector@) matches Some(c) ==> r == Ok::<PoolUtilsCalls, DecodeError>(c),
            call_for(selector@) is None ==> r == Err::<PoolUtilsCalls, DecodeError>(
                DecodeError::UnknownSelector { selector },
            ),
    {
        match Self::decode_selector(selector) {
            Some(c) => Ok(c),
            None => Err(DecodeError::UnknownSelector { selector }),
        }
    }

    /// The calldata of this call: its selector alone, as it takes no argument.
    pub fn abi_encode(&self) -> (r: Vec<u8>)
        ensures
            r@ == selector_spec(*self),
    {
        let s = self.selector();
        let mut v: Vec<u8> = Vec::new();
        v.push(s[0]);
        v.push(s[1]);
        v.push(s[2]);
        v.push(s[3]);
        assert(v@ =~= s@);
        v
    }

    /// Decodes calldata: a known selector followed by nothing or anything,
    /// as these calls take no argument.
    pub fn abi_decode(data: &[u8]) -> (r: Result<PoolUtilsCalls, DecodeError>)
        ensures
            data@.len() < 4 ==> r == Err::<PoolUtilsCalls, DecodeError>(
                DecodeError::Overrun { needed: 4, available: data@.len() as usize },
            ),
            data@.len() >= 4 ==> (call_for(data@.subrange(0, 4)) matches Some(c) ==> r == Ok::<
                PoolUtilsCalls,
                DecodeError,
            >(c)),
            data@.len() >= 4 && call_for(data@.subrange(0, 4)) is None ==> (r matches Err(
                DecodeError::UnknownSelector { selector },
            ) && selector@ == data@.subrange(0, 4)),
    {
        if data.len() < 4 {
            return Err(DecodeError::Overrun { needed: 4, available: data.len() });
        }
        let s: [u8; 4] = [data[0], data[1], data[2], data[3]];
        assert(s@ =~= data@.subrange(0, 4));
        Self::abi_decode_raw(s, data)
    }
}

} // verus!
