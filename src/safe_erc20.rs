use vstd::prelude::*;
use crate::pool_utils::{be_value, push_word, read_word, DecodeError};
use crate::uint256::Uint256;

verus! {

/// `SafeERC20FailedDecreaseAllowance(address spender, uint256 currentAllowance, uint256 requestedDecrease)`:
/// a token refused to lower an allowance below zero.
#[allow(non_camel_case_types, non_snake_case)]
#[derive(Clone, Copy, Debug, PartialEq, Eq)]
pub struct SafeERC20FailedDecreaseAllowance {
    pub spender: [u8; 20],
    pub currentAllowance: Uint256,
    pub requestedDecrease: Uint256,
}

/// `SafeERC20FailedOperation(address token)`: a token call failed or returned false.
#[allow(non_camel_case_types)]
#[derive(Clone, Copy, Debug, PartialEq, Eq)]
pub struct SafeERC20FailedOperation {
    pub token: [u8; 20],
}

/// The custom errors a transaction can revert with when a token transfer
/// inside it fails.
#[allow(non_camel_case_types)]
#[derive(Clone, Copy, Debug, PartialEq, Eq)]
pub enum SafeERC20Errors {
    SafeERC20FailedDecreaseAllowance(SafeERC20FailedDecreaseAllowance),
    SafeERC20FailedOperation(SafeERC20FailedOperation),
}

/// The two error selectors, in ascending order: `SafeERC20FailedOperation`,
/// then `SafeERC20FailedDecreaseAllowance`.
pub open spec fn error_selector_table() -> Seq<Seq<u8>> {
    seq![seq![82u8, 116u8, 175u8, 231u8], seq![229u8, 112u8, 17u8, 15u8]]
}

pub open spec fn error_selector_spec(e: SafeERC20Errors) -> Seq<u8> {
    match e {
        SafeERC20Errors::SafeERC20FailedOperation(_) => error_selector_table()[0],
        SafeERC20Errors::SafeERC20FailedDecreaseAllowance(_) => error_selector_table()[1],
    }
}

/// The number of argument words each error carries.
pub open spec fn word_count(e: SafeERC20Errors) -> nat {
    match e {
        SafeERC20Errors::SafeERC20FailedOperation(_) => 1,
        SafeERC20Errors::SafeERC20FailedDecreaseAllowance(_) => 3,
    }
}

/// An address is the low 20 bytes of its 32-byte word.
pub open spec fn address_in_word(data: Seq<u8>, word: int) -> Seq<u8> {
    data.subrange(32 * word + 12, 32 * word + 32)
}

pub open spec fn value_in_word(data: Seq<u8>, word: int) -> nat {
    be_value(data.subrange(32 * word, 32 * word + 32))
}

/// `r` is what the argument words `data` of the error named by `selector`
/// decode to: `UnknownSelector` for a selector of no error, `Overrun` for
/// too few words, the words beyond those needed being ignored.
pub open spec fn decodes_to(selector: Seq<u8>, data: Seq<u8>, r: Result<SafeERC20Errors, DecodeError>) -> bool {
    if selector == error_selector_table()[0] && data.len() >= 32 {
        r matches Ok(SafeERC20Errors::SafeERC20FailedOperation(e)) && e.token@ == address_in_word(data, 0)
    } else if selector == error_selector_table()[0] {
        r == Err::<SafeERC20Errors, DecodeError>(DecodeError::Overrun { needed: 32, available: data.len() as usize })
    } else if selector == error_selector_table()[1] && data.len() >= 96 {
        r matches Ok(SafeERC20Errors::SafeERC20FailedDecreaseAllowance(e)) && e.spender@ == address_in_word(
            data,
            0,
        ) && e.currentAllowance@ == value_in_word(data, 1) && e.requestedDecrease@ == value_in_word(data, 2)
    } else if selector == error_selector_table()[1] {
        r == Err::<SafeERC20Errors, DecodeError>(DecodeError::Overrun { needed: 96, available: data.len() as usize })
    } else {
        r matches Err(DecodeError::UnknownSelector { selector: s }) && s@ == selector
    }
}

/// The address in word `word` carries zero padding.
pub open spec fn address_padded(data: Seq<u8>, word: int) -> bool {
    data.subrange(32 * word, 32 * word + 12) == Seq::new(12, |i: int| 0u8)
}

/// `r` is what a validating decode of the argument words yields: as
/// [`decodes_to`], except that an address word without zero padding is
/// refused with `NonCanonical`.
pub open spec fn decodes_validated_to(selector: Seq<u8>, data: Seq<u8>, r: Result<SafeERC20Errors, DecodeError>) -> bool {
    if (selector == error_selector_table()[0] && data.len() >= 32 || selector == error_selector_table()[1]
        && data.len() >= 96) && !address_padded(data, 0) {
        r == Err::<SafeERC20Errors, DecodeError>(DecodeError::NonCanonical { word: 0 })
    } else {
        decodes_to(selector, data, r)
    }
}

/// Whether the twelve bytes from `start` are all zero.
fn zero_padding(data: &[u8], start: usize) -> (r: bool)
    requires
        start + 32 <= data@.len(),
    ensures
        r == (data@.subrange(start as int, start + 12) == Seq::new(12, |i: int| 0u8)),
{
    proof {
        assert(data.len() == data@.len());
    }
    let mut i: usize = 0;
    while i < 12
        invariant
            start + 32 <= data@.len(),
            data@.len() <= usize::MAX,
            0 <= i <= 12,
            forall|j: int| start <= j < start + i ==> #[trigger] data@[j] == 0u8,
        decreases 12 - i,
    {
        if data[start + i] != 0 {
            proof {
                let z = Seq::new(12, |k: int| 0u8);
                assert(data@.subrange(start as int, start + 12)[i as int] != z[i as int]);
            }
            return false;
        }
        i = i + 1;
    }
    assert(data@.subrange(start as int, start + 12) =~= Seq::new(12, |k: int| 0u8));
    true
}

fn read_address(data: &[u8], start: usize) -> (r: [u8; 20])
    requires
        start + 32 <= data@.len(),
    ensures
        r@ == data@.subrange(start + 12, start + 32),
{
    proof {
        assert(data.len() == data@.len());
    }
    let mut r: [u8; 20] = [0u8; 20];
    let mut i: usize = 0;
    while i < 20
        invariant
            start + 32 <= data@.len(),
            data@.len() <= usize::MAX,
            0 <= i <= 20,
            r@.len() == 20,
            forall|j: int| 0 <= j < i ==> r@[j] == data@[start + 12 + j],
        decreases 20 - i,
    {
        r[i] = data[start + 12 + i];
        i = i + 1;
    }
    assert(r@ =~= data@.subrange(start + 12, start + 32));
    r
}

/// Appends an address as a 32-byte word: twelve zero bytes, then the address.
fn push_address(out: &mut Vec<u8>, a: [u8; 20])
    ensures
        final(out)@.len() == old(out)@.len() + 32,
        final(out)@.subrange(0, old(out)@.len() as int) == old(out)@,
        final(out)@.subrange(old(out)@.len() as int, old(out)@.len() + 12int) == Seq::new(12, |i: int| 0u8),
        final(out)@.subrange(old(out)@.len() + 12int, old(out)@.len() + 32int) == a@,
{
    let ghost start = out@;
    let mut i: usize = 0;
    while i < 32
        invariant
            0 <= i <= 32,
            a@.len() == 20,
            out@.len() == start.len() + i,
            out@.subrange(0, start.len() as int) == start,
            forall|j: int| start.len() + 12 <= j < start.len() + i ==> #[trigger] out@[j] == a@[j - start.len() - 12],
            forall|j: int| start.len() <= j < start.len() + i && j < start.len() + 12 ==> #[trigger] out@[j] == 0u8,
        decreases 32 - i,
    {
        if i < 12 {
            out.push(0u8);
        } else {
            out.push(a[i - 12]);
        }
        proof {
            assert(out@.subrange(0, start.len() as int) =~= start);
        }
        i = i + 1;
    }
    assert(out@.subrange(start.len() + 12int, start.len() + 32int) =~= a@);
    assert(out@.subrange(start.len() as int, start.len() + 12int) =~= Seq::new(12, |i: int| 0u8));
}

fn same_selector(a: [u8; 4], b0: u8, b1: u8, b2: u8, b3: u8) -> (r: bool)
    ensures
        r == (a@ == seq![b0, b1, b2, b3]),
{
    let r = a[0] == b0 && a[1] == b1 && a[2] == b2 && a[3] == b3;
    proof {
        if r {
            assert(a@ =~= seq![b0, b1, b2, b3]);
        }
        if a@ == seq![b0, b1, b2, b3] {
            assert(a@[0] == b0 && a@[1] == b1 && a@[2] == b2 && a@[3] == b3);
        }
    }
    r
}

impl SafeERC20Errors {
    /// Every selector of these errors, in ascending order.
    pub const SELECTORS: [[u8; 4]; 2] = [[82u8, 116u8, 175u8, 231u8], [229u8, 112u8, 17u8, 15u8]];

    pub fn selector(&self) -> (r: [u8; 4])
        ensures
            r@ == error_selector_spec(*self),
    {
        let r = match self {
            SafeERC20Errors::SafeERC20FailedOperation(_) => [82u8, 116u8, 175u8, 231u8],
            SafeERC20Errors::SafeERC20FailedDecreaseAllowance(_) => [229u8, 112u8, 17u8, 15u8],
        };
        assert(r@ =~= error_selector_spec(*self));
        r
    }

    /// The `i`-th selector in ascending order, if there is one.
    pub fn selector_at(i: usize) -> (r: Option<[u8; 4]>)
        ensures
            i < 2 ==> (r matches Some(s) && s@ == error_selector_table()[i as int]),
            i >= 2 ==> r is None,
    {
        let r = if i == 0 {
            Some([82u8, 116u8, 175u8, 231u8])
        } else if i == 1 {
            Some([229u8, 112u8, 17u8, 15u8])
        } else {
            None
        };
        proof {
            if let Some(s) = r {
                assert(s@ =~= error_selector_table()[i as int]);
            }
        }
        r
    }

    /// Whether the selector names one of these errors.
    pub fn valid_selector(selector: [u8; 4]) -> (r: bool)
        ensures
            r == (selector@ == error_selector_table()[0] || selector@ == error_selector_table()[1]),
    {
        same_selector(selector, 82, 116, 175, 231) || same_selector(selector, 229, 112, 17, 15)
    }

    /// The size of the encoded arguments, selector excluded.
    pub fn abi_encoded_size(&self) -> (r: usize)
        ensures
            r == 32 * word_count(*self),
    {
        match self {
            SafeERC20Errors::SafeERC20FailedOperation(_) => 32,
            SafeERC20Errors::SafeERC20FailedDecreaseAllowance(_) => 96,
        }
    }

    /// Appends the argument words of this error, selector excluded; they
    /// decode back to the same error.
    pub fn abi_encode_raw(&self, out: &mut Vec<u8>)
        ensures
            final(out)@.len() == old(out)@.len() + 32 * word_count(*self),
            final(out)@.subrange(0, old(out)@.len() as int) == old(out)@,
            final(out)@.subrange(old(out)@.len() as int, old(out)@.len() + 12int) == Seq::new(12, |i: int| 0u8),
            decodes_to(
                error_selector_spec(*self),
                final(out)@.subrange(old(out)@.len() as int, final(out)@.len() as int),
                Ok(*self),
            ),
    {
        let ghost start = out@;
        match self {
            SafeERC20Errors::SafeERC20FailedOperation(e) => {
                push_address(out, e.token);
                proof {
                    let data = out@.subrange(start.len() as int, out@.len() as int);
                    assert(address_in_word(data, 0) =~= out@.subrange(start.len() + 12int, start.len() + 32int));
                }
            },
            SafeERC20Errors::SafeERC20FailedDecreaseAllowance(e) => {
                push_address(out, e.spender);
                let ghost a = out@;
                push_word(out, e.currentAllowance);
                let ghost b = out@;
                push_word(out, e.requestedDecrease);
                proof {
                    let data = out@.subrange(start.len() as int, out@.len() as int);
                    assert(out@.subrange(0, a.len() as int) =~= a) by {
                        assert(out@.subrange(0, b.len() as int) == b);
                        assert(b.subrange(0, a.len() as int) == a);
                    }
                    assert(out@.subrange(0, start.len() as int) =~= start) by {
                        assert(a.subrange(0, start.len() as int) == start);
                    }
                    assert(address_in_word(data, 0) =~= a.subrange(start.len() + 12int, start.len() + 32int));
                    assert(data.subrange(32, 64) =~= b.subrange(a.len() as int, a.len() + 32int)) by {
                        assert(out@.subrange(0, b.len() as int) == b);
                    }
                    assert(data.subrange(64, 96) =~= out@.subrange(b.len() as int, b.len() + 32int));
                }
            },
        }
    }

    /// Revert data for this error: its selector, then its argument words.
    pub fn abi_encode(&self) -> (r: Vec<u8>)
        ensures
            r@.len() == 4 + 32 * word_count(*self),
            r@.subrange(0, 4) == error_selector_spec(*self),
            r@.subrange(4, 16) == Seq::new(12, |i: int| 0u8),
            decodes_to(error_selector_spec(*self), r@.subrange(4, r@.len() as int), Ok(*self)),
    {
        let s = self.selector();
        let mut r: Vec<u8> = Vec::new();
        r.push(s[0]);
        r.push(s[1]);
        r.push(s[2]);
        r.push(s[3]);
        let ghost head = r@;
        self.abi_encode_raw(&mut r);
        proof {
            assert(head =~= s@);
        }
        r
    }

    /// Decodes the argument words of the error that `selector` names.
    pub fn abi_decode_raw(selector: [u8; 4], data: &[u8]) -> (r: Result<SafeERC20Errors, DecodeError>)
        ensures
            decodes_to(selector@, data@, r),
    {
        if same_selector(selector, 82, 116, 175, 231) {
            if data.len() < 32 {
                return Err(DecodeError::Overrun { needed: 32, available: data.len() });
            }
            let token = read_address(data, 0);
            Ok(SafeERC20Errors::SafeERC20FailedOperation(SafeERC20FailedOperation { token }))
        } else if same_selector(selector, 229, 112, 17, 15) {
            if data.len() < 96 {
                return Err(DecodeError::Overrun { needed: 96, available: data.len() });
            }
            let spender = read_address(data, 0);
            let current = read_word(data, 32);
            let requested = read_word(data, 64);
            Ok(
                SafeERC20Errors::SafeERC20FailedDecreaseAllowance(
                    SafeERC20FailedDecreaseAllowance {
                        spender,
                        currentAllowance: current,
                        requestedDecrease: requested,
                    },
                ),
            )
        } else {
            Err(DecodeError::UnknownSelector { selector })
        }
    }

    /// Decodes the argument words of the error that `selector` names, and
    /// refuses an address word whose padding is not zero.
    pub fn abi_decode_raw_validate(selector: [u8; 4], data: &[u8]) -> (r: Result<SafeERC20Errors, DecodeError>)
        ensures
            decodes_validated_to(selector@, data@, r),
    {
        let known = same_selector(selector, 82, 116, 175, 231) && data.len() >= 32 || same_selector(
            selector,
            229,
            112,
            17,
            15,
        ) && data.len() >= 96;
        if known && !zero_padding(data, 0) {
            return Err(DecodeError::NonCanonical { word: 0 });
        }
        Self::abi_decode_raw(selector, data)
    }

    /// Decodes revert data as [`SafeERC20Errors::abi_decode`] does, refusing
    /// an address word whose padding is not zero.
    pub fn abi_decode_validate(data: &[u8]) -> (r: Result<SafeERC20Errors, DecodeError>)
        ensures
            data@.len() < 4 ==> r == Err::<SafeERC20Errors, DecodeError>(
                DecodeError::Overrun { needed: 4, available: data@.len() as usize },
            ),
            data@.len() >= 4 ==> decodes_validated_to(data@.subrange(0, 4), data@.subrange(4, data@.len() as int), r),
    {
        if data.len() < 4 {
            return Err(DecodeError::Overrun { needed: 4, available: data.len() });
        }
        let selector: [u8; 4] = [data[0], data[1], data[2], data[3]];
        assert(selector@ =~= data@.subrange(0, 4));
        let rest = slice_from(data, 4);
        Self::abi_decode_raw_validate(selector, rest)
    }

    /// Decodes revert data: a selector followed by the error's argument words.
    pub fn abi_decode(data: &[u8]) -> (r: Result<SafeERC20Errors, DecodeError>)
        ensures
            data@.len() < 4 ==> r == Err::<SafeERC20Errors, DecodeError>(
                DecodeError::Overrun { needed: 4, available: data@.len() as usize },
            ),
            data@.len() >= 4 ==> decodes_to(data@.subrange(0, 4), data@.subrange(4, data@.len() as int), r),
    {
        if data.len() < 4 {
            return Err(DecodeError::Overrun { needed: 4, available: data.len() });
        }
        let selector: [u8; 4] = [data[0], data[1], data[2], data[3]];
        assert(selector@ =~= data@.subrange(0, 4));
        let rest = slice_from(data, 4);
        Self::abi_decode_raw(selector, rest)
    }
}

/// `data` from `start` on.
fn slice_from(data: &[u8], start: usize) -> (r: &[u8])
    requires
        start <= data@.len(),
    ensures
        r@ == data@.subrange(start as int, data@.len() as int),
{
    let (_, rest) = data.split_at(start);
    rest
}

} // verus!
