use mm_liquidator::{
    decode_uint256_return, reading_from_words, DecodeError, IGNORE_CALC_AVAILABLECall, IGNORE_CALC_LOANCall,
    MINIMUM_LIQUIDITYCall, PoolUtilsCalls, Uint256,
};

#[test]
fn selectors_match_signatures() {
    let a = PoolUtilsCalls::IGNORE_CALC_AVAILABLE(IGNORE_CALC_AVAILABLECall {});
    let l = PoolUtilsCalls::IGNORE_CALC_LOAN(IGNORE_CALC_LOANCall {});
    let m = PoolUtilsCalls::MINIMUM_LIQUIDITY(MINIMUM_LIQUIDITYCall {});
    assert_eq!(a.selector(), [0xdd, 0x2e, 0x0a, 0x60]);
    assert_eq!(l.selector(), [0x78, 0x3d, 0x09, 0x71]);
    assert_eq!(m.selector(), [0xba, 0x9a, 0x7a, 0x56]);
}

#[test]
fn selector_table_is_ascending() {
    assert_eq!(PoolUtilsCalls::selector_at(0), Some([120, 61, 9, 113]));
    assert_eq!(PoolUtilsCalls::selector_at(1), Some([186, 154, 122, 86]));
    assert_eq!(PoolUtilsCalls::selector_at(2), Some([221, 46, 10, 96]));
    assert_eq!(PoolUtilsCalls::selector_at(3), None);
}

#[test]
fn valid_selector_knows_only_these_calls() {
    assert!(PoolUtilsCalls::valid_selector([0xba, 0x9a, 0x7a, 0x56]));
    assert!(!PoolUtilsCalls::valid_selector([0xba, 0x9a, 0x7a, 0x57]));
    assert!(!PoolUtilsCalls::valid_selector([0, 0, 0, 0]));
}

#[test]
fn calldata_round_trips() {
    let calls = [
        PoolUtilsCalls::IGNORE_CALC_AVAILABLE(IGNORE_CALC_AVAILABLECall {}),
        PoolUtilsCalls::IGNORE_CALC_LOAN(IGNORE_CALC_LOANCall {}),
        PoolUtilsCalls::MINIMUM_LIQUIDITY(MINIMUM_LIQUIDITYCall {}),
    ];
    for c in calls {
        let data = c.abi_encode();
        assert_eq!(data.len(), 4);
        assert_eq!(PoolUtilsCalls::abi_decode(&data), Ok(c));
    }
    assert_eq!(PoolUtilsCalls::abi_decode(&[0xba, 0x9a]), Err(DecodeError::Overrun { needed: 4, available: 2 }));
    assert_eq!(
        PoolUtilsCalls::abi_decode(&[9, 9, 9, 9, 0]),
        Err(DecodeError::UnknownSelector { selector: [9, 9, 9, 9] })
    );
}

#[test]
fn uint256_word_decodes_big_endian() {
    let mut word = [0u8; 32];
    word[31] = 0xe8;
    word[30] = 0x03;
    assert_eq!(decode_uint256_return(&word), Ok(Uint256::from_u128(1000)));
    word[15] = 1;
    assert_eq!(decode_uint256_return(&word), Ok(Uint256::new(1, 1000)));
    assert_eq!(decode_uint256_return(&word[..31]), Err(DecodeError::Overrun { needed: 32, available: 31 }));
    let all = [0xffu8; 40];
    assert_eq!(decode_uint256_return(&all), Ok(Uint256::new(u128::MAX, u128::MAX)));
}

#[test]
fn ignore_words_become_flags() {
    let r = reading_from_words(
        Uint256::from_u128(1000),
        Uint256::from_u128(100),
        Uint256::zero(),
        Uint256::new(1, 0),
    );
    assert!(!r.ignore_calc_available);
    assert!(r.ignore_calc_loan);
    assert_eq!(r.reserve, Uint256::from_u128(1000));
}

#[test]
fn uint256_ordering_uses_both_halves() {
    let small = Uint256::new(0, u128::MAX);
    let big = Uint256::new(1, 0);
    assert!(small.lt(&big));
    assert!(!big.lt(&small));
    assert!(small.le(&small));
    assert!(!big.le(&small));
    assert!(Uint256::zero().is_zero());
    assert!(!big.is_zero());
}

use mm_liquidator::{SafeERC20Errors, SafeERC20FailedDecreaseAllowance, SafeERC20FailedOperation};

fn address_word(fill: u8) -> Vec<u8> {
    let mut w = vec![0u8; 12];
    w.extend(std::iter::repeat(fill).take(20));
    w
}

fn value_word(v: u128) -> Vec<u8> {
    let mut w = vec![0u8; 16];
    w.extend_from_slice(&v.to_be_bytes());
    w
}

#[test]
fn failed_operation_revert_decodes() {
    let mut data = vec![0x52, 0x74, 0xaf, 0xe7];
    data.extend(address_word(0xab));
    let e = SafeERC20Errors::abi_decode(&data).unwrap();
    assert_eq!(e, SafeERC20Errors::SafeERC20FailedOperation(SafeERC20FailedOperation { token: [0xab; 20] }));
    assert_eq!(e.selector(), [0x52, 0x74, 0xaf, 0xe7]);
    assert_eq!(e.abi_encoded_size(), 32);
}

#[test]
fn failed_decrease_allowance_revert_decodes() {
    let mut data = vec![0xe5, 0x70, 0x11, 0x0f];
    data.extend(address_word(0x11));
    data.extend(value_word(5));
    data.extend(value_word(9));
    let e = SafeERC20Errors::abi_decode(&data).unwrap();
    assert_eq!(
        e,
        SafeERC20Errors::SafeERC20FailedDecreaseAllowance(SafeERC20FailedDecreaseAllowance {
            spender: [0x11; 20],
            currentAllowance: Uint256::from_u128(5),
            requestedDecrease: Uint256::from_u128(9),
        })
    );
    assert_eq!(e.abi_encoded_size(), 96);
}

#[test]
fn short_or_unknown_revert_is_not_decoded() {
    let mut data = vec![0xe5, 0x70, 0x11, 0x0f];
    data.extend(address_word(0x11));
    data.extend(value_word(5));
    assert_eq!(SafeERC20Errors::abi_decode(&data), Err(DecodeError::Overrun { needed: 96, available: 64 }));
    let mut other = vec![0, 0, 0, 1];
    other.extend(address_word(1));
    assert_eq!(SafeERC20Errors::abi_decode(&other), Err(DecodeError::UnknownSelector { selector: [0, 0, 0, 1] }));
    assert_eq!(SafeERC20Errors::abi_decode(&[0x52, 0x74]), Err(DecodeError::Overrun { needed: 4, available: 2 }));
    assert_eq!(
        SafeERC20Errors::abi_decode(&[0x52, 0x74, 0xaf, 0xe7, 0]),
        Err(DecodeError::Overrun { needed: 32, available: 1 })
    );
}

#[test]
fn error_selector_table_is_ascending() {
    assert_eq!(SafeERC20Errors::selector_at(0), Some([82, 116, 175, 231]));
    assert_eq!(SafeERC20Errors::selector_at(1), Some([229, 112, 17, 15]));
    assert_eq!(SafeERC20Errors::selector_at(2), None);
    assert!(SafeERC20Errors::valid_selector([229, 112, 17, 15]));
    assert!(!SafeERC20Errors::valid_selector([229, 112, 17, 16]));
}

#[test]
fn pool_calls_take_no_arguments() {
    assert_eq!(PoolUtilsCalls::MINIMUM_LIQUIDITY(MINIMUM_LIQUIDITYCall {}).abi_encoded_size(), 0);
}

#[test]
fn token_errors_round_trip_through_revert_data() {
    let errors = [
        SafeERC20Errors::SafeERC20FailedOperation(SafeERC20FailedOperation { token: [7; 20] }),
        SafeERC20Errors::SafeERC20FailedDecreaseAllowance(SafeERC20FailedDecreaseAllowance {
            spender: [3; 20],
            currentAllowance: Uint256::new(2, 77),
            requestedDecrease: Uint256::new(0, u128::MAX),
        }),
    ];
    for e in errors {
        let data = e.abi_encode();
        assert_eq!(data.len(), 4 + e.abi_encoded_size());
        assert_eq!(SafeERC20Errors::abi_decode(&data), Ok(e));
    }
}

#[test]
fn token_error_words_are_big_endian() {
    let e = SafeERC20Errors::SafeERC20FailedDecreaseAllowance(SafeERC20FailedDecreaseAllowance {
        spender: [0x11; 20],
        currentAllowance: Uint256::from_u128(5),
        requestedDecrease: Uint256::from_u128(9),
    });
    let mut raw = Vec::new();
    e.abi_encode_raw(&mut raw);
    let mut expected = address_word(0x11);
    expected.extend(value_word(5));
    expected.extend(value_word(9));
    assert_eq!(raw, expected);
}

#[test]
fn pool_call_arguments_encode_to_nothing() {
    let mut out = vec![1u8, 2];
    PoolUtilsCalls::IGNORE_CALC_LOAN(IGNORE_CALC_LOANCall {}).abi_encode_raw(&mut out);
    assert_eq!(out, vec![1, 2]);
    assert_eq!(
        PoolUtilsCalls::abi_decode_raw([0x78, 0x3d, 0x09, 0x71], &[]),
        Ok(PoolUtilsCalls::IGNORE_CALC_LOAN(IGNORE_CALC_LOANCall {}))
    );
    assert_eq!(
        PoolUtilsCalls::abi_decode_raw([1, 2, 3, 4], &[]),
        Err(DecodeError::UnknownSelector { selector: [1, 2, 3, 4] })
    );
}

#[test]
fn token_error_appends_after_existing_bytes() {
    let mut token = [0u8; 20];
    token[19] = 1;
    let e = SafeERC20Errors::SafeERC20FailedOperation(SafeERC20FailedOperation { token });
    let mut out = vec![9u8];
    e.abi_encode_raw(&mut out);
    let mut expected = vec![9u8];
    expected.extend(std::iter::repeat(0u8).take(31));
    expected.push(1);
    assert_eq!(out, expected);
}

use mm_liquidator::{IGNORE_CALC_AVAILABLEReturn, MINIMUM_LIQUIDITYReturn};

#[test]
fn validating_decode_refuses_dirty_address_padding() {
    let mut data = vec![0x52, 0x74, 0xaf, 0xe7];
    let mut word = address_word(0xab);
    word[3] = 1;
    data.extend(word);
    assert!(SafeERC20Errors::abi_decode(&data).is_ok());
    assert_eq!(SafeERC20Errors::abi_decode_validate(&data), Err(DecodeError::NonCanonical { word: 0 }));
}

#[test]
fn validating_decode_accepts_canonical_words() {
    let mut data = vec![0xe5, 0x70, 0x11, 0x0f];
    data.extend(address_word(0x11));
    data.extend(value_word(5));
    data.extend(value_word(9));
    assert_eq!(SafeERC20Errors::abi_decode_validate(&data), SafeERC20Errors::abi_decode(&data));
    assert!(SafeERC20Errors::abi_decode_validate(&data).is_ok());
    assert_eq!(
        SafeERC20Errors::abi_decode_raw_validate([9, 9, 9, 9], &data[4..]),
        Err(DecodeError::UnknownSelector { selector: [9, 9, 9, 9] })
    );
}

#[test]
fn call_returns_decode_one_word() {
    assert_eq!(
        MINIMUM_LIQUIDITYCall::abi_decode_returns(&value_word(1000)),
        Ok(MINIMUM_LIQUIDITYReturn { _0: Uint256::from_u128(1000) })
    );
    assert_eq!(
        IGNORE_CALC_AVAILABLECall::abi_decode_returns(&value_word(0)),
        Ok(IGNORE_CALC_AVAILABLEReturn { _0: Uint256::zero() })
    );
    assert_eq!(
        IGNORE_CALC_LOANCall::abi_decode_returns(&[0u8; 8]),
        Err(DecodeError::Overrun { needed: 32, available: 8 })
    );
}

#[test]
fn selector_constants_match_lookups() {
    for (i, s) in PoolUtilsCalls::SELECTORS.iter().enumerate() {
        assert_eq!(PoolUtilsCalls::selector_at(i), Some(*s));
        assert!(PoolUtilsCalls::valid_selector(*s));
    }
    for (i, s) in SafeERC20Errors::SELECTORS.iter().enumerate() {
        assert_eq!(SafeERC20Errors::selector_at(i), Some(*s));
    }
}
