use vstd::prelude::*;
use vstd::string::StringSliceAdditionalSpecFns;
use crate::json::{find_member, json_of, lookup, numbers_fit, parse_json, text_numbers_fit, Json};

verus! {

/// Why the latest block number could not be read from a response.
#[derive(Clone, Copy, Debug, PartialEq, Eq, Structural)]
pub enum FetchError {
    /// The request failed or timed out before a body came back.
    Transport,
    /// The body is not JSON.
    NotJson,
    /// The body holds a number token too long to read.
    OversizedNumber,
    /// No `result` object at the top level.
    NoResult,
    /// No `number` string in the `result` object.
    NoNumber,
    /// The number is not an even-length run of hex digits.
    BadHex,
    /// The number has more than 32 bytes.
    TooLong,
}

#[verifier::external_type_specification]
pub struct ExFromHexError(hex::FromHexError);

/// The value of one hex digit, in either case.
pub open spec fn hex_digit(b: u8) -> Option<int> {
    if 48 <= b <= 57 {
        Some(b - 48)
    } else if 97 <= b <= 102 {
        Some(b - 87)
    } else if 65 <= b <= 70 {
        Some(b - 55)
    } else {
        None
    }
}

/// An even number of hex digits.
pub open spec fn is_hex(s: Seq<u8>) -> bool {
    s.len() % 2 == 0 && forall|i: int| 0 <= i < s.len() ==> (#[trigger] hex_digit(s[i])) is Some
}

/// The bytes that the digit pairs of `s` spell.
pub open spec fn hex_decode(s: Seq<u8>) -> Seq<u8> {
    Seq::new(s.len() / 2, |k: int| (hex_digit(s[2 * k]).unwrap() * 16 + hex_digit(s[2 * k + 1]).unwrap()) as u8)
}

/// The characters of `v` after an optional `0x`.
pub open spec fn hex_chars_of(v: Seq<char>) -> Seq<char> {
    if v.len() >= 2 && v[0] == '0' && v[1] == 'x' { v.skip(2) } else { v }
}

/// The value of one ASCII hex digit, in either case.
pub open spec fn hex_char_digit(c: char) -> Option<int> {
    if (c as u32) < 128 { hex_digit(c as u32 as u8) } else { None }
}

/// An even number of ASCII hex digits.
pub open spec fn is_hex_chars(s: Seq<char>) -> bool {
    s.len() % 2 == 0 && forall|i: int| 0 <= i < s.len() ==> (#[trigger] hex_char_digit(s[i])) is Some
}

/// The bytes that the digit pairs of `s` spell.
pub open spec fn hex_decode_chars(s: Seq<char>) -> Seq<u8> {
    Seq::new(s.len() / 2, |k: int| (hex_char_digit(s[2 * k]).unwrap() * 16 + hex_char_digit(s[2 * k + 1]).unwrap()) as u8)
}

/// The number that `s` spells, most significant byte first.
pub open spec fn be_value(s: Seq<u8>) -> nat
    decreases s.len(),
{
    if s.len() == 0 {
        0
    } else {
        (be_value(s.drop_last()) * 256 + s.last()) as nat
    }
}

/// Relies on `hex::decode`: an even-length run of hex digits of either case
/// decodes pair by pair; anything else is an error.
#[verifier::external_body]
fn decode_hex(b: &[u8]) -> (r: Result<Vec<u8>, hex::FromHexError>)
    ensures
        r is Ok <==> is_hex(b@),
        r matches Ok(v) ==> v@ == hex_decode(b@),
        r matches Err(e) ==> (e is OddLength <==> b@.len() % 2 != 0),
{
    hex::decode(b)
}

/// Relies on `U256::from_big_endian` (which panics past 32 bytes) and
/// `U256::low_u32`: the low 32 bits of the big-endian number.
#[verifier::external_body]
fn be_low_u32(b: &[u8]) -> (r: u32)
    requires
        b@.len() <= 32,
    ensures
        r == be_value(b@) % 0x1_0000_0000,
{
    ethereum_types::U256::from_big_endian(b).low_u32()
}

/// Decodes a hex string with an optional `0x` prefix. A character outside
/// ASCII is never a digit.
pub fn hex_to_bytes(v: &Vec<char>) -> (r: Result<Vec<u8>, hex::FromHexError>)
    ensures
        r is Ok <==> is_hex_chars(hex_chars_of(v@)),
        r matches Ok(b) ==> b@ == hex_decode_chars(hex_chars_of(v@)),
        r matches Err(e) ==> (e is OddLength <==> hex_chars_of(v@).len() % 2 != 0),
{
    let start: usize = if v.len() >= 2 && v[0] == '0' && v[1] == 'x' { 2 } else { 0 };
    let ghost d = hex_chars_of(v@);
    let mut bytes: Vec<u8> = Vec::new();
    let mut i: usize = start;
    while i < v.len()
        invariant
            start <= i <= v.len(),
            d == hex_chars_of(v@),
            d.len() == v@.len() - start,
            forall|j: int| 0 <= j < d.len() ==> #[trigger] d[j] == v@[j + start],
            bytes@.len() == i - start,
            forall|j: int| 0 <= j < i - start ==> bytes@[j] == #[trigger] v@[j + start] as u32 as u8
                && (v@[j + start] as u32) < 128,
        decreases v.len() - i,
    {
        let c = v[i];
        if c as u32 >= 128 {
            proof {
                assert(hex_char_digit(d[i - start]) is None);
            }
            if (v.len() - start) % 2 != 0 {
                proof {
                    assert(d.len() % 2 != 0);
                    assert(!is_hex_chars(d));
                }
                return Err(hex::FromHexError::OddLength);
            }
            return Err(hex::FromHexError::InvalidHexCharacter { c, index: i - start });
        }
        bytes.push(c as u32 as u8);
        i = i + 1;
    }
    let r = decode_hex(bytes.as_slice());
    proof {
        assert forall|j: int| 0 <= j < d.len() implies hex_char_digit(d[j]) == hex_digit(bytes@[j]) by {
            assert(d[j] == v@[j + start]);
        }
        assert(bytes@.len() == d.len());
        if is_hex_chars(d) {
            assert forall|j: int| 0 <= j < bytes@.len() implies (#[trigger] hex_digit(bytes@[j])) is Some by {
                assert(hex_char_digit(d[j]) == hex_digit(bytes@[j]));
            }
        }
        if is_hex(bytes@) {
            assert forall|j: int| 0 <= j < d.len() implies (#[trigger] hex_char_digit(d[j])) is Some by {
                assert(hex_char_digit(d[j]) == hex_digit(bytes@[j]));
            }
        }
        if r is Ok {
            assert(hex_decode(bytes@) =~= hex_decode_chars(d)) by {
                assert forall|k: int| 0 <= k < d.len() / 2 implies hex_decode(bytes@)[k] == hex_decode_chars(d)[k] by {
                    assert(hex_char_digit(d[2 * k]) == hex_digit(bytes@[2 * k]));
                    assert(hex_char_digit(d[2 * k + 1]) == hex_digit(bytes@[2 * k + 1]));
                }
            }
        }
    }
    r
}

pub open spec fn key_result() -> Seq<char> {
    seq!['r', 'e', 's', 'u', 'l', 't']
}

pub open spec fn key_number() -> Seq<char> {
    seq!['n', 'u', 'm', 'b', 'e', 'r']
}

/// The `result` object of a response.
pub open spec fn result_of(doc: Json) -> Option<Seq<(Vec<char>, Json)>> {
    match doc {
        Json::Object(o) => match lookup(o@, key_result()) {
            Some(Json::Object(b)) => Some(b@),
            _ => None,
        },
        _ => None,
    }
}

/// The block number that a response carries, cut to 32 bits.
pub open spec fn block_number_spec(doc: Json) -> Result<u32, FetchError> {
    match result_of(doc) {
        None => Err(FetchError::NoResult),
        Some(block) => match lookup(block, key_number()) {
            Some(Json::String(n)) => {
                let s = hex_chars_of(n@);
                if !is_hex_chars(s) {
                    Err(FetchError::BadHex)
                } else if s.len() / 2 > 32 {
                    Err(FetchError::TooLong)
                } else {
                    Ok((be_value(hex_decode_chars(s)) % 0x1_0000_0000) as u32)
                }
            },
            _ => Err(FetchError::NoNumber),
        },
    }
}

/// Reads `result.number` of a parsed response as a big-endian hex number and
/// keeps its low 32 bits.
pub fn block_number_of(doc: &Json) -> (r: Result<u32, FetchError>)
    ensures
        r == block_number_spec(*doc),
{
    let key_r: [char; 6] = ['r', 'e', 's', 'u', 'l', 't'];
    let key_n: [char; 6] = ['n', 'u', 'm', 'b', 'e', 'r'];
    proof {
        assert(key_r@ =~= key_result());
        assert(key_n@ =~= key_number());
    }
    let block = match doc {
        Json::Object(o) => match find_member(o, key_r.as_slice()) {
            Some(Json::Object(b)) => b,
            _ => {
                return Err(FetchError::NoResult);
            },
        },
        _ => {
            return Err(FetchError::NoResult);
        },
    };
    let n = match find_member(block, key_n.as_slice()) {
        Some(Json::String(n)) => n,
        _ => {
            return Err(FetchError::NoNumber);
        },
    };
    match hex_to_bytes(n) {
        Err(_) => Err(FetchError::BadHex),
        Ok(bytes) => {
            if bytes.len() > 32 {
                Err(FetchError::TooLong)
            } else {
                Ok(be_low_u32(bytes.as_slice()))
            }
        },
    }
}

/// Reads the latest block number from the body of a `eth_getBlockByNumber`
/// response.
pub fn fetch_block(body: &str) -> (r: Result<u32, FetchError>)
    ensures
        r == if !numbers_fit(body.spec_bytes()) {
            Err(FetchError::OversizedNumber)
        } else {
            match json_of(body@) {
                None => Err(FetchError::NotJson),
                Some(doc) => block_number_spec(doc),
            }
        },
{
    if !text_numbers_fit(body) {
        return Err(FetchError::OversizedNumber);
    }
    match parse_json(body) {
        None => Err(FetchError::NotJson),
        Some(doc) => block_number_of(&doc),
    }
}

} // verus!
