use vstd::prelude::*;
use vstd::string::StringSliceAdditionalSpecFns;

verus! {

/// A JSON number as the parser splits it: `integer.fraction * 10^exponent`,
/// with `fraction_length` digits after the point.
#[derive(Clone, Copy, Debug)]
pub struct JsonNumber {
    pub integer: i64,
    pub fraction: u64,
    pub fraction_length: u32,
    pub exponent: i32,
}

/// A parsed JSON document. Object members keep their order and duplicates.
#[derive(Debug)]
pub enum Json {
    Object(Vec<(Vec<char>, Json)>),
    Array(Vec<Json>),
    String(Vec<char>),
    Number(JsonNumber),
    Boolean(bool),
    Null,
}

#[verifier::external_type_specification]
#[verifier::external_body]
pub struct ExJsonValue(lite_json::json::JsonValue);

/// What parsing a text as JSON yields, or nothing where it is not JSON.
pub uninterp spec fn json_of(text: Seq<char>) -> Option<Json>;

/// Where the number scanner stands after a prefix of a text's bytes.
#[derive(Clone, Copy, Debug)]
pub struct NumberScan {
    /// Inside a string literal.
    pub in_string: bool,
    /// Just after a backslash inside a string literal.
    pub escaped: bool,
    /// Length of the run of digits that ends here, outside strings.
    pub run: u64,
    /// That run is an exponent.
    pub exponent: bool,
    /// 1 just after `e` or `E`; 2 just after `e` or `E` and a sign; else 0.
    pub mark: u8,
}

pub open spec fn scan_start() -> NumberScan {
    NumberScan { in_string: false, escaped: false, run: 0, exponent: false, mark: 0 }
}

/// The longest run of digits that a number may hold: 18 in its integer part
/// or fraction, which keeps it below 10^18, and 9 in its exponent, which
/// keeps it below 10^9.
pub open spec fn run_limit(exponent: bool) -> int {
    if exponent { 9 } else { 18 }
}

/// One byte of the scan; `None` where a run of digits grows past its limit.
pub open spec fn scan_step(st: NumberScan, b: u8) -> Option<NumberScan> {
    if st.in_string {
        if st.escaped {
            Some(NumberScan { escaped: false, ..st })
        } else if b == 92 {
            Some(NumberScan { escaped: true, ..st })
        } else if b == 34 {
            Some(NumberScan { in_string: false, ..st })
        } else {
            Some(st)
        }
    } else if 48 <= b <= 57 {
        let exponent = if st.run == 0 { st.mark != 0 } else { st.exponent };
        if st.run + 1 > run_limit(exponent) {
            None
        } else {
            Some(NumberScan { in_string: false, escaped: false, run: (st.run + 1) as u64, exponent, mark: 0 })
        }
    } else {
        let mark: u8 = if b == 101 || b == 69 { 1 } else if (b == 43 || b == 45) && st.mark == 1 { 2 } else { 0 };
        Some(NumberScan { in_string: b == 34, escaped: false, run: 0, exponent: false, mark })
    }
}

pub open spec fn scan_from(s: Seq<u8>, st: NumberScan) -> bool
    decreases s.len(),
{
    if s.len() == 0 {
        true
    } else {
        match scan_step(st, s[0]) {
            None => false,
            Some(next) => scan_from(s.drop_first(), next),
        }
    }
}

/// Outside string literals, no run of digits is longer than 18, nor than 9
/// where it follows `e` or `E` and an optional sign. Any number token of
/// such a text fits the parser's 64-bit integer and fraction and its 32-bit
/// exponent. The scan reads UTF-8 bytes, in which quotes, backslashes,
/// digits, signs and `e` occur only as themselves.
pub open spec fn numbers_fit(bytes: Seq<u8>) -> bool {
    scan_from(bytes, scan_start())
}

fn scan_byte(st: NumberScan, b: u8) -> (r: Option<NumberScan>)
    requires
        st.run <= 18,
    ensures
        r == scan_step(st, b),
        r matches Some(n) ==> n.run <= 18,
{
    if st.in_string {
        if st.escaped {
            Some(NumberScan { escaped: false, ..st })
        } else if b == 92 {
            Some(NumberScan { escaped: true, ..st })
        } else if b == 34 {
            Some(NumberScan { in_string: false, ..st })
        } else {
            Some(st)
        }
    } else if 48 <= b && b <= 57 {
        let exponent = if st.run == 0 { st.mark != 0 } else { st.exponent };
        let limit: u64 = if exponent { 9 } else { 18 };
        if st.run + 1 > limit {
            None
        } else {
            Some(NumberScan { in_string: false, escaped: false, run: st.run + 1, exponent, mark: 0 })
        }
    } else {
        let mark: u8 = if b == 101 || b == 69 { 1 } else if (b == 43 || b == 45) && st.mark == 1 { 2 } else { 0 };
        Some(NumberScan { in_string: b == 34, escaped: false, run: 0, exponent: false, mark })
    }
}

/// Whether every number token of `text` can be read without overflow.
pub fn text_numbers_fit(text: &str) -> (r: bool)
    ensures
        r == numbers_fit(text.spec_bytes()),
{
    let bytes = text.as_bytes();
    let mut st = NumberScan { in_string: false, escaped: false, run: 0, exponent: false, mark: 0 };
    let mut i: usize = 0;
    proof {
        assert(bytes@.skip(0) =~= bytes@);
    }
    while i < bytes.len()
        invariant
            i <= bytes@.len(),
            bytes@ == text.spec_bytes(),
            st.run <= 18,
            numbers_fit(bytes@) == scan_from(bytes@.skip(i as int), st),
        decreases bytes.len() - i,
    {
        proof {
            assert(bytes@.skip(i as int).drop_first() =~= bytes@.skip(i + 1));
        }
        match scan_byte(st, bytes[i]) {
            None => {
                return false;
            },
            Some(next) => {
                st = next;
            },
        }
        i = i + 1;
    }
    true
}

/// Relies on `lite_json::parse_json`: the text alone decides the document.
/// Its number parser accumulates digits in a `u64` and an `i32` unchecked,
/// so a text whose number tokens would overflow them is left out.
#[verifier::external_body]
pub(crate) fn parse_json(text: &str) -> (r: Option<Json>)
    requires
        numbers_fit(text.spec_bytes()),
    ensures
        r == json_of(text@),
{
    lite_json::parse_json(text).ok().map(from_lite)
}

/// Moves a `lite_json` document into the library's own type, variant for variant.
#[verifier::external_body]
fn from_lite(v: lite_json::json::JsonValue) -> Json {
    match v {
        lite_json::json::JsonValue::Object(o) => Json::Object(o.into_iter().map(|(k, x)| (k, from_lite(x))).collect()),
        lite_json::json::JsonValue::Array(a) => Json::Array(a.into_iter().map(from_lite).collect()),
        lite_json::json::JsonValue::String(s) => Json::String(s),
        lite_json::json::JsonValue::Number(n) => Json::Number(JsonNumber {
            integer: n.integer,
            fraction: n.fraction,
            fraction_length: n.fraction_length,
            exponent: n.exponent,
        }),
        lite_json::json::JsonValue::Boolean(b) => Json::Boolean(b),
        lite_json::json::JsonValue::Null => Json::Null,
    }
}

/// The value of the first member named `key`.
pub open spec fn lookup(entries: Seq<(Vec<char>, Json)>, key: Seq<char>) -> Option<Json>
    decreases entries.len(),
{
    if entries.len() == 0 {
        None
    } else if entries[0].0@ == key {
        Some(entries[0].1)
    } else {
        lookup(entries.drop_first(), key)
    }
}

/// Whether the characters of `a` are those of `b`.
pub fn chars_eq(a: &Vec<char>, b: &[char]) -> (r: bool)
    ensures
        r == (a@ == b@),
{
    if a.len() != b.len() {
        return false;
    }
    let mut i: usize = 0;
    while i < a.len()
        invariant
            a@.len() == b@.len(),
            i <= a.len(),
            forall|j: int| 0 <= j < i ==> a@[j] == b@[j],
        decreases a.len() - i,
    {
        if a[i] != b[i] {
            return false;
        }
        i = i + 1;
    }
    proof {
        assert(a@ =~= b@);
    }
    true
}

/// The value of the first member of `entries` named `key`.
pub fn find_member<'a>(entries: &'a Vec<(Vec<char>, Json)>, key: &[char]) -> (r: Option<&'a Json>)
    ensures
        r is None <==> lookup(entries@, key@) is None,
        r matches Some(x) ==> lookup(entries@, key@) == Some(*x),
{
    let mut i: usize = 0;
    proof {
        assert(entries@.skip(0) =~= entries@);
    }
    while i < entries.len()
        invariant
            i <= entries.len(),
            lookup(entries@, key@) == lookup(entries@.skip(i as int), key@),
        decreases entries.len() - i,
    {
        proof {
            assert(entries@.skip(i as int).drop_first() =~= entries@.skip(i + 1));
        }
        if chars_eq(&entries[i].0, key) {
            return Some(&entries[i].1);
        }
        i = i + 1;
    }
    None
}

} // verus!
