//! Results handed across the foreign-function boundary.

use vstd::prelude::*;

verus! {

/// The outcome of a call: success with data, or failure with a message.
#[derive(Debug, Clone)]
pub struct FfiResult {
    pub is_ok: bool,
    pub error_msg: String,
    pub data: String,
}

impl FfiResult {
    /// A success carrying `data`.
    pub fn ok(data: String) -> (res: FfiResult)
        ensures
            res.is_ok,
            res.error_msg@ == Seq::<char>::empty(),
            res.data == data,
    {
        FfiResult { is_ok: true, error_msg: String::new(), data }
    }

    /// A failure carrying `msg`.
    pub fn err(msg: String) -> (res: FfiResult)
        ensures
            !res.is_ok,
            res.error_msg == msg,
            res.data@ == Seq::<char>::empty(),
    {
        FfiResult { is_ok: false, error_msg: msg, data: String::new() }
    }
}

/// Search hits: their number, and the hits as a JSON array of strings.
#[derive(Debug, Clone)]
pub struct FfiSearchResult {
    pub total: usize,
    pub hits_json: String,
}

/// The hexadecimal digit for `n`, below 16, in lowercase.
pub open spec fn hex_digit(n: int) -> char {
    if n < 10 { (('0' as int) + n) as char } else { (('a' as int) + n - 10) as char }
}

/// How JSON writes the character `c` inside a string: `"` and `\` behind
/// a backslash; backspace, form feed, line feed, carriage return and tab as
/// `\b`, `\f`, `\n`, `\r`, `\t`; the other control characters below
/// U+0020 as `\u00` and two lowercase hexadecimal digits; any other
/// character as itself.
pub open spec fn json_char(c: char) -> Seq<char> {
    let n = c as int;
    if c == '"' {
        seq!['\\', '"']
    } else if c == '\\' {
        seq!['\\', '\\']
    } else if n == 0x08 {
        seq!['\\', 'b']
    } else if n == 0x0C {
        seq!['\\', 'f']
    } else if n == 0x0A {
        seq!['\\', 'n']
    } else if n == 0x0D {
        seq!['\\', 'r']
    } else if n == 0x09 {
        seq!['\\', 't']
    } else if n < 0x20 {
        seq!['\\', 'u', '0', '0', hex_digit(n / 16), hex_digit(n % 16)]
    } else {
        seq![c]
    }
}

/// The characters `s` written inside a JSON string.
pub open spec fn json_text(s: Seq<char>) -> Seq<char>
    decreases s.len(),
{
    if s.len() == 0 {
        Seq::empty()
    } else {
        json_text(s.drop_last()) + json_char(s.last())
    }
}

/// The JSON strings of `hits`, separated by commas.
pub open spec fn json_items(hits: Seq<Seq<char>>) -> Seq<char>
    decreases hits.len(),
{
    if hits.len() == 0 {
        Seq::empty()
    } else if hits.len() == 1 {
        seq!['"'] + json_text(hits[0]) + seq!['"']
    } else {
        json_items(hits.drop_last()) + seq![','] + seq!['"'] + json_text(hits.last()) + seq!['"']
    }
}

/// The compact JSON array of the strings `hits`, as `serde_json` writes
/// it: `[`, the strings separated by commas with no space, `]`.
pub open spec fn json_string_array(hits: Seq<Seq<char>>) -> Seq<char> {
    seq!['['] + json_items(hits) + seq![']']
}

/// `serde_json::to_string` on a vector of strings, which cannot fail on one
/// (the empty string would stand for a failure): their compact JSON array.
#[verifier::external_body]
fn strings_to_json(hits: &Vec<String>) -> (res: String)
    ensures
        res@ == json_string_array(hits@.map_values(|h: String| h@)),
{
    serde_json::to_string(hits).unwrap_or_default()
}

impl FfiSearchResult {
    /// The result holding `hits`.
    pub fn new(hits: Vec<String>) -> (res: FfiSearchResult)
        ensures
            res.total == hits@.len(),
            res.hits_json@ == json_string_array(hits@.map_values(|h: String| h@)),
    {
        let total = hits.len();
        let hits_json = strings_to_json(&hits);
        FfiSearchResult { total, hits_json }
    }
}

} // verus!
