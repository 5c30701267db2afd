use vstd::prelude::*;

verus! {

/// Largest number of bytes that the UTF-8 encoding of a name may take.
pub const NC_MAX_NAME_SIZE: usize = 256;

/// An ASCII letter or digit.
pub open spec fn is_ascii_alphanumeric_byte(b: u8) -> bool {
    (0x30 <= b <= 0x39) || (0x41 <= b <= 0x5a) || (0x61 <= b <= 0x7a)
}

/// The characters `_ . @ + -` of the format's grammar.
pub open spec fn special_1(c: char) -> bool {
    c == '_' || c == '.' || c == '@' || c == '+' || c == '-'
}

/// The punctuation characters allowed after the first position.
pub open spec fn special_2(c: char) -> bool {
    c == ' ' || c == '!' || c == '"' || c == '#' || c == '$' || c == '%' || c == '&' || c == '\''
        || c == '(' || c == ')' || c == '*' || c == ',' || c == ':' || c == ';' || c == '<'
        || c == '=' || c == '>' || c == '?' || c == '[' || c == '\\' || c == ']' || c == '^'
        || c == '`' || c == '{' || c == '|' || c == '}' || c == '~'
}

/// A byte that may open a name: any byte of a multi-byte UTF-8 sequence, or an ASCII
/// letter, digit or `_`.
pub open spec fn valid_first_byte(b: u8) -> bool {
    b >= 0x80 || is_ascii_alphanumeric_byte(b) || b == 0x5f
}

/// A byte that may follow: any byte of a multi-byte UTF-8 sequence, or an ASCII letter,
/// digit, or a character of one of the two special sets.
pub open spec fn valid_next_byte(b: u8) -> bool {
    b >= 0x80 || is_ascii_alphanumeric_byte(b) || special_1(b as char) || special_2(b as char)
}

/// Name rule over the UTF-8 bytes of a name. In UTF-8 a byte below 0x80 is exactly an
/// ASCII character, so the rule on ASCII characters is a rule on those bytes.
pub open spec fn valid_name_bytes(b: Seq<u8>) -> bool {
    &&& 0 < b.len() <= NC_MAX_NAME_SIZE
    &&& valid_first_byte(b[0])
    &&& forall|i: int| 1 <= i < b.len() ==> valid_next_byte(#[trigger] b[i])
}

/// Name rule over the characters of a name.
pub open spec fn is_valid_name_spec(name: Seq<char>) -> bool {
    valid_name_bytes(vstd::utf8::encode_utf8(name))
}

/// Tells whether `name` is a valid name for a dimension, an attribute or a variable.
pub fn is_valid_name(name: &str) -> (r: bool)
    ensures
        r == is_valid_name_spec(name@),
{
    let bytes: &[u8] = name.as_bytes();
    let n: usize = bytes.len();
    if n == 0 || n > NC_MAX_NAME_SIZE {
        return false;
    }
    let first: u8 = bytes[0];
    if !(first >= 0x80 || is_ascii_alphanumeric(first) || first == 0x5f) {
        return false;
    }
    let mut i: usize = 1;
    while i < n
        invariant
            n == bytes@.len(),
            bytes@ == vstd::utf8::encode_utf8(name@),
            1 <= i <= n,
            forall|k: int| 1 <= k < i ==> valid_next_byte(#[trigger] bytes@[k]),
        decreases n - i,
    {
        let b: u8 = bytes[i];
        if !(b >= 0x80 || is_ascii_alphanumeric(b) || is_special_1(b as char) || is_special_2(
            b as char,
        )) {
            return false;
        }
        i = i + 1;
    }
    true
}

fn is_ascii_alphanumeric(b: u8) -> (r: bool)
    ensures
        r == is_ascii_alphanumeric_byte(b),
{
    (0x30 <= b && b <= 0x39) || (0x41 <= b && b <= 0x5a) || (0x61 <= b && b <= 0x7a)
}

/// Tells whether `chr` is one of `_ . @ + -`.
pub fn is_special_1(chr: char) -> (r: bool)
    ensures
        r == special_1(chr),
{
    chr == '_' || chr == '.' || chr == '@' || chr == '+' || chr == '-'
}

/// Tells whether `chr` is one of the punctuation characters allowed after the first position.
pub fn is_special_2(chr: char) -> (r: bool)
    ensures
        r == special_2(chr),
{
    chr == ' ' || chr == '!' || chr == '"' || chr == '#' || chr == '$' || chr == '%' || chr == '&'
        || chr == '\'' || chr == '(' || chr == ')' || chr == '*' || chr == ',' || chr == ':'
        || chr == ';' || chr == '<' || chr == '=' || chr == '>' || chr == '?' || chr == '['
        || chr == '\\' || chr == ']' || chr == '^' || chr == '`' || chr == '{' || chr == '|'
        || chr == '}' || chr == '~'
}


/// Tells whether two strings hold the same characters, by comparing their UTF-8 bytes.
pub fn same_name(a: &str, b: &str) -> (r: bool)
    ensures
        r == (a@ == b@),
{
    let x: &[u8] = a.as_bytes();
    let y: &[u8] = b.as_bytes();
    proof {
        vstd::utf8::encode_utf8_decode_utf8(a@);
        vstd::utf8::encode_utf8_decode_utf8(b@);
    }
    if x.len() != y.len() {
        return false;
    }
    let mut i: usize = 0;
    while i < x.len()
        invariant
            x.len() == y.len(),
            x@ == vstd::utf8::encode_utf8(a@),
            y@ == vstd::utf8::encode_utf8(b@),
            0 <= i <= x.len(),
            forall|k: int| 0 <= k < i ==> x@[k] == y@[k],
        decreases x.len() - i,
    {
        if x[i] != y[i] {
            return false;
        }
        i = i + 1;
    }
    assert(x@ =~= y@);
    true
}

} // verus!
