use vstd::prelude::*;
use crate::data_type::{DataType, tag_of, type_of_tag};
use crate::error::{ParseHeaderError, ParseHeaderErrorKind, InvalidBytes};
use crate::data_vector::{DataVector, Values};
use crate::data_set::variable::padding;
use crate::io::header::{
    enc_u16, enc_u32, enc_u64, zeros, bytes_i8, bytes_u8, bytes_i16, bytes_i32, bytes_u32, bytes_u64,
    values_bytes, enc_name, enc_attr, enc_attrs, enc_dims, enc_dim, enc_offset, attr_tag, dim_tag, var_tag,
};
use crate::io::{Version, version_byte};
use crate::data_set::attribute::AttributeModel;
use crate::data_set::dimension::DimensionModel;

verus! {

/// The `u16` whose big-endian bytes are `a b`.
pub open spec fn u16_of(a: u8, b: u8) -> u16 {
    ((a as u16) << 8u16) | (b as u16)
}

/// The `u32` whose big-endian bytes are `a b c d`.
pub open spec fn u32_of(a: u8, b: u8, c: u8, d: u8) -> u32 {
    ((a as u32) << 24u32) | ((b as u32) << 16u32) | ((c as u32) << 8u32) | (d as u32)
}

pub proof fn lemma_u16_of(a: u8, b: u8)
    ensures
        enc_u16(u16_of(a, b)) == seq![a, b],
        enc_u16((u16_of(a, b) as i16) as u16) == seq![a, b],
{
    let x = u16_of(a, b);
    assert((x >> 8u16) as u8 == a && x as u8 == b) by (bit_vector)
        requires
            x == ((a as u16) << 8u16) | (b as u16),
    ;
    assert((x as i16) as u16 == x) by (bit_vector);
    assert(enc_u16(x) =~= seq![a, b]);
}

pub proof fn lemma_u32_of(a: u8, b: u8, c: u8, d: u8)
    ensures
        enc_u32(u32_of(a, b, c, d)) == seq![a, b, c, d],
        enc_u32((u32_of(a, b, c, d) as i32) as u32) == seq![a, b, c, d],
{
    let x = u32_of(a, b, c, d);
    assert((x >> 24u32) as u8 == a && (x >> 16u32) as u8 == b && (x >> 8u32) as u8 == c && x as u8 == d)
        by (bit_vector)
        requires
            x == ((a as u32) << 24u32) | ((b as u32) << 16u32) | ((c as u32) << 8u32) | (d as u32),
    ;
    assert((x as i32) as u32 == x) by (bit_vector);
    assert(enc_u32(x) =~= seq![a, b, c, d]);
}

/// The `u64` whose big-endian bytes are `hi` then `lo`.
pub open spec fn u64_of(hi: u32, lo: u32) -> u64 {
    ((hi as u64) << 32u64) | (lo as u64)
}

pub proof fn lemma_u64_of(hi: u32, lo: u32)
    ensures
        enc_u64(u64_of(hi, lo)) == enc_u32(hi) + enc_u32(lo),
{
    let x = u64_of(hi, lo);
    assert((x >> 56u64) as u8 == (hi >> 24u32) as u8 && (x >> 48u64) as u8 == (hi >> 16u32) as u8
        && (x >> 40u64) as u8 == (hi >> 8u32) as u8 && (x >> 32u64) as u8 == hi as u8
        && (x >> 24u64) as u8 == (lo >> 24u32) as u8 && (x >> 16u64) as u8 == (lo >> 16u32) as u8
        && (x >> 8u64) as u8 == (lo >> 8u32) as u8 && x as u8 == lo as u8) by (bit_vector)
        requires
            x == ((hi as u64) << 32u64) | (lo as u64),
    ;
    assert(enc_u64(x) =~= enc_u32(hi) + enc_u32(lo));
}

pub proof fn lemma_i8_of(a: u8)
    ensures
        (a as i8) as u8 == a,
{
    assert((a as i8) as u8 == a) by (bit_vector);
}

/// The big-endian `u32` at `pos`.
pub open spec fn be_u32_at(input: Seq<u8>, pos: int) -> u32 {
    u32_of(input[pos], input[pos + 1], input[pos + 2], input[pos + 3])
}

/// Reads a big-endian `u32` at `pos`; `Err(n)` when `n` more bytes are needed.
pub fn read_u32(input: &[u8], pos: usize) -> (r: Result<u32, usize>)
    requires
        pos <= input@.len(),
    ensures
        r is Ok <==> pos + 4 <= input@.len(),
        r is Ok ==> input@.subrange(pos as int, pos + 4) == enc_u32(r->Ok_0) && r->Ok_0 == be_u32_at(input@, pos as int),
        r is Err ==> r->Err_0 == pos + 4 - input@.len(),
{
    if input.len() - pos < 4 {
        return Err(4 - (input.len() - pos));
    }
    let x: u32 = ((input[pos] as u32) << 24u32) | ((input[pos + 1] as u32) << 16u32)
        | ((input[pos + 2] as u32) << 8u32) | (input[pos + 3] as u32);
    proof {
        lemma_u32_of(input@[pos as int], input@[pos + 1], input@[pos + 2], input@[pos + 3]);
        assert(input@.subrange(pos as int, pos + 4) =~= seq![input@[pos as int], input@[pos + 1], input@[pos + 2], input@[pos + 3]]);
    }
    Ok(x)
}

fn incomplete(kind: ParseHeaderErrorKind, needed: usize) -> (r: ParseHeaderError)
    ensures
        r.kind == kind,
        r.invalid_bytes == InvalidBytes::Incomplete(needed),
{
    ParseHeaderError { kind, invalid_bytes: InvalidBytes::Incomplete(needed) }
}

fn invalid(kind: ParseHeaderErrorKind, input: &[u8], pos: usize, n: usize) -> (r: ParseHeaderError)
    requires
        pos + n <= input@.len(),
    ensures
        r.kind == kind,
        r.invalid_bytes matches InvalidBytes::Bytes(v) && v@ == input@.subrange(pos as int, pos + n),
{
    let _len: usize = input.len();
    let bytes: Vec<u8> = vstd::slice::slice_to_vec(vstd::slice::slice_subrange(input, pos, pos + n));
    ParseHeaderError { kind, invalid_bytes: InvalidBytes::Bytes(bytes) }
}

/// Reads a big-endian signed 32-bit integer that must not be negative.
pub fn parse_non_neg_i32(input: &[u8], pos: usize) -> (r: Result<(usize, usize), ParseHeaderError>)
    requires
        pos <= input@.len(),
    ensures
        r is Ok <==> pos + 4 <= input@.len() && be_u32_at(input@, pos as int) <= i32::MAX,
        r is Ok ==> r->Ok_0.1 == pos + 4 && r->Ok_0.0 <= i32::MAX && r->Ok_0.1 <= input@.len()
            && r->Ok_0.0 == be_u32_at(input@, pos as int)
            && input@.subrange(pos as int, pos + 4) == enc_u32(r->Ok_0.0 as u32),
        r is Err ==> r->Err_0.kind == ParseHeaderErrorKind::NonNegativeI32,
{
    let _len: usize = input.len();
    match read_u32(input, pos) {
        Err(n) => Err(incomplete(ParseHeaderErrorKind::NonNegativeI32, n)),
        Ok(x) => {
            if x > 0x7FFF_FFFFu32 {
                Err(invalid(ParseHeaderErrorKind::NonNegativeI32, input, pos, 4))
            } else {
                Ok((x as usize, pos + 4))
            }
        },
    }
}

/// Checks that `n` bytes from `pos` on are all zero.
pub fn parse_zero_padding(input: &[u8], pos: usize, n: usize) -> (r: Result<usize, ParseHeaderError>)
    requires
        pos <= input@.len(),
    ensures
        r is Ok <==> pos + n <= input@.len() && input@.subrange(pos as int, pos + n) == zeros(n as nat),
        r is Ok ==> r->Ok_0 == pos + n,
        r is Err ==> r->Err_0.kind == ParseHeaderErrorKind::ZeroPadding,
        pos + n > input@.len() ==> (r matches Err(e) && e.invalid_bytes == InvalidBytes::Incomplete((pos + n - input@.len()) as usize)),
        pos + n <= input@.len() && input@.subrange(pos as int, pos + n) != zeros(n as nat)
            ==> (r matches Err(e) && (e.invalid_bytes matches InvalidBytes::Bytes(v) && v@ == input@.subrange(pos as int, pos + n))),
{
    if input.len() - pos < n {
        return Err(incomplete(ParseHeaderErrorKind::ZeroPadding, n - (input.len() - pos)));
    }
    let len: usize = input.len();
    let mut i: usize = 0;
    while i < n
        invariant
            len == input@.len(),
            pos + n <= input@.len(),
            0 <= i <= n,
            forall|k: int| pos <= k < pos + i ==> input@[k] == 0,
        decreases n - i,
    {
        if input[pos + i] != 0 {
            assert(input@.subrange(pos as int, pos + n)[i as int] != zeros(n as nat)[i as int]);
            return Err(invalid(ParseHeaderErrorKind::ZeroPadding, input, pos, n));
        }
        i = i + 1;
    }
    assert(input@.subrange(pos as int, pos + n) =~= zeros(n as nat));
    Ok(pos + n)
}

/// Relies on `String::from_utf8`: it succeeds exactly on valid UTF-8, and the string holds
/// the decoded characters.
#[verifier::external_body]
fn string_from_utf8(bytes: Vec<u8>) -> (r: Option<String>)
    ensures
        r is Some <==> vstd::utf8::valid_utf8(bytes@),
        r is Some ==> r->Some_0@ == vstd::utf8::decode_utf8(bytes@),
{
    String::from_utf8(bytes).ok()
}

/// Reads a name: its byte length, its UTF-8 bytes and zero padding.
pub fn parse_name_string(input: &[u8], pos: usize) -> (r: Result<(String, usize), ParseHeaderError>)
    requires
        pos <= input@.len(),
    ensures
        r is Ok ==> pos <= r->Ok_0.1 <= input@.len()
            && input@.subrange(pos as int, r->Ok_0.1 as int) == enc_name(r->Ok_0.0@),
        ({
            let len = input@.len();
            let c = be_u32_at(input@, pos as int) as int;
            let p1 = pos + 4;
            let p2 = p1 + c;
            let pad = padding(c as nat);
            if !(pos + 4 <= len && c <= i32::MAX) {
                r matches Err(e) && e.kind == ParseHeaderErrorKind::NonNegativeI32
            } else if p2 > len {
                r matches Err(e) && e.kind == ParseHeaderErrorKind::Utf8
                    && e.invalid_bytes == InvalidBytes::Incomplete((p2 - len) as usize)
            } else if !vstd::utf8::valid_utf8(input@.subrange(p1, p2)) {
                r matches Err(e) && e.kind == ParseHeaderErrorKind::Utf8
                    && (e.invalid_bytes matches InvalidBytes::Bytes(v) && v@ == input@.subrange(p1, p2))
            } else if !(p2 + pad <= len && input@.subrange(p2, p2 + pad) == zeros(pad)) {
                r matches Err(e) && e.kind == ParseHeaderErrorKind::ZeroPadding
            } else {
                r is Ok && r->Ok_0.1 == p2 + pad && r->Ok_0.0@ == vstd::utf8::decode_utf8(input@.subrange(p1, p2))
            }
        }),
{
    let _len: usize = input.len();
    let (count, p1) = parse_non_neg_i32(input, pos)?;
    if input.len() - p1 < count {
        return Err(incomplete(ParseHeaderErrorKind::Utf8, count - (input.len() - p1)));
    }
    let p2: usize = p1 + count;
    let bytes: Vec<u8> = vstd::slice::slice_to_vec(vstd::slice::slice_subrange(input, p1, p2));
    let ghost b = bytes@;
    assert(b == input@.subrange(p1 as int, p2 as int));
    let s: String = match string_from_utf8(bytes) {
        Some(s) => s,
        None => {
            return Err(invalid(ParseHeaderErrorKind::Utf8, input, p1, count));
        },
    };
    proof { vstd::utf8::decode_utf8_encode_utf8(b); }
    let pad: usize = crate::io::compute_num_bytes_zero_padding(count);
    let p3: usize = parse_zero_padding(input, p2, pad)?;
    assert(input@.subrange(pos as int, p3 as int) =~= input@.subrange(pos as int, p1 as int)
        + input@.subrange(p1 as int, p2 as int) + input@.subrange(p2 as int, p3 as int));
    Ok((s, p3))
}

/// Reads an element type tag.
pub fn parse_data_type(input: &[u8], pos: usize) -> (r: Result<(DataType, usize), ParseHeaderError>)
    requires
        pos <= input@.len(),
    ensures
        r is Ok <==> pos + 4 <= input@.len() && type_of_tag(be_u32_at(input@, pos as int)) is Some,
        r is Ok ==> r->Ok_0.1 == pos + 4 && r->Ok_0.1 <= input@.len()
            && Some(r->Ok_0.0) == type_of_tag(be_u32_at(input@, pos as int))
            && input@.subrange(pos as int, pos + 4) == enc_u32(tag_of(r->Ok_0.0)),
        r is Err ==> r->Err_0.kind == ParseHeaderErrorKind::DataType,
{
    let _len: usize = input.len();
    match read_u32(input, pos) {
        Err(n) => Err(incomplete(ParseHeaderErrorKind::DataType, n)),
        Ok(x) => match DataType::try_from(x) {
            Ok(t) => Ok((t, pos + 4)),
            Err(_) => Err(invalid(ParseHeaderErrorKind::DataType, input, pos, 4)),
        },
    }
}

/// Reads `n` big-endian `i8` values from `pos` on.
pub fn read_i8s(input: &[u8], pos: usize, n: usize) -> (r: Vec<i8>)
    requires
        pos + 1 * n <= input@.len(),
    ensures
        r@.len() == n,
        input@.subrange(pos as int, pos + 1 * n) == bytes_i8(r@),
{
    let mut r: Vec<i8> = Vec::new();
    let mut p: usize = pos;
    let mut k: usize = 0;
    while k < n
        invariant
            pos + 1 * n <= input@.len(),
            0 <= k <= n,
            p == pos + 1 * k,
            r@.len() == k,
            input@.subrange(pos as int, p as int) == bytes_i8(r@),
        decreases n - k,
    {
        let x: i8 = input[p] as i8;
        proof {
            lemma_i8_of(input@[p as int]);
            assert(input@.subrange(p as int, p + 1) =~= seq![input@[p as int]]);
            assert(input@.subrange(pos as int, p + 1) =~= input@.subrange(pos as int, p as int) + input@.subrange(p as int, p + 1));
        }
        let ghost before = r@;
        r.push(x);
        assert(r@.drop_last() =~= before);
        p = p + 1;
        k = k + 1;
    }
    r
}

/// Reads `n` big-endian `u8` values from `pos` on.
pub fn read_u8s(input: &[u8], pos: usize, n: usize) -> (r: Vec<u8>)
    requires
        pos + 1 * n <= input@.len(),
    ensures
        r@.len() == n,
        input@.subrange(pos as int, pos + 1 * n) == bytes_u8(r@),
{
    let mut r: Vec<u8> = Vec::new();
    let mut p: usize = pos;
    let mut k: usize = 0;
    while k < n
        invariant
            pos + 1 * n <= input@.len(),
            0 <= k <= n,
            p == pos + 1 * k,
            r@.len() == k,
            input@.subrange(pos as int, p as int) == bytes_u8(r@),
        decreases n - k,
    {
        let x: u8 = input[p];
        proof {
            
            assert(input@.subrange(p as int, p + 1) =~= seq![input@[p as int]]);
            assert(input@.subrange(pos as int, p + 1) =~= input@.subrange(pos as int, p as int) + input@.subrange(p as int, p + 1));
        }
        let ghost before = r@;
        r.push(x);
        assert(r@.drop_last() =~= before);
        p = p + 1;
        k = k + 1;
    }
    r
}

/// Reads `n` big-endian `i16` values from `pos` on.
pub fn read_i16s(input: &[u8], pos: usize, n: usize) -> (r: Vec<i16>)
    requires
        pos + 2 * n <= input@.len(),
    ensures
        r@.len() == n,
        input@.subrange(pos as int, pos + 2 * n) == bytes_i16(r@),
{
    let mut r: Vec<i16> = Vec::new();
    let mut p: usize = pos;
    let mut k: usize = 0;
    while k < n
        invariant
            pos + 2 * n <= input@.len(),
            0 <= k <= n,
            p == pos + 2 * k,
            r@.len() == k,
            input@.subrange(pos as int, p as int) == bytes_i16(r@),
        decreases n - k,
    {
        let x: i16 = (((input[p] as u16) << 8u16) | (input[p + 1] as u16)) as i16;
        proof {
            lemma_u16_of(input@[p as int], input@[p + 1]);
            assert(input@.subrange(p as int, p + 2) =~= seq![input@[p as int], input@[p + 1]]);
            assert(input@.subrange(pos as int, p + 2) =~= input@.subrange(pos as int, p as int) + input@.subrange(p as int, p + 2));
        }
        let ghost before = r@;
        r.push(x);
        assert(r@.drop_last() =~= before);
        p = p + 2;
        k = k + 1;
    }
    r
}

/// Reads `n` big-endian `i32` values from `pos` on.
pub fn read_i32s(input: &[u8], pos: usize, n: usize) -> (r: Vec<i32>)
    requires
        pos + 4 * n <= input@.len(),
    ensures
        r@.len() == n,
        input@.subrange(pos as int, pos + 4 * n) == bytes_i32(r@),
{
    let mut r: Vec<i32> = Vec::new();
    let mut p: usize = pos;
    let mut k: usize = 0;
    while k < n
        invariant
            pos + 4 * n <= input@.len(),
            0 <= k <= n,
            p == pos + 4 * k,
            r@.len() == k,
            input@.subrange(pos as int, p as int) == bytes_i32(r@),
        decreases n - k,
    {
        let x: i32 = (((input[p] as u32) << 24u32) | ((input[p + 1] as u32) << 16u32) | ((input[p + 2] as u32) << 8u32) | (input[p + 3] as u32)) as i32;
        proof {
            lemma_u32_of(input@[p as int], input@[p + 1], input@[p + 2], input@[p + 3]);
            assert(input@.subrange(p as int, p + 4) =~= seq![input@[p as int], input@[p + 1], input@[p + 2], input@[p + 3]]);
            assert(input@.subrange(pos as int, p + 4) =~= input@.subrange(pos as int, p as int) + input@.subrange(p as int, p + 4));
        }
        let ghost before = r@;
        r.push(x);
        assert(r@.drop_last() =~= before);
        p = p + 4;
        k = k + 1;
    }
    r
}

/// Reads `n` big-endian `u32` values from `pos` on.
pub fn read_u32s(input: &[u8], pos: usize, n: usize) -> (r: Vec<u32>)
    requires
        pos + 4 * n <= input@.len(),
    ensures
        r@.len() == n,
        input@.subrange(pos as int, pos + 4 * n) == bytes_u32(r@),
{
    let mut r: Vec<u32> = Vec::new();
    let mut p: usize = pos;
    let mut k: usize = 0;
    while k < n
        invariant
            pos + 4 * n <= input@.len(),
            0 <= k <= n,
            p == pos + 4 * k,
            r@.len() == k,
            input@.subrange(pos as int, p as int) == bytes_u32(r@),
        decreases n - k,
    {
        let x: u32 = ((input[p] as u32) << 24u32) | ((input[p + 1] as u32) << 16u32) | ((input[p + 2] as u32) << 8u32) | (input[p + 3] as u32);
        proof {
            lemma_u32_of(input@[p as int], input@[p + 1], input@[p + 2], input@[p + 3]);
            assert(input@.subrange(p as int, p + 4) =~= seq![input@[p as int], input@[p + 1], input@[p + 2], input@[p + 3]]);
            assert(input@.subrange(pos as int, p + 4) =~= input@.subrange(pos as int, p as int) + input@.subrange(p as int, p + 4));
        }
        let ghost before = r@;
        r.push(x);
        assert(r@.drop_last() =~= before);
        p = p + 4;
        k = k + 1;
    }
    r
}

/// Reads `n` big-endian `u64` values from `pos` on.
pub fn read_u64s(input: &[u8], pos: usize, n: usize) -> (r: Vec<u64>)
    requires
        pos + 8 * n <= input@.len(),
    ensures
        r@.len() == n,
        input@.subrange(pos as int, pos + 8 * n) == bytes_u64(r@),
{
    let mut r: Vec<u64> = Vec::new();
    let mut p: usize = pos;
    let mut k: usize = 0;
    while k < n
        invariant
            pos + 8 * n <= input@.len(),
            0 <= k <= n,
            p == pos + 8 * k,
            r@.len() == k,
            input@.subrange(pos as int, p as int) == bytes_u64(r@),
        decreases n - k,
    {
        let hi: u32 = ((input[p] as u32) << 24u32) | ((input[p + 1] as u32) << 16u32) | ((input[p + 2] as u32) << 8u32) | (input[p + 3] as u32);
        let lo: u32 = ((input[p + 4] as u32) << 24u32) | ((input[p + 5] as u32) << 16u32) | ((input[p + 6] as u32) << 8u32) | (input[p + 7] as u32);
        let x: u64 = ((hi as u64) << 32u64) | (lo as u64);
        proof {
            lemma_u32_of(input@[p as int], input@[p + 1], input@[p + 2], input@[p + 3]);
            lemma_u32_of(input@[p + 4], input@[p + 5], input@[p + 6], input@[p + 7]);
            lemma_u64_of(hi, lo);
            assert(input@.subrange(p as int, p + 8) =~= seq![input@[p as int], input@[p + 1], input@[p + 2], input@[p + 3]] + seq![input@[p + 4], input@[p + 5], input@[p + 6], input@[p + 7]]);
            assert(input@.subrange(pos as int, p + 8) =~= input@.subrange(pos as int, p as int) + input@.subrange(p as int, p + 8));
        }
        let ghost before = r@;
        r.push(x);
        assert(r@.drop_last() =~= before);
        p = p + 8;
        k = k + 1;
    }
    r
}

/// Reads `n` big-endian values of type `t`.
pub fn parse_typed_data_elements(input: &[u8], pos: usize, n: usize, t: DataType) -> (r: Result<(DataVector, usize), ParseHeaderError>)
    requires
        pos <= input@.len(),
    ensures
        r is Ok <==> pos + crate::data_type::size_of_spec(t) * n <= input@.len(),
        r is Err ==> r->Err_0.kind == ParseHeaderErrorKind::DataElements && r->Err_0.invalid_bytes is Incomplete,
        r is Ok ==> pos <= r->Ok_0.1 <= input@.len() && r->Ok_0.0@.len() == n
            && r->Ok_0.1 == pos + crate::data_type::size_of_spec(t) * n
            && r->Ok_0.0@.data_type() == t
            && input@.subrange(pos as int, r->Ok_0.1 as int) == values_bytes(r->Ok_0.0@),
{
    let w: usize = t.size_of();
    let avail: usize = input.len() - pos;
    if avail / w < n {
        assert(avail < w * n && n * w <= 0x10_0000_0000_0000_0000) by (nonlinear_arith)
            requires
                avail / w < n,
                1 <= w <= 8,
                n <= 0xFFFF_FFFF_FFFF_FFFF,
        ;
        let needed: u128 = n as u128 * w as u128 - avail as u128;
        let needed: usize = if needed > usize::MAX as u128 { usize::MAX } else { needed as usize };
        return Err(incomplete(ParseHeaderErrorKind::DataElements, needed));
    }
    assert(w * n <= avail) by (nonlinear_arith)
        requires
            avail / w >= n,
            w >= 1,
    ;
    let v: DataVector = match t {
        DataType::I8 => DataVector::I8(read_i8s(input, pos, n)),
        DataType::U8 => DataVector::U8(read_u8s(input, pos, n)),
        DataType::I16 => DataVector::I16(read_i16s(input, pos, n)),
        DataType::I32 => DataVector::I32(read_i32s(input, pos, n)),
        DataType::F32 => DataVector::F32(read_u32s(input, pos, n)),
        DataType::F64 => DataVector::F64(read_u64s(input, pos, n)),
    };
    Ok((v, pos + w * n))
}

/// A variable entry as read from a header.
#[derive(Debug, Clone, PartialEq)]
pub struct ParsedVariable {
    pub name: String,
    pub dim_ids: Vec<usize>,
    pub attrs: Vec<(String, DataVector)>,
    pub data_type: DataType,
    pub vsize: u32,
    pub begin_offset: u64,
}

/// A header as read: version, record count field, and the three lists.
#[derive(Debug, Clone, PartialEq)]
pub struct ParsedHeader {
    pub version: Version,
    pub num_records: u32,
    pub dims: Vec<(String, usize)>,
    pub attrs: Vec<(String, DataVector)>,
    pub vars: Vec<ParsedVariable>,
    /// Position just past the variable list.
    pub end: usize,
}

pub open spec fn attr_of(a: (String, DataVector)) -> AttributeModel {
    AttributeModel { name: a.0@, values: a.1@ }
}

pub open spec fn attrs_of(v: Seq<(String, DataVector)>) -> Seq<AttributeModel> {
    v.map_values(|a: (String, DataVector)| attr_of(a))
}

/// A dimension as read; a size of zero marks the unlimited one, whose size is `numrecs`.
pub open spec fn dim_of(d: (String, usize), numrecs: nat) -> DimensionModel {
    DimensionModel { name: d.0@, size: if d.1 == 0 { numrecs } else { d.1 as nat }, unlimited: d.1 == 0 }
}

pub open spec fn dims_of(v: Seq<(String, usize)>, numrecs: nat) -> Seq<DimensionModel> {
    v.map_values(|d: (String, usize)| dim_of(d, numrecs))
}

/// An attribute list: the encoding, or for an empty list also its tag with a zero count.
pub open spec fn attrs_form(b: Seq<u8>, s: Seq<AttributeModel>) -> bool {
    b == enc_attrs(s) || (s.len() == 0 && b == attr_tag() + enc_u32(0))
}

/// A dimension list: the encoding, or for an empty list also its tag with a zero count.
pub open spec fn dims_form(b: Seq<u8>, s: Seq<DimensionModel>) -> bool {
    b == enc_dims(s) || (s.len() == 0 && b == dim_tag() + enc_u32(0))
}

/// One variable entry.
pub open spec fn var_form(b: Seq<u8>, v: ParsedVariable, version: Version) -> bool {
    exists|p: int, q: int|
        #![trigger b.subrange(0, p), b.subrange(p, q)]
        0 <= p <= q <= b.len()
        && b.subrange(0, p) == enc_name(v.name@) + enc_u32(v.dim_ids@.len() as u32)
            + bytes_u32(v.dim_ids@.map_values(|id: usize| id as u32))
        && attrs_form(b.subrange(p, q), attrs_of(v.attrs@))
        && b.subrange(q, b.len() as int) == enc_u32(tag_of(v.data_type)) + enc_u32(v.vsize)
            + enc_offset(v.begin_offset, version)
}

/// Variable entries one after another.
pub open spec fn vars_seq_form(b: Seq<u8>, vs: Seq<ParsedVariable>, version: Version) -> bool
    decreases vs.len(),
{
    if vs.len() == 0 {
        b.len() == 0
    } else {
        exists|k: int|
            #![trigger b.take(k)]
            0 <= k <= b.len() && vars_seq_form(b.take(k), vs.drop_last(), version)
                && var_form(b.skip(k), vs.last(), version)
    }
}

/// A variable list.
pub open spec fn vars_form(b: Seq<u8>, vs: Seq<ParsedVariable>, version: Version) -> bool {
    if vs.len() == 0 {
        b == zeros(8) || b == var_tag() + enc_u32(0)
    } else {
        b.len() >= 8 && b.take(8) == var_tag() + enc_u32(vs.len() as u32)
            && vars_seq_form(b.skip(8), vs, version)
    }
}

/// A whole header, up to the end of its variable list.
pub open spec fn header_form(b: Seq<u8>, h: ParsedHeader) -> bool {
    &&& b.len() >= 8
    &&& b.take(4) == seq![0x43u8, 0x44u8, 0x46u8, version_byte(h.version)]
    &&& b.subrange(4, 8) == enc_u32(h.num_records)
    &&& exists|p1: int, p2: int|
        #![trigger b.subrange(8, p1), b.subrange(p1, p2)]
        8 <= p1 <= p2 <= b.len() && dims_form(b.subrange(8, p1), dims_of(h.dims@, 0))
            && attrs_form(b.subrange(p1, p2), attrs_of(h.attrs@))
            && vars_form(b.subrange(p2, b.len() as int), h.vars@, h.version)
}

/// A non-negative big-endian `i32` at `p`.
pub open spec fn nn_ok(b: Seq<u8>, p: int) -> bool {
    0 <= p && p + 4 <= b.len() && be_u32_at(b, p) <= i32::MAX
}

pub open spec fn nn_at(b: Seq<u8>, p: int) -> int {
    be_u32_at(b, p) as int
}

/// A name at `p`: a length, that many UTF-8 bytes, zero padding.
pub open spec fn name_ok(b: Seq<u8>, p: int) -> bool {
    let c = nn_at(b, p);
    let p2 = p + 4 + c;
    let pad = padding(c as nat);
    &&& nn_ok(b, p)
    &&& p2 + pad <= b.len()
    &&& vstd::utf8::valid_utf8(b.subrange(p + 4, p2))
    &&& b.subrange(p2, p2 + pad) == zeros(pad)
}

pub open spec fn name_end(b: Seq<u8>, p: int) -> int {
    let c = nn_at(b, p);
    p + 4 + c + padding(c as nat)
}

/// An element type tag at `p`.
pub open spec fn dtype_ok(b: Seq<u8>, p: int) -> bool {
    0 <= p && p + 4 <= b.len() && type_of_tag(be_u32_at(b, p)) is Some
}

/// Bytes of the values of the attribute whose type tag is at `p1`.
pub open spec fn attr_values_len(b: Seq<u8>, p1: int) -> int {
    crate::data_type::size_of_spec(type_of_tag(be_u32_at(b, p1))->Some_0) * nn_at(b, p1 + 4)
}

/// An attribute at `p`: name, type, count, values and zero padding.
pub open spec fn attr_ok(b: Seq<u8>, p: int) -> bool {
    let p1 = name_end(b, p);
    let n = attr_values_len(b, p1);
    let p4 = p1 + 8 + n;
    let pad = padding(n as nat);
    &&& name_ok(b, p)
    &&& dtype_ok(b, p1)
    &&& nn_ok(b, p1 + 4)
    &&& p4 + pad <= b.len()
    &&& b.subrange(p4, p4 + pad) == zeros(pad)
}

pub open spec fn attr_end(b: Seq<u8>, p: int) -> int {
    let p1 = name_end(b, p);
    let n = attr_values_len(b, p1);
    p1 + 8 + n + padding(n as nat)
}

/// The opening of a list at `p`: eight zero bytes, or `tag` and a non-negative count.
pub open spec fn head_ok(b: Seq<u8>, p: int, tag: u32) -> bool {
    &&& 0 <= p
    &&& p + 8 <= b.len()
    &&& (be_u32_at(b, p) == 0 && be_u32_at(b, p + 4) == 0) || (be_u32_at(b, p) == tag && be_u32_at(b, p + 4) <= i32::MAX)
}

pub open spec fn head_count(b: Seq<u8>, p: int) -> nat {
    if be_u32_at(b, p) == 0 {
        0
    } else {
        be_u32_at(b, p + 4) as nat
    }
}

/// End of `n` attributes read one after another from `p`, if they all read.
pub open spec fn attrs_after(b: Seq<u8>, p: int, n: nat) -> Option<int>
    decreases n,
{
    if n == 0 {
        Some(p)
    } else {
        match attrs_after(b, p, (n - 1) as nat) {
            Some(q) => if attr_ok(b, q) {
                Some(attr_end(b, q))
            } else {
                None
            },
            None => None,
        }
    }
}

/// End of the attribute list at `p`, if it reads.
#[verifier::opaque]
pub open spec fn attrs_list_end(b: Seq<u8>, p: int) -> Option<int> {
    if head_ok(b, p, 0x0C) {
        attrs_after(b, p + 8, head_count(b, p))
    } else {
        None
    }
}

/// A dimension at `p`: name and non-negative size.
pub open spec fn dim_ok(b: Seq<u8>, p: int) -> bool {
    name_ok(b, p) && nn_ok(b, name_end(b, p))
}

pub open spec fn dims_after(b: Seq<u8>, p: int, n: nat) -> Option<int>
    decreases n,
{
    if n == 0 {
        Some(p)
    } else {
        match dims_after(b, p, (n - 1) as nat) {
            Some(q) => if dim_ok(b, q) {
                Some(name_end(b, q) + 4)
            } else {
                None
            },
            None => None,
        }
    }
}

/// End of the dimension list at `p`, if it reads.
#[verifier::opaque]
pub open spec fn dims_list_end(b: Seq<u8>, p: int) -> Option<int> {
    if head_ok(b, p, 0x0A) {
        dims_after(b, p + 8, head_count(b, p))
    } else {
        None
    }
}

pub proof fn lemma_attrs_after_none(b: Seq<u8>, p: int, i: nat, n: nat)
    requires
        attrs_after(b, p, i) is None,
        i <= n,
    ensures
        attrs_after(b, p, n) is None,
    decreases n - i,
{
    if i < n {
        lemma_attrs_after_none(b, p, i, (n - 1) as nat);
    }
}

pub proof fn lemma_dims_after_none(b: Seq<u8>, p: int, i: nat, n: nat)
    requires
        dims_after(b, p, i) is None,
        i <= n,
    ensures
        dims_after(b, p, n) is None,
    decreases n - i,
{
    if i < n {
        lemma_dims_after_none(b, p, i, (n - 1) as nat);
    }
}

/// A begin offset at `p`: a non-negative `i32`, or a non-negative `i64` in the 64-bit version.
pub open spec fn offset_ok(b: Seq<u8>, p: int, version: Version) -> bool {
    match version {
        Version::Classic => nn_ok(b, p),
        Version::Offset64Bit => 0 <= p && p + 8 <= b.len() && be_u32_at(b, p) <= i32::MAX,
    }
}

/// `n` non-negative dimension ids from `p` on.
pub open spec fn ids_ok(b: Seq<u8>, p: int, n: nat) -> bool {
    &&& 0 <= p
    &&& p + 4 * n <= b.len()
    &&& forall|k: int| 0 <= k < n ==> #[trigger] be_u32_at(b, p + 4 * k) <= i32::MAX
}

/// End of the variable entry at `p`, if it reads.
#[verifier::opaque]
pub open spec fn var_end(b: Seq<u8>, p: int, version: Version) -> Option<int> {
    let p1 = name_end(b, p);
    let n = nn_at(b, p1);
    let p3 = p1 + 4 + 4 * n;
    if !(name_ok(b, p) && nn_ok(b, p1) && ids_ok(b, p1 + 4, n as nat)) {
        None
    } else {
        match attrs_list_end(b, p3) {
            None => None,
            Some(p4) => if dtype_ok(b, p4) && p4 + 8 <= b.len() && offset_ok(b, p4 + 8, version) {
                Some(p4 + 8 + crate::io::offset_width(version))
            } else {
                None
            },
        }
    }
}

pub open spec fn vars_after(b: Seq<u8>, p: int, n: nat, version: Version) -> Option<int>
    decreases n,
{
    if n == 0 {
        Some(p)
    } else {
        match vars_after(b, p, (n - 1) as nat, version) {
            Some(q) => var_end(b, q, version),
            None => None,
        }
    }
}

/// End of the variable list at `p`, if it reads.
#[verifier::opaque]
pub open spec fn vars_list_end(b: Seq<u8>, p: int, version: Version) -> Option<int> {
    if head_ok(b, p, 0x0B) {
        vars_after(b, p + 8, head_count(b, p), version)
    } else {
        None
    }
}

/// Version that the byte after the magic word names.
pub open spec fn version_of_byte(x: u8) -> Version {
    if x == 1 {
        Version::Classic
    } else {
        Version::Offset64Bit
    }
}

/// End of the header of `b`, if it reads: magic word, version, record count and the three
/// lists.
pub open spec fn header_end(b: Seq<u8>) -> Option<int> {
    if !(b.len() >= 8 && b.take(3) == seq![0x43u8, 0x44u8, 0x46u8] && (b[3] == 1 || b[3] == 2)) {
        None
    } else {
        match dims_list_end(b, 8) {
            None => None,
            Some(p1) => match attrs_list_end(b, p1) {
                None => None,
                Some(p2) => vars_list_end(b, p2, version_of_byte(b[3])),
            },
        }
    }
}

pub proof fn lemma_vars_after_none(b: Seq<u8>, p: int, i: nat, n: nat, version: Version)
    requires
        vars_after(b, p, i, version) is None,
        i <= n,
    ensures
        vars_after(b, p, n, version) is None,
    decreases n - i,
{
    if i < n {
        lemma_vars_after_none(b, p, i, (n - 1) as nat, version);
    }
}

/// The `u32` whose big-endian bytes sit at `p` is the one they encode.
pub proof fn lemma_be_u32_at(b: Seq<u8>, p: int, x: u32)
    requires
        0 <= p,
        p + 4 <= b.len(),
        b.subrange(p, p + 4) == enc_u32(x),
    ensures
        be_u32_at(b, p) == x,
{
    let s = b.subrange(p, p + 4);
    assert(s[0] == b[p] && s[1] == b[p + 1] && s[2] == b[p + 2] && s[3] == b[p + 3]);
    let a0 = b[p];
    let a1 = b[p + 1];
    let a2 = b[p + 2];
    let a3 = b[p + 3];
    assert(((a0 as u32) << 24u32) | ((a1 as u32) << 16u32) | ((a2 as u32) << 8u32) | (a3 as u32) == x) by (bit_vector)
        requires
            a0 == (x >> 24u32) as u8,
            a1 == (x >> 16u32) as u8,
            a2 == (x >> 8u32) as u8,
            a3 == x as u8,
    ;
}

/// A name in its encoded form at `p` reads, and ends where its encoding ends.
pub proof fn lemma_name_complete(b: Seq<u8>, p: int, x: Seq<char>)
    requires
        0 <= p,
        p + enc_name(x).len() <= b.len(),
        b.subrange(p, p + enc_name(x).len()) == enc_name(x),
        vstd::utf8::encode_utf8(x).len() <= i32::MAX,
    ensures
        name_ok(b, p),
        name_end(b, p) == p + enc_name(x).len(),
{
    let u = vstd::utf8::encode_utf8(x);
    let c = u.len() as int;
    let e = p + enc_name(x).len();
    let w = b.subrange(p, e);
    assert(b.subrange(p, p + 4) =~= w.subrange(0, 4));
    assert(w.subrange(0, 4) =~= enc_u32(c as u32));
    lemma_be_u32_at(b, p, c as u32);
    assert(b.subrange(p + 4, p + 4 + c) =~= w.subrange(4, 4 + c));
    assert(w.subrange(4, 4 + c) =~= u);
    vstd::utf8::encode_utf8_valid_utf8(x);
    assert(b.subrange(p + 4 + c, e) =~= w.subrange(4 + c, w.len() as int));
    assert(w.subrange(4 + c, w.len() as int) =~= zeros(padding(c as nat)));
}

/// The length of a value block's elements is its count times the element width.
pub proof fn lemma_tag_type(t: DataType)
    ensures
        type_of_tag(tag_of(t)) == Some(t),
{
}

/// An attribute in its encoded form at `p` reads, and ends where its encoding ends.
pub proof fn lemma_attr_complete(b: Seq<u8>, p: int, a: AttributeModel)
    requires
        0 <= p,
        p + enc_attr(a).len() <= b.len(),
        b.subrange(p, p + enc_attr(a).len()) == enc_attr(a),
        vstd::utf8::encode_utf8(a.name).len() <= i32::MAX,
        a.values.len() <= i32::MAX,
    ensures
        attr_ok(b, p),
        attr_end(b, p) == p + enc_attr(a).len(),
{
    let ln = enc_name(a.name).len() as int;
    let e = p + enc_attr(a).len();
    let w = b.subrange(p, e);
    let vb = values_bytes(a.values);
    crate::io::header::lemma_values_bytes_len(a.values);
    assert(b.subrange(p, p + ln) =~= w.subrange(0, ln));
    assert(w.subrange(0, ln) =~= enc_name(a.name));
    lemma_name_complete(b, p, a.name);
    let p1 = p + ln;
    assert(b.subrange(p1, p1 + 4) =~= w.subrange(ln, ln + 4));
    assert(w.subrange(ln, ln + 4) =~= enc_u32(tag_of(a.values.data_type())));
    lemma_be_u32_at(b, p1, tag_of(a.values.data_type()));
    lemma_tag_type(a.values.data_type());
    assert(b.subrange(p1 + 4, p1 + 8) =~= w.subrange(ln + 4, ln + 8));
    assert(w.subrange(ln + 4, ln + 8) =~= enc_u32(a.values.len() as u32));
    lemma_be_u32_at(b, p1 + 4, a.values.len() as u32);
    let n = vb.len() as int;
    let sz = crate::data_type::size_of_spec(a.values.data_type());
    let cnt = a.values.len();
    assert(nn_at(b, p1 + 4) == cnt);
    assert(sz * cnt == cnt * sz) by (nonlinear_arith);
    assert(attr_values_len(b, p1) == n);
    assert(b.subrange(p1 + 8 + n, e) =~= w.subrange(ln + 8 + n, w.len() as int));
    assert(w.subrange(ln + 8 + n, w.len() as int) =~= zeros(padding(n as nat)));
}

/// Names, counts, sizes, ids and offsets of a list of attributes fit the format's fields.
pub open spec fn attrs_bounded(s: Seq<AttributeModel>) -> bool {
    &&& s.len() <= i32::MAX
    &&& forall|i: int| 0 <= i < s.len() ==> vstd::utf8::encode_utf8((#[trigger] s[i]).name).len() <= i32::MAX
        && s[i].values.len() <= i32::MAX
}

pub open spec fn var_bounded(v: ParsedVariable, version: Version) -> bool {
    &&& vstd::utf8::encode_utf8(v.name@).len() <= i32::MAX
    &&& v.dim_ids@.len() <= i32::MAX
    &&& forall|k: int| 0 <= k < v.dim_ids@.len() ==> #[trigger] v.dim_ids@[k] <= i32::MAX
    &&& attrs_bounded(attrs_of(v.attrs@))
    &&& match version {
        Version::Classic => v.begin_offset <= i32::MAX,
        Version::Offset64Bit => v.begin_offset <= i64::MAX,
    }
}

/// Every count, size, id and offset of a parsed header fits the signed field it is read from.
pub open spec fn header_bounds(h: ParsedHeader) -> bool {
    &&& h.dims@.len() <= i32::MAX
    &&& forall|i: int| 0 <= i < h.dims@.len() ==> vstd::utf8::encode_utf8((#[trigger] h.dims@[i]).0@).len() <= i32::MAX
        && h.dims@[i].1 <= i32::MAX
    &&& attrs_bounded(attrs_of(h.attrs@))
    &&& h.vars@.len() <= i32::MAX
    &&& forall|i: int| 0 <= i < h.vars@.len() ==> var_bounded(#[trigger] h.vars@[i], h.version)
}

proof fn lemma_zero_u32(b: Seq<u8>, p: int)
    requires
        0 <= p,
        p + 4 <= b.len(),
        b.subrange(p, p + 4) == zeros(4),
    ensures
        be_u32_at(b, p) == 0,
{
    assert((0u32 >> 24u32) as u8 == 0 && (0u32 >> 16u32) as u8 == 0 && (0u32 >> 8u32) as u8 == 0 && 0u32 as u8 == 0)
        by (bit_vector);
    assert(enc_u32(0) =~= zeros(4));
    lemma_be_u32_at(b, p, 0);
}

proof fn lemma_attr_seq_complete(b: Seq<u8>, p: int, s: Seq<AttributeModel>)
    requires
        0 <= p,
        p + crate::io::header::enc_attr_seq(s).len() <= b.len(),
        b.subrange(p, p + crate::io::header::enc_attr_seq(s).len()) == crate::io::header::enc_attr_seq(s),
        attrs_bounded(s),
    ensures
        attrs_after(b, p, s.len()) == Some(p + crate::io::header::enc_attr_seq(s).len()),
    decreases s.len(),
{
    if s.len() > 0 {
        let all = crate::io::header::enc_attr_seq(s);
        let pre = crate::io::header::enc_attr_seq(s.drop_last());
        let l = pre.len() as int;
        assert(all == pre + enc_attr(s.last()));
        assert(b.subrange(p, p + l) =~= all.subrange(0, l));
        assert(all.subrange(0, l) =~= pre);
        assert(attrs_bounded(s.drop_last())) by {
            assert forall|i: int| 0 <= i < s.drop_last().len() implies vstd::utf8::encode_utf8((#[trigger] s.drop_last()[i]).name).len() <= i32::MAX
                && s.drop_last()[i].values.len() <= i32::MAX by {
                assert(s.drop_last()[i] == s[i]);
            }
        }
        lemma_attr_seq_complete(b, p, s.drop_last());
        assert(b.subrange(p + l, p + all.len()) =~= all.subrange(l, all.len() as int));
        assert(all.subrange(l, all.len() as int) =~= enc_attr(s.last()));
        assert(s.last() == s[s.len() - 1]);
        lemma_attr_complete(b, p + l, s.last());
    }
}

/// An attribute list in either of its forms at `p` reads, and ends where the form ends.
pub proof fn lemma_attrs_list_complete(b: Seq<u8>, p: int, e: int, s: Seq<AttributeModel>)
    requires
        0 <= p <= e <= b.len(),
        attrs_form(b.subrange(p, e), s),
        attrs_bounded(s),
    ensures
        attrs_list_end(b, p) == Some(e),
{
    reveal(attrs_list_end);
    let w = b.subrange(p, e);
    assert((0x0Cu32 >> 24u32) as u8 == 0 && (0x0Cu32 >> 16u32) as u8 == 0 && (0x0Cu32 >> 8u32) as u8 == 0
        && 0x0Cu32 as u8 == 0x0C) by (bit_vector);
    assert(enc_u32(0x0C) =~= attr_tag());
    assert(w.len() >= 8);
    assert(b.subrange(p, p + 4) =~= w.subrange(0, 4));
    assert(b.subrange(p + 4, p + 8) =~= w.subrange(4, 8));
    if w == enc_attrs(s) && s.len() == 0 {
        assert(w.subrange(0, 4) =~= zeros(4));
        assert(w.subrange(4, 8) =~= zeros(4));
        lemma_zero_u32(b, p);
        lemma_zero_u32(b, p + 4);
    } else if w == enc_attrs(s) {
        assert(w.subrange(0, 4) =~= enc_u32(0x0C));
        assert(w.subrange(4, 8) =~= enc_u32(s.len() as u32));
        lemma_be_u32_at(b, p, 0x0C);
        lemma_be_u32_at(b, p + 4, s.len() as u32);
        let q = crate::io::header::enc_attr_seq(s);
        assert(b.subrange(p + 8, p + 8 + q.len()) =~= w.subrange(8, w.len() as int));
        assert(w.subrange(8, w.len() as int) =~= q);
        lemma_attr_seq_complete(b, p + 8, s);
    } else {
        assert(w.subrange(0, 4) =~= enc_u32(0x0C));
        assert(w.subrange(4, 8) =~= enc_u32(0));
        lemma_be_u32_at(b, p, 0x0C);
        lemma_be_u32_at(b, p + 4, 0);
    }
}

proof fn lemma_dim_seq_complete(b: Seq<u8>, p: int, s: Seq<DimensionModel>)
    requires
        0 <= p,
        p + crate::io::header::enc_dim_seq(s).len() <= b.len(),
        b.subrange(p, p + crate::io::header::enc_dim_seq(s).len()) == crate::io::header::enc_dim_seq(s),
        forall|i: int| 0 <= i < s.len() ==> vstd::utf8::encode_utf8((#[trigger] s[i]).name).len() <= i32::MAX
            && (if s[i].unlimited { 0 } else { s[i].size as u32 }) <= i32::MAX,
    ensures
        dims_after(b, p, s.len()) == Some(p + crate::io::header::enc_dim_seq(s).len()),
    decreases s.len(),
{
    if s.len() > 0 {
        let all = crate::io::header::enc_dim_seq(s);
        let pre = crate::io::header::enc_dim_seq(s.drop_last());
        let l = pre.len() as int;
        let d = s.last();
        assert(all == pre + enc_dim(d));
        assert(b.subrange(p, p + l) =~= all.subrange(0, l));
        assert(all.subrange(0, l) =~= pre);
        assert forall|i: int| 0 <= i < s.drop_last().len() implies vstd::utf8::encode_utf8((#[trigger] s.drop_last()[i]).name).len() <= i32::MAX
            && (if s.drop_last()[i].unlimited { 0 } else { s.drop_last()[i].size as u32 }) <= i32::MAX by {
            assert(s.drop_last()[i] == s[i]);
        }
        lemma_dim_seq_complete(b, p, s.drop_last());
        assert(d == s[s.len() - 1]);
        let ln = enc_name(d.name).len() as int;
        let q = p + l;
        assert(b.subrange(q, q + ln) =~= all.subrange(l, l + ln));
        assert(all.subrange(l, l + ln) =~= enc_name(d.name));
        lemma_name_complete(b, q, d.name);
        let x: u32 = if d.unlimited { 0 } else { d.size as u32 };
        assert(b.subrange(q + ln, q + ln + 4) =~= all.subrange(l + ln, l + ln + 4));
        assert(all.subrange(l + ln, l + ln + 4) =~= enc_u32(x));
        lemma_be_u32_at(b, q + ln, x);
    }
}

/// A dimension list in either of its forms at `p` reads, and ends where the form ends.
pub proof fn lemma_dims_list_complete(b: Seq<u8>, p: int, e: int, s: Seq<DimensionModel>)
    requires
        0 <= p <= e <= b.len(),
        dims_form(b.subrange(p, e), s),
        s.len() <= i32::MAX,
        forall|i: int| 0 <= i < s.len() ==> vstd::utf8::encode_utf8((#[trigger] s[i]).name).len() <= i32::MAX
            && (if s[i].unlimited { 0 } else { s[i].size as u32 }) <= i32::MAX,
    ensures
        dims_list_end(b, p) == Some(e),
{
    reveal(dims_list_end);
    let w = b.subrange(p, e);
    assert((0x0Au32 >> 24u32) as u8 == 0 && (0x0Au32 >> 16u32) as u8 == 0 && (0x0Au32 >> 8u32) as u8 == 0
        && 0x0Au32 as u8 == 0x0A) by (bit_vector);
    assert(enc_u32(0x0A) =~= dim_tag());
    assert(w.len() >= 8);
    assert(b.subrange(p, p + 4) =~= w.subrange(0, 4));
    assert(b.subrange(p + 4, p + 8) =~= w.subrange(4, 8));
    if w == enc_dims(s) && s.len() == 0 {
        assert(w.subrange(0, 4) =~= zeros(4));
        assert(w.subrange(4, 8) =~= zeros(4));
        lemma_zero_u32(b, p);
        lemma_zero_u32(b, p + 4);
    } else if w == enc_dims(s) {
        assert(w.subrange(0, 4) =~= enc_u32(0x0A));
        assert(w.subrange(4, 8) =~= enc_u32(s.len() as u32));
        lemma_be_u32_at(b, p, 0x0A);
        lemma_be_u32_at(b, p + 4, s.len() as u32);
        let q = crate::io::header::enc_dim_seq(s);
        assert(b.subrange(p + 8, p + 8 + q.len()) =~= w.subrange(8, w.len() as int));
        assert(w.subrange(8, w.len() as int) =~= q);
        lemma_dim_seq_complete(b, p + 8, s);
    } else {
        assert(w.subrange(0, 4) =~= enc_u32(0x0A));
        assert(w.subrange(4, 8) =~= enc_u32(0));
        lemma_be_u32_at(b, p, 0x0A);
        lemma_be_u32_at(b, p + 4, 0);
    }
}

proof fn lemma_ids_complete(b: Seq<u8>, p: int, u: Seq<u32>)
    requires
        0 <= p,
        p + 4 * u.len() <= b.len(),
        b.subrange(p, p + 4 * u.len()) == bytes_u32(u),
    ensures
        forall|k: int| 0 <= k < u.len() ==> #[trigger] be_u32_at(b, p + 4 * k) == u[k],
    decreases u.len(),
{
    if u.len() > 0 {
        let n = u.len() as int;
        let all = bytes_u32(u);
        crate::io::header::lemma_bytes_u32_len(u.drop_last());
        assert(all == bytes_u32(u.drop_last()) + enc_u32(u.last()));
        assert(b.subrange(p, p + 4 * (n - 1)) =~= all.subrange(0, 4 * (n - 1)));
        assert(all.subrange(0, 4 * (n - 1)) =~= bytes_u32(u.drop_last()));
        lemma_ids_complete(b, p, u.drop_last());
        assert(b.subrange(p + 4 * (n - 1), p + 4 * n) =~= all.subrange(4 * (n - 1), 4 * n));
        assert(all.subrange(4 * (n - 1), 4 * n) =~= enc_u32(u.last()));
        lemma_be_u32_at(b, p + 4 * (n - 1), u.last());
        assert forall|k: int| 0 <= k < u.len() implies #[trigger] be_u32_at(b, p + 4 * k) == u[k] by {
            if k < n - 1 {
                assert(u.drop_last()[k] == u[k]);
            }
        }
    }
}

proof fn lemma_offset_complete(b: Seq<u8>, p: int, x: u64, version: Version)
    requires
        0 <= p,
        p + crate::io::offset_width(version) <= b.len(),
        b.subrange(p, p + crate::io::offset_width(version)) == enc_offset(x, version),
        version == Version::Classic ==> x <= i32::MAX,
        x <= i64::MAX,
    ensures
        offset_ok(b, p, version),
{
    match version {
        Version::Classic => {
            lemma_be_u32_at(b, p, x as u32);
        },
        Version::Offset64Bit => {
            let hi = (x >> 32u64) as u32;
            assert((x >> 56u64) as u8 == (hi >> 24u32) as u8 && (x >> 48u64) as u8 == (hi >> 16u32) as u8
                && (x >> 40u64) as u8 == (hi >> 8u32) as u8 && (x >> 32u64) as u8 == hi as u8) by (bit_vector)
                requires
                    hi == (x >> 32u64) as u32,
            ;
            assert(hi <= 0x7fff_ffffu32) by (bit_vector)
                requires
                    hi == (x >> 32u64) as u32,
                    x <= 0x7fff_ffff_ffff_ffffu64,
            ;
            assert(b.subrange(p, p + 4) =~= enc_offset(x, version).subrange(0, 4));
            assert(enc_offset(x, version).subrange(0, 4) =~= enc_u32(hi));
            lemma_be_u32_at(b, p, hi);
        },
    }
}

/// A variable entry in its form at `p` reads, and ends where the form ends.
pub proof fn lemma_var_complete(b: Seq<u8>, p: int, e: int, v: ParsedVariable, version: Version)
    requires
        0 <= p <= e <= b.len(),
        var_form(b.subrange(p, e), v, version),
        var_bounded(v, version),
    ensures
        var_end(b, p, version) == Some(e),
{
    reveal(var_end);
    let w = b.subrange(p, e);
    let (pp, qq) = choose|pp: int, qq: int|
        #![trigger w.subrange(0, pp), w.subrange(pp, qq)]
        0 <= pp <= qq <= w.len()
        && w.subrange(0, pp) == enc_name(v.name@) + enc_u32(v.dim_ids@.len() as u32)
            + bytes_u32(v.dim_ids@.map_values(|id: usize| id as u32))
        && attrs_form(w.subrange(pp, qq), attrs_of(v.attrs@))
        && w.subrange(qq, w.len() as int) == enc_u32(tag_of(v.data_type)) + enc_u32(v.vsize)
            + enc_offset(v.begin_offset, version);
    let head = w.subrange(0, pp);
    let ln = enc_name(v.name@).len() as int;
    let n = v.dim_ids@.len() as int;
    let u = v.dim_ids@.map_values(|id: usize| id as u32);
    crate::io::header::lemma_bytes_u32_len(u);
    assert(u.len() == n);
    assert(head.len() == pp);
    assert(head.len() == ln + 4 + bytes_u32(u).len());
    assert(pp == ln + 4 + 4 * n);
    assert(b.subrange(p, p + ln) =~= head.subrange(0, ln));
    assert(head.subrange(0, ln) =~= enc_name(v.name@));
    lemma_name_complete(b, p, v.name@);
    let p1 = p + ln;
    assert(b.subrange(p1, p1 + 4) =~= head.subrange(ln, ln + 4));
    assert(head.subrange(ln, ln + 4) =~= enc_u32(n as u32));
    lemma_be_u32_at(b, p1, n as u32);
    assert(b.subrange(p1 + 4, p1 + 4 + 4 * n) =~= head.subrange(ln + 4, pp));
    assert(head.subrange(ln + 4, pp) =~= bytes_u32(u));
    lemma_ids_complete(b, p1 + 4, u);
    assert forall|k: int| 0 <= k < n implies #[trigger] be_u32_at(b, p1 + 4 + 4 * k) <= i32::MAX by {
        assert(u[k] == v.dim_ids@[k] as u32);
        assert(v.dim_ids@[k] <= i32::MAX);
    }
    assert(ids_ok(b, p1 + 4, n as nat));
    let p3 = p + pp;
    assert(b.subrange(p3, p + qq) =~= w.subrange(pp, qq));
    lemma_attrs_list_complete(b, p3, p + qq, attrs_of(v.attrs@));
    let p4 = p + qq;
    let tail = w.subrange(qq, w.len() as int);
    let wd = crate::io::offset_width(version) as int;
    assert(enc_offset(v.begin_offset, version).len() == wd);
    assert(tail.len() == 8 + wd);
    assert(b.subrange(p4, p4 + 4) =~= tail.subrange(0, 4));
    assert(tail.subrange(0, 4) =~= enc_u32(tag_of(v.data_type)));
    lemma_be_u32_at(b, p4, tag_of(v.data_type));
    lemma_tag_type(v.data_type);
    assert(b.subrange(p4 + 8, p4 + 8 + wd) =~= tail.subrange(8, 8 + wd));
    assert(tail.subrange(8, 8 + wd) =~= enc_offset(v.begin_offset, version));
    lemma_offset_complete(b, p4 + 8, v.begin_offset, version);
}

proof fn lemma_vars_seq_complete(b: Seq<u8>, p: int, e: int, vs: Seq<ParsedVariable>, version: Version)
    requires
        0 <= p <= e <= b.len(),
        vars_seq_form(b.subrange(p, e), vs, version),
        forall|i: int| 0 <= i < vs.len() ==> var_bounded(#[trigger] vs[i], version),
    ensures
        vars_after(b, p, vs.len(), version) == Some(e),
    decreases vs.len(),
{
    let w = b.subrange(p, e);
    if vs.len() == 0 {
        assert(w.len() == 0);
    } else {
        let k = choose|k: int| #![trigger w.take(k)] 0 <= k <= w.len() && vars_seq_form(w.take(k), vs.drop_last(), version)
            && var_form(w.skip(k), vs.last(), version);
        assert(w.take(k) =~= b.subrange(p, p + k));
        assert(w.skip(k) =~= b.subrange(p + k, e));
        assert forall|i: int| 0 <= i < vs.drop_last().len() implies var_bounded(#[trigger] vs.drop_last()[i], version) by {
            assert(vs.drop_last()[i] == vs[i]);
        }
        lemma_vars_seq_complete(b, p, p + k, vs.drop_last(), version);
        assert(vs.last() == vs[vs.len() - 1]);
        lemma_var_complete(b, p + k, e, vs.last(), version);
    }
}

/// A variable list in either of its forms at `p` reads, and ends where the form ends.
pub proof fn lemma_vars_list_complete(b: Seq<u8>, p: int, e: int, vs: Seq<ParsedVariable>, version: Version)
    requires
        0 <= p <= e <= b.len(),
        vars_form(b.subrange(p, e), vs, version),
        vs.len() <= i32::MAX,
        forall|i: int| 0 <= i < vs.len() ==> var_bounded(#[trigger] vs[i], version),
    ensures
        vars_list_end(b, p, version) == Some(e),
{
    reveal(vars_list_end);
    let w = b.subrange(p, e);
    assert((0x0Bu32 >> 24u32) as u8 == 0 && (0x0Bu32 >> 16u32) as u8 == 0 && (0x0Bu32 >> 8u32) as u8 == 0
        && 0x0Bu32 as u8 == 0x0B) by (bit_vector);
    assert(enc_u32(0x0B) =~= var_tag());
    assert(w.len() >= 8);
    assert(b.subrange(p, p + 4) =~= w.subrange(0, 4));
    assert(b.subrange(p + 4, p + 8) =~= w.subrange(4, 8));
    if vs.len() == 0 && w == zeros(8) {
        assert(w.subrange(0, 4) =~= zeros(4));
        assert(w.subrange(4, 8) =~= zeros(4));
        lemma_zero_u32(b, p);
        lemma_zero_u32(b, p + 4);
    } else if vs.len() == 0 {
        assert(w.subrange(0, 4) =~= enc_u32(0x0B));
        assert(w.subrange(4, 8) =~= enc_u32(0));
        lemma_be_u32_at(b, p, 0x0B);
        lemma_be_u32_at(b, p + 4, 0);
    } else {
        assert(w.subrange(0, 4) =~= w.take(8).subrange(0, 4));
        assert(w.subrange(4, 8) =~= w.take(8).subrange(4, 8));
        assert(w.take(8).subrange(0, 4) =~= enc_u32(0x0B));
        assert(w.take(8).subrange(4, 8) =~= enc_u32(vs.len() as u32));
        lemma_be_u32_at(b, p, 0x0B);
        lemma_be_u32_at(b, p + 4, vs.len() as u32);
        assert(w.skip(8) =~= b.subrange(p + 8, e));
        lemma_vars_seq_complete(b, p + 8, e, vs, version);
    }
}

/// A header in its form reads: the parser succeeds on it, ending where the form ends.
pub proof fn lemma_header_complete(b: Seq<u8>, h: ParsedHeader)
    requires
        h.end <= b.len(),
        header_form(b.take(h.end as int), h),
        header_bounds(h),
    ensures
        header_end(b) == Some(h.end as int),
{
    let t = b.take(h.end as int);
    let (p1, p2) = choose|p1: int, p2: int|
        #![trigger t.subrange(8, p1), t.subrange(p1, p2)]
        8 <= p1 <= p2 <= t.len() && dims_form(t.subrange(8, p1), dims_of(h.dims@, 0))
            && attrs_form(t.subrange(p1, p2), attrs_of(h.attrs@))
            && vars_form(t.subrange(p2, t.len() as int), h.vars@, h.version);
    assert(b.take(3) =~= t.take(4).take(3));
    assert(t.take(4).take(3) =~= seq![0x43u8, 0x44u8, 0x46u8]);
    assert(b[3] == t.take(4)[3]);
    assert(b[3] == crate::io::version_byte(h.version));
    assert(b.subrange(8, p1) =~= t.subrange(8, p1));
    let dm = dims_of(h.dims@, 0);
    assert forall|i: int| 0 <= i < dm.len() implies vstd::utf8::encode_utf8((#[trigger] dm[i]).name).len() <= i32::MAX
        && (if dm[i].unlimited { 0 } else { dm[i].size as u32 }) <= i32::MAX by {
        assert(dm[i].name == h.dims@[i].0@);
    }
    lemma_dims_list_complete(b, 8, p1, dm);
    assert(b.subrange(p1, p2) =~= t.subrange(p1, p2));
    lemma_attrs_list_complete(b, p1, p2, attrs_of(h.attrs@));
    assert(b.subrange(p2, h.end as int) =~= t.subrange(p2, t.len() as int));
    lemma_vars_list_complete(b, p2, h.end as int, h.vars@, h.version);
    assert(version_of_byte(b[3]) == h.version);
}

/// Reads the 8-byte opening of a list: `None` for an absent list, else the count after `tag`.
fn parse_list_head(input: &[u8], pos: usize, tag: u32, kind: ParseHeaderErrorKind) -> (r: Result<(usize, usize), ParseHeaderError>)
    requires
        pos <= input@.len(),
    ensures
        r is Ok ==> r->Ok_0.1 == pos + 8 && r->Ok_0.1 <= input@.len() && r->Ok_0.0 <= i32::MAX && (
            input@.subrange(pos as int, pos + 8) == zeros(8) && r->Ok_0.0 == 0
            || input@.subrange(pos as int, pos + 8) == enc_u32(tag) + enc_u32(r->Ok_0.0 as u32)),
        tag != 0 ==> (r is Ok <==> head_ok(input@, pos as int, tag)),
        tag != 0 && r is Ok ==> r->Ok_0.0 == head_count(input@, pos as int),
        r is Err ==> r->Err_0.kind == kind || r->Err_0.kind == ParseHeaderErrorKind::NonNegativeI32,
{
    let _len: usize = input.len();
    let first: u32 = match read_u32(input, pos) {
        Err(n) => {
            return Err(incomplete(kind, n + 4));
        },
        Ok(x) => x,
    };
    if first == 0 {
        match read_u32(input, pos + 4) {
            Err(n) => {
                return Err(incomplete(kind, n));
            },
            Ok(0) => {
                proof {
                    assert((0u32 >> 24u32) as u8 == 0 && (0u32 >> 16u32) as u8 == 0 && (0u32 >> 8u32) as u8 == 0
                        && 0u32 as u8 == 0) by (bit_vector);
                    assert(input@.subrange(pos as int, pos + 8) =~= input@.subrange(pos as int, pos + 4)
                        + input@.subrange(pos + 4, pos + 8));
                    assert(input@.subrange(pos as int, pos + 8) =~= zeros(8));
                }
                return Ok((0, pos + 8));
            },
            Ok(_) => {
                return Err(invalid(kind, input, pos, 8));
            },
        }
    }
    if first != tag {
        return Err(invalid(kind, input, pos, 4));
    }
    let (count, next) = match parse_non_neg_i32(input, pos + 4) {
        Err(e) => {
            return Err(e);
        },
        Ok(x) => x,
    };
    assert(input@.subrange(pos as int, pos + 8) =~= input@.subrange(pos as int, pos + 4)
        + input@.subrange(pos + 4, pos + 8));
    Ok((count, next))
}

/// Reads one attribute: name, type, count, values and zero padding.
pub fn parse_attr(input: &[u8], pos: usize) -> (r: Result<((String, DataVector), usize), ParseHeaderError>)
    requires
        pos <= input@.len(),
    ensures
        r is Ok ==> pos <= r->Ok_0.1 <= input@.len()
            && input@.subrange(pos as int, r->Ok_0.1 as int) == enc_attr(attr_of(r->Ok_0.0)),
        r is Ok <==> attr_ok(input@, pos as int),
        r is Ok ==> r->Ok_0.1 == attr_end(input@, pos as int),
{
    let (name, p1) = parse_name_string(input, pos)?;
    let (t, p2) = parse_data_type(input, p1)?;
    let (n, p3) = parse_non_neg_i32(input, p2)?;
    let (v, p4) = parse_typed_data_elements(input, p3, n, t)?;
    let p4_len: usize = p4 - p3;
    let pad: usize = crate::io::compute_num_bytes_zero_padding(p4_len);
    let p5: usize = parse_zero_padding(input, p4, pad)?;
    assert(input@.subrange(pos as int, p5 as int) =~= input@.subrange(pos as int, p1 as int)
        + input@.subrange(p1 as int, p2 as int) + input@.subrange(p2 as int, p3 as int)
        + input@.subrange(p3 as int, p4 as int) + input@.subrange(p4 as int, p5 as int));
    Ok(((name, v), p5))
}

/// Reads an attribute list.
pub fn parse_attrs_list(input: &[u8], pos: usize) -> (r: Result<(Vec<(String, DataVector)>, usize), ParseHeaderError>)
    requires
        pos <= input@.len(),
    ensures
        r is Ok ==> pos <= r->Ok_0.1 <= input@.len()
            && attrs_form(input@.subrange(pos as int, r->Ok_0.1 as int), attrs_of(r->Ok_0.0@)),
        r is Ok <==> attrs_list_end(input@, pos as int) is Some,
        r is Ok ==> r->Ok_0.1 == attrs_list_end(input@, pos as int)->Some_0,
{
    reveal(attrs_list_end);
    let (count, p0) = parse_list_head(input, pos, 0x0C, ParseHeaderErrorKind::AttrTag)?;
    let mut attrs: Vec<(String, DataVector)> = Vec::new();
    let mut p: usize = p0;
    let mut i: usize = 0;
    while i < count
        invariant
            pos + 8 == p0 <= p <= input@.len(),
            0 <= i <= count,
            attrs@.len() == i,
            input@.subrange(p0 as int, p as int) == crate::io::header::enc_attr_seq(attrs_of(attrs@)),
            count == head_count(input@, pos as int),
            attrs_after(input@, p0 as int, i as nat) == Some(p as int),
        decreases count - i,
    {
        let (a, next) = match parse_attr(input, p) {
            Ok(x) => x,
            Err(e) => {
                proof {
                    reveal(attrs_list_end);
                    lemma_attrs_after_none(input@, p0 as int, (i + 1) as nat, count as nat);
                }
                return Err(e);
            },
        };
        let ghost before = attrs@;
        attrs.push(a);
        assert(attrs_of(attrs@).drop_last() =~= attrs_of(before));
        assert(input@.subrange(p0 as int, next as int) =~= input@.subrange(p0 as int, p as int) + input@.subrange(p as int, next as int));
        p = next;
        i = i + 1;
    }
    proof {
        assert(input@.subrange(pos as int, p as int) =~= input@.subrange(pos as int, pos + 8) + input@.subrange(p0 as int, p as int));
        if count == 0 {
            assert(attrs_of(attrs@) =~= Seq::<AttributeModel>::empty());
            assert(input@.subrange(p0 as int, p as int).len() == 0);
            assert((0x0Cu32 >> 24u32) as u8 == 0 && (0x0Cu32 >> 16u32) as u8 == 0 && (0x0Cu32 >> 8u32) as u8 == 0
                && 0x0Cu32 as u8 == 0x0C) by (bit_vector);
            assert(enc_u32(0x0C) =~= attr_tag());
        } else {
            assert((0x0Cu32 >> 24u32) as u8 == 0 && (0x0Cu32 >> 16u32) as u8 == 0 && (0x0Cu32 >> 8u32) as u8 == 0
                && 0x0Cu32 as u8 == 0x0C) by (bit_vector);
            assert(enc_u32(0x0C) =~= attr_tag());
        }
    }
    Ok((attrs, p))
}

/// Reads a dimension list.
pub fn parse_dims_list(input: &[u8], pos: usize) -> (r: Result<(Vec<(String, usize)>, usize), ParseHeaderError>)
    requires
        pos <= input@.len(),
    ensures
        r is Ok ==> pos <= r->Ok_0.1 <= input@.len()
            && dims_form(input@.subrange(pos as int, r->Ok_0.1 as int), dims_of(r->Ok_0.0@, 0)),
        r is Ok <==> dims_list_end(input@, pos as int) is Some,
        r is Ok ==> r->Ok_0.1 == dims_list_end(input@, pos as int)->Some_0,
{
    reveal(dims_list_end);
    let (count, p0) = parse_list_head(input, pos, 0x0A, ParseHeaderErrorKind::DimTag)?;
    let mut dims: Vec<(String, usize)> = Vec::new();
    let mut p: usize = p0;
    let mut i: usize = 0;
    while i < count
        invariant
            pos + 8 == p0 <= p <= input@.len(),
            0 <= i <= count,
            dims@.len() == i,
            input@.subrange(p0 as int, p as int) == crate::io::header::enc_dim_seq(dims_of(dims@, 0)),
            count == head_count(input@, pos as int),
            dims_after(input@, p0 as int, i as nat) == Some(p as int),
        decreases count - i,
    {
        let (name, p1) = match parse_name_string(input, p) {
            Ok(x) => x,
            Err(e) => {
                proof {
                    reveal(dims_list_end);
                    lemma_dims_after_none(input@, p0 as int, (i + 1) as nat, count as nat);
                }
                return Err(e);
            },
        };
        let (size, p2) = match parse_non_neg_i32(input, p1) {
            Ok(x) => x,
            Err(e) => {
                proof {
                    reveal(dims_list_end);
                    lemma_dims_after_none(input@, p0 as int, (i + 1) as nat, count as nat);
                }
                return Err(e);
            },
        };
        let ghost before = dims@;
        dims.push((name, size));
        assert(dims_of(dims@, 0).drop_last() =~= dims_of(before, 0));
        assert(input@.subrange(p0 as int, p2 as int) =~= input@.subrange(p0 as int, p as int)
            + input@.subrange(p as int, p1 as int) + input@.subrange(p1 as int, p2 as int));
        p = p2;
        i = i + 1;
    }
    proof {
        assert(input@.subrange(pos as int, p as int) =~= input@.subrange(pos as int, pos + 8) + input@.subrange(p0 as int, p as int));
        assert((0x0Au32 >> 24u32) as u8 == 0 && (0x0Au32 >> 16u32) as u8 == 0 && (0x0Au32 >> 8u32) as u8 == 0
            && 0x0Au32 as u8 == 0x0A) by (bit_vector);
        assert(enc_u32(0x0A) =~= dim_tag());
        if count == 0 {
            assert(dims_of(dims@, 0) =~= Seq::<DimensionModel>::empty());
        }
    }
    Ok((dims, p))
}

/// Reads a variable's begin offset: a non-negative `i32` or `i64` by version.
fn parse_offset(input: &[u8], pos: usize, version: Version) -> (r: Result<(u64, usize), ParseHeaderError>)
    requires
        pos <= input@.len(),
    ensures
        r is Ok ==> pos <= r->Ok_0.1 <= input@.len()
            && input@.subrange(pos as int, r->Ok_0.1 as int) == enc_offset(r->Ok_0.0, version),
        r is Ok <==> offset_ok(input@, pos as int, version),
        r is Ok ==> r->Ok_0.1 == pos + crate::io::offset_width(version),
{
    let _len: usize = input.len();
    match version {
        Version::Classic => {
            match parse_non_neg_i32(input, pos) {
                Err(e) => Err(ParseHeaderError { kind: ParseHeaderErrorKind::Offset, invalid_bytes: e.invalid_bytes }),
                Ok((x, next)) => Ok((x as u64, next)),
            }
        },
        Version::Offset64Bit => {
            let hi: u32 = match read_u32(input, pos) {
                Err(n) => {
                    return Err(incomplete(ParseHeaderErrorKind::Offset, n + 4));
                },
                Ok(x) => x,
            };
            let lo: u32 = match read_u32(input, pos + 4) {
                Err(n) => {
                    return Err(incomplete(ParseHeaderErrorKind::Offset, n));
                },
                Ok(x) => x,
            };
            if hi > 0x7FFF_FFFFu32 {
                return Err(invalid(ParseHeaderErrorKind::Offset, input, pos, 8));
            }
            let x: u64 = ((hi as u64) << 32u64) | (lo as u64);
            proof {
                lemma_u64_of(hi, lo);
                assert(input@.subrange(pos as int, pos + 8) =~= input@.subrange(pos as int, pos + 4)
                    + input@.subrange(pos + 4, pos + 8));
            }
            Ok((x, pos + 8))
        },
    }
}

/// Reads `n` dimension ids.
fn parse_dim_ids(input: &[u8], pos: usize, n: usize) -> (r: Result<(Vec<usize>, usize), ParseHeaderError>)
    requires
        pos <= input@.len(),
    ensures
        r is Ok ==> pos <= r->Ok_0.1 <= input@.len() && r->Ok_0.0@.len() == n
            && input@.subrange(pos as int, r->Ok_0.1 as int) == bytes_u32(r->Ok_0.0@.map_values(|id: usize| id as u32)),
        r is Ok <==> ids_ok(input@, pos as int, n as nat),
        r is Ok ==> r->Ok_0.1 == pos + 4 * n,
{
    let mut ids: Vec<usize> = Vec::new();
    let mut p: usize = pos;
    let mut i: usize = 0;
    while i < n
        invariant
            pos <= p <= input@.len(),
            0 <= i <= n,
            ids@.len() == i,
            input@.subrange(pos as int, p as int) == bytes_u32(ids@.map_values(|id: usize| id as u32)),
            p == pos + 4 * i,
            forall|k: int| 0 <= k < i ==> #[trigger] be_u32_at(input@, pos + 4 * k) <= i32::MAX,
        decreases n - i,
    {
        let (id, next) = match parse_non_neg_i32(input, p) {
            Ok(x) => x,
            Err(e) => {
                assert(!ids_ok(input@, pos as int, n as nat) || be_u32_at(input@, pos + 4 * i) <= i32::MAX);
                return Err(e);
            },
        };
        let ghost before = ids@;
        ids.push(id);
        assert(ids@.map_values(|id: usize| id as u32).drop_last() =~= before.map_values(|id: usize| id as u32));
        assert(input@.subrange(pos as int, next as int) =~= input@.subrange(pos as int, p as int) + input@.subrange(p as int, next as int));
        p = next;
        i = i + 1;
    }
    Ok((ids, p))
}

/// Reads the end of a variable entry: type, size and begin offset.
fn parse_var_tail(input: &[u8], pos: usize, version: Version) -> (r: Result<(DataType, u32, u64, usize), ParseHeaderError>)
    requires
        pos <= input@.len(),
    ensures
        r is Ok ==> pos <= r->Ok_0.3 <= input@.len() && input@.subrange(pos as int, r->Ok_0.3 as int)
            == enc_u32(tag_of(r->Ok_0.0)) + enc_u32(r->Ok_0.1) + enc_offset(r->Ok_0.2, version),
        r is Ok <==> dtype_ok(input@, pos as int) && pos + 8 <= input@.len() && offset_ok(input@, pos + 8, version),
        r is Ok ==> r->Ok_0.3 == pos + 8 + crate::io::offset_width(version),
{
    let _len: usize = input.len();
    let (t, p1) = parse_data_type(input, pos)?;
    let vsize: u32 = match read_u32(input, p1) {
        Err(n) => {
            return Err(incomplete(ParseHeaderErrorKind::NonNegativeI32, n));
        },
        Ok(x) => x,
    };
    let p2: usize = p1 + 4;
    let (begin, p3) = parse_offset(input, p2, version)?;
    assert(input@.subrange(pos as int, p3 as int) =~= input@.subrange(pos as int, p1 as int)
        + input@.subrange(p1 as int, p2 as int) + input@.subrange(p2 as int, p3 as int));
    Ok((t, vsize, begin, p3))
}

/// Reads one variable entry.
#[verifier::rlimit(100)]
pub fn parse_var(input: &[u8], pos: usize, version: Version) -> (r: Result<(ParsedVariable, usize), ParseHeaderError>)
    requires
        pos <= input@.len(),
    ensures
        r is Ok ==> pos <= r->Ok_0.1 <= input@.len()
            && var_form(input@.subrange(pos as int, r->Ok_0.1 as int), r->Ok_0.0, version),
        r is Ok <==> var_end(input@, pos as int, version) is Some,
        r is Ok ==> r->Ok_0.1 == var_end(input@, pos as int, version)->Some_0,
{
    reveal(var_end);
    let (name, p1) = parse_name_string(input, pos)?;
    let (ndims, p2) = parse_non_neg_i32(input, p1)?;
    let (ids, p3) = parse_dim_ids(input, p2, ndims)?;
    let (attrs, p4) = parse_attrs_list(input, p3)?;
    let (t, vsize, begin, p5) = parse_var_tail(input, p4, version)?;
    let v = ParsedVariable { name, dim_ids: ids, attrs, data_type: t, vsize, begin_offset: begin };
    proof {
        let b = input@.subrange(pos as int, p5 as int);
        let pp = p3 - pos;
        let qq = p4 - pos;
        assert(b.subrange(0, pp) =~= input@.subrange(pos as int, p1 as int) + input@.subrange(p1 as int, p2 as int)
            + input@.subrange(p2 as int, p3 as int));
        assert(b.subrange(pp, qq) =~= input@.subrange(p3 as int, p4 as int));
        assert(b.subrange(qq, b.len() as int) =~= input@.subrange(p4 as int, p5 as int));
        assert(var_form(b, v, version));
    }
    Ok((v, p5))
}

/// Reads a variable list.
pub fn parse_vars_list(input: &[u8], pos: usize, version: Version) -> (r: Result<(Vec<ParsedVariable>, usize), ParseHeaderError>)
    requires
        pos <= input@.len(),
    ensures
        r is Ok ==> pos <= r->Ok_0.1 <= input@.len()
            && vars_form(input@.subrange(pos as int, r->Ok_0.1 as int), r->Ok_0.0@, version),
        r is Ok <==> vars_list_end(input@, pos as int, version) is Some,
        r is Ok ==> r->Ok_0.1 == vars_list_end(input@, pos as int, version)->Some_0,
{
    reveal(vars_list_end);
    let (count, p0) = parse_list_head(input, pos, 0x0B, ParseHeaderErrorKind::VarTag)?;
    let mut vars: Vec<ParsedVariable> = Vec::new();
    let mut p: usize = p0;
    let mut i: usize = 0;
    assert(vars_seq_form(input@.subrange(p0 as int, p0 as int), vars@, version));
    while i < count
        invariant
            pos + 8 == p0 <= p <= input@.len(),
            0 <= i <= count,
            vars@.len() == i,
            vars_seq_form(input@.subrange(p0 as int, p as int), vars@, version),
            count == head_count(input@, pos as int),
            vars_after(input@, p0 as int, i as nat, version) == Some(p as int),
        decreases count - i,
    {
        let (v, next) = match parse_var(input, p, version) {
            Ok(x) => x,
            Err(e) => {
                proof {
                    reveal(vars_list_end);
                    lemma_vars_after_none(input@, p0 as int, (i + 1) as nat, count as nat, version);
                }
                return Err(e);
            },
        };
        let ghost before = vars@;
        vars.push(v);
        proof {
            let b = input@.subrange(p0 as int, next as int);
            let k = p - p0;
            assert(b.take(k) =~= input@.subrange(p0 as int, p as int));
            assert(b.skip(k) =~= input@.subrange(p as int, next as int));
            assert(vars@.drop_last() =~= before);
            assert(vars_seq_form(b, vars@, version));
        }
        p = next;
        i = i + 1;
    }
    proof {
        let b = input@.subrange(pos as int, p as int);
        assert(b.take(8) =~= input@.subrange(pos as int, pos + 8));
        assert(b.skip(8) =~= input@.subrange(p0 as int, p as int));
        assert((0x0Bu32 >> 24u32) as u8 == 0 && (0x0Bu32 >> 16u32) as u8 == 0 && (0x0Bu32 >> 8u32) as u8 == 0
            && 0x0Bu32 as u8 == 0x0B) by (bit_vector);
        assert(enc_u32(0x0B) =~= var_tag());
        if count == 0 {
            assert(b =~= input@.subrange(pos as int, pos + 8));
        }
    }
    Ok((vars, p))
}

/// Reads a header: magic word, version, record count, and the three lists.
#[verifier::rlimit(100)]
pub fn parse_header_bytes(input: &[u8]) -> (r: Result<ParsedHeader, ParseHeaderError>)
    ensures
        r is Ok ==> r->Ok_0.end <= input@.len() && header_form(input@.take(r->Ok_0.end as int), r->Ok_0),
        r is Ok <==> header_end(input@) is Some,
        (exists|h: ParsedHeader| h.end <= input@.len() && header_form(input@.take(h.end as int), h) && header_bounds(h))
            ==> r is Ok,
        r is Ok ==> r->Ok_0.end == header_end(input@)->Some_0 && r->Ok_0.version == version_of_byte(input@[3]),
        input@.len() < 3 ==> (r matches Err(e) && e.kind == ParseHeaderErrorKind::MagicWord
            && e.invalid_bytes == InvalidBytes::Incomplete((3 - input@.len()) as usize)),
        input@.len() >= 3 && input@.take(3) != seq![0x43u8, 0x44u8, 0x46u8] ==> (r matches Err(e)
            && e.kind == ParseHeaderErrorKind::MagicWord
            && (e.invalid_bytes matches InvalidBytes::Bytes(v) && v@ == input@.take(3))),
        input@.len() == 3 && input@.take(3) == seq![0x43u8, 0x44u8, 0x46u8] ==> (r matches Err(e)
            && e.kind == ParseHeaderErrorKind::VersionNumber && e.invalid_bytes == InvalidBytes::Incomplete(1)),
        input@.len() >= 4 && input@.take(3) == seq![0x43u8, 0x44u8, 0x46u8] && input@[3] != 1 && input@[3] != 2
            ==> (r matches Err(e) && e.kind == ParseHeaderErrorKind::VersionNumber
            && (e.invalid_bytes matches InvalidBytes::Bytes(v) && v@ == input@.subrange(3, 4))),
{
    proof {
        if exists|h: ParsedHeader| h.end <= input@.len() && header_form(input@.take(h.end as int), h) && header_bounds(h) {
            let h = choose|h: ParsedHeader| h.end <= input@.len() && header_form(input@.take(h.end as int), h) && header_bounds(h);
            lemma_header_complete(input@, h);
        }
    }
    let len: usize = input.len();
    if len < 3 {
        return Err(incomplete(ParseHeaderErrorKind::MagicWord, 3 - len));
    }
    assert(input@.take(3) =~= seq![input@[0], input@[1], input@[2]]);
    if input[0] != 0x43 || input[1] != 0x44 || input[2] != 0x46 {
        return Err(invalid(ParseHeaderErrorKind::MagicWord, input, 0, 3));
    }
    if len < 4 {
        return Err(incomplete(ParseHeaderErrorKind::VersionNumber, 1));
    }
    let version: Version = if input[3] == 1 {
        Version::Classic
    } else if input[3] == 2 {
        Version::Offset64Bit
    } else {
        return Err(invalid(ParseHeaderErrorKind::VersionNumber, input, 3, 1));
    };
    let num_records: u32 = match read_u32(input, 4) {
        Err(n) => {
            return Err(incomplete(ParseHeaderErrorKind::NonNegativeI32, n));
        },
        Ok(x) => x,
    };
    let (dims, p1) = parse_dims_list(input, 8)?;
    let (attrs, p2) = parse_attrs_list(input, p1)?;
    let (vars, p3) = parse_vars_list(input, p2, version)?;
    let h = ParsedHeader { version, num_records, dims, attrs, vars, end: p3 };
    proof {
        let b = input@.take(p3 as int);
        assert(b.take(4) =~= seq![0x43u8, 0x44u8, 0x46u8, version_byte(version)]);
        assert(b.subrange(4, 8) =~= input@.subrange(4, 8));
        assert(b.subrange(8, p1 as int) =~= input@.subrange(8, p1 as int));
        assert(b.subrange(p1 as int, p2 as int) =~= input@.subrange(p1 as int, p2 as int));
        assert(b.subrange(p2 as int, b.len() as int) =~= input@.subrange(p2 as int, p3 as int));
        assert(header_form(b, h));
    }
    Ok(h)
}

} // verus!
