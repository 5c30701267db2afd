use vstd::prelude::*;
use crate::data_type::{DataType, size_of_spec};
use crate::data_vector::{DataVector, Values};
use crate::data_set::variable::padding;
use crate::io::header::{
    values_bytes, enc_u16, enc_u32, enc_u64, bytes_i8, bytes_u8, bytes_i16, bytes_i32, bytes_u32, bytes_u64, zeros, push_u16, push_zeros, push_i8_range, push_u8_range,
    push_i16_range, push_i32_range, push_u32_range, push_u64_range,
};

verus! {

/// Fill value of `I8` variables.
pub const NC_FILL_I8: i8 = -127;

/// Fill value of `U8` variables.
pub const NC_FILL_U8: u8 = 0;

/// Fill value of `I16` variables.
pub const NC_FILL_I16: i16 = -32767;

/// Fill value of `I32` variables.
pub const NC_FILL_I32: i32 = -2147483647;

/// Bit pattern of the fill value of `F32` variables, 9.9692099683868690e+36.
pub const NC_FILL_F32: u32 = 0x7CF0_0000;

/// Bit pattern of the fill value of `F64` variables, 9.9692099683868690e+36.
pub const NC_FILL_F64: u64 = 0x479E_0000_0000_0000;

/// The values of `v` from position `a` to position `b`.
pub open spec fn slice_values(v: Values, a: int, b: int) -> Values {
    match v {
        Values::I8(s) => Values::I8(s.subrange(a, b)),
        Values::U8(s) => Values::U8(s.subrange(a, b)),
        Values::I16(s) => Values::I16(s.subrange(a, b)),
        Values::I32(s) => Values::I32(s.subrange(a, b)),
        Values::F32(s) => Values::F32(s.subrange(a, b)),
        Values::F64(s) => Values::F64(s.subrange(a, b)),
    }
}

/// Padding after `n` bytes of data of type `t`: the fill pattern for two-byte types, zero
/// bytes for one-byte types; four- and eight-byte types need none.
pub open spec fn chunk_padding(t: DataType, n: nat) -> Seq<u8> {
    if t == DataType::I16 && padding(n) == 2 {
        enc_u16(NC_FILL_I16 as u16)
    } else {
        zeros(padding(n))
    }
}

/// Bytes of the `k`-th chunk of `v`, chunks holding `cl` elements each.
pub open spec fn chunk_bytes(v: Values, k: nat, cl: nat) -> Seq<u8> {
    values_bytes(slice_values(v, (k * cl) as int, ((k + 1) * cl) as int)) + chunk_padding(v.data_type(), cl * size_of_spec(v.data_type()))
}

/// `n` fill values of type `t`.
pub open spec fn fill_values(t: DataType, n: nat) -> Values {
    match t {
        DataType::I8 => Values::I8(Seq::new(n, |i: int| NC_FILL_I8)),
        DataType::U8 => Values::U8(Seq::new(n, |i: int| NC_FILL_U8)),
        DataType::I16 => Values::I16(Seq::new(n, |i: int| NC_FILL_I16)),
        DataType::I32 => Values::I32(Seq::new(n, |i: int| NC_FILL_I32)),
        DataType::F32 => Values::F32(Seq::new(n, |i: int| NC_FILL_F32)),
        DataType::F64 => Values::F64(Seq::new(n, |i: int| NC_FILL_F64)),
    }
}

/// A chunk's byte count: its elements and its padding, a multiple of four.
pub proof fn lemma_chunk_bytes_len(v: Values, k: nat, cl: nat)
    requires
        (k + 1) * cl <= v.len(),
    ensures
        chunk_bytes(v, k, cl).len() == cl * size_of_spec(v.data_type()) + padding(cl * size_of_spec(v.data_type())),
{
    assert(k * cl + cl == (k + 1) * cl) by (nonlinear_arith);
    assert(k * cl <= (k + 1) * cl) by (nonlinear_arith);
    let s = slice_values(v, (k * cl) as int, ((k + 1) * cl) as int);
    assert(s.len() == cl);
    crate::io::header::lemma_values_bytes_len(s);
    let n = cl * size_of_spec(v.data_type());
    if v.data_type() == DataType::I16 {
        assert(n % 2 == 0) by (nonlinear_arith)
            requires
                n == cl * 2,
        ;
    }
}

/// Bytes of the `k`-th chunk of `v`, chunks holding `cl` elements each.
pub fn encode_chunk(v: &DataVector, k: usize, cl: usize) -> (r: Vec<u8>)
    requires
        (k + 1) * cl <= v@.len(),
    ensures
        r@ == chunk_bytes(v@, k as nat, cl as nat),
{
    let len: usize = v.len();
    assert(k * cl + cl == (k + 1) * cl) by (nonlinear_arith);
    assert(k * cl <= (k + 1) * cl) by (nonlinear_arith);
    let start: usize = k * cl;
    let end: usize = start + cl;
    let mut out: Vec<u8> = Vec::new();
    match v {
        DataVector::I8(s) => push_i8_range(&mut out, s.as_slice(), start, end),
        DataVector::U8(s) => push_u8_range(&mut out, s.as_slice(), start, end),
        DataVector::I16(s) => push_i16_range(&mut out, s.as_slice(), start, end),
        DataVector::I32(s) => push_i32_range(&mut out, s.as_slice(), start, end),
        DataVector::F32(s) => push_u32_range(&mut out, s.as_slice(), start, end),
        DataVector::F64(s) => push_u64_range(&mut out, s.as_slice(), start, end),
    }
    let ghost body = out@;
    assert(body == values_bytes(slice_values(v@, (k * cl) as int, ((k + 1) * cl) as int)));
    proof { crate::io::header::lemma_values_bytes_len(slice_values(v@, (k * cl) as int, ((k + 1) * cl) as int)); }
    let n: usize = out.len();
    let pad: usize = crate::io::compute_num_bytes_zero_padding(n);
    let t: DataType = v.data_type();
    if t == DataType::I16 && pad == 2 {
        push_u16(&mut out, #[verifier::truncate] (NC_FILL_I16 as u16));
    } else {
        push_zeros(&mut out, pad);
    }
    out
}

/// `n` fill values of type `t`.
pub fn fill_vector(t: DataType, n: usize) -> (r: DataVector)
    ensures
        r@ == fill_values(t, n as nat),
{
    match t {
        DataType::I8 => {
            let v = vec![NC_FILL_I8; n];
            assert(v@ =~= Seq::new(n as nat, |i: int| NC_FILL_I8));
            DataVector::I8(v)
        },
        DataType::U8 => {
            let v = vec![NC_FILL_U8; n];
            assert(v@ =~= Seq::new(n as nat, |i: int| NC_FILL_U8));
            DataVector::U8(v)
        },
        DataType::I16 => {
            let v = vec![NC_FILL_I16; n];
            assert(v@ =~= Seq::new(n as nat, |i: int| NC_FILL_I16));
            DataVector::I16(v)
        },
        DataType::I32 => {
            let v = vec![NC_FILL_I32; n];
            assert(v@ =~= Seq::new(n as nat, |i: int| NC_FILL_I32));
            DataVector::I32(v)
        },
        DataType::F32 => {
            let v = vec![NC_FILL_F32; n];
            assert(v@ =~= Seq::new(n as nat, |i: int| NC_FILL_F32));
            DataVector::F32(v)
        },
        DataType::F64 => {
            let v = vec![NC_FILL_F64; n];
            assert(v@ =~= Seq::new(n as nat, |i: int| NC_FILL_F64));
            DataVector::F64(v)
        },
    }
}

/// `old` with `bytes` written from position `pos` on.
pub open spec fn overwrite(old: Seq<u8>, pos: int, bytes: Seq<u8>) -> Seq<u8> {
    old.subrange(0, pos) + bytes + old.subrange(pos + bytes.len(), old.len() as int)
}

/// Writes `bytes` into `buf` from position `pos` on.
pub fn write_at(buf: &mut Vec<u8>, pos: usize, bytes: &Vec<u8>)
    requires
        pos + bytes@.len() <= old(buf)@.len(),
    ensures
        final(buf)@ == overwrite(old(buf)@, pos as int, bytes@),
{
    let n: usize = buf.len();
    let mut i: usize = 0;
    while i < bytes.len()
        invariant
            0 <= i <= bytes@.len(),
            n == buf@.len(),
            pos + bytes@.len() <= buf@.len(),
            buf@.len() == old(buf)@.len(),
            forall|q: int| 0 <= q < buf@.len() ==> (#[trigger] buf@[q]) == if pos <= q < pos + i {
                bytes@[q - pos]
            } else {
                old(buf)@[q]
            },
        decreases bytes@.len() - i,
    {
        buf.set(pos + i, bytes[i]);
        i = i + 1;
    }
    assert(buf@ =~= overwrite(old(buf)@, pos as int, bytes@));
}

proof fn lemma_enc_i8_injective(x: i8, y: i8)
    requires
        seq![x as u8] == seq![y as u8],
    ensures
        x == y,
{
    let sx = seq![x as u8];
    let sy = seq![y as u8];
    assert(sx[0] == sy[0]);
    assert(x as u8 == y as u8 ==> x == y) by (bit_vector);
}

/// Two sequences of `i8` of the same length with the same bytes are equal.
pub proof fn lemma_bytes_i8_injective(a: Seq<i8>, b: Seq<i8>)
    requires
        a.len() == b.len(),
        bytes_i8(a) == bytes_i8(b),
    ensures
        a == b,
    decreases a.len(),
{
    if a.len() > 0 {
        let pa = bytes_i8(a.drop_last());
        let pb = bytes_i8(b.drop_last());
        crate::io::header::lemma_bytes_i8_len(a.drop_last());
        crate::io::header::lemma_bytes_i8_len(b.drop_last());
        let x = a.last();
        let y = b.last();
        assert(bytes_i8(a) == pa + seq![x as u8]);
        assert(bytes_i8(b) == pb + seq![y as u8]);
        assert(pa =~= bytes_i8(a).subrange(0, pa.len() as int));
        assert(pb =~= bytes_i8(b).subrange(0, pb.len() as int));
        assert(seq![x as u8] =~= bytes_i8(a).subrange(pa.len() as int, bytes_i8(a).len() as int));
        assert(seq![y as u8] =~= bytes_i8(b).subrange(pb.len() as int, bytes_i8(b).len() as int));
        lemma_enc_i8_injective(x, y);
        lemma_bytes_i8_injective(a.drop_last(), b.drop_last());
        assert(a =~= a.drop_last().push(x));
        assert(b =~= b.drop_last().push(y));
    }
}

proof fn lemma_enc_u8_injective(x: u8, y: u8)
    requires
        seq![x] == seq![y],
    ensures
        x == y,
{
    let sx = seq![x];
    let sy = seq![y];
    assert(sx[0] == sy[0]);
    
}

/// Two sequences of `u8` of the same length with the same bytes are equal.
pub proof fn lemma_bytes_u8_injective(a: Seq<u8>, b: Seq<u8>)
    requires
        a.len() == b.len(),
        bytes_u8(a) == bytes_u8(b),
    ensures
        a == b,
    decreases a.len(),
{
    if a.len() > 0 {
        let pa = bytes_u8(a.drop_last());
        let pb = bytes_u8(b.drop_last());
        crate::io::header::lemma_bytes_u8_len(a.drop_last());
        crate::io::header::lemma_bytes_u8_len(b.drop_last());
        let x = a.last();
        let y = b.last();
        assert(bytes_u8(a) == pa + seq![x]);
        assert(bytes_u8(b) == pb + seq![y]);
        assert(pa =~= bytes_u8(a).subrange(0, pa.len() as int));
        assert(pb =~= bytes_u8(b).subrange(0, pb.len() as int));
        assert(seq![x] =~= bytes_u8(a).subrange(pa.len() as int, bytes_u8(a).len() as int));
        assert(seq![y] =~= bytes_u8(b).subrange(pb.len() as int, bytes_u8(b).len() as int));
        lemma_enc_u8_injective(x, y);
        lemma_bytes_u8_injective(a.drop_last(), b.drop_last());
        assert(a =~= a.drop_last().push(x));
        assert(b =~= b.drop_last().push(y));
    }
}

proof fn lemma_enc_i16_injective(x: i16, y: i16)
    requires
        enc_u16(x as u16) == enc_u16(y as u16),
    ensures
        x == y,
{
    let sx = enc_u16(x as u16);
    let sy = enc_u16(y as u16);
    assert(forall|k: int| 0 <= k < sx.len() ==> sx[k] == sy[k]);
    let xu = x as u16;
    let yu = y as u16;
    assert(((xu >> 8u16) as u8 == (yu >> 8u16) as u8 && xu as u8 == yu as u8) ==> xu == yu) by (bit_vector);
    assert(xu == yu ==> x == y) by (bit_vector)
        requires
            xu == x as u16,
            yu == y as u16,
    ;
}

/// Two sequences of `i16` of the same length with the same bytes are equal.
pub proof fn lemma_bytes_i16_injective(a: Seq<i16>, b: Seq<i16>)
    requires
        a.len() == b.len(),
        bytes_i16(a) == bytes_i16(b),
    ensures
        a == b,
    decreases a.len(),
{
    if a.len() > 0 {
        let pa = bytes_i16(a.drop_last());
        let pb = bytes_i16(b.drop_last());
        crate::io::header::lemma_bytes_i16_len(a.drop_last());
        crate::io::header::lemma_bytes_i16_len(b.drop_last());
        let x = a.last();
        let y = b.last();
        assert(bytes_i16(a) == pa + enc_u16(x as u16));
        assert(bytes_i16(b) == pb + enc_u16(y as u16));
        assert(pa =~= bytes_i16(a).subrange(0, pa.len() as int));
        assert(pb =~= bytes_i16(b).subrange(0, pb.len() as int));
        assert(enc_u16(x as u16) =~= bytes_i16(a).subrange(pa.len() as int, bytes_i16(a).len() as int));
        assert(enc_u16(y as u16) =~= bytes_i16(b).subrange(pb.len() as int, bytes_i16(b).len() as int));
        lemma_enc_i16_injective(x, y);
        lemma_bytes_i16_injective(a.drop_last(), b.drop_last());
        assert(a =~= a.drop_last().push(x));
        assert(b =~= b.drop_last().push(y));
    }
}

proof fn lemma_enc_i32_injective(x: i32, y: i32)
    requires
        enc_u32(x as u32) == enc_u32(y as u32),
    ensures
        x == y,
{
    let sx = enc_u32(x as u32);
    let sy = enc_u32(y as u32);
    assert(forall|k: int| 0 <= k < sx.len() ==> sx[k] == sy[k]);
    let xu = x as u32;
    let yu = y as u32;
    assert(((xu >> 24u32) as u8 == (yu >> 24u32) as u8 && (xu >> 16u32) as u8 == (yu >> 16u32) as u8
        && (xu >> 8u32) as u8 == (yu >> 8u32) as u8 && xu as u8 == yu as u8) ==> xu == yu) by (bit_vector);
    assert(xu == yu ==> x == y) by (bit_vector)
        requires
            xu == x as u32,
            yu == y as u32,
    ;
}

/// Two sequences of `i32` of the same length with the same bytes are equal.
pub proof fn lemma_bytes_i32_injective(a: Seq<i32>, b: Seq<i32>)
    requires
        a.len() == b.len(),
        bytes_i32(a) == bytes_i32(b),
    ensures
        a == b,
    decreases a.len(),
{
    if a.len() > 0 {
        let pa = bytes_i32(a.drop_last());
        let pb = bytes_i32(b.drop_last());
        crate::io::header::lemma_bytes_i32_len(a.drop_last());
        crate::io::header::lemma_bytes_i32_len(b.drop_last());
        let x = a.last();
        let y = b.last();
        assert(bytes_i32(a) == pa + enc_u32(x as u32));
        assert(bytes_i32(b) == pb + enc_u32(y as u32));
        assert(pa =~= bytes_i32(a).subrange(0, pa.len() as int));
        assert(pb =~= bytes_i32(b).subrange(0, pb.len() as int));
        assert(enc_u32(x as u32) =~= bytes_i32(a).subrange(pa.len() as int, bytes_i32(a).len() as int));
        assert(enc_u32(y as u32) =~= bytes_i32(b).subrange(pb.len() as int, bytes_i32(b).len() as int));
        lemma_enc_i32_injective(x, y);
        lemma_bytes_i32_injective(a.drop_last(), b.drop_last());
        assert(a =~= a.drop_last().push(x));
        assert(b =~= b.drop_last().push(y));
    }
}

proof fn lemma_enc_u32_injective(x: u32, y: u32)
    requires
        enc_u32(x) == enc_u32(y),
    ensures
        x == y,
{
    let sx = enc_u32(x);
    let sy = enc_u32(y);
    assert(forall|k: int| 0 <= k < sx.len() ==> sx[k] == sy[k]);
    assert(((x >> 24u32) as u8 == (y >> 24u32) as u8 && (x >> 16u32) as u8 == (y >> 16u32) as u8
        && (x >> 8u32) as u8 == (y >> 8u32) as u8 && x as u8 == y as u8) ==> x == y) by (bit_vector);
}

/// Two sequences of `u32` of the same length with the same bytes are equal.
pub proof fn lemma_bytes_u32_injective(a: Seq<u32>, b: Seq<u32>)
    requires
        a.len() == b.len(),
        bytes_u32(a) == bytes_u32(b),
    ensures
        a == b,
    decreases a.len(),
{
    if a.len() > 0 {
        let pa = bytes_u32(a.drop_last());
        let pb = bytes_u32(b.drop_last());
        crate::io::header::lemma_bytes_u32_len(a.drop_last());
        crate::io::header::lemma_bytes_u32_len(b.drop_last());
        let x = a.last();
        let y = b.last();
        assert(bytes_u32(a) == pa + enc_u32(x));
        assert(bytes_u32(b) == pb + enc_u32(y));
        assert(pa =~= bytes_u32(a).subrange(0, pa.len() as int));
        assert(pb =~= bytes_u32(b).subrange(0, pb.len() as int));
        assert(enc_u32(x) =~= bytes_u32(a).subrange(pa.len() as int, bytes_u32(a).len() as int));
        assert(enc_u32(y) =~= bytes_u32(b).subrange(pb.len() as int, bytes_u32(b).len() as int));
        lemma_enc_u32_injective(x, y);
        lemma_bytes_u32_injective(a.drop_last(), b.drop_last());
        assert(a =~= a.drop_last().push(x));
        assert(b =~= b.drop_last().push(y));
    }
}

proof fn lemma_enc_u64_injective(x: u64, y: u64)
    requires
        enc_u64(x) == enc_u64(y),
    ensures
        x == y,
{
    let sx = enc_u64(x);
    let sy = enc_u64(y);
    assert(forall|k: int| 0 <= k < sx.len() ==> sx[k] == sy[k]);
    assert(((x >> 56u64) as u8 == (y >> 56u64) as u8 && (x >> 48u64) as u8 == (y >> 48u64) as u8
        && (x >> 40u64) as u8 == (y >> 40u64) as u8 && (x >> 32u64) as u8 == (y >> 32u64) as u8
        && (x >> 24u64) as u8 == (y >> 24u64) as u8 && (x >> 16u64) as u8 == (y >> 16u64) as u8
        && (x >> 8u64) as u8 == (y >> 8u64) as u8 && x as u8 == y as u8) ==> x == y) by (bit_vector);
}

/// Two sequences of `u64` of the same length with the same bytes are equal.
pub proof fn lemma_bytes_u64_injective(a: Seq<u64>, b: Seq<u64>)
    requires
        a.len() == b.len(),
        bytes_u64(a) == bytes_u64(b),
    ensures
        a == b,
    decreases a.len(),
{
    if a.len() > 0 {
        let pa = bytes_u64(a.drop_last());
        let pb = bytes_u64(b.drop_last());
        crate::io::header::lemma_bytes_u64_len(a.drop_last());
        crate::io::header::lemma_bytes_u64_len(b.drop_last());
        let x = a.last();
        let y = b.last();
        assert(bytes_u64(a) == pa + enc_u64(x));
        assert(bytes_u64(b) == pb + enc_u64(y));
        assert(pa =~= bytes_u64(a).subrange(0, pa.len() as int));
        assert(pb =~= bytes_u64(b).subrange(0, pb.len() as int));
        assert(enc_u64(x) =~= bytes_u64(a).subrange(pa.len() as int, bytes_u64(a).len() as int));
        assert(enc_u64(y) =~= bytes_u64(b).subrange(pb.len() as int, bytes_u64(b).len() as int));
        lemma_enc_u64_injective(x, y);
        lemma_bytes_u64_injective(a.drop_last(), b.drop_last());
        assert(a =~= a.drop_last().push(x));
        assert(b =~= b.drop_last().push(y));
    }
}

/// Two value blocks of the same type and length with the same bytes are equal.
pub proof fn lemma_values_bytes_injective(a: Values, b: Values)
    requires
        a.data_type() == b.data_type(),
        a.len() == b.len(),
        values_bytes(a) == values_bytes(b),
    ensures
        a == b,
{
    match (a, b) {
        (Values::I8(x), Values::I8(y)) => lemma_bytes_i8_injective(x, y),
        (Values::U8(x), Values::U8(y)) => lemma_bytes_u8_injective(x, y),
        (Values::I16(x), Values::I16(y)) => lemma_bytes_i16_injective(x, y),
        (Values::I32(x), Values::I32(y)) => lemma_bytes_i32_injective(x, y),
        (Values::F32(x), Values::F32(y)) => lemma_bytes_u32_injective(x, y),
        (Values::F64(x), Values::F64(y)) => lemma_bytes_u64_injective(x, y),
        _ => {},
    }
}

/// Two sequences cut in `nc` chunks of `cl` elements, with equal chunks, are equal.
pub proof fn lemma_chunks_equal<T>(a: Seq<T>, b: Seq<T>, nc: nat, cl: nat)
    requires
        a.len() == nc * cl,
        b.len() == nc * cl,
        forall|k: int| 0 <= k < nc ==> #[trigger] a.subrange(k * cl, (k + 1) * cl) == b.subrange(k * cl, (k + 1) * cl),
    ensures
        a == b,
{
    assert forall|i: int| 0 <= i < a.len() implies a[i] == b[i] by {
        let k = i / cl as int;
        let t = i % cl as int;
        assert(cl > 0) by (nonlinear_arith)
            requires
                0 <= i < nc * cl,
        ;
        vstd::arithmetic::div_mod::lemma_fundamental_div_mod(i, cl as int);
        assert(0 <= t < cl);
        assert(0 <= k < nc) by (nonlinear_arith)
            requires
                i == cl * k + t,
                0 <= t < cl,
                0 <= i < nc * cl,
                cl > 0,
        ;
        assert(k * cl + cl == (k + 1) * cl) by (nonlinear_arith);
        assert((k + 1) * cl <= nc * cl) by (nonlinear_arith)
            requires
                k < nc,
        ;
        assert(k * cl + t == i) by (nonlinear_arith)
            requires
                i == cl * k + t,
        ;
        assert(a.subrange(k * cl, (k + 1) * cl)[t] == a[i]);
        assert(b.subrange(k * cl, (k + 1) * cl)[t] == b[i]);
    }
    assert(a =~= b);
}

/// Values cut in chunks that agree chunk by chunk are equal.
pub proof fn lemma_values_chunks_equal(a: Values, b: Values, nc: nat, cl: nat)
    requires
        a.data_type() == b.data_type(),
        a.len() == nc * cl,
        b.len() == nc * cl,
        forall|k: int| 0 <= k < nc ==> #[trigger] slice_values(a, k * cl, (k + 1) * cl) == slice_values(b, k * cl, (k + 1) * cl),
    ensures
        a == b,
{
    match (a, b) {
        (Values::I8(x), Values::I8(y)) => {
            assert forall|k: int| 0 <= k < nc implies #[trigger] x.subrange(k * cl, (k + 1) * cl) == y.subrange(k * cl, (k + 1) * cl) by {
                assert(slice_values(a, k * cl, (k + 1) * cl) == slice_values(b, k * cl, (k + 1) * cl));
            }
            lemma_chunks_equal(x, y, nc, cl);
        },
        (Values::U8(x), Values::U8(y)) => {
            assert forall|k: int| 0 <= k < nc implies #[trigger] x.subrange(k * cl, (k + 1) * cl) == y.subrange(k * cl, (k + 1) * cl) by {
                assert(slice_values(a, k * cl, (k + 1) * cl) == slice_values(b, k * cl, (k + 1) * cl));
            }
            lemma_chunks_equal(x, y, nc, cl);
        },
        (Values::I16(x), Values::I16(y)) => {
            assert forall|k: int| 0 <= k < nc implies #[trigger] x.subrange(k * cl, (k + 1) * cl) == y.subrange(k * cl, (k + 1) * cl) by {
                assert(slice_values(a, k * cl, (k + 1) * cl) == slice_values(b, k * cl, (k + 1) * cl));
            }
            lemma_chunks_equal(x, y, nc, cl);
        },
        (Values::I32(x), Values::I32(y)) => {
            assert forall|k: int| 0 <= k < nc implies #[trigger] x.subrange(k * cl, (k + 1) * cl) == y.subrange(k * cl, (k + 1) * cl) by {
                assert(slice_values(a, k * cl, (k + 1) * cl) == slice_values(b, k * cl, (k + 1) * cl));
            }
            lemma_chunks_equal(x, y, nc, cl);
        },
        (Values::F32(x), Values::F32(y)) => {
            assert forall|k: int| 0 <= k < nc implies #[trigger] x.subrange(k * cl, (k + 1) * cl) == y.subrange(k * cl, (k + 1) * cl) by {
                assert(slice_values(a, k * cl, (k + 1) * cl) == slice_values(b, k * cl, (k + 1) * cl));
            }
            lemma_chunks_equal(x, y, nc, cl);
        },
        (Values::F64(x), Values::F64(y)) => {
            assert forall|k: int| 0 <= k < nc implies #[trigger] x.subrange(k * cl, (k + 1) * cl) == y.subrange(k * cl, (k + 1) * cl) by {
                assert(slice_values(a, k * cl, (k + 1) * cl) == slice_values(b, k * cl, (k + 1) * cl));
            }
            lemma_chunks_equal(x, y, nc, cl);
        },
        _ => {},
    }
}

} // verus!
