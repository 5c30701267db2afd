use vstd::prelude::*;
use crate::data_set::DataSet;
use crate::data_set::DataSetModel;
use crate::data_set::attribute::{Attribute, AttributeModel, attrs_view};
use crate::data_set::dimension::{Dimension, DimensionModel};
use crate::data_set::variable::{Variable, VariableModel, padding, dims_view};
use crate::data_type::{DataType, tag_of, size_of_spec};
use crate::data_vector::{DataVector, Values};
use crate::io::{Version, version_byte};
use crate::io::layout::{DataSetLayout, VariableLayout, header_size, header_required_size};

verus! {

/// Big-endian bytes of a `u16`.
pub open spec fn enc_u16(x: u16) -> Seq<u8> {
    seq![(x >> 8u16) as u8, x as u8]
}

/// Big-endian bytes of a `u32`.
pub open spec fn enc_u32(x: u32) -> Seq<u8> {
    seq![(x >> 24u32) as u8, (x >> 16u32) as u8, (x >> 8u32) as u8, x as u8]
}

/// Big-endian bytes of a `u64`.
pub open spec fn enc_u64(x: u64) -> Seq<u8> {
    seq![
        (x >> 56u64) as u8,
        (x >> 48u64) as u8,
        (x >> 40u64) as u8,
        (x >> 32u64) as u8,
        (x >> 24u64) as u8,
        (x >> 16u64) as u8,
        (x >> 8u64) as u8,
        x as u8,
    ]
}

/// `n` zero bytes.
pub open spec fn zeros(n: nat) -> Seq<u8> {
    Seq::new(n, |i: int| 0u8)
}

/// Big-endian bytes of a sequence of `i8`.
pub open spec fn bytes_i8(s: Seq<i8>) -> Seq<u8>
    decreases s.len(),
{
    if s.len() == 0 {
        Seq::empty()
    } else {
        let x = s.last();
        bytes_i8(s.drop_last()) + seq![x as u8]
    }
}

/// Big-endian bytes of a sequence of `u8`.
pub open spec fn bytes_u8(s: Seq<u8>) -> Seq<u8>
    decreases s.len(),
{
    if s.len() == 0 {
        Seq::empty()
    } else {
        let x = s.last();
        bytes_u8(s.drop_last()) + seq![x]
    }
}

/// Big-endian bytes of a sequence of `i16`.
pub open spec fn bytes_i16(s: Seq<i16>) -> Seq<u8>
    decreases s.len(),
{
    if s.len() == 0 {
        Seq::empty()
    } else {
        let x = s.last();
        bytes_i16(s.drop_last()) + enc_u16(x as u16)
    }
}

/// Big-endian bytes of a sequence of `i32`.
pub open spec fn bytes_i32(s: Seq<i32>) -> Seq<u8>
    decreases s.len(),
{
    if s.len() == 0 {
        Seq::empty()
    } else {
        let x = s.last();
        bytes_i32(s.drop_last()) + enc_u32(x as u32)
    }
}

/// Big-endian bytes of a sequence of `u32`.
pub open spec fn bytes_u32(s: Seq<u32>) -> Seq<u8>
    decreases s.len(),
{
    if s.len() == 0 {
        Seq::empty()
    } else {
        let x = s.last();
        bytes_u32(s.drop_last()) + enc_u32(x)
    }
}

/// Big-endian bytes of a sequence of `u64`.
pub open spec fn bytes_u64(s: Seq<u64>) -> Seq<u8>
    decreases s.len(),
{
    if s.len() == 0 {
        Seq::empty()
    } else {
        let x = s.last();
        bytes_u64(s.drop_last()) + enc_u64(x)
    }
}

/// Big-endian bytes of the elements of a value block.
pub open spec fn values_bytes(v: Values) -> Seq<u8> {
    match v {
        Values::I8(s) => bytes_i8(s),
        Values::U8(s) => bytes_u8(s),
        Values::I16(s) => bytes_i16(s),
        Values::I32(s) => bytes_i32(s),
        Values::F32(s) => bytes_u32(s),
        Values::F64(s) => bytes_u64(s),
    }
}

/// Tag that opens a non-empty dimension list.
pub open spec fn dim_tag() -> Seq<u8> {
    seq![0u8, 0u8, 0u8, 0x0Au8]
}

/// Tag that opens a non-empty variable list.
pub open spec fn var_tag() -> Seq<u8> {
    seq![0u8, 0u8, 0u8, 0x0Bu8]
}

/// Tag that opens a non-empty attribute list.
pub open spec fn attr_tag() -> Seq<u8> {
    seq![0u8, 0u8, 0u8, 0x0Cu8]
}

/// A name: its byte length, its UTF-8 bytes, zero padding.
pub open spec fn enc_name(n: Seq<char>) -> Seq<u8> {
    let b = vstd::utf8::encode_utf8(n);
    enc_u32(b.len() as u32) + b + zeros(padding(b.len()))
}

/// A value block in the header: the elements and zero padding.
pub open spec fn enc_values(v: Values) -> Seq<u8> {
    values_bytes(v) + zeros(padding(values_bytes(v).len()))
}

pub open spec fn enc_attr(a: AttributeModel) -> Seq<u8> {
    enc_name(a.name) + enc_u32(tag_of(a.values.data_type())) + enc_u32(a.values.len() as u32)
        + enc_values(a.values)
}

pub open spec fn enc_attr_seq(s: Seq<AttributeModel>) -> Seq<u8>
    decreases s.len(),
{
    if s.len() == 0 {
        Seq::empty()
    } else {
        enc_attr_seq(s.drop_last()) + enc_attr(s.last())
    }
}

/// An attribute list: eight zero bytes when empty, else its tag, count and entries.
pub open spec fn enc_attrs(s: Seq<AttributeModel>) -> Seq<u8> {
    if s.len() == 0 {
        zeros(8)
    } else {
        attr_tag() + enc_u32(s.len() as u32) + enc_attr_seq(s)
    }
}

/// A dimension: its name, and its size, zero for the unlimited one.
pub open spec fn enc_dim(d: DimensionModel) -> Seq<u8> {
    enc_name(d.name) + enc_u32(if d.unlimited { 0 } else { d.size as u32 })
}

pub open spec fn enc_dim_seq(s: Seq<DimensionModel>) -> Seq<u8>
    decreases s.len(),
{
    if s.len() == 0 {
        Seq::empty()
    } else {
        enc_dim_seq(s.drop_last()) + enc_dim(s.last())
    }
}

pub open spec fn enc_dims(s: Seq<DimensionModel>) -> Seq<u8> {
    if s.len() == 0 {
        zeros(8)
    } else {
        dim_tag() + enc_u32(s.len() as u32) + enc_dim_seq(s)
    }
}

/// The declared size of a variable: its chunk size, or the largest `u32` where it does not fit.
pub open spec fn vsize(chunk_size: nat) -> u32 {
    if chunk_size <= u32::MAX {
        chunk_size as u32
    } else {
        u32::MAX
    }
}

/// A begin offset: four bytes in the classic version, eight in the 64-bit one.
pub open spec fn enc_offset(x: u64, version: Version) -> Seq<u8> {
    match version {
        Version::Classic => enc_u32(x as u32),
        Version::Offset64Bit => enc_u64(x),
    }
}

/// A variable: name, dimension ids, attributes, type, size and begin offset.
pub open spec fn enc_var(v: VariableModel, l: VariableLayout, version: Version) -> Seq<u8> {
    enc_name(v.name) + enc_u32(v.dims.len() as u32) + bytes_u32(l.dim_ids@.map_values(|id: usize| id as u32))
        + enc_attrs(v.attrs) + enc_u32(tag_of(v.data_type)) + enc_u32(vsize(l.chunk_size as nat))
        + enc_offset(l.begin_offset, version)
}

pub open spec fn enc_var_seq(s: Seq<VariableModel>, l: Seq<VariableLayout>, version: Version) -> Seq<u8>
    decreases s.len(),
{
    if s.len() == 0 {
        Seq::empty()
    } else {
        enc_var_seq(s.drop_last(), l, version) + enc_var(s.last(), l[s.len() - 1], version)
    }
}

pub open spec fn enc_vars(s: Seq<VariableModel>, l: Seq<VariableLayout>, version: Version) -> Seq<u8> {
    if s.len() == 0 {
        zeros(8)
    } else {
        var_tag() + enc_u32(s.len() as u32) + enc_var_seq(s, l, version)
    }
}

/// The header of `m` laid out as `l`, with `numrecs` records, before its final padding.
pub open spec fn enc_header(m: DataSetModel, version: Version, numrecs: u32, l: DataSetLayout) -> Seq<u8> {
    seq![0x43u8, 0x44u8, 0x46u8, version_byte(version)] + enc_u32(numrecs) + enc_dims(m.dims)
        + enc_attrs(m.attrs) + enc_vars(m.vars, l.vars@, version)
}

/// Appends the big-endian bytes of a `u16`.
pub fn push_u16(out: &mut Vec<u8>, x: u16)
    ensures
        final(out)@ == old(out)@ + enc_u16(x),
{
    out.push((x >> 8u16) as u8);
    out.push(x as u8);
    assert(out@ =~= old(out)@ + enc_u16(x));
}

/// Appends the big-endian bytes of a `u32`.
pub fn push_u32(out: &mut Vec<u8>, x: u32)
    ensures
        final(out)@ == old(out)@ + enc_u32(x),
{
    out.push((x >> 24u32) as u8);
    out.push((x >> 16u32) as u8);
    out.push((x >> 8u32) as u8);
    out.push(x as u8);
    assert(out@ =~= old(out)@ + enc_u32(x));
}

/// Appends the big-endian bytes of a `u64`.
pub fn push_u64(out: &mut Vec<u8>, x: u64)
    ensures
        final(out)@ == old(out)@ + enc_u64(x),
{
    out.push((x >> 56u64) as u8);
    out.push((x >> 48u64) as u8);
    out.push((x >> 40u64) as u8);
    out.push((x >> 32u64) as u8);
    out.push((x >> 24u64) as u8);
    out.push((x >> 16u64) as u8);
    out.push((x >> 8u64) as u8);
    out.push(x as u8);
    assert(out@ =~= old(out)@ + enc_u64(x));
}

/// Appends `n` zero bytes.
pub fn push_zeros(out: &mut Vec<u8>, n: usize)
    ensures
        final(out)@ == old(out)@ + zeros(n as nat),
{
    let mut i: usize = 0;
    while i < n
        invariant
            0 <= i <= n,
            out@ == old(out)@ + zeros(i as nat),
        decreases n - i,
    {
        out.push(0u8);
        assert(out@ =~= old(out)@ + zeros((i + 1) as nat));
        i = i + 1;
    }
}

/// Appends the big-endian bytes of each value.
pub fn push_i8s(out: &mut Vec<u8>, s: &[i8])
    ensures
        final(out)@ == old(out)@ + bytes_i8(s@),
{
    push_i8_range(out, s, 0, s.len());
    assert(s@.subrange(0, s@.len() as int) =~= s@);
}

/// Appends the big-endian bytes of `s[start..end]`.
pub fn push_i8_range(out: &mut Vec<u8>, s: &[i8], start: usize, end: usize)
    requires
        start <= end <= s@.len(),
    ensures
        final(out)@ == old(out)@ + bytes_i8(s@.subrange(start as int, end as int)),
{
    let ghost w = s@.subrange(start as int, end as int);
    let mut i: usize = start;
    while i < end
        invariant
            start <= i <= end <= s@.len(),
            w == s@.subrange(start as int, end as int),
            out@ == old(out)@ + bytes_i8(w.take(i - start)),
        decreases end - i,
    {
        assert(w.take(i - start + 1).drop_last() =~= w.take(i - start));
        assert(w[i - start] == s@[i as int]);
        let x: i8 = s[i];
        out.push(x as u8);
        assert(out@ =~= old(out)@ + bytes_i8(w.take(i - start + 1)));
        i = i + 1;
    }
    assert(w.take(end - start) =~= w);
}

/// Appends the big-endian bytes of each value.
pub fn push_u8s(out: &mut Vec<u8>, s: &[u8])
    ensures
        final(out)@ == old(out)@ + bytes_u8(s@),
{
    push_u8_range(out, s, 0, s.len());
    assert(s@.subrange(0, s@.len() as int) =~= s@);
}

/// Appends the big-endian bytes of `s[start..end]`.
pub fn push_u8_range(out: &mut Vec<u8>, s: &[u8], start: usize, end: usize)
    requires
        start <= end <= s@.len(),
    ensures
        final(out)@ == old(out)@ + bytes_u8(s@.subrange(start as int, end as int)),
{
    let ghost w = s@.subrange(start as int, end as int);
    let mut i: usize = start;
    while i < end
        invariant
            start <= i <= end <= s@.len(),
            w == s@.subrange(start as int, end as int),
            out@ == old(out)@ + bytes_u8(w.take(i - start)),
        decreases end - i,
    {
        assert(w.take(i - start + 1).drop_last() =~= w.take(i - start));
        assert(w[i - start] == s@[i as int]);
        let x: u8 = s[i];
        out.push(x);
        assert(out@ =~= old(out)@ + bytes_u8(w.take(i - start + 1)));
        i = i + 1;
    }
    assert(w.take(end - start) =~= w);
}

/// Appends the big-endian bytes of each value.
pub fn push_i16s(out: &mut Vec<u8>, s: &[i16])
    ensures
        final(out)@ == old(out)@ + bytes_i16(s@),
{
    push_i16_range(out, s, 0, s.len());
    assert(s@.subrange(0, s@.len() as int) =~= s@);
}

/// Appends the big-endian bytes of `s[start..end]`.
pub fn push_i16_range(out: &mut Vec<u8>, s: &[i16], start: usize, end: usize)
    requires
        start <= end <= s@.len(),
    ensures
        final(out)@ == old(out)@ + bytes_i16(s@.subrange(start as int, end as int)),
{
    let ghost w = s@.subrange(start as int, end as int);
    let mut i: usize = start;
    while i < end
        invariant
            start <= i <= end <= s@.len(),
            w == s@.subrange(start as int, end as int),
            out@ == old(out)@ + bytes_i16(w.take(i - start)),
        decreases end - i,
    {
        assert(w.take(i - start + 1).drop_last() =~= w.take(i - start));
        assert(w[i - start] == s@[i as int]);
        let x: i16 = s[i];
        push_u16(out, x as u16);
        assert(out@ =~= old(out)@ + bytes_i16(w.take(i - start + 1)));
        i = i + 1;
    }
    assert(w.take(end - start) =~= w);
}

/// Appends the big-endian bytes of each value.
pub fn push_i32s(out: &mut Vec<u8>, s: &[i32])
    ensures
        final(out)@ == old(out)@ + bytes_i32(s@),
{
    push_i32_range(out, s, 0, s.len());
    assert(s@.subrange(0, s@.len() as int) =~= s@);
}

/// Appends the big-endian bytes of `s[start..end]`.
pub fn push_i32_range(out: &mut Vec<u8>, s: &[i32], start: usize, end: usize)
    requires
        start <= end <= s@.len(),
    ensures
        final(out)@ == old(out)@ + bytes_i32(s@.subrange(start as int, end as int)),
{
    let ghost w = s@.subrange(start as int, end as int);
    let mut i: usize = start;
    while i < end
        invariant
            start <= i <= end <= s@.len(),
            w == s@.subrange(start as int, end as int),
            out@ == old(out)@ + bytes_i32(w.take(i - start)),
        decreases end - i,
    {
        assert(w.take(i - start + 1).drop_last() =~= w.take(i - start));
        assert(w[i - start] == s@[i as int]);
        let x: i32 = s[i];
        push_u32(out, x as u32);
        assert(out@ =~= old(out)@ + bytes_i32(w.take(i - start + 1)));
        i = i + 1;
    }
    assert(w.take(end - start) =~= w);
}

/// Appends the big-endian bytes of each value.
pub fn push_u32s(out: &mut Vec<u8>, s: &[u32])
    ensures
        final(out)@ == old(out)@ + bytes_u32(s@),
{
    push_u32_range(out, s, 0, s.len());
    assert(s@.subrange(0, s@.len() as int) =~= s@);
}

/// Appends the big-endian bytes of `s[start..end]`.
pub fn push_u32_range(out: &mut Vec<u8>, s: &[u32], start: usize, end: usize)
    requires
        start <= end <= s@.len(),
    ensures
        final(out)@ == old(out)@ + bytes_u32(s@.subrange(start as int, end as int)),
{
    let ghost w = s@.subrange(start as int, end as int);
    let mut i: usize = start;
    while i < end
        invariant
            start <= i <= end <= s@.len(),
            w == s@.subrange(start as int, end as int),
            out@ == old(out)@ + bytes_u32(w.take(i - start)),
        decreases end - i,
    {
        assert(w.take(i - start + 1).drop_last() =~= w.take(i - start));
        assert(w[i - start] == s@[i as int]);
        let x: u32 = s[i];
        push_u32(out, x);
        assert(out@ =~= old(out)@ + bytes_u32(w.take(i - start + 1)));
        i = i + 1;
    }
    assert(w.take(end - start) =~= w);
}

/// Appends the big-endian bytes of each value.
pub fn push_u64s(out: &mut Vec<u8>, s: &[u64])
    ensures
        final(out)@ == old(out)@ + bytes_u64(s@),
{
    push_u64_range(out, s, 0, s.len());
    assert(s@.subrange(0, s@.len() as int) =~= s@);
}

/// Appends the big-endian bytes of `s[start..end]`.
pub fn push_u64_range(out: &mut Vec<u8>, s: &[u64], start: usize, end: usize)
    requires
        start <= end <= s@.len(),
    ensures
        final(out)@ == old(out)@ + bytes_u64(s@.subrange(start as int, end as int)),
{
    let ghost w = s@.subrange(start as int, end as int);
    let mut i: usize = start;
    while i < end
        invariant
            start <= i <= end <= s@.len(),
            w == s@.subrange(start as int, end as int),
            out@ == old(out)@ + bytes_u64(w.take(i - start)),
        decreases end - i,
    {
        assert(w.take(i - start + 1).drop_last() =~= w.take(i - start));
        assert(w[i - start] == s@[i as int]);
        let x: u64 = s[i];
        push_u64(out, x);
        assert(out@ =~= old(out)@ + bytes_u64(w.take(i - start + 1)));
        i = i + 1;
    }
    assert(w.take(end - start) =~= w);
}

pub proof fn lemma_bytes_i8_len(s: Seq<i8>)
    ensures
        bytes_i8(s).len() == 1 * s.len(),
    decreases s.len(),
{
    if s.len() > 0 {
        lemma_bytes_i8_len(s.drop_last());
    }
}

pub proof fn lemma_bytes_u8_len(s: Seq<u8>)
    ensures
        bytes_u8(s).len() == 1 * s.len(),
    decreases s.len(),
{
    if s.len() > 0 {
        lemma_bytes_u8_len(s.drop_last());
    }
}

pub proof fn lemma_bytes_i16_len(s: Seq<i16>)
    ensures
        bytes_i16(s).len() == 2 * s.len(),
    decreases s.len(),
{
    if s.len() > 0 {
        lemma_bytes_i16_len(s.drop_last());
    }
}

pub proof fn lemma_bytes_i32_len(s: Seq<i32>)
    ensures
        bytes_i32(s).len() == 4 * s.len(),
    decreases s.len(),
{
    if s.len() > 0 {
        lemma_bytes_i32_len(s.drop_last());
    }
}

pub proof fn lemma_bytes_u32_len(s: Seq<u32>)
    ensures
        bytes_u32(s).len() == 4 * s.len(),
    decreases s.len(),
{
    if s.len() > 0 {
        lemma_bytes_u32_len(s.drop_last());
    }
}

pub proof fn lemma_bytes_u64_len(s: Seq<u64>)
    ensures
        bytes_u64(s).len() == 8 * s.len(),
    decreases s.len(),
{
    if s.len() > 0 {
        lemma_bytes_u64_len(s.drop_last());
    }
}

/// A value block's elements take their count times the element width.
pub proof fn lemma_values_bytes_len(v: Values)
    ensures
        values_bytes(v).len() == v.len() * size_of_spec(v.data_type()),
{
    match v {
        Values::I8(s) => lemma_bytes_i8_len(s),
        Values::U8(s) => lemma_bytes_u8_len(s),
        Values::I16(s) => lemma_bytes_i16_len(s),
        Values::I32(s) => lemma_bytes_i32_len(s),
        Values::F32(s) => lemma_bytes_u32_len(s),
        Values::F64(s) => lemma_bytes_u64_len(s),
    }
}

pub proof fn lemma_attr_seq_len(s: Seq<AttributeModel>)
    ensures
        enc_attr_seq(s).len() == crate::io::layout::attrs_sum(s),
    decreases s.len(),
{
    if s.len() > 0 {
        lemma_attr_seq_len(s.drop_last());
        lemma_values_bytes_len(s.last().values);
    }
}

pub proof fn lemma_dim_seq_len(s: Seq<DimensionModel>)
    ensures
        enc_dim_seq(s).len() == crate::io::layout::dims_sum(s),
    decreases s.len(),
{
    if s.len() > 0 {
        lemma_dim_seq_len(s.drop_last());
    }
}

pub proof fn lemma_var_seq_len(s: Seq<VariableModel>, l: Seq<VariableLayout>, version: Version)
    requires
        l.len() >= s.len(),
        forall|i: int| 0 <= i < s.len() ==> (#[trigger] l[i]).dim_ids@.len() == s[i].dims.len(),
    ensures
        enc_var_seq(s, l, version).len() == crate::io::layout::vars_sum(s, version),
    decreases s.len(),
{
    if s.len() > 0 {
        let i = s.len() - 1;
        assert(l[i].dim_ids@.len() == s[i].dims.len());
        lemma_bytes_u32_len(l[i].dim_ids@.map_values(|id: usize| id as u32));
        lemma_attr_seq_len(s.last().attrs);
        lemma_var_seq_len(s.drop_last(), l, version);
    }
}

/// The header before its final padding takes exactly the required size.
pub proof fn lemma_header_len(m: DataSetModel, version: Version, numrecs: u32, l: DataSetLayout)
    requires
        l.vars@.len() == m.vars.len(),
        forall|i: int| 0 <= i < m.vars.len() ==> (#[trigger] l.vars@[i]).dim_ids@.len() == m.vars[i].dims.len(),
    ensures
        enc_header(m, version, numrecs, l).len() == header_required_size(m, version),
{
    lemma_dim_seq_len(m.dims);
    lemma_attr_seq_len(m.attrs);
    lemma_var_seq_len(m.vars, l.vars@, version);
}

/// Appends a name: its byte length, its UTF-8 bytes, zero padding.
pub fn write_name_string(out: &mut Vec<u8>, name: &str)
    ensures
        final(out)@ == old(out)@ + enc_name(name@),
{
    let bytes: &[u8] = name.as_bytes();
    push_u32(out, bytes.len() as u32);
    push_u8s(out, bytes);
    proof { lemma_bytes_u8_id(bytes@); }
    push_zeros(out, crate::io::compute_num_bytes_zero_padding(bytes.len()));
    assert(out@ =~= old(out)@ + enc_name(name@));
}

/// Bytes of `u8` values are the values.
pub proof fn lemma_bytes_u8_id(s: Seq<u8>)
    ensures
        bytes_u8(s) == s,
    decreases s.len(),
{
    if s.len() > 0 {
        lemma_bytes_u8_id(s.drop_last());
        assert(s.drop_last() + seq![s.last()] =~= s);
    }
}

/// Appends a value block with zero padding.
pub fn write_values(out: &mut Vec<u8>, v: &DataVector)
    ensures
        final(out)@ == old(out)@ + enc_values(v@),
{
    let ghost start = out@;
    let start_len: usize = out.len();
    match v {
        DataVector::I8(s) => push_i8s(out, s.as_slice()),
        DataVector::U8(s) => push_u8s(out, s.as_slice()),
        DataVector::I16(s) => push_i16s(out, s.as_slice()),
        DataVector::I32(s) => push_i32s(out, s.as_slice()),
        DataVector::F32(s) => push_u32s(out, s.as_slice()),
        DataVector::F64(s) => push_u64s(out, s.as_slice()),
    }
    proof { lemma_values_bytes_len(v@); }
    let n: usize = out.len() - start_len;
    push_zeros(out, crate::io::compute_num_bytes_zero_padding(n));
    assert(out@ =~= start + enc_values(v@));
}

/// Appends dimension ids as big-endian `u32`s.
pub fn push_ids(out: &mut Vec<u8>, ids: &Vec<usize>)
    ensures
        final(out)@ == old(out)@ + bytes_u32(ids@.map_values(|id: usize| id as u32)),
{
    let ghost m = ids@.map_values(|id: usize| id as u32);
    let mut i: usize = 0;
    while i < ids.len()
        invariant
            0 <= i <= ids@.len(),
            m == ids@.map_values(|id: usize| id as u32),
            out@ == old(out)@ + bytes_u32(m.take(i as int)),
        decreases ids@.len() - i,
    {
        assert(m.take(i + 1).drop_last() =~= m.take(i as int));
        push_u32(out, ids[i] as u32);
        assert(out@ =~= old(out)@ + bytes_u32(m.take(i + 1)));
        i = i + 1;
    }
    assert(m.take(ids@.len() as int) =~= m);
}

/// Appends an attribute list.
pub fn write_attrs_list(out: &mut Vec<u8>, attrs: &Vec<Attribute>)
    ensures
        final(out)@ == old(out)@ + enc_attrs(attrs_view(attrs@)),
{
    let ghost s = attrs_view(attrs@);
    if attrs.len() == 0 {
        push_zeros(out, 8);
        return;
    }
    push_u32(out, 0x0C);
    push_u32(out, attrs.len() as u32);
    let ghost head = out@;
    let mut i: usize = 0;
    while i < attrs.len()
        invariant
            0 <= i <= attrs@.len(),
            s == attrs_view(attrs@),
            out@ == head + enc_attr_seq(s.take(i as int)),
        decreases attrs@.len() - i,
    {
        assert(s.take(i + 1).drop_last() =~= s.take(i as int));
        let a: &Attribute = &attrs[i];
        write_name_string(out, a.name());
        push_u32(out, a.data_type().tag());
        push_u32(out, a.len() as u32);
        write_values(out, a.values());
        assert(out@ =~= head + enc_attr_seq(s.take(i + 1)));
        i = i + 1;
    }
    assert(s.take(attrs@.len() as int) =~= s);
    assert((0x0Cu32 >> 24u32) as u8 == 0 && (0x0Cu32 >> 16u32) as u8 == 0 && (0x0Cu32 >> 8u32) as u8 == 0
        && 0x0Cu32 as u8 == 0x0C) by (bit_vector);
    assert(enc_u32(0x0C) =~= attr_tag());
    assert(out@ =~= old(out)@ + enc_attrs(s));
}

/// Appends a dimension list.
pub fn write_dims_list(out: &mut Vec<u8>, dims: &Vec<Dimension>)
    ensures
        final(out)@ == old(out)@ + enc_dims(dims_view(dims@)),
{
    let ghost s = dims_view(dims@);
    if dims.len() == 0 {
        push_zeros(out, 8);
        return;
    }
    push_u32(out, 0x0A);
    push_u32(out, dims.len() as u32);
    let ghost head = out@;
    let mut i: usize = 0;
    while i < dims.len()
        invariant
            0 <= i <= dims@.len(),
            s == dims_view(dims@),
            out@ == head + enc_dim_seq(s.take(i as int)),
        decreases dims@.len() - i,
    {
        assert(s.take(i + 1).drop_last() =~= s.take(i as int));
        let d: &Dimension = &dims[i];
        write_name_string(out, d.name_str());
        let size: u32 = if d.is_unlimited() { 0 } else { d.size() as u32 };
        push_u32(out, size);
        assert(out@ =~= head + enc_dim_seq(s.take(i + 1)));
        i = i + 1;
    }
    assert(s.take(dims@.len() as int) =~= s);
    assert((0x0Au32 >> 24u32) as u8 == 0 && (0x0Au32 >> 16u32) as u8 == 0 && (0x0Au32 >> 8u32) as u8 == 0
        && 0x0Au32 as u8 == 0x0A) by (bit_vector);
    assert(enc_u32(0x0A) =~= dim_tag());
    assert(out@ =~= old(out)@ + enc_dims(s));
}

/// Appends one variable with its planned place.
pub fn write_var(out: &mut Vec<u8>, v: &Variable, l: &VariableLayout, version: Version)
    ensures
        final(out)@ == old(out)@ + enc_var(v@, *l, version),
{
    write_name_string(out, v.name());
    push_u32(out, v.num_dims() as u32);
    push_ids(out, &l.dim_ids);
    write_attrs_list(out, v.get_attrs());
    push_u32(out, v.data_type().tag());
    let size: u32 = if l.chunk_size <= (u32::MAX as u64) {
        l.chunk_size as u32
    } else {
        u32::MAX
    };
    push_u32(out, size);
    match version {
        Version::Classic => push_u32(out, l.begin_offset as u32),
        Version::Offset64Bit => push_u64(out, l.begin_offset),
    }
    assert(out@ =~= old(out)@ + enc_var(v@, *l, version));
}

/// Appends a variable list, each variable with its planned place.
pub fn write_vars_list(out: &mut Vec<u8>, vars: &Vec<Variable>, layouts: &Vec<VariableLayout>, version: Version)
    requires
        layouts@.len() == vars@.len(),
    ensures
        final(out)@ == old(out)@ + enc_vars(crate::data_set::vars_view(vars@), layouts@, version),
{
    let ghost s = crate::data_set::vars_view(vars@);
    if vars.len() == 0 {
        push_zeros(out, 8);
        return;
    }
    push_u32(out, 0x0B);
    push_u32(out, vars.len() as u32);
    let ghost head = out@;
    let mut i: usize = 0;
    while i < vars.len()
        invariant
            0 <= i <= vars@.len(),
            layouts@.len() == vars@.len(),
            s == crate::data_set::vars_view(vars@),
            out@ == head + enc_var_seq(s.take(i as int), layouts@, version),
        decreases vars@.len() - i,
    {
        assert(s.take(i + 1).drop_last() =~= s.take(i as int));
        write_var(out, &vars[i], &layouts[i], version);
        assert(out@ =~= head + enc_var_seq(s.take(i + 1), layouts@, version));
        i = i + 1;
    }
    assert(s.take(vars@.len() as int) =~= s);
    assert((0x0Bu32 >> 24u32) as u8 == 0 && (0x0Bu32 >> 16u32) as u8 == 0 && (0x0Bu32 >> 8u32) as u8 == 0
        && 0x0Bu32 as u8 == 0x0B) by (bit_vector);
    assert(enc_u32(0x0B) =~= var_tag());
    assert(out@ =~= old(out)@ + enc_vars(s, layouts@, version));
}

/// The header of `data_set` laid out as `layout`, padded with zeros to the planned size.
pub fn write_header(data_set: &DataSet, version: Version, layout: &DataSetLayout) -> (r: Vec<u8>)
    requires
        layout.vars@.len() == data_set@.vars.len(),
        forall|i: int| 0 <= i < data_set@.vars.len() ==> (#[trigger] layout.vars@[i]).dim_ids@.len() == data_set@.vars[i].dims.len(),
        layout.header_required_size == header_required_size(data_set@, version),
        layout.header_size >= layout.header_required_size,
        layout.header_size <= usize::MAX,
    ensures
        r@ == enc_header(data_set@, version, data_set@.num_records() as u32, *layout)
            + zeros((layout.header_size - layout.header_required_size) as nat),
        r@.len() == layout.header_size,
{
    let ghost m = data_set@;
    let mut out: Vec<u8> = Vec::new();
    out.push(0x43u8);
    out.push(0x44u8);
    out.push(0x46u8);
    out.push(version.version_number());
    let ghost p0 = out@;
    assert(p0 =~= seq![0x43u8, 0x44u8, 0x46u8, crate::io::version_byte(version)]);
    let numrecs: u32 = data_set.num_records() as u32;
    push_u32(&mut out, numrecs);
    let ghost p1 = out@;
    write_dims_list(&mut out, &data_set.get_dims());
    let ghost p2 = out@;
    assert(p2 == p1 + enc_dims(m.dims));
    write_attrs_list(&mut out, data_set.get_global_attrs());
    let ghost p3 = out@;
    assert(p3 == p2 + enc_attrs(m.attrs));
    write_vars_list(&mut out, data_set.get_vars(), &layout.vars, version);
    assert(out@ == p3 + enc_vars(m.vars, layout.vars@, version));
    assert(out@ == enc_header(m, version, numrecs, *layout));
    proof { lemma_header_len(m, version, numrecs, *layout); }
    let pad: usize = (layout.header_size - layout.header_required_size) as usize;
    push_zeros(&mut out, pad);
    out
}

} // verus!
