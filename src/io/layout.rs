use vstd::prelude::*;
use crate::data_set::DataSet;
use crate::data_set::DataSetModel;
use crate::data_set::attribute::{Attribute, AttributeModel};
use crate::data_set::dimension::{Dimension, DimensionModel};
use crate::data_set::variable::{Variable, VariableModel, padding, lemma_chunk_size};
use crate::data_type::size_of_spec;
use crate::data_vector::{DataVector, Values};
use crate::io::{Version, offset_width};

verus! {

/// Bytes of a name in the header: its length, its UTF-8 bytes, and padding.
pub open spec fn name_size(n: Seq<char>) -> nat {
    let b = vstd::utf8::encode_utf8(n).len();
    4 + b + padding(b)
}

/// Bytes of a value block: the big-endian elements and padding.
pub open spec fn values_size(v: Values) -> nat {
    let b = v.len() * size_of_spec(v.data_type());
    b + padding(b)
}

/// Bytes of one attribute: name, type tag, count and values.
pub open spec fn attr_size(a: AttributeModel) -> nat {
    name_size(a.name) + 8 + values_size(a.values)
}

pub open spec fn attrs_sum(s: Seq<AttributeModel>) -> nat
    decreases s.len(),
{
    if s.len() == 0 {
        0
    } else {
        attrs_sum(s.drop_last()) + attr_size(s.last())
    }
}

/// Bytes of one dimension: name and size.
pub open spec fn dim_size(d: DimensionModel) -> nat {
    name_size(d.name) + 4
}

pub open spec fn dims_sum(s: Seq<DimensionModel>) -> nat
    decreases s.len(),
{
    if s.len() == 0 {
        0
    } else {
        dims_sum(s.drop_last()) + dim_size(s.last())
    }
}

/// Bytes of one variable: name, dimension ids, attribute list, type, size and offset.
pub open spec fn var_size(v: VariableModel, version: Version) -> nat {
    name_size(v.name) + 4 + 4 * v.dims.len() + (8 + attrs_sum(v.attrs)) + 8 + offset_width(version)
}

pub open spec fn vars_sum(s: Seq<VariableModel>, version: Version) -> nat
    decreases s.len(),
{
    if s.len() == 0 {
        0
    } else {
        vars_sum(s.drop_last(), version) + var_size(s.last(), version)
    }
}

/// Exact size of the header of `m`. An empty list takes eight bytes, as does a list's tag
/// and count.
pub open spec fn header_required_size(m: DataSetModel, version: Version) -> nat {
    8 + (8 + dims_sum(m.dims)) + (8 + attrs_sum(m.attrs)) + (8 + vars_sum(m.vars, version))
}

/// Size of the header actually written: the larger of the required and the asked size,
/// rounded up to a multiple of four.
pub open spec fn header_size(m: DataSetModel, version: Version, min_size: nat) -> nat {
    let x = if min_size > header_required_size(m, version) {
        min_size
    } else {
        header_required_size(m, version)
    };
    x + padding(x)
}

/// Sum of the chunk sizes of the fixed-size variables.
pub open spec fn fixed_sum(vars: Seq<VariableModel>) -> nat
    decreases vars.len(),
{
    if vars.len() == 0 {
        0
    } else {
        fixed_sum(vars.drop_last()) + if vars.last().is_record() {
            0
        } else {
            vars.last().chunk_size()
        }
    }
}

/// Sum of the chunk sizes of the record variables: the size of one record.
pub open spec fn record_sum(vars: Seq<VariableModel>) -> nat
    decreases vars.len(),
{
    if vars.len() == 0 {
        0
    } else {
        record_sum(vars.drop_last()) + if vars.last().is_record() {
            vars.last().chunk_size()
        } else {
            0
        }
    }
}

/// Offset of the first chunk of the `i`-th variable: fixed-size variables come first, in
/// header order, then record variables, in header order.
pub open spec fn begin_offset(vars: Seq<VariableModel>, hs: nat, i: int) -> nat {
    if vars[i].is_record() {
        hs + fixed_sum(vars) + record_sum(vars.take(i))
    } else {
        hs + fixed_sum(vars.take(i))
    }
}

/// End of the first record (or of the fixed-size data, where there is no record variable).
pub open spec fn data_end(vars: Seq<VariableModel>, hs: nat) -> nat {
    hs + fixed_sum(vars) + record_sum(vars)
}

/// Largest offset that this library plans with: it fits in an `i64` and in a `usize`.
pub open spec fn offset_limit() -> nat {
    if usize::MAX < i64::MAX {
        usize::MAX as nat
    } else {
        i64::MAX as nat
    }
}

/// `x`, or one past the limit where `x` is beyond it.
pub open spec fn cap(x: nat) -> u64 {
    if x > offset_limit() {
        (offset_limit() + 1) as u64
    } else {
        x as u64
    }
}

/// Planned place of one variable.
#[derive(Debug, Clone, PartialEq, Eq)]
pub struct VariableLayout {
    pub dim_ids: Vec<usize>,
    pub chunk_size: u64,
    pub begin_offset: u64,
}

/// Planned layout of a whole file: header sizes, record size, and each variable's place, in
/// header order.
#[derive(Debug, Clone, PartialEq, Eq)]
pub struct DataSetLayout {
    pub header_required_size: u64,
    pub header_size: u64,
    pub fixed_size: u64,
    pub record_size: u64,
    pub vars: Vec<VariableLayout>,
}

impl DataSetLayout {
    /// This layout is the plan for `m`.
    pub open spec fn plans(&self, m: DataSetModel, version: Version, min_size: nat) -> bool {
        let hs = header_size(m, version, min_size);
        &&& self.header_required_size == header_required_size(m, version)
        &&& self.header_size == hs
        &&& self.fixed_size == fixed_sum(m.vars)
        &&& self.record_size == record_sum(m.vars)
        &&& self.vars@.len() == m.vars.len()
        &&& forall|i: int| 0 <= i < m.vars.len() ==> {
            let l = #[trigger] self.vars@[i];
            &&& l.chunk_size == m.vars[i].chunk_size()
            &&& l.begin_offset == begin_offset(m.vars, hs, i)
            &&& l.dim_ids@.len() == m.vars[i].dims.len()
            &&& forall|k: int| 0 <= k < l.dim_ids@.len() ==> (#[trigger] l.dim_ids@[k]) < m.dims.len()
                && m.dims[l.dim_ids@[k] as int] == m.vars[i].dims[k]
        }
    }
}

/// Why planning failed.
#[derive(Debug, Clone, Copy, PartialEq, Eq, Structural)]
pub enum LayoutError {
    /// An offset does not fit in a signed 32-bit integer.
    ClassicVersionNotPossible,
    /// An offset does not fit in a signed 64-bit integer or in a `usize`.
    DataSetTooLarge,
}

fn limit() -> (r: u64)
    ensures
        r == offset_limit(),
{
    if (usize::MAX as u64) < (i64::MAX as u64) {
        usize::MAX as u64
    } else {
        i64::MAX as u64
    }
}

fn cap_of(x: u128) -> (r: u64)
    ensures
        r == cap(x as nat),
{
    let l = limit();
    if x > l as u128 {
        l + 1
    } else {
        x as u64
    }
}

fn cap_add(a: u64, b: u64) -> (r: u64)
    requires
        a <= offset_limit() + 1,
        b <= offset_limit() + 1,
    ensures
        r == cap((a + b) as nat),
{
    cap_of(a as u128 + b as u128)
}

/// Capping each term of a sum caps the sum.
proof fn lemma_cap_add(x: nat, y: nat)
    ensures
        cap(cap(x) as nat + cap(y) as nat) == cap(x + y),
{
}

fn pad_u64(n: u64) -> (r: u64)
    ensures
        r == padding(n as nat),
{
    let rem: u64 = n % 4;
    if rem == 0 {
        0
    } else {
        4 - rem
    }
}

fn name_size_exec(name: &str) -> (r: u64)
    ensures
        r == cap(name_size(name@)),
{
    let b: u64 = name.as_bytes().len() as u64;
    let p: u64 = pad_u64(b);
    cap_of(4u128 + b as u128 + p as u128)
}

fn values_size_exec(v: &DataVector) -> (r: u64)
    ensures
        r == cap(values_size(v@)),
{
    let l: u128 = v.len() as u128;
    let w: u128 = v.data_type().size_of() as u128;
    assert(l * w <= 0x8_0000_0000_0000_0000) by (nonlinear_arith)
        requires
            l <= 0x1_0000_0000_0000_0000u128,
            w <= 8,
    ;
    let b: u128 = l * w;
    let p: u128 = if b % 4 == 0 {
        0
    } else {
        4 - b % 4
    };
    cap_of(b + p)
}

fn attrs_sum_exec(attrs: &Vec<Attribute>) -> (r: u64)
    ensures
        r == cap(attrs_sum(crate::data_set::attribute::attrs_view(attrs@))),
{
    let ghost s = crate::data_set::attribute::attrs_view(attrs@);
    let mut acc: u64 = 0;
    let mut i: usize = 0;
    while i < attrs.len()
        invariant
            0 <= i <= attrs@.len(),
            s == crate::data_set::attribute::attrs_view(attrs@),
            acc == cap(attrs_sum(s.take(i as int))),
        decreases attrs@.len() - i,
    {
        assert(s.take(i + 1).drop_last() =~= s.take(i as int));
        let a: &Attribute = &attrs[i];
        let x: u64 = cap_add(name_size_exec(a.name()), cap_of(8u128 + values_size_exec(a.values()) as u128));
        acc = cap_add(acc, x);
        i = i + 1;
    }
    assert(s.take(attrs@.len() as int) =~= s);
    acc
}

fn dims_sum_exec(dims: &Vec<Dimension>) -> (r: u64)
    ensures
        r == cap(dims_sum(crate::data_set::variable::dims_view(dims@))),
{
    let ghost s = crate::data_set::variable::dims_view(dims@);
    let mut acc: u64 = 0;
    let mut i: usize = 0;
    while i < dims.len()
        invariant
            0 <= i <= dims@.len(),
            s == crate::data_set::variable::dims_view(dims@),
            acc == cap(dims_sum(s.take(i as int))),
        decreases dims@.len() - i,
    {
        assert(s.take(i + 1).drop_last() =~= s.take(i as int));
        let x: u64 = cap_of(name_size_exec(dims[i].name_str()) as u128 + 4);
        acc = cap_add(acc, x);
        i = i + 1;
    }
    assert(s.take(dims@.len() as int) =~= s);
    acc
}

fn vars_sum_exec(vars: &Vec<Variable>, version: Version) -> (r: u64)
    ensures
        r == cap(vars_sum(crate::data_set::vars_view(vars@), version)),
{
    let ghost s = crate::data_set::vars_view(vars@);
    let w: u64 = match version {
        Version::Classic => 4,
        Version::Offset64Bit => 8,
    };
    let mut acc: u64 = 0;
    let mut i: usize = 0;
    while i < vars.len()
        invariant
            0 <= i <= vars@.len(),
            s == crate::data_set::vars_view(vars@),
            w == offset_width(version),
            acc == cap(vars_sum(s.take(i as int), version)),
        decreases vars@.len() - i,
    {
        assert(s.take(i + 1).drop_last() =~= s.take(i as int));
        let v: &Variable = &vars[i];
        let a: u64 = cap_of(8u128 + attrs_sum_exec(v.get_attrs()) as u128);
        let fixed: u128 = 4u128 + 4u128 * (v.num_dims() as u128) + 8u128 + w as u128;
        let x: u64 = cap_add(cap_add(name_size_exec(v.name()), a), cap_of(fixed));
        acc = cap_add(acc, x);
        i = i + 1;
    }
    assert(s.take(vars@.len() as int) =~= s);
    acc
}

/// Exact size of the header of `data_set` (capped one past the offset limit).
pub fn compute_header_required_size(data_set: &DataSet, version: Version) -> (r: u64)
    ensures
        r == cap(header_required_size(data_set@, version)),
{
    let d: u64 = cap_of(8u128 + dims_sum_exec(&data_set.get_dims()) as u128);
    let a: u64 = cap_of(8u128 + attrs_sum_exec(data_set.get_global_attrs()) as u128);
    let v: u64 = cap_of(8u128 + vars_sum_exec(data_set.get_vars(), version) as u128);
    cap_add(cap_add(cap_of(8u128 + d as u128), a), v)
}


/// Sums over a prefix are at most the sums over the whole list.
pub proof fn lemma_sums_prefix(vars: Seq<VariableModel>, i: int)
    requires
        0 <= i <= vars.len(),
    ensures
        fixed_sum(vars.take(i)) <= fixed_sum(vars),
        record_sum(vars.take(i)) <= record_sum(vars),
    decreases vars.len() - i,
{
    if i < vars.len() {
        lemma_sums_prefix(vars, i + 1);
        assert(vars.take(i + 1).drop_last() =~= vars.take(i));
    } else {
        assert(vars.take(i) =~= vars);
    }
}

/// Sums over a longer prefix add the chunk sizes in between.
pub proof fn lemma_sums_step(vars: Seq<VariableModel>, i: int)
    requires
        0 <= i < vars.len(),
    ensures
        fixed_sum(vars.take(i + 1)) == fixed_sum(vars.take(i)) + if vars[i].is_record() {
            0
        } else {
            vars[i].chunk_size()
        },
        record_sum(vars.take(i + 1)) == record_sum(vars.take(i)) + if vars[i].is_record() {
            vars[i].chunk_size()
        } else {
            0
        },
{
    assert(vars.take(i + 1).drop_last() =~= vars.take(i));
}

/// Chunks never overlap: the fixed-size variables' data are disjoint, the first-record
/// chunks of the record variables are disjoint, and the fixed-size data end where the record
/// section begins.
pub proof fn lemma_layout_disjoint(vars: Seq<VariableModel>, hs: nat, a: int, b: int)
    requires
        0 <= a < b < vars.len(),
    ensures
        !vars[a].is_record() && !vars[b].is_record() ==> begin_offset(vars, hs, a) + vars[a].chunk_size()
            <= begin_offset(vars, hs, b),
        vars[a].is_record() && vars[b].is_record() ==> begin_offset(vars, hs, a) + vars[a].chunk_size()
            <= begin_offset(vars, hs, b),
        !vars[a].is_record() ==> begin_offset(vars, hs, a) + vars[a].chunk_size() <= hs + fixed_sum(vars),
        !vars[b].is_record() ==> begin_offset(vars, hs, b) + vars[b].chunk_size() <= hs + fixed_sum(vars),
        vars[a].is_record() ==> hs + fixed_sum(vars) <= begin_offset(vars, hs, a),
        vars[b].is_record() ==> hs + fixed_sum(vars) <= begin_offset(vars, hs, b),
{
    lemma_sums_step(vars, a);
    lemma_sums_step(vars, b);
    lemma_sums_prefix(vars, a + 1);
    lemma_sums_prefix(vars, b + 1);
    let sub = vars.take(b);
    lemma_sums_prefix(sub, a + 1);
    assert(sub.take(a + 1) =~= vars.take(a + 1));
}

/// Plans the layout of a file holding `data_set`: the header's size, each variable's chunk
/// size and begin offset, and the record size.
pub fn compute_layout(data_set: &DataSet, version: Version, header_min_size: usize) -> (r: Result<DataSetLayout, LayoutError>)
    ensures
        ({
            let m = data_set@;
            let hs = header_size(m, version, header_min_size as nat);
            if data_end(m.vars, hs) > offset_limit() {
                r == Err::<DataSetLayout, LayoutError>(LayoutError::DataSetTooLarge)
            } else if version == Version::Classic && exists|i: int| 0 <= i < m.vars.len() && begin_offset(m.vars, hs, i) > i32::MAX {
                r == Err::<DataSetLayout, LayoutError>(LayoutError::ClassicVersionNotPossible)
            } else {
                r is Ok && r->Ok_0.plans(m, version, header_min_size as nat)
            }
        }),
{
    let ghost m = data_set@;
    let ghost vs = m.vars;
    let ghost hsz = header_size(m, version, header_min_size as nat);
    let lim: u64 = limit();
    let req: u64 = compute_header_required_size(data_set, version);
    let min: u64 = cap_of(header_min_size as u128);
    let x: u64 = if min > req { min } else { req };
    let hs: u64 = cap_of(x as u128 + pad_u64(x) as u128);
    assert(hs == cap(hsz));
    let vars: &Vec<Variable> = data_set.get_vars();
    assert(crate::data_set::vars_view(vars@) == vs);
    let mut fixed: u64 = 0;
    let mut record: u64 = 0;
    let mut i: usize = 0;
    while i < vars.len()
        invariant
            0 <= i <= vars@.len(),
            crate::data_set::vars_view(vars@) == vs,
            lim == offset_limit(),
            fixed == cap(fixed_sum(vs.take(i as int))),
            record == cap(record_sum(vs.take(i as int))),
        decreases vars@.len() - i,
    {
        proof { lemma_sums_step(vs, i as int); }
        let cs: u64 = match vars[i].chunk_size_checked() {
            Some(c) => cap_of(c as u128),
            None => lim + 1,
        };
        assert(vs[i as int] == vars@[i as int]@);
        if vars[i].is_record_var() {
            proof { lemma_cap_add(record_sum(vs.take(i as int)), vs[i as int].chunk_size()); }
            record = cap_add(record, cs);
        } else {
            proof { lemma_cap_add(fixed_sum(vs.take(i as int)), vs[i as int].chunk_size()); }
            fixed = cap_add(fixed, cs);
        }
        i = i + 1;
    }
    assert(vs.take(vars@.len() as int) =~= vs);
    proof {
        lemma_cap_add(hsz, fixed_sum(vs));
        lemma_cap_add(hsz + fixed_sum(vs), record_sum(vs));
    }
    let end: u64 = cap_add(cap_add(hs, fixed), record);
    if end > lim {
        return Err(LayoutError::DataSetTooLarge);
    }
    let mut layouts: Vec<VariableLayout> = Vec::new();
    let mut fixed_before: u64 = 0;
    let mut record_before: u64 = 0;
    let mut j: usize = 0;
    while j < vars.len()
        invariant
            0 <= j <= vars@.len(),
            crate::data_set::vars_view(vars@) == vs,
            m == data_set@,
            vs == m.vars,
            hsz == header_size(m, version, header_min_size as nat),
            hs == hsz,
            fixed == fixed_sum(vs),
            record == record_sum(vs),
            hsz + fixed_sum(vs) + record_sum(vs) <= offset_limit(),
            fixed_before == fixed_sum(vs.take(j as int)),
            record_before == record_sum(vs.take(j as int)),
            layouts@.len() == j,
            forall|k: int| 0 <= k < j ==> begin_offset(vs, hsz, k) <= i32::MAX || version != Version::Classic,
            forall|k: int| 0 <= k < j ==> {
                let l = #[trigger] layouts@[k];
                &&& l.chunk_size == m.vars[k].chunk_size()
                &&& l.begin_offset == begin_offset(m.vars, hsz, k)
                &&& l.dim_ids@.len() == m.vars[k].dims.len()
                &&& forall|q: int| 0 <= q < l.dim_ids@.len() ==> (#[trigger] l.dim_ids@[q]) < m.dims.len()
                    && m.dims[l.dim_ids@[q] as int] == m.vars[k].dims[q]
            },
        decreases vars@.len() - j,
    {
        proof {
            lemma_sums_step(vs, j as int);
            lemma_sums_prefix(vs, j as int + 1);
        }
        assert(vs[j as int] == vars@[j as int]@);
        let cs: u64 = vars[j].chunk_size_checked().unwrap() as u64;
        let is_record: bool = vars[j].is_record_var();
        let begin: u64 = if is_record {
            hs + fixed + record_before
        } else {
            hs + fixed_before
        };
        assert(begin == begin_offset(vs, hsz, j as int));
        if version == Version::Classic && begin > (i32::MAX as u64) {
            return Err(LayoutError::ClassicVersionNotPossible);
        }
        let dim_ids: Vec<usize> = data_set.var_dim_ids(j);
        layouts.push(VariableLayout { dim_ids, chunk_size: cs, begin_offset: begin });
        if is_record {
            record_before = record_before + cs;
        } else {
            fixed_before = fixed_before + cs;
        }
        j = j + 1;
    }
    Ok(DataSetLayout { header_required_size: req, header_size: hs, fixed_size: fixed, record_size: record, vars: layouts })
}

} // verus!
