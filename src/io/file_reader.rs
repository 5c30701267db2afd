use vstd::prelude::*;
use crate::data_set::{DataSet, DataSetModel};
use crate::data_set::attribute::AttributeModel;
use crate::data_set::dimension::{Dimension, DimensionModel};
use crate::data_set::variable::{Variable, VariableModel, dims_view, saturate, dims_rules_hold};
use crate::name_string::is_valid_name_spec;
use crate::data_type::{DataType, size_of_spec};
use crate::data_vector::{DataVector, Values};
use crate::error::{InvalidDataSet, ReadError};
use crate::io::Version;
use crate::io::data::slice_values;
use crate::io::header::{values_bytes, bytes_i8, bytes_u8, bytes_i16, bytes_i32, bytes_u32, bytes_u64};
use crate::io::parser::{
    ParsedHeader, ParsedVariable, attrs_of, dims_of, header_form, parse_header_bytes, read_i8s, read_u8s,
    read_i16s, read_i32s, read_u32s, read_u64s,
};

verus! {

/// Position of the `k`-th chunk when chunks start at `begin` with stride `rs`.
pub open spec fn stride_pos(begin: int, rs: int, k: int) -> int {
    begin + k * rs
}

/// A variable as a parsed header declares it, over the dataset's dimensions `dims`.
pub open spec fn var_model_of(v: ParsedVariable, dims: Seq<DimensionModel>) -> VariableModel {
    VariableModel {
        name: v.name@,
        dims: v.dim_ids@.map_values(|id: usize| dims[id as int]),
        attrs: attrs_of(v.attrs@),
        data_type: v.data_type,
        data: None,
    }
}

/// The dataset that a parsed header declares, with `numrecs` records.
pub open spec fn model_of(h: ParsedHeader, numrecs: nat) -> DataSetModel {
    let dims = dims_of(h.dims@, numrecs);
    DataSetModel {
        dims,
        attrs: attrs_of(h.attrs@),
        vars: h.vars@.map_values(|v: ParsedVariable| var_model_of(v, dims)),
    }
}

/// The dataset that a parsed header declares obeys the rules of the model, and each
/// dimension id names one of its dimensions.
pub open spec fn build_ok(h: ParsedHeader, numrecs: nat) -> bool {
    &&& model_of(h, numrecs).wf()
    &&& forall|v: int, k: int| 0 <= v < h.vars@.len() && 0 <= k < h.vars@[v].dim_ids@.len()
        ==> #[trigger] h.vars@[v].dim_ids@[k] < h.dims@.len()
}

/// Where every id is in range, no id is out of range.
pub proof fn lemma_ids_all_valid(ids: Seq<usize>, n: nat)
    requires
        forall|k: int| 0 <= k < ids.len() ==> ids[k] < n,
    ensures
        crate::data_set::invalid_ids(ids, n).len() == 0,
    decreases ids.len(),
{
    if ids.len() > 0 {
        assert forall|k: int| 0 <= k < ids.drop_last().len() implies ids.drop_last()[k] < n by {
            assert(ids.drop_last()[k] == ids[k]);
        }
        lemma_ids_all_valid(ids.drop_last(), n);
        assert(ids.last() == ids[ids.len() - 1]);
    }
}

/// Rebuilds the dataset that a parsed header declares, the unlimited dimension holding
/// `numrecs` records; fails exactly where the header breaks a rule of the model.
pub fn build_data_set(h: &ParsedHeader, numrecs: usize) -> (r: Result<DataSet, InvalidDataSet>)
    ensures
        r is Ok <==> build_ok(*h, numrecs as nat),
        r is Ok ==> r->Ok_0@ == model_of(*h, numrecs as nat),
{
    let ghost dm = dims_of(h.dims@, numrecs as nat);
    let ghost am = attrs_of(h.attrs@);
    let ghost vm = h.vars@.map_values(|v: ParsedVariable| var_model_of(v, dm));
    let ghost m = model_of(*h, numrecs as nat);
    assert(m.dims == dm && m.attrs == am && m.vars == vm);
    let mut ds = DataSet::new();
    assert(dm.take(0) =~= Seq::<DimensionModel>::empty());
    assert(attrs_of(h.attrs@).take(0) =~= Seq::<AttributeModel>::empty());
    let mut i: usize = 0;
    while i < h.dims.len()
        invariant
            0 <= i <= h.dims@.len(),
            dm == dims_of(h.dims@, numrecs as nat),
            m == model_of(*h, numrecs as nat),
            m.dims == dm,
            ds@ == (DataSetModel { dims: dm.take(i as int), attrs: Seq::empty(), vars: Seq::empty() }),
        decreases h.dims@.len() - i,
    {
        let name: &str = h.dims[i].0.as_str();
        let size: usize = h.dims[i].1;
        let ghost before = ds@;
        let res = if size == 0 {
            ds.set_unlimited_dim(name, numrecs)
        } else {
            ds.add_fixed_dim(name, size)
        };
        match res {
            Ok(()) => {},
            Err(e) => {
                proof {
                    if build_ok(*h, numrecs as nat) {
                        assert(dm[i as int].name == name@);
                        assert(dm[i as int].unlimited == (size == 0));
                        assert(is_valid_name_spec(dm[i as int].name));
                        assert forall|j: int| 0 <= j < before.dims.len() implies (#[trigger] before.dims[j]).name != name@ by {
                            assert(before.dims[j] == dm[j]);
                            assert(dm[j].name != dm[i as int].name);
                        }
                        if size == 0 {
                            assert forall|j: int| 0 <= j < before.dims.len() implies !(#[trigger] before.dims[j]).unlimited by {
                                assert(before.dims[j] == dm[j]);
                                assert(!(dm[j].unlimited && dm[i as int].unlimited));
                            }
                        }
                    }
                }
                return Err(e);
            },
        }
        assert(ds@.dims =~= dm.take(i + 1));
        i = i + 1;
    }
    assert(dm.take(h.dims@.len() as int) =~= dm);
    let mut j: usize = 0;
    while j < h.attrs.len()
        invariant
            0 <= j <= h.attrs@.len(),
            dm == dims_of(h.dims@, numrecs as nat),
            am == attrs_of(h.attrs@),
            m == model_of(*h, numrecs as nat),
            m.attrs == am,
            ds@ == (DataSetModel { dims: dm, attrs: am.take(j as int), vars: Seq::empty() }),
        decreases h.attrs@.len() - j,
    {
        let ghost before = ds@;
        match ds.add_global_attr(h.attrs[j].0.as_str(), h.attrs[j].1.duplicate()) {
            Ok(()) => {},
            Err(e) => {
                proof {
                    if build_ok(*h, numrecs as nat) {
                        assert(am[j as int].name == h.attrs@[j as int].0@);
                        assert(is_valid_name_spec(am[j as int].name));
                        assert forall|q: int| 0 <= q < before.attrs.len() implies (#[trigger] before.attrs[q]).name != am[j as int].name by {
                            assert(before.attrs[q] == am[q]);
                            assert(am[q].name != am[j as int].name);
                        }
                    }
                }
                return Err(e);
            },
        }
        assert(ds@.attrs =~= am.take(j + 1));
        j = j + 1;
    }
    assert(am.take(h.attrs@.len() as int) =~= am);
    assert(vm.take(0) =~= Seq::<VariableModel>::empty());
    let mut k: usize = 0;
    while k < h.vars.len()
        invariant
            0 <= k <= h.vars@.len(),
            dm == dims_of(h.dims@, numrecs as nat),
            am == attrs_of(h.attrs@),
            vm == h.vars@.map_values(|v: ParsedVariable| var_model_of(v, dm)),
            m == model_of(*h, numrecs as nat),
            m.vars == vm,
            ds@ == (DataSetModel { dims: dm, attrs: am, vars: vm.take(k as int) }),
            dm.len() == h.dims@.len(),
            forall|v: int, x: int| 0 <= v < k && 0 <= x < h.vars@[v].dim_ids@.len()
                ==> #[trigger] h.vars@[v].dim_ids@[x] < h.dims@.len(),
        decreases h.vars@.len() - k,
    {
        let pv: &ParsedVariable = &h.vars[k];
        let dims: Vec<Dimension> = match ds.get_dims_from_ids(pv.dim_ids.as_slice()) {
            Ok(d) => d,
            Err(e) => {
                proof {
                    if build_ok(*h, numrecs as nat) {
                        assert forall|q: int| 0 <= q < pv.dim_ids@.len() implies pv.dim_ids@[q] < ds@.dims.len() by {
                            assert(h.vars@[k as int].dim_ids@[q] < h.dims@.len());
                        }
                        lemma_ids_all_valid(pv.dim_ids@, ds@.dims.len());
                    }
                }
                return Err(e);
            },
        };
        proof { crate::data_set::lemma_no_invalid_ids(pv.dim_ids@, ds@.dims.len()); }
        let ghost dv = dims_view(dims@);
        assert(dv =~= pv.dim_ids@.map_values(|id: usize| dm[id as int]));
        assert(vm[k as int].dims == dv);
        let mut var: Variable = match Variable::new(pv.name.as_str(), dims, pv.data_type) {
            Ok(v) => v,
            Err(e) => {
                proof {
                    if build_ok(*h, numrecs as nat) {
                        assert(vm[k as int].wf());
                    }
                }
                return Err(e);
            },
        };
        assert(attrs_of(pv.attrs@).take(0) =~= var@.attrs);
        let mut q: usize = 0;
        while q < pv.attrs.len()
            invariant
                0 <= q <= pv.attrs@.len(),
                var@.wf(),
                vm[k as int] == var_model_of(*pv, dm),
                m == model_of(*h, numrecs as nat),
                m.vars == vm,
                k < vm.len(),
                var@ == (VariableModel { attrs: attrs_of(pv.attrs@).take(q as int), ..var_model_of(*pv, dm) }),
            decreases pv.attrs@.len() - q,
        {
            let ghost before = var@;
            match var.add_attr_values(pv.attrs[q].0.as_str(), pv.attrs[q].1.duplicate()) {
                Ok(()) => {},
                Err(e) => {
                    proof {
                        if build_ok(*h, numrecs as nat) {
                            let va = vm[k as int].attrs;
                            assert(vm[k as int].wf());
                            assert(va == attrs_of(pv.attrs@));
                            assert(va[q as int].name == pv.attrs@[q as int].0@);
                            assert(is_valid_name_spec(va[q as int].name));
                            assert forall|x: int| 0 <= x < before.attrs.len() implies (#[trigger] before.attrs[x]).name != va[q as int].name by {
                                assert(before.attrs[x] == va[x]);
                                assert(va[x].name != va[q as int].name);
                            }
                        }
                    }
                    return Err(e);
                },
            }
            assert(var@.attrs =~= attrs_of(pv.attrs@).take(q + 1));
            q = q + 1;
        }
        assert(attrs_of(pv.attrs@).take(pv.attrs@.len() as int) =~= attrs_of(pv.attrs@));
        assert(var@ == vm[k as int]);
        proof {
            assert forall|n: int| 0 <= n < var@.dims.len() implies ds@.dims.contains(#[trigger] var@.dims[n]) by {
                assert(ds@.dims[pv.dim_ids@[n] as int] == var@.dims[n]);
            }
        }
        let ghost before = ds@;
        match ds.add_variable(var) {
            Ok(()) => {},
            Err(e) => {
                proof {
                    if build_ok(*h, numrecs as nat) {
                        assert forall|x: int| 0 <= x < before.vars.len() implies (#[trigger] before.vars[x]).name != vm[k as int].name by {
                            assert(before.vars[x] == vm[x]);
                            assert(vm[x].name != vm[k as int].name);
                        }
                    }
                }
                return Err(e);
            },
        }
        assert(ds@.vars =~= vm.take(k + 1));
        k = k + 1;
    }
    assert(vm.take(h.vars@.len() as int) =~= vm);
    let _vars = ds.get_vars();
    assert(ds@ == m);
    Ok(ds)
}

/// Reads `nc` chunks of `cl` big-endian `i8` values, the `k`-th at `begin + k * rs`;
/// `None` when a chunk lies beyond the end of `bytes`.
fn read_chunks_i8(bytes: &[u8], begin: usize, rs: usize, nc: usize, cl: usize) -> (r: Option<Vec<i8>>)
    ensures
        r is Some ==> r->Some_0@.len() == nc * cl && forall|k: int| #![trigger stride_pos(begin as int, rs as int, k)] 0 <= k < nc ==> {
            let pos = stride_pos(begin as int, rs as int, k);
            &&& pos + 1 * cl <= bytes@.len()
            &&& bytes_i8(r->Some_0@.subrange(k * cl, (k + 1) * cl)) == bytes@.subrange(pos, pos + 1 * cl)
        },
        r is None ==> exists|k: int| #![trigger stride_pos(begin as int, rs as int, k)] 0 <= k < nc
            && stride_pos(begin as int, rs as int, k) + 1 * cl > bytes@.len(),
{
    let len: usize = bytes.len();
    let mut r: Vec<i8> = Vec::new();
    let mut k: usize = 0;
    while k < nc
        invariant
            len == bytes@.len(),
            0 <= k <= nc,
            r@.len() == k * cl,
            forall|j: int| #![trigger stride_pos(begin as int, rs as int, j)] 0 <= j < k ==> {
                let pos = stride_pos(begin as int, rs as int, j);
                &&& pos + 1 * cl <= bytes@.len()
                &&& bytes_i8(r@.subrange(j * cl, (j + 1) * cl)) == bytes@.subrange(pos, pos + 1 * cl)
            },
        decreases nc - k,
    {
        assert((k as u128) * (rs as u128) <= 0xFFFF_FFFF_FFFF_FFFE_0000_0000_0000_0001u128) by (nonlinear_arith)
            requires
                k <= 0xFFFF_FFFF_FFFF_FFFFu128,
                rs <= 0xFFFF_FFFF_FFFF_FFFFu128,
        ;
        assert((cl as u128) * 8 <= 0x8_0000_0000_0000_0000u128) by (nonlinear_arith)
            requires
                cl <= 0xFFFF_FFFF_FFFF_FFFFu128,
        ;
        let pos: u128 = begin as u128 + (k as u128) * (rs as u128);
        if pos > len as u128 {
            assert(stride_pos(begin as int, rs as int, k as int) == pos);
            return None;
        }
        if pos + 1u128 * (cl as u128) > len as u128 {
            assert(stride_pos(begin as int, rs as int, k as int) == pos);
            return None;
        }
        let p: usize = pos as usize;
        let chunk: Vec<i8> = read_i8s(bytes, p, cl);
        let ghost before = r@;
        let mut c = chunk;
        r.append(&mut c);
        proof {
            assert(k * cl + cl == (k + 1) * cl) by (nonlinear_arith);
            assert forall|j: int| #![trigger stride_pos(begin as int, rs as int, j)] 0 <= j < k + 1 implies {
                let pos = stride_pos(begin as int, rs as int, j);
                &&& pos + 1 * cl <= bytes@.len()
                &&& bytes_i8(r@.subrange(j * cl, (j + 1) * cl)) == bytes@.subrange(pos, pos + 1 * cl)
            } by {
                if j < k {
                    assert((j + 1) * cl <= k * cl) by (nonlinear_arith)
                        requires
                            j < k,
                    ;
                    assert(j * cl <= (j + 1) * cl) by (nonlinear_arith);
                    assert(r@.subrange(j * cl, (j + 1) * cl) =~= before.subrange(j * cl, (j + 1) * cl));
                } else {
                    assert(r@.subrange(k * cl, (k + 1) * cl) =~= chunk@);
                }
            }
        }
        k = k + 1;
    }
    Some(r)
}

/// Reads `nc` chunks of `cl` big-endian `u8` values, the `k`-th at `begin + k * rs`;
/// `None` when a chunk lies beyond the end of `bytes`.
fn read_chunks_u8(bytes: &[u8], begin: usize, rs: usize, nc: usize, cl: usize) -> (r: Option<Vec<u8>>)
    ensures
        r is Some ==> r->Some_0@.len() == nc * cl && forall|k: int| #![trigger stride_pos(begin as int, rs as int, k)] 0 <= k < nc ==> {
            let pos = stride_pos(begin as int, rs as int, k);
            &&& pos + 1 * cl <= bytes@.len()
            &&& bytes_u8(r->Some_0@.subrange(k * cl, (k + 1) * cl)) == bytes@.subrange(pos, pos + 1 * cl)
        },
        r is None ==> exists|k: int| #![trigger stride_pos(begin as int, rs as int, k)] 0 <= k < nc
            && stride_pos(begin as int, rs as int, k) + 1 * cl > bytes@.len(),
{
    let len: usize = bytes.len();
    let mut r: Vec<u8> = Vec::new();
    let mut k: usize = 0;
    while k < nc
        invariant
            len == bytes@.len(),
            0 <= k <= nc,
            r@.len() == k * cl,
            forall|j: int| #![trigger stride_pos(begin as int, rs as int, j)] 0 <= j < k ==> {
                let pos = stride_pos(begin as int, rs as int, j);
                &&& pos + 1 * cl <= bytes@.len()
                &&& bytes_u8(r@.subrange(j * cl, (j + 1) * cl)) == bytes@.subrange(pos, pos + 1 * cl)
            },
        decreases nc - k,
    {
        assert((k as u128) * (rs as u128) <= 0xFFFF_FFFF_FFFF_FFFE_0000_0000_0000_0001u128) by (nonlinear_arith)
            requires
                k <= 0xFFFF_FFFF_FFFF_FFFFu128,
                rs <= 0xFFFF_FFFF_FFFF_FFFFu128,
        ;
        assert((cl as u128) * 8 <= 0x8_0000_0000_0000_0000u128) by (nonlinear_arith)
            requires
                cl <= 0xFFFF_FFFF_FFFF_FFFFu128,
        ;
        let pos: u128 = begin as u128 + (k as u128) * (rs as u128);
        if pos > len as u128 {
            assert(stride_pos(begin as int, rs as int, k as int) == pos);
            return None;
        }
        if pos + 1u128 * (cl as u128) > len as u128 {
            assert(stride_pos(begin as int, rs as int, k as int) == pos);
            return None;
        }
        let p: usize = pos as usize;
        let chunk: Vec<u8> = read_u8s(bytes, p, cl);
        let ghost before = r@;
        let mut c = chunk;
        r.append(&mut c);
        proof {
            assert(k * cl + cl == (k + 1) * cl) by (nonlinear_arith);
            assert forall|j: int| #![trigger stride_pos(begin as int, rs as int, j)] 0 <= j < k + 1 implies {
                let pos = stride_pos(begin as int, rs as int, j);
                &&& pos + 1 * cl <= bytes@.len()
                &&& bytes_u8(r@.subrange(j * cl, (j + 1) * cl)) == bytes@.subrange(pos, pos + 1 * cl)
            } by {
                if j < k {
                    assert((j + 1) * cl <= k * cl) by (nonlinear_arith)
                        requires
                            j < k,
                    ;
                    assert(j * cl <= (j + 1) * cl) by (nonlinear_arith);
                    assert(r@.subrange(j * cl, (j + 1) * cl) =~= before.subrange(j * cl, (j + 1) * cl));
                } else {
                    assert(r@.subrange(k * cl, (k + 1) * cl) =~= chunk@);
                }
            }
        }
        k = k + 1;
    }
    Some(r)
}

/// Reads `nc` chunks of `cl` big-endian `i16` values, the `k`-th at `begin + k * rs`;
/// `None` when a chunk lies beyond the end of `bytes`.
fn read_chunks_i16(bytes: &[u8], begin: usize, rs: usize, nc: usize, cl: usize) -> (r: Option<Vec<i16>>)
    ensures
        r is Some ==> r->Some_0@.len() == nc * cl && forall|k: int| #![trigger stride_pos(begin as int, rs as int, k)] 0 <= k < nc ==> {
            let pos = stride_pos(begin as int, rs as int, k);
            &&& pos + 2 * cl <= bytes@.len()
            &&& bytes_i16(r->Some_0@.subrange(k * cl, (k + 1) * cl)) == bytes@.subrange(pos, pos + 2 * cl)
        },
        r is None ==> exists|k: int| #![trigger stride_pos(begin as int, rs as int, k)] 0 <= k < nc
            && stride_pos(begin as int, rs as int, k) + 2 * cl > bytes@.len(),
{
    let len: usize = bytes.len();
    let mut r: Vec<i16> = Vec::new();
    let mut k: usize = 0;
    while k < nc
        invariant
            len == bytes@.len(),
            0 <= k <= nc,
            r@.len() == k * cl,
            forall|j: int| #![trigger stride_pos(begin as int, rs as int, j)] 0 <= j < k ==> {
                let pos = stride_pos(begin as int, rs as int, j);
                &&& pos + 2 * cl <= bytes@.len()
                &&& bytes_i16(r@.subrange(j * cl, (j + 1) * cl)) == bytes@.subrange(pos, pos + 2 * cl)
            },
        decreases nc - k,
    {
        assert((k as u128) * (rs as u128) <= 0xFFFF_FFFF_FFFF_FFFE_0000_0000_0000_0001u128) by (nonlinear_arith)
            requires
                k <= 0xFFFF_FFFF_FFFF_FFFFu128,
                rs <= 0xFFFF_FFFF_FFFF_FFFFu128,
        ;
        assert((cl as u128) * 8 <= 0x8_0000_0000_0000_0000u128) by (nonlinear_arith)
            requires
                cl <= 0xFFFF_FFFF_FFFF_FFFFu128,
        ;
        let pos: u128 = begin as u128 + (k as u128) * (rs as u128);
        if pos > len as u128 {
            assert(stride_pos(begin as int, rs as int, k as int) == pos);
            return None;
        }
        if pos + 2u128 * (cl as u128) > len as u128 {
            assert(stride_pos(begin as int, rs as int, k as int) == pos);
            return None;
        }
        let p: usize = pos as usize;
        let chunk: Vec<i16> = read_i16s(bytes, p, cl);
        let ghost before = r@;
        let mut c = chunk;
        r.append(&mut c);
        proof {
            assert(k * cl + cl == (k + 1) * cl) by (nonlinear_arith);
            assert forall|j: int| #![trigger stride_pos(begin as int, rs as int, j)] 0 <= j < k + 1 implies {
                let pos = stride_pos(begin as int, rs as int, j);
                &&& pos + 2 * cl <= bytes@.len()
                &&& bytes_i16(r@.subrange(j * cl, (j + 1) * cl)) == bytes@.subrange(pos, pos + 2 * cl)
            } by {
                if j < k {
                    assert((j + 1) * cl <= k * cl) by (nonlinear_arith)
                        requires
                            j < k,
                    ;
                    assert(j * cl <= (j + 1) * cl) by (nonlinear_arith);
                    assert(r@.subrange(j * cl, (j + 1) * cl) =~= before.subrange(j * cl, (j + 1) * cl));
                } else {
                    assert(r@.subrange(k * cl, (k + 1) * cl) =~= chunk@);
                }
            }
        }
        k = k + 1;
    }
    Some(r)
}

/// Reads `nc` chunks of `cl` big-endian `i32` values, the `k`-th at `begin + k * rs`;
/// `None` when a chunk lies beyond the end of `bytes`.
fn read_chunks_i32(bytes: &[u8], begin: usize, rs: usize, nc: usize, cl: usize) -> (r: Option<Vec<i32>>)
    ensures
        r is Some ==> r->Some_0@.len() == nc * cl && forall|k: int| #![trigger stride_pos(begin as int, rs as int, k)] 0 <= k < nc ==> {
            let pos = stride_pos(begin as int, rs as int, k);
            &&& pos + 4 * cl <= bytes@.len()
            &&& bytes_i32(r->Some_0@.subrange(k * cl, (k + 1) * cl)) == bytes@.subrange(pos, pos + 4 * cl)
        },
        r is None ==> exists|k: int| #![trigger stride_pos(begin as int, rs as int, k)] 0 <= k < nc
            && stride_pos(begin as int, rs as int, k) + 4 * cl > bytes@.len(),
{
    let len: usize = bytes.len();
    let mut r: Vec<i32> = Vec::new();
    let mut k: usize = 0;
    while k < nc
        invariant
            len == bytes@.len(),
            0 <= k <= nc,
            r@.len() == k * cl,
            forall|j: int| #![trigger stride_pos(begin as int, rs as int, j)] 0 <= j < k ==> {
                let pos = stride_pos(begin as int, rs as int, j);
                &&& pos + 4 * cl <= bytes@.len()
                &&& bytes_i32(r@.subrange(j * cl, (j + 1) * cl)) == bytes@.subrange(pos, pos + 4 * cl)
            },
        decreases nc - k,
    {
        assert((k as u128) * (rs as u128) <= 0xFFFF_FFFF_FFFF_FFFE_0000_0000_0000_0001u128) by (nonlinear_arith)
            requires
                k <= 0xFFFF_FFFF_FFFF_FFFFu128,
                rs <= 0xFFFF_FFFF_FFFF_FFFFu128,
        ;
        assert((cl as u128) * 8 <= 0x8_0000_0000_0000_0000u128) by (nonlinear_arith)
            requires
                cl <= 0xFFFF_FFFF_FFFF_FFFFu128,
        ;
        let pos: u128 = begin as u128 + (k as u128) * (rs as u128);
        if pos > len as u128 {
            assert(stride_pos(begin as int, rs as int, k as int) == pos);
            return None;
        }
        if pos + 4u128 * (cl as u128) > len as u128 {
            assert(stride_pos(begin as int, rs as int, k as int) == pos);
            return None;
        }
        let p: usize = pos as usize;
        let chunk: Vec<i32> = read_i32s(bytes, p, cl);
        let ghost before = r@;
        let mut c = chunk;
        r.append(&mut c);
        proof {
            assert(k * cl + cl == (k + 1) * cl) by (nonlinear_arith);
            assert forall|j: int| #![trigger stride_pos(begin as int, rs as int, j)] 0 <= j < k + 1 implies {
                let pos = stride_pos(begin as int, rs as int, j);
                &&& pos + 4 * cl <= bytes@.len()
                &&& bytes_i32(r@.subrange(j * cl, (j + 1) * cl)) == bytes@.subrange(pos, pos + 4 * cl)
            } by {
                if j < k {
                    assert((j + 1) * cl <= k * cl) by (nonlinear_arith)
                        requires
                            j < k,
                    ;
                    assert(j * cl <= (j + 1) * cl) by (nonlinear_arith);
                    assert(r@.subrange(j * cl, (j + 1) * cl) =~= before.subrange(j * cl, (j + 1) * cl));
                } else {
                    assert(r@.subrange(k * cl, (k + 1) * cl) =~= chunk@);
                }
            }
        }
        k = k + 1;
    }
    Some(r)
}

/// Reads `nc` chunks of `cl` big-endian `u32` values, the `k`-th at `begin + k * rs`;
/// `None` when a chunk lies beyond the end of `bytes`.
fn read_chunks_u32(bytes: &[u8], begin: usize, rs: usize, nc: usize, cl: usize) -> (r: Option<Vec<u32>>)
    ensures
        r is Some ==> r->Some_0@.len() == nc * cl && forall|k: int| #![trigger stride_pos(begin as int, rs as int, k)] 0 <= k < nc ==> {
            let pos = stride_pos(begin as int, rs as int, k);
            &&& pos + 4 * cl <= bytes@.len()
            &&& bytes_u32(r->Some_0@.subrange(k * cl, (k + 1) * cl)) == bytes@.subrange(pos, pos + 4 * cl)
        },
        r is None ==> exists|k: int| #![trigger stride_pos(begin as int, rs as int, k)] 0 <= k < nc
            && stride_pos(begin as int, rs as int, k) + 4 * cl > bytes@.len(),
{
    let len: usize = bytes.len();
    let mut r: Vec<u32> = Vec::new();
    let mut k: usize = 0;
    while k < nc
        invariant
            len == bytes@.len(),
            0 <= k <= nc,
            r@.len() == k * cl,
            forall|j: int| #![trigger stride_pos(begin as int, rs as int, j)] 0 <= j < k ==> {
                let pos = stride_pos(begin as int, rs as int, j);
                &&& pos + 4 * cl <= bytes@.len()
                &&& bytes_u32(r@.subrange(j * cl, (j + 1) * cl)) == bytes@.subrange(pos, pos + 4 * cl)
            },
        decreases nc - k,
    {
        assert((k as u128) * (rs as u128) <= 0xFFFF_FFFF_FFFF_FFFE_0000_0000_0000_0001u128) by (nonlinear_arith)
            requires
                k <= 0xFFFF_FFFF_FFFF_FFFFu128,
                rs <= 0xFFFF_FFFF_FFFF_FFFFu128,
        ;
        assert((cl as u128) * 8 <= 0x8_0000_0000_0000_0000u128) by (nonlinear_arith)
            requires
                cl <= 0xFFFF_FFFF_FFFF_FFFFu128,
        ;
        let pos: u128 = begin as u128 + (k as u128) * (rs as u128);
        if pos > len as u128 {
            assert(stride_pos(begin as int, rs as int, k as int) == pos);
            return None;
        }
        if pos + 4u128 * (cl as u128) > len as u128 {
            assert(stride_pos(begin as int, rs as int, k as int) == pos);
            return None;
        }
        let p: usize = pos as usize;
        let chunk: Vec<u32> = read_u32s(bytes, p, cl);
        let ghost before = r@;
        let mut c = chunk;
        r.append(&mut c);
        proof {
            assert(k * cl + cl == (k + 1) * cl) by (nonlinear_arith);
            assert forall|j: int| #![trigger stride_pos(begin as int, rs as int, j)] 0 <= j < k + 1 implies {
                let pos = stride_pos(begin as int, rs as int, j);
                &&& pos + 4 * cl <= bytes@.len()
                &&& bytes_u32(r@.subrange(j * cl, (j + 1) * cl)) == bytes@.subrange(pos, pos + 4 * cl)
            } by {
                if j < k {
                    assert((j + 1) * cl <= k * cl) by (nonlinear_arith)
                        requires
                            j < k,
                    ;
                    assert(j * cl <= (j + 1) * cl) by (nonlinear_arith);
                    assert(r@.subrange(j * cl, (j + 1) * cl) =~= before.subrange(j * cl, (j + 1) * cl));
                } else {
                    assert(r@.subrange(k * cl, (k + 1) * cl) =~= chunk@);
                }
            }
        }
        k = k + 1;
    }
    Some(r)
}

/// Reads `nc` chunks of `cl` big-endian `u64` values, the `k`-th at `begin + k * rs`;
/// `None` when a chunk lies beyond the end of `bytes`.
fn read_chunks_u64(bytes: &[u8], begin: usize, rs: usize, nc: usize, cl: usize) -> (r: Option<Vec<u64>>)
    ensures
        r is Some ==> r->Some_0@.len() == nc * cl && forall|k: int| #![trigger stride_pos(begin as int, rs as int, k)] 0 <= k < nc ==> {
            let pos = stride_pos(begin as int, rs as int, k);
            &&& pos + 8 * cl <= bytes@.len()
            &&& bytes_u64(r->Some_0@.subrange(k * cl, (k + 1) * cl)) == bytes@.subrange(pos, pos + 8 * cl)
        },
        r is None ==> exists|k: int| #![trigger stride_pos(begin as int, rs as int, k)] 0 <= k < nc
            && stride_pos(begin as int, rs as int, k) + 8 * cl > bytes@.len(),
{
    let len: usize = bytes.len();
    let mut r: Vec<u64> = Vec::new();
    let mut k: usize = 0;
    while k < nc
        invariant
            len == bytes@.len(),
            0 <= k <= nc,
            r@.len() == k * cl,
            forall|j: int| #![trigger stride_pos(begin as int, rs as int, j)] 0 <= j < k ==> {
                let pos = stride_pos(begin as int, rs as int, j);
                &&& pos + 8 * cl <= bytes@.len()
                &&& bytes_u64(r@.subrange(j * cl, (j + 1) * cl)) == bytes@.subrange(pos, pos + 8 * cl)
            },
        decreases nc - k,
    {
        assert((k as u128) * (rs as u128) <= 0xFFFF_FFFF_FFFF_FFFE_0000_0000_0000_0001u128) by (nonlinear_arith)
            requires
                k <= 0xFFFF_FFFF_FFFF_FFFFu128,
                rs <= 0xFFFF_FFFF_FFFF_FFFFu128,
        ;
        assert((cl as u128) * 8 <= 0x8_0000_0000_0000_0000u128) by (nonlinear_arith)
            requires
                cl <= 0xFFFF_FFFF_FFFF_FFFFu128,
        ;
        let pos: u128 = begin as u128 + (k as u128) * (rs as u128);
        if pos > len as u128 {
            assert(stride_pos(begin as int, rs as int, k as int) == pos);
            return None;
        }
        if pos + 8u128 * (cl as u128) > len as u128 {
            assert(stride_pos(begin as int, rs as int, k as int) == pos);
            return None;
        }
        let p: usize = pos as usize;
        let chunk: Vec<u64> = read_u64s(bytes, p, cl);
        let ghost before = r@;
        let mut c = chunk;
        r.append(&mut c);
        proof {
            assert(k * cl + cl == (k + 1) * cl) by (nonlinear_arith);
            assert forall|j: int| #![trigger stride_pos(begin as int, rs as int, j)] 0 <= j < k + 1 implies {
                let pos = stride_pos(begin as int, rs as int, j);
                &&& pos + 8 * cl <= bytes@.len()
                &&& bytes_u64(r@.subrange(j * cl, (j + 1) * cl)) == bytes@.subrange(pos, pos + 8 * cl)
            } by {
                if j < k {
                    assert((j + 1) * cl <= k * cl) by (nonlinear_arith)
                        requires
                            j < k,
                    ;
                    assert(j * cl <= (j + 1) * cl) by (nonlinear_arith);
                    assert(r@.subrange(j * cl, (j + 1) * cl) =~= before.subrange(j * cl, (j + 1) * cl));
                } else {
                    assert(r@.subrange(k * cl, (k + 1) * cl) =~= chunk@);
                }
            }
        }
        k = k + 1;
    }
    Some(r)
}

/// Reads a file image: its header on opening, each variable's data on demand.
pub struct FileReader {
    data_set: DataSet,
    version: Version,
    bytes: Vec<u8>,
    begins: Vec<u64>,
}

impl FileReader {
    #[verifier::type_invariant]
    spec fn inv(&self) -> bool {
        self.begins@.len() == self.data_set@.vars.len()
    }

    /// The dataset that the header declares.
    pub closed spec fn model(&self) -> DataSetModel {
        self.data_set@
    }

    /// The bytes of the file.
    pub closed spec fn file(&self) -> Seq<u8> {
        self.bytes@
    }

    /// Begin offset that the header gives the `i`-th variable.
    pub closed spec fn begin_of(&self, i: int) -> nat {
        self.begins@[i] as nat
    }

    /// `v` is what the file holds for the `i`-th variable: each chunk `k` is read at the
    /// variable's begin offset plus `k` record sizes.
    pub open spec fn reads_as(&self, i: int, v: Values) -> bool {
        let var = self.model().vars[i];
        let cl = var.chunk_len();
        let w = size_of_spec(var.data_type);
        &&& v.data_type() == var.data_type
        &&& v.len() == var.num_chunks() * cl
        &&& forall|k: int| #![trigger stride_pos(self.begin_of(i) as int, crate::io::layout::record_sum(self.model().vars) as int, k)]
            0 <= k < var.num_chunks() ==> {
            let pos = stride_pos(self.begin_of(i) as int, crate::io::layout::record_sum(self.model().vars) as int, k);
            &&& pos + w * cl <= self.file().len()
            &&& values_bytes(slice_values(v, k * cl, (k + 1) * cl)) == self.file().subrange(pos, pos + w * cl)
        }
    }

    /// Every chunk of the `i`-th variable lies within the file.
    pub open spec fn chunks_in_file(&self, i: int) -> bool {
        let var = self.model().vars[i];
        let rs = crate::io::layout::record_sum(self.model().vars);
        forall|k: int| #![trigger stride_pos(self.begin_of(i) as int, rs as int, k)] 0 <= k < var.num_chunks()
            ==> stride_pos(self.begin_of(i) as int, rs as int, k) + size_of_spec(var.data_type) * var.chunk_len()
                <= self.file().len()
    }

    /// The version that the header gives.
    pub closed spec fn version_spec(&self) -> Version {
        self.version
    }

    proof fn lemma_out_of_file(&self, i: int, begin: usize, rs: usize)
        requires
            0 <= i < self.model().vars.len(),
            begin == self.begin_of(i),
            self.model().vars[i].num_chunks() <= 1 || rs == crate::io::layout::record_sum(self.model().vars),
            exists|k: int| #![trigger stride_pos(begin as int, rs as int, k)] 0 <= k < self.model().vars[i].num_chunks()
                && stride_pos(begin as int, rs as int, k) + size_of_spec(self.model().vars[i].data_type)
                * self.model().vars[i].chunk_len() > self.file().len(),
        ensures
            !self.chunks_in_file(i),
    {
        let rsn = crate::io::layout::record_sum(self.model().vars);
        let k = choose|k: int| #![trigger stride_pos(begin as int, rs as int, k)] 0 <= k < self.model().vars[i].num_chunks()
            && stride_pos(begin as int, rs as int, k) + size_of_spec(self.model().vars[i].data_type)
            * self.model().vars[i].chunk_len() > self.file().len();
        if self.model().vars[i].num_chunks() <= 1 {
            assert(k == 0);
            assert(k * rs == 0 && k * rsn == 0);
        }
        assert(stride_pos(begin as int, rs as int, k) == stride_pos(self.begin_of(i) as int, rsn as int, k));
    }

    /// Parses the header of a file image and rebuilds its dataset. Where the record count is
    /// left undetermined in the header, it is computed from the size of the image.
    pub fn from_bytes(bytes: Vec<u8>) -> (r: Result<FileReader, ReadError>)
        ensures
            r is Ok ==> r->Ok_0.file() == bytes@ && exists|h: ParsedHeader, n: nat| {
                &&& h.end <= bytes@.len()
                &&& header_form(bytes@.take(h.end as int), h)
                &&& r->Ok_0.model() == model_of(h, n)
                &&& h.num_records != u32::MAX ==> n == h.num_records
                &&& h.num_records == u32::MAX ==> streamed_records(model_of(h, 0), begins_of(h), bytes@.len()) == Some(n)
                &&& r->Ok_0.version_spec() == h.version
                &&& forall|i: int| 0 <= i < h.vars@.len() ==> r->Ok_0.begin_of(i) == (#[trigger] h.vars@[i]).begin_offset
            },
            (r matches Err(ReadError::ParseHeader(_))) <==> crate::io::parser::header_end(bytes@) is None,
            r is Err ==> (r matches Err(ReadError::ParseHeader(_))) || (r matches Err(ReadError::DataSet(_)))
                || r == Err::<FileReader, ReadError>(ReadError::ComputeNumberOfRecords),
            r matches Err(ReadError::DataSet(_)) ==> exists|h: ParsedHeader, n: nat| {
                &&& h.end <= bytes@.len()
                &&& header_form(bytes@.take(h.end as int), h)
                &&& !build_ok(h, n)
            },
            r matches Err(ReadError::ComputeNumberOfRecords) ==> exists|h: ParsedHeader| {
                &&& h.end <= bytes@.len()
                &&& header_form(bytes@.take(h.end as int), h)
                &&& h.num_records == u32::MAX
                &&& streamed_records(model_of(h, 0), begins_of(h), bytes@.len()) is None
            },
    {
        let h: ParsedHeader = match parse_header_bytes(bytes.as_slice()) {
            Ok(h) => h,
            Err(e) => {
                return Err(ReadError::ParseHeader(e));
            },
        };
        let bytes_len: usize = bytes.len();
        let numrecs: usize = if h.num_records == 0xFFFF_FFFFu32 {
            let ds0 = match build_data_set(&h, 0) {
                Ok(ds) => ds,
                Err(e) => {
                    return Err(ReadError::DataSet(e));
                },
            };
            match compute_num_records(&ds0, &h, bytes.len()) {
                Some(n) => {
                    assert(streamed_records(model_of(h, 0), begins_of(h), bytes@.len()) == Some(n as nat));
                    n
                },
                None => {
                    return Err(ReadError::ComputeNumberOfRecords);
                },
            }
        } else {
            h.num_records as usize
        };
        let ds = match build_data_set(&h, numrecs) {
            Ok(ds) => ds,
            Err(e) => {
                return Err(ReadError::DataSet(e));
            },
        };
        let mut begins: Vec<u64> = Vec::new();
        let mut i: usize = 0;
        while i < h.vars.len()
            invariant
                0 <= i <= h.vars@.len(),
                begins@.len() == i,
                forall|k: int| 0 <= k < i ==> begins@[k] == (#[trigger] h.vars@[k]).begin_offset,
            decreases h.vars@.len() - i,
        {
            begins.push(h.vars[i].begin_offset);
            i = i + 1;
        }
        let r = FileReader { data_set: ds, version: h.version, bytes, begins };
        assert(r.model() == model_of(h, numrecs as nat));
        assert(r.version_spec() == h.version);
        assert(h.num_records == u32::MAX ==> streamed_records(model_of(h, 0), begins_of(h), bytes_len as nat) == Some(numrecs as nat));
        Ok(r)
    }

    /// The dataset that the header declares.
    pub fn data_set(&self) -> (r: &DataSet)
        ensures
            r@ == self.model(),
    {
        &self.data_set
    }

    pub fn version(&self) -> (r: Version)
        ensures
            r == self.version_spec(),
    {
        self.version
    }

    /// Hands back the dataset and the version.
    pub fn close(self) -> (r: (DataSet, Version))
        ensures
            r.0@ == self.model(),
            r.1 == self.version_spec(),
    {
        let FileReader { data_set, version, bytes: _, begins: _ } = self;
        (data_set, version)
    }

    /// Reads the data of the variable of that name; it fails where a chunk of it lies beyond
    /// the end of the file.
    pub fn read_var(&self, var_name: &str) -> (r: Result<DataVector, ReadError>)
        ensures
            !self.model().has_var(var_name@) ==> (r matches Err(ReadError::VariableNotDefined(n)) && n@ == var_name@),
            self.model().has_var(var_name@) ==> (r is Ok <==> self.chunks_in_file(self.model().var_index(var_name@))),
            self.model().has_var(var_name@) && r is Err ==> r == Err::<DataVector, ReadError>(ReadError::UnexpectedEndOfData),
            r is Ok ==> self.model().has_var(var_name@) && self.reads_as(self.model().var_index(var_name@), r->Ok_0@),
    {
        proof { use_type_invariant(self); }
        let i: usize = match self.data_set.find_var_from_name(var_name) {
            Ok(i) => i,
            Err(_) => {
                return Err(ReadError::VariableNotDefined(var_name.to_owned()));
            },
        };
        let vars = self.data_set.get_vars();
        assert(vars@[i as int]@ == self.data_set@.vars[i as int]);
        let var: &Variable = &vars[i];
        let nc: usize = var.num_chunks();
        let t: DataType = var.data_type();
        let ghost rsn = crate::io::layout::record_sum(self.model().vars);
        let ghost w = size_of_spec(t);
        let ghost cln = self.model().vars[i as int].chunk_len();
        if nc == 0 {
            let v = DataVector::new(t, 0);
            assert(self.reads_as(i as int, v@));
            return Ok(v);
        }
        let len: usize = self.bytes.len();
        let cl: usize = match var.chunk_len_checked() {
            Some(c) => c,
            None => {
                proof {
                    assert(w * cln >= cln) by (nonlinear_arith)
                        requires
                            w >= 1,
                    ;
                    assert(stride_pos(self.begin_of(i as int) as int, rsn as int, 0) == self.begin_of(i as int));
                }
                return Err(ReadError::UnexpectedEndOfData);
            },
        };
        let rs: usize = match self.data_set.record_size_checked() {
            Some(r) => r,
            None => {
                if nc > 1 {
                    proof {
                        assert(stride_pos(self.begin_of(i as int) as int, rsn as int, 1) == self.begin_of(i as int) + rsn);
                    }
                    return Err(ReadError::UnexpectedEndOfData);
                }
                0
            },
        };
        let begin64: u64 = self.begins[i];
        if begin64 > usize::MAX as u64 {
            proof {
                assert(stride_pos(self.begin_of(i as int) as int, rsn as int, 0) == self.begin_of(i as int));
            }
            return Err(ReadError::UnexpectedEndOfData);
        }
        let begin: usize = begin64 as usize;
        match self.read_chunks(i, t, begin, rs, nc, cl) {
            None => Err(ReadError::UnexpectedEndOfData),
            Some(v) => Ok(v),
        }
    }

    proof fn lemma_reads_as(&self, i: int, v: Values, begin: usize, rs: usize)
        requires
            0 <= i < self.model().vars.len(),
            v.data_type() == self.model().vars[i].data_type,
            v.len() == self.model().vars[i].num_chunks() * self.model().vars[i].chunk_len(),
            begin == self.begin_of(i),
            self.model().vars[i].num_chunks() <= 1 || rs == crate::io::layout::record_sum(self.model().vars),
            forall|k: int| #![trigger stride_pos(begin as int, rs as int, k)] 0 <= k < self.model().vars[i].num_chunks() ==> {
                let pos = stride_pos(begin as int, rs as int, k);
                let cl = self.model().vars[i].chunk_len();
                let w = size_of_spec(self.model().vars[i].data_type);
                &&& pos + w * cl <= self.file().len()
                &&& values_bytes(slice_values(v, k * cl, (k + 1) * cl)) == self.file().subrange(pos, pos + w * cl)
            },
        ensures
            self.reads_as(i, v),
    {
        let rsn = crate::io::layout::record_sum(self.model().vars);
        let nc = self.model().vars[i].num_chunks();
        assert forall|k: int| #![trigger stride_pos(self.begin_of(i) as int, rsn as int, k)] 0 <= k < nc implies {
            let pos = stride_pos(self.begin_of(i) as int, rsn as int, k);
            let cl = self.model().vars[i].chunk_len();
            let w = size_of_spec(self.model().vars[i].data_type);
            &&& pos + w * cl <= self.file().len()
            &&& values_bytes(slice_values(v, k * cl, (k + 1) * cl)) == self.file().subrange(pos, pos + w * cl)
        } by {
            if nc <= 1 {
                assert(k == 0);
                assert(k * rs == 0 && k * rsn == 0);
            }
            assert(stride_pos(begin as int, rs as int, k) == stride_pos(self.begin_of(i) as int, rsn as int, k));
        }
    }

    /// Reads the chunks of the `i`-th variable, of type `t`.
    fn read_chunks(&self, i: usize, t: DataType, begin: usize, rs: usize, nc: usize, cl: usize) -> (r: Option<DataVector>)
        requires
            i < self.model().vars.len(),
            t == self.model().vars[i as int].data_type,
            nc == self.model().vars[i as int].num_chunks(),
            cl == self.model().vars[i as int].chunk_len(),
            begin == self.begin_of(i as int),
            nc <= 1 || rs == crate::io::layout::record_sum(self.model().vars),
        ensures
            r is Some ==> self.reads_as(i as int, r->Some_0@),
            r is None ==> !self.chunks_in_file(i as int),
    {
        let b: &[u8] = self.bytes.as_slice();
        match t {
            DataType::I8 => match read_chunks_i8(b, begin, rs, nc, cl) {
                Some(v) => {
                    proof { self.lemma_reads_as(i as int, Values::I8(v@), begin, rs); }
                    Some(DataVector::I8(v))
                },
                None => {
                    proof { self.lemma_out_of_file(i as int, begin, rs); }
                    None
                },
            },
            DataType::U8 => match read_chunks_u8(b, begin, rs, nc, cl) {
                Some(v) => {
                    proof { self.lemma_reads_as(i as int, Values::U8(v@), begin, rs); }
                    Some(DataVector::U8(v))
                },
                None => {
                    proof { self.lemma_out_of_file(i as int, begin, rs); }
                    None
                },
            },
            DataType::I16 => match read_chunks_i16(b, begin, rs, nc, cl) {
                Some(v) => {
                    proof { self.lemma_reads_as(i as int, Values::I16(v@), begin, rs); }
                    Some(DataVector::I16(v))
                },
                None => {
                    proof { self.lemma_out_of_file(i as int, begin, rs); }
                    None
                },
            },
            DataType::I32 => match read_chunks_i32(b, begin, rs, nc, cl) {
                Some(v) => {
                    proof { self.lemma_reads_as(i as int, Values::I32(v@), begin, rs); }
                    Some(DataVector::I32(v))
                },
                None => {
                    proof { self.lemma_out_of_file(i as int, begin, rs); }
                    None
                },
            },
            DataType::F32 => match read_chunks_u32(b, begin, rs, nc, cl) {
                Some(v) => {
                    proof { self.lemma_reads_as(i as int, Values::F32(v@), begin, rs); }
                    Some(DataVector::F32(v))
                },
                None => {
                    proof { self.lemma_out_of_file(i as int, begin, rs); }
                    None
                },
            },
            DataType::F64 => match read_chunks_u64(b, begin, rs, nc, cl) {
                Some(v) => {
                    proof { self.lemma_reads_as(i as int, Values::F64(v@), begin, rs); }
                    Some(DataVector::F64(v))
                },
                None => {
                    proof { self.lemma_out_of_file(i as int, begin, rs); }
                    None
                },
            },
        }
    }

    /// Reads the `I8` data of the variable of that name.
    pub fn read_var_to_i8(&self, var_name: &str) -> (r: Result<Vec<i8>, ReadError>)
        ensures
            !self.model().has_var(var_name@) ==> (r matches Err(ReadError::VariableNotDefined(n)) && n@ == var_name@),
            self.model().has_var(var_name@) && self.model().vars[self.model().var_index(var_name@)].data_type != DataType::I8
                ==> (r matches Err(ReadError::VariableMismatchDataType { var_name: n, req, get }) && n@ == var_name@
                && req == self.model().vars[self.model().var_index(var_name@)].data_type && get == DataType::I8),
            self.model().has_var(var_name@) && self.model().vars[self.model().var_index(var_name@)].data_type == DataType::I8
                ==> (r is Ok <==> self.chunks_in_file(self.model().var_index(var_name@))),
            r is Ok ==> self.model().has_var(var_name@) && self.reads_as(self.model().var_index(var_name@), Values::I8(r->Ok_0@)),
    {
        proof { use_type_invariant(self); }
        let i: usize = match self.data_set.find_var_from_name(var_name) {
            Ok(i) => i,
            Err(_) => {
                return Err(ReadError::VariableNotDefined(var_name.to_owned()));
            },
        };
        let vars = self.data_set.get_vars();
        assert(vars@[i as int]@ == self.data_set@.vars[i as int]);
        let req: DataType = vars[i].data_type();
        if req != DataType::I8 {
            return Err(ReadError::VariableMismatchDataType { var_name: var_name.to_owned(), req, get: DataType::I8 });
        }
        match self.read_var(var_name)? {
            DataVector::I8(v) => Ok(v),
            _ => Err(ReadError::VariableMismatchDataType { var_name: var_name.to_owned(), req, get: DataType::I8 }),
        }
    }

    /// Reads the `U8` data of the variable of that name.
    pub fn read_var_to_u8(&self, var_name: &str) -> (r: Result<Vec<u8>, ReadError>)
        ensures
            !self.model().has_var(var_name@) ==> (r matches Err(ReadError::VariableNotDefined(n)) && n@ == var_name@),
            self.model().has_var(var_name@) && self.model().vars[self.model().var_index(var_name@)].data_type != DataType::U8
                ==> (r matches Err(ReadError::VariableMismatchDataType { var_name: n, req, get }) && n@ == var_name@
                && req == self.model().vars[self.model().var_index(var_name@)].data_type && get == DataType::U8),
            self.model().has_var(var_name@) && self.model().vars[self.model().var_index(var_name@)].data_type == DataType::U8
                ==> (r is Ok <==> self.chunks_in_file(self.model().var_index(var_name@))),
            r is Ok ==> self.model().has_var(var_name@) && self.reads_as(self.model().var_index(var_name@), Values::U8(r->Ok_0@)),
    {
        proof { use_type_invariant(self); }
        let i: usize = match self.data_set.find_var_from_name(var_name) {
            Ok(i) => i,
            Err(_) => {
                return Err(ReadError::VariableNotDefined(var_name.to_owned()));
            },
        };
        let vars = self.data_set.get_vars();
        assert(vars@[i as int]@ == self.data_set@.vars[i as int]);
        let req: DataType = vars[i].data_type();
        if req != DataType::U8 {
            return Err(ReadError::VariableMismatchDataType { var_name: var_name.to_owned(), req, get: DataType::U8 });
        }
        match self.read_var(var_name)? {
            DataVector::U8(v) => Ok(v),
            _ => Err(ReadError::VariableMismatchDataType { var_name: var_name.to_owned(), req, get: DataType::U8 }),
        }
    }

    /// Reads the `I16` data of the variable of that name.
    pub fn read_var_to_i16(&self, var_name: &str) -> (r: Result<Vec<i16>, ReadError>)
        ensures
            !self.model().has_var(var_name@) ==> (r matches Err(ReadError::VariableNotDefined(n)) && n@ == var_name@),
            self.model().has_var(var_name@) && self.model().vars[self.model().var_index(var_name@)].data_type != DataType::I16
                ==> (r matches Err(ReadError::VariableMismatchDataType { var_name: n, req, get }) && n@ == var_name@
                && req == self.model().vars[self.model().var_index(var_name@)].data_type && get == DataType::I16),
            self.model().has_var(var_name@) && self.model().vars[self.model().var_index(var_name@)].data_type == DataType::I16
                ==> (r is Ok <==> self.chunks_in_file(self.model().var_index(var_name@))),
            r is Ok ==> self.model().has_var(var_name@) && self.reads_as(self.model().var_index(var_name@), Values::I16(r->Ok_0@)),
    {
        proof { use_type_invariant(self); }
        let i: usize = match self.data_set.find_var_from_name(var_name) {
            Ok(i) => i,
            Err(_) => {
                return Err(ReadError::VariableNotDefined(var_name.to_owned()));
            },
        };
        let vars = self.data_set.get_vars();
        assert(vars@[i as int]@ == self.data_set@.vars[i as int]);
        let req: DataType = vars[i].data_type();
        if req != DataType::I16 {
            return Err(ReadError::VariableMismatchDataType { var_name: var_name.to_owned(), req, get: DataType::I16 });
        }
        match self.read_var(var_name)? {
            DataVector::I16(v) => Ok(v),
            _ => Err(ReadError::VariableMismatchDataType { var_name: var_name.to_owned(), req, get: DataType::I16 }),
        }
    }

    /// Reads the `I32` data of the variable of that name.
    pub fn read_var_to_i32(&self, var_name: &str) -> (r: Result<Vec<i32>, ReadError>)
        ensures
            !self.model().has_var(var_name@) ==> (r matches Err(ReadError::VariableNotDefined(n)) && n@ == var_name@),
            self.model().has_var(var_name@) && self.model().vars[self.model().var_index(var_name@)].data_type != DataType::I32
                ==> (r matches Err(ReadError::VariableMismatchDataType { var_name: n, req, get }) && n@ == var_name@
                && req == self.model().vars[self.model().var_index(var_name@)].data_type && get == DataType::I32),
            self.model().has_var(var_name@) && self.model().vars[self.model().var_index(var_name@)].data_type == DataType::I32
                ==> (r is Ok <==> self.chunks_in_file(self.model().var_index(var_name@))),
            r is Ok ==> self.model().has_var(var_name@) && self.reads_as(self.model().var_index(var_name@), Values::I32(r->Ok_0@)),
    {
        proof { use_type_invariant(self); }
        let i: usize = match self.data_set.find_var_from_name(var_name) {
            Ok(i) => i,
            Err(_) => {
                return Err(ReadError::VariableNotDefined(var_name.to_owned()));
            },
        };
        let vars = self.data_set.get_vars();
        assert(vars@[i as int]@ == self.data_set@.vars[i as int]);
        let req: DataType = vars[i].data_type();
        if req != DataType::I32 {
            return Err(ReadError::VariableMismatchDataType { var_name: var_name.to_owned(), req, get: DataType::I32 });
        }
        match self.read_var(var_name)? {
            DataVector::I32(v) => Ok(v),
            _ => Err(ReadError::VariableMismatchDataType { var_name: var_name.to_owned(), req, get: DataType::I32 }),
        }
    }

    /// Reads the `F32` data of the variable of that name. The values are IEEE-754 bit patterns.
    pub fn read_var_to_f32(&self, var_name: &str) -> (r: Result<Vec<u32>, ReadError>)
        ensures
            !self.model().has_var(var_name@) ==> (r matches Err(ReadError::VariableNotDefined(n)) && n@ == var_name@),
            self.model().has_var(var_name@) && self.model().vars[self.model().var_index(var_name@)].data_type != DataType::F32
                ==> (r matches Err(ReadError::VariableMismatchDataType { var_name: n, req, get }) && n@ == var_name@
                && req == self.model().vars[self.model().var_index(var_name@)].data_type && get == DataType::F32),
            self.model().has_var(var_name@) && self.model().vars[self.model().var_index(var_name@)].data_type == DataType::F32
                ==> (r is Ok <==> self.chunks_in_file(self.model().var_index(var_name@))),
            r is Ok ==> self.model().has_var(var_name@) && self.reads_as(self.model().var_index(var_name@), Values::F32(r->Ok_0@)),
    {
        proof { use_type_invariant(self); }
        let i: usize = match self.data_set.find_var_from_name(var_name) {
            Ok(i) => i,
            Err(_) => {
                return Err(ReadError::VariableNotDefined(var_name.to_owned()));
            },
        };
        let vars = self.data_set.get_vars();
        assert(vars@[i as int]@ == self.data_set@.vars[i as int]);
        let req: DataType = vars[i].data_type();
        if req != DataType::F32 {
            return Err(ReadError::VariableMismatchDataType { var_name: var_name.to_owned(), req, get: DataType::F32 });
        }
        match self.read_var(var_name)? {
            DataVector::F32(v) => Ok(v),
            _ => Err(ReadError::VariableMismatchDataType { var_name: var_name.to_owned(), req, get: DataType::F32 }),
        }
    }

    /// Reads the `F64` data of the variable of that name. The values are IEEE-754 bit patterns.
    pub fn read_var_to_f64(&self, var_name: &str) -> (r: Result<Vec<u64>, ReadError>)
        ensures
            !self.model().has_var(var_name@) ==> (r matches Err(ReadError::VariableNotDefined(n)) && n@ == var_name@),
            self.model().has_var(var_name@) && self.model().vars[self.model().var_index(var_name@)].data_type != DataType::F64
                ==> (r matches Err(ReadError::VariableMismatchDataType { var_name: n, req, get }) && n@ == var_name@
                && req == self.model().vars[self.model().var_index(var_name@)].data_type && get == DataType::F64),
            self.model().has_var(var_name@) && self.model().vars[self.model().var_index(var_name@)].data_type == DataType::F64
                ==> (r is Ok <==> self.chunks_in_file(self.model().var_index(var_name@))),
            r is Ok ==> self.model().has_var(var_name@) && self.reads_as(self.model().var_index(var_name@), Values::F64(r->Ok_0@)),
    {
        proof { use_type_invariant(self); }
        let i: usize = match self.data_set.find_var_from_name(var_name) {
            Ok(i) => i,
            Err(_) => {
                return Err(ReadError::VariableNotDefined(var_name.to_owned()));
            },
        };
        let vars = self.data_set.get_vars();
        assert(vars@[i as int]@ == self.data_set@.vars[i as int]);
        let req: DataType = vars[i].data_type();
        if req != DataType::F64 {
            return Err(ReadError::VariableMismatchDataType { var_name: var_name.to_owned(), req, get: DataType::F64 });
        }
        match self.read_var(var_name)? {
            DataVector::F64(v) => Ok(v),
            _ => Err(ReadError::VariableMismatchDataType { var_name: var_name.to_owned(), req, get: DataType::F64 }),
        }
    }

    /// Reads the data of every variable, in order.
    pub fn read_all_vars(&self) -> (r: Result<Vec<(String, DataVector)>, ReadError>)
        ensures
            (forall|i: int| 0 <= i < self.model().vars.len() ==> #[trigger] self.chunks_in_file(i)) <==> r is Ok,
            r is Ok ==> r->Ok_0@.len() == self.model().vars.len() && forall|i: int| 0 <= i < r->Ok_0@.len()
                ==> (#[trigger] r->Ok_0@[i]).0@ == self.model().vars[i].name && self.reads_as(i, r->Ok_0@[i].1@),
            r is Err ==> r == Err::<Vec<(String, DataVector)>, ReadError>(ReadError::UnexpectedEndOfData),
    {
        let _vars = self.data_set.get_vars();
        let names: Vec<String> = self.data_set.get_var_names();
        assert(crate::data_set::variable::string_views(names@).len() == names@.len());
        let mut out: Vec<(String, DataVector)> = Vec::new();
        let mut i: usize = 0;
        while i < names.len()
            invariant
                0 <= i <= names@.len(),
                self.model().wf(),
                crate::data_set::variable::string_views(names@) == self.model().vars.map_values(|v: VariableModel| v.name),
                names@.len() == self.model().vars.len(),
                out@.len() == i,
                forall|k: int| 0 <= k < i ==> self.chunks_in_file(k),
                forall|k: int| 0 <= k < i ==> (#[trigger] out@[k]).0@ == self.model().vars[k].name
                    && self.reads_as(k, out@[k].1@),
            decreases names@.len() - i,
        {
            assert(crate::data_set::variable::string_views(names@)[i as int] == names@[i as int]@);
            proof {
                let m = self.model();
                let j = m.var_index(names@[i as int]@);
                assert(m.vars[i as int].name == names@[i as int]@);
                assert(m.has_var(names@[i as int]@));
                if j < i {
                    assert(m.vars[j].name != m.vars[i as int].name);
                } else if i < j {
                    assert(m.vars[i as int].name != m.vars[j].name);
                }
                assert(j == i);
            }
            let v: DataVector = match self.read_var(names[i].as_str()) {
                Ok(v) => v,
                Err(e) => {
                    return Err(e);
                },
            };
            out.push((names[i].clone(), v));
            i = i + 1;
        }
        Ok(out)
    }
}

/// Begin offsets of the variables of a parsed header, in order.
pub open spec fn begins_of(h: ParsedHeader) -> Seq<u64> {
    h.vars@.map_values(|v: ParsedVariable| v.begin_offset)
}

/// Smallest begin offset among the record variables of `vars` (`begins` in the same order).
pub open spec fn min_record_begin(vars: Seq<VariableModel>, begins: Seq<u64>) -> Option<u64>
    decreases vars.len(),
{
    if vars.len() == 0 {
        None
    } else {
        let rest = min_record_begin(vars.drop_last(), begins);
        let b = begins[vars.len() - 1];
        if vars.last().is_record() {
            match rest {
                None => Some(b),
                Some(m) => Some(if b < m { b } else { m }),
            }
        } else {
            rest
        }
    }
}

/// Record count of a file of `file_size` bytes whose header leaves it undetermined: the
/// bytes from the first record variable's data on, divided by the record size, where the
/// division is exact; zero where there is no record variable or the records are empty.
pub open spec fn streamed_records(m: DataSetModel, begins: Seq<u64>, file_size: nat) -> Option<nat> {
    match min_record_begin(m.vars, begins) {
        None => Some(0),
        Some(b) => {
            let rs = crate::io::layout::record_sum(m.vars);
            if rs == 0 {
                Some(0)
            } else if b > file_size {
                None
            } else if (file_size - b) % (rs as int) != 0 {
                None
            } else {
                Some(((file_size - b) / (rs as int)) as nat)
            }
        },
    }
}

/// The record count of an image whose header leaves it undetermined.
fn compute_num_records(ds: &DataSet, h: &ParsedHeader, file_size: usize) -> (r: Option<usize>)
    requires
        ds@.vars.len() == h.vars@.len(),
    ensures
        r is Some <==> streamed_records(ds@, begins_of(*h), file_size as nat) is Some,
        r is Some ==> r->Some_0 == streamed_records(ds@, begins_of(*h), file_size as nat)->Some_0,
{
    let ghost vs = ds@.vars;
    let ghost bs = begins_of(*h);
    let rs: Option<usize> = ds.record_size_checked();
    let vars = ds.get_vars();
    let mut min_begin: Option<u64> = None;
    let mut i: usize = 0;
    while i < vars.len()
        invariant
            0 <= i <= vars@.len(),
            vars@.len() == h.vars@.len(),
            vs == ds@.vars,
            crate::data_set::vars_view(vars@) == vs,
            bs == begins_of(*h),
            min_begin == min_record_begin(vs.take(i as int), bs),
        decreases vars@.len() - i,
    {
        assert(vs.take(i + 1).drop_last() =~= vs.take(i as int));
        assert(vs[i as int] == vars@[i as int]@);
        if vars[i].is_record_var() {
            let b: u64 = h.vars[i].begin_offset;
            min_begin = match min_begin {
                None => Some(b),
                Some(m) => Some(if b < m { b } else { m }),
            };
        }
        i = i + 1;
    }
    assert(vs.take(vars@.len() as int) =~= vs);
    match min_begin {
        None => Some(0),
        Some(m) => {
            let rsn: usize = match rs {
                Some(x) => x,
                None => {
                    if m > file_size as u64 {
                        return None;
                    }
                    let region: usize = file_size - m as usize;
                    proof {
                        let rt = crate::io::layout::record_sum(vs);
                        if region > 0 {
                            vstd::arithmetic::div_mod::lemma_small_mod(region as nat, rt);
                        } else {
                            assert(0nat % rt == 0) by (nonlinear_arith)
                                requires
                                    rt > 0,
                            ;
                        }
                        assert(region as nat / rt == 0) by (nonlinear_arith)
                            requires
                                region < rt,
                        ;
                    }
                    if region == 0 {
                        return Some(0);
                    }
                    return None;
                },
            };
            if rsn == 0 {
                return Some(0);
            }
            if m > file_size as u64 {
                return None;
            }
            let region: usize = file_size - m as usize;
            if region % rsn != 0 {
                None
            } else {
                Some(region / rsn)
            }
        },
    }
}

} // verus!
