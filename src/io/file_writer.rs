use vstd::prelude::*;
use crate::data_set::{DataSet, DataSetModel, lemma_record_vars};
use crate::data_set::variable::{VariableModel, saturate, lemma_len_is_product, lemma_chunk_size};
use crate::data_type::{DataType, size_of_spec};
use crate::data_vector::{DataVector, Values};
use crate::error::WriteError;
use crate::io::Version;
use crate::io::header::values_bytes;
use crate::io::data::{slice_values, chunk_bytes, encode_chunk, fill_values, fill_vector, overwrite, write_at, lemma_chunk_bytes_len};
use crate::io::header::{enc_header, zeros, write_header};
use crate::io::layout::{
    DataSetLayout, LayoutError, begin_offset, compute_layout, data_end, fixed_sum, header_required_size,
    header_size, offset_limit, record_sum, lemma_layout_disjoint, lemma_sums_prefix, lemma_sums_step,
};

verus! {

/// Size of the file: the header, the fixed-size data, and every record.
pub open spec fn planned_file_size(m: DataSetModel, version: Version, min: nat) -> nat {
    header_size(m, version, min) + fixed_sum(m.vars) + m.num_records() * record_sum(m.vars)
}

/// Offset of the `k`-th chunk of the `i`-th variable.
pub open spec fn chunk_offset(m: DataSetModel, version: Version, min: nat, i: int, k: nat) -> nat {
    begin_offset(m.vars, header_size(m, version, min), i) + k * record_sum(m.vars)
}

/// Every chunk of the `i`-th variable holds the matching chunk of `data`.
pub open spec fn holds_chunks(bytes: Seq<u8>, m: DataSetModel, version: Version, min: nat, i: int, data: Values) -> bool {
    forall|k: nat| k < m.vars[i].num_chunks() ==> bytes.subrange(
        chunk_offset(m, version, min, i, k) as int,
        (chunk_offset(m, version, min, i, k) + m.vars[i].chunk_size()) as int,
    ) == #[trigger] chunk_bytes(data, k, m.vars[i].chunk_len())
}

/// Position `q` lies in no chunk of the `i`-th variable.
pub open spec fn outside_var(m: DataSetModel, version: Version, min: nat, i: int, q: int) -> bool {
    forall|k: nat| k < m.vars[i].num_chunks() ==> !(chunk_offset(m, version, min, i, k) <= q
        < #[trigger] chunk_offset(m, version, min, i, k) + m.vars[i].chunk_size())
}

/// Two intervals on a stride: `[a, a + ca)` at record `k` and `[b, b + cb)` at record `j`.
proof fn lemma_stride_disjoint(a: int, ca: int, b: int, cb: int, rs: int, k: int, j: int, q: int)
    requires
        a + ca <= b,
        b + cb <= a + rs,
        0 <= ca,
        0 <= cb,
        0 <= k,
        0 <= j,
        a + k * rs <= q < a + k * rs + ca,
    ensures
        !(b + j * rs <= q < b + j * rs + cb),
{
    if k < j {
        assert(k * rs + rs <= j * rs) by (nonlinear_arith)
            requires
                k < j,
                0 <= rs,
        ;
    } else if j < k {
        assert(j * rs + rs <= k * rs) by (nonlinear_arith)
            requires
                j < k,
                0 <= rs,
        ;
    }
}

/// The chunks of two different variables never share a byte.
pub proof fn lemma_vars_disjoint(m: DataSetModel, version: Version, min: nat, a: int, b: int, q: int)
    requires
        m.wf(),
        0 <= a < m.vars.len(),
        0 <= b < m.vars.len(),
        a != b,
        !outside_var(m, version, min, a, q),
    ensures
        outside_var(m, version, min, b, q),
{
    let hs = header_size(m, version, min);
    let rs = record_sum(m.vars);
    let k = choose|k: nat| k < m.vars[a].num_chunks() && chunk_offset(m, version, min, a, k) <= q
        < #[trigger] chunk_offset(m, version, min, a, k) + m.vars[a].chunk_size();
    lemma_record_vars(m, a);
    lemma_record_vars(m, b);
    assert forall|j: nat| j < m.vars[b].num_chunks() implies !(chunk_offset(m, version, min, b, j) <= q
        < #[trigger] chunk_offset(m, version, min, b, j) + m.vars[b].chunk_size()) by {
        let (lo, hi) = if a < b { (a, b) } else { (b, a) };
        lemma_layout_disjoint(m.vars, hs, lo, hi);
        lemma_record_bounds(m.vars, hs, a);
        lemma_record_bounds(m.vars, hs, b);
        let oa = begin_offset(m.vars, hs, a) as int;
        let ob = begin_offset(m.vars, hs, b) as int;
        let ca = m.vars[a].chunk_size() as int;
        let cb = m.vars[b].chunk_size() as int;
        if m.vars[a].is_record() && m.vars[b].is_record() {
            if a < b {
                lemma_stride_disjoint(oa, ca, ob, cb, rs as int, k as int, j as int, q);
            } else {
                if ob + j * rs <= q && q < ob + j * rs + cb {
                    lemma_stride_disjoint(ob, cb, oa, ca, rs as int, j as int, k as int, q);
                }
            }
        } else {
            assert(k == 0 || m.vars[a].is_record());
            assert(j == 0 || m.vars[b].is_record());
            assert(0nat * rs == 0);
            if m.vars[a].is_record() {
                assert(k * rs >= 0) by (nonlinear_arith);
            }
            if m.vars[b].is_record() {
                assert(j * rs >= 0) by (nonlinear_arith);
            }
        }
    }
}

/// A record variable's first chunk sits inside the first record.
pub proof fn lemma_record_bounds(vars: Seq<VariableModel>, hs: nat, i: int)
    requires
        0 <= i < vars.len(),
    ensures
        vars[i].is_record() ==> begin_offset(vars, hs, i) + vars[i].chunk_size() <= hs + fixed_sum(vars) + record_sum(vars),
        !vars[i].is_record() ==> begin_offset(vars, hs, i) + vars[i].chunk_size() <= hs + fixed_sum(vars),
        vars[i].is_record() ==> begin_offset(vars, hs, i) >= hs + fixed_sum(vars),
{
    lemma_sums_step(vars, i);
    lemma_sums_prefix(vars, i + 1);
}

/// Every chunk of every variable lies inside the planned file.
pub proof fn lemma_chunk_in_file(m: DataSetModel, version: Version, min: nat, i: int, k: nat)
    requires
        m.wf(),
        0 <= i < m.vars.len(),
        k < m.vars[i].num_chunks(),
    ensures
        chunk_offset(m, version, min, i, k) + m.vars[i].chunk_size() <= planned_file_size(m, version, min),
{
    let hs = header_size(m, version, min);
    let rs = record_sum(m.vars);
    lemma_record_vars(m, i);
    lemma_record_bounds(m.vars, hs, i);
    if m.vars[i].is_record() {
        let n = m.num_records();
        assert(k * rs + rs <= n * rs) by (nonlinear_arith)
            requires
                k < n,
        ;
    } else {
        assert(k == 0);
        assert(0nat * rs == 0);
        assert(m.num_records() * rs >= 0) by (nonlinear_arith);
    }
}

/// A variable's element count fits in the planned file.
pub proof fn lemma_var_len_in_file(m: DataSetModel, version: Version, min: nat, i: int)
    requires
        m.wf(),
        0 <= i < m.vars.len(),
    ensures
        m.vars[i].len() <= planned_file_size(m, version, min),
        m.vars[i].chunk_len() <= m.vars[i].chunk_size(),
{
    let v = m.vars[i];
    let hs = header_size(m, version, min);
    let rs = record_sum(m.vars);
    let w = size_of_spec(v.data_type);
    let cl = v.chunk_len();
    assert(cl <= cl * w) by (nonlinear_arith)
        requires
            w >= 1,
    ;
    lemma_record_vars(m, i);
    lemma_record_bounds(m.vars, hs, i);
    if v.is_record() {
        let n = m.num_records();
        assert(n * cl <= n * rs) by (nonlinear_arith)
            requires
                cl <= rs,
        ;
    } else {
        assert(v.len() == cl);
    }
}

/// Writes every chunk of `data` at the planned place of the `i`-th variable.
#[verifier::rlimit(40)]
fn write_chunks(bytes: &mut Vec<u8>, st: &WriterState, i: usize, data: &DataVector)
    requires
        st.plan_wf(),
        i < st.data_set@.vars.len(),
        data@.data_type() == st.data_set@.vars[i as int].data_type,
        data@.len() == st.data_set@.vars[i as int].len(),
        old(bytes)@.len() == planned_file_size(st.data_set@, st.version, st.header_min_size as nat),
    ensures
        final(bytes)@.len() == old(bytes)@.len(),
        holds_chunks(final(bytes)@, st.data_set@, st.version, st.header_min_size as nat, i as int, data@),
        forall|q: int| 0 <= q < old(bytes)@.len() && outside_var(st.data_set@, st.version, st.header_min_size as nat, i as int, q)
            ==> final(bytes)@[q] == old(bytes)@[q],
{
    let ghost m = st.data_set@;
    let ghost min = st.header_min_size as nat;
    let ghost version = st.version;
    let ghost v = m.vars[i as int];
    let vars = st.data_set.get_vars();
    assert(vars@[i as int]@ == v);
    let nc: usize = vars[i].num_chunks();
    let cl: usize = vars[i].num_elements_per_chunk();
    let cs: u64 = st.layout.vars[i].chunk_size;
    let begin: u64 = st.layout.vars[i].begin_offset;
    let rs: u64 = st.layout.record_size;
    proof {
        lemma_var_len_in_file(m, version, min, i as int);
        lemma_record_vars(m, i as int);
        lemma_record_bounds(m.vars, header_size(m, version, min), i as int);
        lemma_chunk_size(v);
    }
    let ghost orig = bytes@;
    let file_len: usize = bytes.len();
    let mut k: usize = 0;
    while k < nc
        invariant
            file_len == orig.len(),
            st.plan_wf(),
            m == st.data_set@,
            min == st.header_min_size as nat,
            version == st.version,
            v == m.vars[i as int],
            i < m.vars.len(),
            nc == v.num_chunks(),
            cl == v.chunk_len(),
            cs == v.chunk_size(),
            begin == begin_offset(m.vars, header_size(m, version, min), i as int),
            rs == record_sum(m.vars),
            v.is_record() ==> cs <= rs,
            !v.is_record() ==> nc == 1,
            data@.len() == nc * cl,
            data@.data_type() == v.data_type,
            bytes@.len() == orig.len(),
            orig.len() == planned_file_size(m, version, min),
            0 <= k <= nc,
            forall|j: nat| j < k ==> bytes@.subrange(
                chunk_offset(m, version, min, i as int, j) as int,
                (chunk_offset(m, version, min, i as int, j) + cs) as int,
            ) == #[trigger] chunk_bytes(data@, j, cl as nat),
            forall|q: int| 0 <= q < orig.len() && (forall|j: nat| j < k ==> !(chunk_offset(m, version, min, i as int, j) <= q
                < #[trigger] chunk_offset(m, version, min, i as int, j) + cs)) ==> bytes@[q] == orig[q],
        decreases nc - k,
    {
        proof {
            lemma_chunk_in_file(m, version, min, i as int, k as nat);
            assert((k + 1) * cl <= nc * cl) by (nonlinear_arith)
                requires
                    k < nc,
            ;
        }
        let ghost off = chunk_offset(m, version, min, i as int, k as nat);
        assert(k as u128 * rs as u128 <= 0xFFFF_FFFF_FFFF_FFFF_0000_0000_0000_0001u128) by (nonlinear_arith)
            requires
                k <= 0xFFFF_FFFF_FFFF_FFFFu128,
                rs <= 0xFFFF_FFFF_FFFF_FFFFu128,
        ;
        assert(off + cs <= file_len);
        assert(k * rs <= off);
        let pos: usize = (begin as u128 + k as u128 * rs as u128) as usize;
        assert(pos == off);
        let chunk: Vec<u8> = encode_chunk(data, k, cl);
        proof {
            lemma_chunk_bytes_len(data@, k as nat, cl as nat);
        }
        let ghost prev = bytes@;
        write_at(bytes, pos, &chunk);
        proof {
            assert forall|j: nat| j < k + 1 implies bytes@.subrange(
                chunk_offset(m, version, min, i as int, j) as int,
                (chunk_offset(m, version, min, i as int, j) + cs) as int,
            ) == #[trigger] chunk_bytes(data@, j, cl as nat) by {
                if j < k {
                    let oj = chunk_offset(m, version, min, i as int, j);
                    assert(v.is_record());
                    assert(j * rs + rs <= k * rs) by (nonlinear_arith)
                        requires
                            j < k,
                    ;
                    assert(bytes@.subrange(oj as int, (oj + cs) as int) =~= prev.subrange(oj as int, (oj + cs) as int));
                } else {
                    assert(bytes@.subrange(off as int, (off + cs) as int) =~= chunk@);
                }
            }
        }
        k = k + 1;
    }
}

/// Writing the chunks of one variable keeps the chunks of another.
pub proof fn lemma_keep_chunks(m: DataSetModel, version: Version, min: nat, j: int, i: int, prev: Seq<u8>, bytes: Seq<u8>, d: Values)
    requires
        m.wf(),
        0 <= j < m.vars.len(),
        0 <= i < m.vars.len(),
        i != j,
        prev.len() == planned_file_size(m, version, min),
        bytes.len() == prev.len(),
        holds_chunks(prev, m, version, min, j, d),
        forall|q: int| 0 <= q < prev.len() && outside_var(m, version, min, i, q) ==> bytes[q] == prev[q],
    ensures
        holds_chunks(bytes, m, version, min, j, d),
{
    assert forall|k: nat| k < m.vars[j].num_chunks() implies bytes.subrange(
        chunk_offset(m, version, min, j, k) as int,
        (chunk_offset(m, version, min, j, k) + m.vars[j].chunk_size()) as int,
    ) == #[trigger] chunk_bytes(d, k, m.vars[j].chunk_len()) by {
        let o = chunk_offset(m, version, min, j, k);
        let c = m.vars[j].chunk_size();
        lemma_chunk_in_file(m, version, min, j, k);
        assert forall|q: int| o <= q < o + c implies bytes[q] == prev[q] by {
            assert(!outside_var(m, version, min, j, q));
            lemma_vars_disjoint(m, version, min, j, i, q);
        }
        assert(bytes.subrange(o as int, (o + c) as int) =~= prev.subrange(o as int, (o + c) as int));
    }
}

/// Round trip of variable data: in a file image whose chunks of the `i`-th variable hold the
/// chunks of `data` (what `write_var` and `close` establish), values of the variable's type
/// and length whose bytes sit at the same chunk positions are `data`.
pub proof fn lemma_data_round_trip(b: Seq<u8>, m: DataSetModel, version: Version, min: nat, i: int, data: Values, v: Values)
    requires
        m.wf(),
        0 <= i < m.vars.len(),
        data.data_type() == m.vars[i].data_type,
        data.len() == m.vars[i].len(),
        v.data_type() == m.vars[i].data_type,
        v.len() == m.vars[i].len(),
        b.len() == planned_file_size(m, version, min),
        holds_chunks(b, m, version, min, i, data),
        forall|k: nat| k < m.vars[i].num_chunks() ==> #[trigger] values_bytes(
            slice_values(v, (k * m.vars[i].chunk_len()) as int, ((k + 1) * m.vars[i].chunk_len()) as int),
        ) == b.subrange(
            chunk_offset(m, version, min, i, k) as int,
            (chunk_offset(m, version, min, i, k) + size_of_spec(m.vars[i].data_type) * m.vars[i].chunk_len()) as int,
        ),
    ensures
        v == data,
{
    let var = m.vars[i];
    let nc = var.num_chunks();
    let cl = var.chunk_len();
    let w = size_of_spec(var.data_type);
    lemma_chunk_size(var);
    assert forall|k: int| 0 <= k < nc implies #[trigger] slice_values(v, k * cl, (k + 1) * cl)
        == slice_values(data, k * cl, (k + 1) * cl) by {
        let kn = k as nat;
        assert((kn + 1) * cl <= nc * cl) by (nonlinear_arith)
            requires
                kn < nc,
        ;
        assert(kn * cl + cl == (kn + 1) * cl) by (nonlinear_arith);
        let off = chunk_offset(m, version, min, i, kn);
        let cs = var.chunk_size();
        let cb = chunk_bytes(data, kn, cl);
        lemma_chunk_in_file(m, version, min, i, kn);
        assert(w * cl == cl * w) by (nonlinear_arith);
        assert(w * cl <= cs);
        assert(b.subrange(off as int, (off + cs) as int) == cb);
        let sd = slice_values(data, (kn * cl) as int, ((kn + 1) * cl) as int);
        let sv = slice_values(v, (kn * cl) as int, ((kn + 1) * cl) as int);
        crate::io::header::lemma_values_bytes_len(sd);
        crate::io::header::lemma_values_bytes_len(sv);
        assert(sd.len() == cl);
        assert(values_bytes(sd).len() == w * cl);
        assert(cb.subrange(0, (w * cl) as int) =~= values_bytes(sd));
        assert(b.subrange(off as int, (off + w * cl) as int) =~= cb.subrange(0, (w * cl) as int));
        assert(values_bytes(sv) == b.subrange(off as int, (off + w * cl) as int));
        crate::io::data::lemma_values_bytes_injective(sv, sd);
    }
    crate::io::data::lemma_values_chunks_equal(v, data, nc, cl);
}

struct WriterState {
    data_set: DataSet,
    version: Version,
    header_min_size: usize,
    layout: DataSetLayout,
    written: Vec<bool>,
    bytes: Vec<u8>,
}

impl WriterState {
    spec fn plan_wf(&self) -> bool {
        let m = self.data_set@;
        let min = self.header_min_size as nat;
        &&& m.wf()
        &&& self.layout.plans(m, self.version, min)
        &&& data_end(m.vars, header_size(m, self.version, min)) <= offset_limit()
        &&& self.written@.len() == m.vars.len()
    }

    spec fn wf(&self) -> bool {
        &&& self.plan_wf()
        &&& self.bytes@.len() == planned_file_size(self.data_set@, self.version, self.header_min_size as nat)
    }
}

/// Builds a file image: the header once, then each variable's data; `close` fills the
/// variables that were not written with their fill value.
pub struct FileWriter {
    state: Option<WriterState>,
}

impl FileWriter {
    #[verifier::type_invariant]
    spec fn inv(&self) -> bool {
        match self.state {
            Some(s) => s.wf(),
            None => true,
        }
    }

    pub closed spec fn header_defined(&self) -> bool {
        self.state is Some
    }

    /// The dataset that the header describes.
    pub closed spec fn model(&self) -> DataSetModel {
        self.state->Some_0.data_set@
    }

    pub closed spec fn version_spec(&self) -> Version {
        self.state->Some_0.version
    }

    pub closed spec fn min_size(&self) -> nat {
        self.state->Some_0.header_min_size as nat
    }

    /// The bytes of the file so far.
    pub closed spec fn file_bytes(&self) -> Seq<u8> {
        self.state->Some_0.bytes@
    }

    /// Which variables have been written.
    pub closed spec fn written(&self) -> Seq<bool> {
        self.state->Some_0.written@
    }

    /// A writer with no header yet.
    pub fn new() -> (r: FileWriter)
        ensures
            !r.header_defined(),
    {
        FileWriter { state: None }
    }

    pub fn header_is_defined(&self) -> (r: bool)
        ensures
            r == self.header_defined(),
    {
        self.state.is_some()
    }

    /// The dataset that the header describes, once defined.
    pub fn data_set(&self) -> (r: Option<&DataSet>)
        ensures
            r is Some <==> self.header_defined(),
            r is Some ==> r->Some_0@ == self.model(),
    {
        match &self.state {
            Some(s) => Some(&s.data_set),
            None => None,
        }
    }

    pub fn version(&self) -> (r: Option<Version>)
        ensures
            r is Some <==> self.header_defined(),
            r is Some ==> r->Some_0 == self.version_spec(),
    {
        match &self.state {
            Some(s) => Some(s.version),
            None => None,
        }
    }

    pub fn header_min_size(&self) -> (r: Option<usize>)
        ensures
            r is Some <==> self.header_defined(),
            r is Some ==> r->Some_0 == self.min_size(),
    {
        match &self.state {
            Some(s) => Some(s.header_min_size),
            None => None,
        }
    }

    /// Writes the data of the variable of that name at its planned place.
    pub fn write_var(&mut self, var_name: &str, data: &DataVector) -> (r: Result<(), WriteError>)
        ensures
            ({
                let m = old(self).model();
                let i = m.var_index(var_name@);
                if !old(self).header_defined() {
                    r == Err::<(), WriteError>(WriteError::HeaderNotDefined)
                } else if !m.has_var(var_name@) {
                    r matches Err(WriteError::VariableNotDefined(n)) && n@ == var_name@
                } else if data@.data_type() != m.vars[i].data_type {
                    r matches Err(WriteError::VariableMismatchDataType { var_name: n, req, get })
                        && n@ == var_name@ && req == m.vars[i].data_type && get == data@.data_type()
                } else if data@.len() != m.vars[i].len() {
                    r matches Err(WriteError::VariableMismatchDataLength { var_name: n, req, get })
                        && n@ == var_name@ && req == saturate(m.vars[i].len()) && get == data@.len()
                } else {
                    r is Ok
                }
            }),
            r is Err ==> *final(self) == *old(self),
            r is Ok ==> ({
                let m = old(self).model();
                let i = m.var_index(var_name@);
                &&& final(self).header_defined()
                &&& final(self).model() == m
                &&& final(self).version_spec() == old(self).version_spec()
                &&& final(self).min_size() == old(self).min_size()
                &&& final(self).written() == old(self).written().update(i, true)
                &&& final(self).file_bytes().len() == old(self).file_bytes().len()
                &&& holds_chunks(final(self).file_bytes(), m, old(self).version_spec(), old(self).min_size(), i, data@)
                &&& forall|q: int| 0 <= q < old(self).file_bytes().len()
                    && outside_var(m, old(self).version_spec(), old(self).min_size(), i, q)
                    ==> final(self).file_bytes()[q] == old(self).file_bytes()[q]
            }),
    {
        proof { use_type_invariant(&*self); }
        let i: usize = match &self.state {
            None => {
                return Err(WriteError::HeaderNotDefined);
            },
            Some(st) => {
                match st.data_set.find_var_from_name(var_name) {
                    Ok(i) => i,
                    Err(_) => {
                        return Err(WriteError::VariableNotDefined(var_name.to_owned()));
                    },
                }
            },
        };
        let mut state: Option<WriterState> = None;
        std::mem::swap(&mut state, &mut self.state);
        let mut st: WriterState = state.unwrap();
        let vars = st.data_set.get_vars();
        assert(vars@[i as int]@ == st.data_set@.vars[i as int]);
        let req: DataType = vars[i].data_type();
        let get: DataType = data.data_type();
        if req != get {
            self.state = Some(st);
            return Err(WriteError::VariableMismatchDataType { var_name: var_name.to_owned(), req, get });
        }
        let _file_len: usize = st.bytes.len();
        proof { lemma_var_len_in_file(st.data_set@, st.version, st.header_min_size as nat, i as int); }
        let len: usize = vars[i].len();
        if len != data.len() {
            self.state = Some(st);
            return Err(WriteError::VariableMismatchDataLength { var_name: var_name.to_owned(), req: len, get: data.len() });
        }
        let mut bytes: Vec<u8> = Vec::new();
        std::mem::swap(&mut bytes, &mut st.bytes);
        write_chunks(&mut bytes, &st, i, data);
        st.bytes = bytes;
        st.written.set(i, true);
        self.state = Some(st);
        Ok(())
    }

    /// The file image, with every variable that was not written filled with its fill value;
    /// empty where no header was defined.
    pub fn close(self) -> (r: Vec<u8>)
        ensures
            !self.header_defined() ==> r@.len() == 0,
            self.header_defined() ==> ({
                let m = self.model();
                let version = self.version_spec();
                let min = self.min_size();
                &&& r@.len() == self.file_bytes().len()
                &&& forall|i: int| 0 <= i < m.vars.len() && !(#[trigger] self.written()[i]) ==> holds_chunks(
                    r@, m, version, min, i, fill_values(m.vars[i].data_type, m.vars[i].len()))
                &&& forall|q: int| 0 <= q < r@.len() && (forall|i: int| 0 <= i < m.vars.len() ==> self.written()[i]
                    || outside_var(m, version, min, i, q)) ==> r@[q] == self.file_bytes()[q]
            }),
    {
        proof { use_type_invariant(&self); }
        let FileWriter { state } = self;
        match state {
            None => Vec::new(),
            Some(mut st) => {
                let ghost m = st.data_set@;
                let ghost version = st.version;
                let ghost min = st.header_min_size as nat;
                let ghost orig = st.bytes@;
                let ghost written = st.written@;
                let mut bytes: Vec<u8> = Vec::new();
                std::mem::swap(&mut bytes, &mut st.bytes);
                let n: usize = st.written.len();
                let file_len: usize = bytes.len();
                let mut i: usize = 0;
                while i < n
                    invariant
                        file_len == orig.len(),
                        st.plan_wf(),
                        m == st.data_set@,
                        version == st.version,
                        min == st.header_min_size as nat,
                        written == st.written@,
                        n == written.len(),
                        n == m.vars.len(),
                        orig.len() == planned_file_size(m, version, min),
                        bytes@.len() == orig.len(),
                        0 <= i <= n,
                        forall|j: int| 0 <= j < i && !(#[trigger] written[j]) ==> holds_chunks(
                            bytes@, m, version, min, j, fill_values(m.vars[j].data_type, m.vars[j].len())),
                        forall|q: int| 0 <= q < orig.len() && (forall|j: int| 0 <= j < i ==> written[j]
                            || outside_var(m, version, min, j, q)) ==> bytes@[q] == orig[q],
                    decreases n - i,
                {
                    if !st.written[i] {
                        let vars = st.data_set.get_vars();
                        assert(vars@[i as int]@ == m.vars[i as int]);
                        proof { lemma_var_len_in_file(m, version, min, i as int); }
                        let fill: DataVector = fill_vector(vars[i].data_type(), vars[i].len());
                        let ghost prev = bytes@;
                        write_chunks(&mut bytes, &st, i, &fill);
                        proof {
                            assert forall|j: int| 0 <= j < i + 1 && !(#[trigger] written[j]) implies holds_chunks(
                                bytes@, m, version, min, j, fill_values(m.vars[j].data_type, m.vars[j].len())) by {
                                if j < i {
                                    lemma_keep_chunks(m, version, min, j, i as int, prev, bytes@,
                                        fill_values(m.vars[j].data_type, m.vars[j].len()));
                                }
                            }
                        }
                    }
                    i = i + 1;
                }
                assert forall|q: int| 0 <= q < bytes@.len() && (forall|j: int| 0 <= j < m.vars.len() ==> written[j]
                    || outside_var(m, version, min, j, q)) implies bytes@[q] == orig[q] by {
                    assert(forall|j: int| 0 <= j < n ==> written[j] || outside_var(m, version, min, j, q));
                }
                assert(self.model() == m);
                assert(self.written() == written);
                assert(self.file_bytes() == orig);
                assert(bytes@.len() == self.file_bytes().len());
                assert(forall|i: int| 0 <= i < m.vars.len() && !(#[trigger] self.written()[i]) ==> holds_chunks(
                    bytes@, m, version, min, i, fill_values(m.vars[i].data_type, m.vars[i].len())));
                bytes
            },
        }
    }

    /// Writes `I8` data of the variable of that name.
    pub fn write_var_i8(&mut self, var_name: &str, data: &[i8]) -> (r: Result<(), WriteError>)
        ensures
            ({
                let m = old(self).model();
                let i = m.var_index(var_name@);
                let d = Values::I8(data@);
                if !old(self).header_defined() {
                    r == Err::<(), WriteError>(WriteError::HeaderNotDefined)
                } else if !m.has_var(var_name@) {
                    r matches Err(WriteError::VariableNotDefined(n)) && n@ == var_name@
                } else if d.data_type() != m.vars[i].data_type {
                    r matches Err(WriteError::VariableMismatchDataType { var_name: n, req, get })
                        && n@ == var_name@ && req == m.vars[i].data_type && get == d.data_type()
                } else if d.len() != m.vars[i].len() {
                    r matches Err(WriteError::VariableMismatchDataLength { var_name: n, req, get })
                        && n@ == var_name@ && req == saturate(m.vars[i].len()) && get == d.len()
                } else {
                    r is Ok
                }
            }),
            r is Err ==> *final(self) == *old(self),
            r is Ok ==> ({
                let m = old(self).model();
                let i = m.var_index(var_name@);
                &&& final(self).header_defined()
                &&& final(self).model() == m
                &&& final(self).version_spec() == old(self).version_spec()
                &&& final(self).min_size() == old(self).min_size()
                &&& final(self).written() == old(self).written().update(i, true)
                &&& final(self).file_bytes().len() == old(self).file_bytes().len()
                &&& holds_chunks(final(self).file_bytes(), m, old(self).version_spec(), old(self).min_size(), i, Values::I8(data@))
                &&& forall|q: int| 0 <= q < old(self).file_bytes().len()
                    && outside_var(m, old(self).version_spec(), old(self).min_size(), i, q)
                    ==> final(self).file_bytes()[q] == old(self).file_bytes()[q]
            }),
    {
        self.write_var(var_name, &DataVector::I8(vstd::slice::slice_to_vec(data)))
    }

    /// Writes `U8` data of the variable of that name.
    pub fn write_var_u8(&mut self, var_name: &str, data: &[u8]) -> (r: Result<(), WriteError>)
        ensures
            ({
                let m = old(self).model();
                let i = m.var_index(var_name@);
                let d = Values::U8(data@);
                if !old(self).header_defined() {
                    r == Err::<(), WriteError>(WriteError::HeaderNotDefined)
                } else if !m.has_var(var_name@) {
                    r matches Err(WriteError::VariableNotDefined(n)) && n@ == var_name@
                } else if d.data_type() != m.vars[i].data_type {
                    r matches Err(WriteError::VariableMismatchDataType { var_name: n, req, get })
                        && n@ == var_name@ && req == m.vars[i].data_type && get == d.data_type()
                } else if d.len() != m.vars[i].len() {
                    r matches Err(WriteError::VariableMismatchDataLength { var_name: n, req, get })
                        && n@ == var_name@ && req == saturate(m.vars[i].len()) && get == d.len()
                } else {
                    r is Ok
                }
            }),
            r is Err ==> *final(self) == *old(self),
            r is Ok ==> ({
                let m = old(self).model();
                let i = m.var_index(var_name@);
                &&& final(self).header_defined()
                &&& final(self).model() == m
                &&& final(self).version_spec() == old(self).version_spec()
                &&& final(self).min_size() == old(self).min_size()
                &&& final(self).written() == old(self).written().update(i, true)
                &&& final(self).file_bytes().len() == old(self).file_bytes().len()
                &&& holds_chunks(final(self).file_bytes(), m, old(self).version_spec(), old(self).min_size(), i, Values::U8(data@))
                &&& forall|q: int| 0 <= q < old(self).file_bytes().len()
                    && outside_var(m, old(self).version_spec(), old(self).min_size(), i, q)
                    ==> final(self).file_bytes()[q] == old(self).file_bytes()[q]
            }),
    {
        self.write_var(var_name, &DataVector::U8(vstd::slice::slice_to_vec(data)))
    }

    /// Writes `I16` data of the variable of that name.
    pub fn write_var_i16(&mut self, var_name: &str, data: &[i16]) -> (r: Result<(), WriteError>)
        ensures
            ({
                let m = old(self).model();
                let i = m.var_index(var_name@);
                let d = Values::I16(data@);
                if !old(self).header_defined() {
                    r == Err::<(), WriteError>(WriteError::HeaderNotDefined)
                } else if !m.has_var(var_name@) {
                    r matches Err(WriteError::VariableNotDefined(n)) && n@ == var_name@
                } else if d.data_type() != m.vars[i].data_type {
                    r matches Err(WriteError::VariableMismatchDataType { var_name: n, req, get })
                        && n@ == var_name@ && req == m.vars[i].data_type && get == d.data_type()
                } else if d.len() != m.vars[i].len() {
                    r matches Err(WriteError::VariableMismatchDataLength { var_name: n, req, get })
                        && n@ == var_name@ && req == saturate(m.vars[i].len()) && get == d.len()
                } else {
                    r is Ok
                }
            }),
            r is Err ==> *final(self) == *old(self),
            r is Ok ==> ({
                let m = old(self).model();
                let i = m.var_index(var_name@);
                &&& final(self).header_defined()
                &&& final(self).model() == m
                &&& final(self).version_spec() == old(self).version_spec()
                &&& final(self).min_size() == old(self).min_size()
                &&& final(self).written() == old(self).written().update(i, true)
                &&& final(self).file_bytes().len() == old(self).file_bytes().len()
                &&& holds_chunks(final(self).file_bytes(), m, old(self).version_spec(), old(self).min_size(), i, Values::I16(data@))
                &&& forall|q: int| 0 <= q < old(self).file_bytes().len()
                    && outside_var(m, old(self).version_spec(), old(self).min_size(), i, q)
                    ==> final(self).file_bytes()[q] == old(self).file_bytes()[q]
            }),
    {
        self.write_var(var_name, &DataVector::I16(vstd::slice::slice_to_vec(data)))
    }

    /// Writes `I32` data of the variable of that name.
    pub fn write_var_i32(&mut self, var_name: &str, data: &[i32]) -> (r: Result<(), WriteError>)
        ensures
            ({
                let m = old(self).model();
                let i = m.var_index(var_name@);
                let d = Values::I32(data@);
                if !old(self).header_defined() {
                    r == Err::<(), WriteError>(WriteError::HeaderNotDefined)
                } else if !m.has_var(var_name@) {
                    r matches Err(WriteError::VariableNotDefined(n)) && n@ == var_name@
                } else if d.data_type() != m.vars[i].data_type {
                    r matches Err(WriteError::VariableMismatchDataType { var_name: n, req, get })
                        && n@ == var_name@ && req == m.vars[i].data_type && get == d.data_type()
                } else if d.len() != m.vars[i].len() {
                    r matches Err(WriteError::VariableMismatchDataLength { var_name: n, req, get })
                        && n@ == var_name@ && req == saturate(m.vars[i].len()) && get == d.len()
                } else {
                    r is Ok
                }
            }),
            r is Err ==> *final(self) == *old(self),
            r is Ok ==> ({
                let m = old(self).model();
                let i = m.var_index(var_name@);
                &&& final(self).header_defined()
                &&& final(self).model() == m
                &&& final(self).version_spec() == old(self).version_spec()
                &&& final(self).min_size() == old(self).min_size()
                &&& final(self).written() == old(self).written().update(i, true)
                &&& final(self).file_bytes().len() == old(self).file_bytes().len()
                &&& holds_chunks(final(self).file_bytes(), m, old(self).version_spec(), old(self).min_size(), i, Values::I32(data@))
                &&& forall|q: int| 0 <= q < old(self).file_bytes().len()
                    && outside_var(m, old(self).version_spec(), old(self).min_size(), i, q)
                    ==> final(self).file_bytes()[q] == old(self).file_bytes()[q]
            }),
    {
        self.write_var(var_name, &DataVector::I32(vstd::slice::slice_to_vec(data)))
    }

    /// Writes `F32` data of the variable of that name. Values are given as IEEE-754 bit patterns.
    pub fn write_var_f32(&mut self, var_name: &str, data: &[u32]) -> (r: Result<(), WriteError>)
        ensures
            ({
                let m = old(self).model();
                let i = m.var_index(var_name@);
                let d = Values::F32(data@);
                if !old(self).header_defined() {
                    r == Err::<(), WriteError>(WriteError::HeaderNotDefined)
                } else if !m.has_var(var_name@) {
                    r matches Err(WriteError::VariableNotDefined(n)) && n@ == var_name@
                } else if d.data_type() != m.vars[i].data_type {
                    r matches Err(WriteError::VariableMismatchDataType { var_name: n, req, get })
                        && n@ == var_name@ && req == m.vars[i].data_type && get == d.data_type()
                } else if d.len() != m.vars[i].len() {
                    r matches Err(WriteError::VariableMismatchDataLength { var_name: n, req, get })
                        && n@ == var_name@ && req == saturate(m.vars[i].len()) && get == d.len()
                } else {
                    r is Ok
                }
            }),
            r is Err ==> *final(self) == *old(self),
            r is Ok ==> ({
                let m = old(self).model();
                let i = m.var_index(var_name@);
                &&& final(self).header_defined()
                &&& final(self).model() == m
                &&& final(self).version_spec() == old(self).version_spec()
                &&& final(self).min_size() == old(self).min_size()
                &&& final(self).written() == old(self).written().update(i, true)
                &&& final(self).file_bytes().len() == old(self).file_bytes().len()
                &&& holds_chunks(final(self).file_bytes(), m, old(self).version_spec(), old(self).min_size(), i, Values::F32(data@))
                &&& forall|q: int| 0 <= q < old(self).file_bytes().len()
                    && outside_var(m, old(self).version_spec(), old(self).min_size(), i, q)
                    ==> final(self).file_bytes()[q] == old(self).file_bytes()[q]
            }),
    {
        self.write_var(var_name, &DataVector::F32(vstd::slice::slice_to_vec(data)))
    }

    /// Writes `F64` data of the variable of that name. Values are given as IEEE-754 bit patterns.
    pub fn write_var_f64(&mut self, var_name: &str, data: &[u64]) -> (r: Result<(), WriteError>)
        ensures
            ({
                let m = old(self).model();
                let i = m.var_index(var_name@);
                let d = Values::F64(data@);
                if !old(self).header_defined() {
                    r == Err::<(), WriteError>(WriteError::HeaderNotDefined)
                } else if !m.has_var(var_name@) {
                    r matches Err(WriteError::VariableNotDefined(n)) && n@ == var_name@
                } else if d.data_type() != m.vars[i].data_type {
                    r matches Err(WriteError::VariableMismatchDataType { var_name: n, req, get })
                        && n@ == var_name@ && req == m.vars[i].data_type && get == d.data_type()
                } else if d.len() != m.vars[i].len() {
                    r matches Err(WriteError::VariableMismatchDataLength { var_name: n, req, get })
                        && n@ == var_name@ && req == saturate(m.vars[i].len()) && get == d.len()
                } else {
                    r is Ok
                }
            }),
            r is Err ==> *final(self) == *old(self),
            r is Ok ==> ({
                let m = old(self).model();
                let i = m.var_index(var_name@);
                &&& final(self).header_defined()
                &&& final(self).model() == m
                &&& final(self).version_spec() == old(self).version_spec()
                &&& final(self).min_size() == old(self).min_size()
                &&& final(self).written() == old(self).written().update(i, true)
                &&& final(self).file_bytes().len() == old(self).file_bytes().len()
                &&& holds_chunks(final(self).file_bytes(), m, old(self).version_spec(), old(self).min_size(), i, Values::F64(data@))
                &&& forall|q: int| 0 <= q < old(self).file_bytes().len()
                    && outside_var(m, old(self).version_spec(), old(self).min_size(), i, q)
                    ==> final(self).file_bytes()[q] == old(self).file_bytes()[q]
            }),
    {
        self.write_var(var_name, &DataVector::F64(vstd::slice::slice_to_vec(data)))
    }

    /// Defines the header: plans the layout of `data_set` and writes its header.
    pub fn set_def(&mut self, data_set: &DataSet, version: Version, header_min_size: usize) -> (r: Result<(), WriteError>)
        ensures
            ({
                let m = data_set@;
                let min = header_min_size as nat;
                let hs = header_size(m, version, min);
                if old(self).header_defined() {
                    r == Err::<(), WriteError>(WriteError::HeaderAlreadyDefined)
                } else if data_end(m.vars, hs) > offset_limit() {
                    r == Err::<(), WriteError>(WriteError::DataSetTooLarge)
                } else if version == Version::Classic && exists|i: int| 0 <= i < m.vars.len() && begin_offset(m.vars, hs, i) > i32::MAX {
                    r == Err::<(), WriteError>(WriteError::ClassicVersionNotPossible)
                } else if planned_file_size(m, version, min) > usize::MAX {
                    r == Err::<(), WriteError>(WriteError::DataSetTooLarge)
                } else {
                    r is Ok
                }
            }),
            r is Err ==> *final(self) == *old(self),
            r is Ok ==> final(self).header_defined() && final(self).model() == data_set@
                && final(self).version_spec() == version && final(self).min_size() == header_min_size as nat
                && final(self).written() == Seq::new(data_set@.vars.len(), |i: int| false)
                && exists|l: DataSetLayout| l.plans(data_set@, version, header_min_size as nat)
                    && final(self).file_bytes() == enc_header(data_set@, version, data_set@.num_records() as u32, l)
                        + zeros((header_size(data_set@, version, header_min_size as nat) - header_required_size(data_set@, version)) as nat)
                        + zeros((planned_file_size(data_set@, version, header_min_size as nat) - header_size(data_set@, version, header_min_size as nat)) as nat),
    {
        if self.state.is_some() {
            return Err(WriteError::HeaderAlreadyDefined);
        }
        let layout = match compute_layout(data_set, version, header_min_size) {
            Ok(l) => l,
            Err(LayoutError::DataSetTooLarge) => {
                return Err(WriteError::DataSetTooLarge);
            },
            Err(LayoutError::ClassicVersionNotPossible) => {
                return Err(WriteError::ClassicVersionNotPossible);
            },
        };
        let ghost m = data_set@;
        let ghost min = header_min_size as nat;
        let ghost lay = layout;
        let _vars = data_set.get_vars();
        let vars_len: usize = data_set.num_vars();
        let hs: u64 = layout.header_size;
        let rs: u64 = layout.record_size;
        let n: usize = data_set.num_records();
        assert((n as u128) * (rs as u128) <= 0xFFFF_FFFF_FFFF_FFFF_0000_0000_0000_0001u128) by (nonlinear_arith)
            requires
                n <= 0xFFFF_FFFF_FFFF_FFFFu128,
                rs <= 0xFFFF_FFFF_FFFF_FFFFu128,
        ;
        let records: u128 = (n as u128) * (rs as u128);
        let total: u128 = hs as u128 + layout.fixed_size as u128 + records;
        assert(total == planned_file_size(m, version, min));
        if total > usize::MAX as u128 {
            return Err(WriteError::DataSetTooLarge);
        }
        let mut bytes: Vec<u8> = write_header(data_set, version, &layout);
        let ghost head = bytes@;
        crate::io::header::push_zeros(&mut bytes, (total - hs as u128) as usize);
        assert(lay.plans(data_set@, version, header_min_size as nat));
        let mut written: Vec<bool> = Vec::new();
        let mut i: usize = 0;
        while i < vars_len
            invariant
                0 <= i <= vars_len,
                written@ == Seq::new(i as nat, |k: int| false),
            decreases vars_len - i,
        {
            written.push(false);
            assert(written@ =~= Seq::new((i + 1) as nat, |k: int| false));
            i = i + 1;
        }
        self.state = Some(WriterState {
            data_set: data_set.duplicate(),
            version,
            header_min_size,
            layout,
            written,
            bytes,
        });
        Ok(())
    }
}

} // verus!
