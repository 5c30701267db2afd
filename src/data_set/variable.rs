use vstd::prelude::*;
use crate::data_type::{DataType, size_of_spec};
use crate::data_vector::{DataVector, Values};
use crate::error::InvalidDataSet;
use crate::name_string::{is_valid_name, is_valid_name_spec, same_name};
use super::attribute::{
    Attribute, AttributeModel, attrs_view, attrs_wf, find_attr, has_attr_named, rename_in_attrs,
    lemma_rename_attrs_wf, lemma_remove_attrs_wf,
};
use super::dimension::{Dimension, DimensionModel};

verus! {

/// A named, typed array over a list of dimensions, with attributes and optional data.
#[derive(Debug, Clone, PartialEq)]
pub struct Variable {
    name: String,
    dims: Vec<Dimension>,
    attrs: Vec<Attribute>,
    data_type: DataType,
    data: Option<DataVector>,
}

/// Mathematical content of a `Variable`.
pub ghost struct VariableModel {
    pub name: Seq<char>,
    pub dims: Seq<DimensionModel>,
    pub attrs: Seq<AttributeModel>,
    pub data_type: DataType,
    pub data: Option<Values>,
}

pub open spec fn dims_view(v: Seq<Dimension>) -> Seq<DimensionModel> {
    v.map_values(|d: Dimension| d@)
}

pub open spec fn dim_names(v: Seq<DimensionModel>) -> Seq<Seq<char>> {
    v.map_values(|d: DimensionModel| d.name)
}

pub open spec fn string_views(v: Seq<String>) -> Seq<Seq<char>> {
    v.map_values(|s: String| s@)
}

/// Product of the sizes of a list of dimensions (1 for the empty list).
pub open spec fn dims_product(dims: Seq<DimensionModel>) -> nat
    decreases dims.len(),
{
    if dims.len() == 0 {
        1
    } else {
        dims[0].size * dims_product(dims.drop_first())
    }
}

/// Zero bytes that bring `n` bytes up to a multiple of four.
pub open spec fn padding(n: nat) -> nat {
    if n % 4 == 0 {
        0
    } else {
        (4 - n % 4) as nat
    }
}

/// `n`, or the largest `usize` where `n` does not fit.
pub open spec fn saturate(n: nat) -> usize {
    if n <= usize::MAX {
        n as usize
    } else {
        usize::MAX
    }
}

impl VariableModel {
    /// A record variable: its first dimension is the unlimited one.
    pub open spec fn is_record(self) -> bool {
        self.dims.len() > 0 && self.dims[0].unlimited
    }

    /// The dimensions that one chunk spans.
    pub open spec fn chunk_dims(self) -> Seq<DimensionModel> {
        if self.is_record() {
            self.dims.drop_first()
        } else {
            self.dims
        }
    }

    /// Number of elements in one chunk.
    pub open spec fn chunk_len(self) -> nat {
        dims_product(self.chunk_dims())
    }

    /// Number of chunks: the record count for a record variable, else one.
    pub open spec fn num_chunks(self) -> nat {
        if self.is_record() {
            self.dims[0].size
        } else {
            1
        }
    }

    /// Number of elements.
    pub open spec fn len(self) -> nat {
        self.num_chunks() * self.chunk_len()
    }

    /// Bytes of the elements of one chunk.
    pub open spec fn chunk_bytes(self) -> nat {
        self.chunk_len() * size_of_spec(self.data_type)
    }

    /// Bytes of one chunk with its padding.
    pub open spec fn chunk_size(self) -> nat {
        self.chunk_bytes() + padding(self.chunk_bytes())
    }

    pub open spec fn uses_dim(self, name: Seq<char>) -> bool {
        exists|k: int| 0 <= k < self.dims.len() && (#[trigger] self.dims[k]).name == name
    }

    /// The unlimited dimension, if used, comes first.
    pub open spec fn unlimited_first(self) -> bool {
        forall|k: int| 1 <= k < self.dims.len() ==> !(#[trigger] self.dims[k]).unlimited
    }

    /// No dimension is used twice.
    pub open spec fn dims_distinct(self) -> bool {
        forall|i: int, j: int| 0 <= i < j < self.dims.len() ==> self.dims[i].name != self.dims[j].name
    }

    pub open spec fn wf(self) -> bool {
        &&& is_valid_name_spec(self.name)
        &&& self.unlimited_first()
        &&& self.dims_distinct()
        &&& attrs_wf(self.attrs)
        &&& self.data is Some ==> self.data->Some_0.data_type() == self.data_type
            && self.data->Some_0.len() == self.len()
    }
}

/// The number of elements is the product of all dimension sizes.
pub proof fn lemma_len_is_product(v: VariableModel)
    ensures
        v.len() == dims_product(v.dims),
{
    if v.is_record() {
        assert(v.len() == v.dims[0].size * dims_product(v.dims.drop_first()));
    } else {
        assert(v.len() == 1 * dims_product(v.dims));
    }
}

/// A chunk holds its elements, rounded up to a multiple of four bytes.
pub proof fn lemma_chunk_size(v: VariableModel)
    ensures
        v.chunk_size() % 4 == 0,
        v.chunk_size() >= v.chunk_len() * size_of_spec(v.data_type),
        v.chunk_size() < v.chunk_len() * size_of_spec(v.data_type) + 4,
{
}

/// Product of the sizes of `dims[start..]`, saturated, and whether it overflowed.
fn product_from(dims: &Vec<Dimension>, start: usize) -> (r: (usize, bool))
    requires
        start <= dims@.len(),
    ensures
        r.0 == saturate(dims_product(dims_view(dims@).subrange(start as int, dims@.len() as int))),
        r.1 == (dims_product(dims_view(dims@).subrange(start as int, dims@.len() as int))
            > usize::MAX),
{
    let ghost dv = dims_view(dims@);
    let n: usize = dims.len();
    let mut i: usize = n;
    let mut acc: usize = 1;
    let mut over: bool = false;
    assert(dv.subrange(n as int, n as int).len() == 0);
    while i > start
        invariant
            start <= i <= n,
            n == dims@.len(),
            dv == dims_view(dims@),
            over == (dims_product(dv.subrange(i as int, n as int)) > usize::MAX),
            acc == saturate(dims_product(dv.subrange(i as int, n as int))),
        decreases i,
    {
        let d: usize = dims[i - 1].size();
        let ghost t: nat = dims_product(dv.subrange(i as int, n as int));
        assert(dv.subrange(i - 1, n as int).drop_first() =~= dv.subrange(i as int, n as int));
        assert(dims_product(dv.subrange(i - 1, n as int)) == d * t);
        if d == 0 {
            assert(d * t == 0) by (nonlinear_arith)
                requires
                    d == 0,
            ;
            acc = 0;
            over = false;
        } else if over {
            assert(d * t > usize::MAX) by (nonlinear_arith)
                requires
                    d >= 1,
                    t > usize::MAX,
            ;
        } else {
            match d.checked_mul(acc) {
                Some(x) => {
                    acc = x;
                },
                None => {
                    acc = usize::MAX;
                    over = true;
                },
            }
        }
        i = i - 1;
    }
    (acc, over)
}

impl View for Variable {
    type V = VariableModel;

    closed spec fn view(&self) -> VariableModel {
        VariableModel {
            name: self.name@,
            dims: dims_view(self.dims@),
            attrs: attrs_view(self.attrs@),
            data_type: self.data_type,
            data: match self.data {
                Some(d) => Some(d@),
                None => None,
            },
        }
    }
}

impl Variable {
    /// A variable without attributes or data; fails when the name is not valid or the
    /// dimension list breaks a rule.
    pub(crate) fn new(var_name: &str, var_dims: Vec<Dimension>, data_type: DataType) -> (r: Result<
        Variable,
        InvalidDataSet,
    >)
        ensures
            r is Ok <==> is_valid_name_spec(var_name@) && dims_rules_hold(dims_view(var_dims@)),
            !is_valid_name_spec(var_name@) ==> (r matches Err(InvalidDataSet::VariableNameNotValid(n))
                && n@ == var_name@),
            is_valid_name_spec(var_name@) ==> dims_error(err_of(r), var_name@, dims_view(var_dims@)),
            r is Ok ==> r->Ok_0@ == (VariableModel {
                name: var_name@,
                dims: dims_view(var_dims@),
                attrs: Seq::empty(),
                data_type,
                data: None,
            }),
    {
        Variable::check_var_name(var_name)?;
        Variable::check_dims_validity(var_name, &var_dims)?;
        let r = Variable { name: var_name.to_owned(), dims: var_dims, attrs: Vec::new(), data_type, data: None };
        assert(attrs_view(r.attrs@) =~= Seq::empty());
        Ok(r)
    }

    pub fn name(&self) -> (r: &str)
        ensures
            r@ == self@.name,
    {
        self.name.as_str()
    }

    pub fn data_type(&self) -> (r: DataType)
        ensures
            r == self@.data_type,
    {
        self.data_type
    }

    /// Number of elements (the largest `usize` where it does not fit).
    pub fn len(&self) -> (r: usize)
        ensures
            r == saturate(self@.len()),
    {
        proof {
            lemma_len_is_product(self@);
            assert(dims_view(self.dims@).subrange(0, self.dims@.len() as int) =~= self@.dims);
        }
        product_from(&self.dims, 0).0
    }

    /// Whether a dimension of that name is among this variable's dimensions.
    pub fn use_dim(&self, dim_name: &str) -> (r: bool)
        ensures
            r == self@.uses_dim(dim_name@),
    {
        let mut i: usize = 0;
        while i < self.dims.len()
            invariant
                0 <= i <= self.dims@.len(),
                forall|k: int| 0 <= k < i ==> self@.dims[k].name != dim_name@,
            decreases self.dims@.len() - i,
        {
            if same_name(self.dims[i].name_str(), dim_name) {
                assert(self@.dims[i as int].name == dim_name@);
                return true;
            }
            i = i + 1;
        }
        false
    }

    pub fn num_dims(&self) -> (r: usize)
        ensures
            r == self@.dims.len(),
    {
        self.dims.len()
    }

    /// Copies of the dimensions, in order.
    pub fn get_dims(&self) -> (r: Vec<Dimension>)
        ensures
            dims_view(r@) == self@.dims,
    {
        let mut r: Vec<Dimension> = Vec::new();
        let mut i: usize = 0;
        while i < self.dims.len()
            invariant
                0 <= i <= self.dims@.len(),
                r@.len() == i,
                forall|k: int| 0 <= k < i ==> (#[trigger] r@[k])@ == self.dims@[k]@,
            decreases self.dims@.len() - i,
        {
            r.push(self.dims[i].duplicate());
            i = i + 1;
        }
        assert(dims_view(r@) =~= self@.dims);
        r
    }

    /// Names of the dimensions, in order.
    pub fn get_dim_names(&self) -> (r: Vec<String>)
        ensures
            string_views(r@) == dim_names(self@.dims),
    {
        names_of_dims(&self.dims)
    }

    pub fn is_record_var(&self) -> (r: bool)
        ensures
            r == self@.is_record(),
    {
        if self.dims.len() == 0 {
            false
        } else {
            self.dims[0].is_unlimited()
        }
    }

    pub fn num_attrs(&self) -> (r: usize)
        ensures
            r == self@.attrs.len(),
    {
        self.attrs.len()
    }

    pub fn has_attr(&self, attr_name: &str) -> (r: bool)
        ensures
            r == exists|i: int| 0 <= i < self@.attrs.len() && (#[trigger] self@.attrs[i]).name == attr_name@,
    {
        match find_attr(&self.attrs, attr_name) {
            Some(i) => {
                assert(self@.attrs[i as int].name == attr_name@);
                true
            },
            None => {
                assert(forall|i: int| 0 <= i < self@.attrs.len() ==> self.attrs@[i]@ == self@.attrs[i]);
                false
            },
        }
    }

    /// Number of elements in one chunk (the largest `usize` where it does not fit).
    pub fn num_elements_per_chunk(&self) -> (r: usize)
        ensures
            r == saturate(self@.chunk_len()),
    {
        let start: usize = if self.is_record_var() { 1 } else { 0 };
        proof {
            let dv = dims_view(self.dims@);
            if self@.is_record() {
                assert(dv.subrange(1, dv.len() as int) =~= dv.drop_first());
            } else {
                assert(dv.subrange(0, dv.len() as int) =~= dv);
            }
        }
        product_from(&self.dims, start).0
    }

    /// Number of elements in one chunk, where it fits in a `usize`.
    pub fn chunk_len_checked(&self) -> (r: Option<usize>)
        ensures
            r is Some <==> self@.chunk_len() <= usize::MAX,
            r is Some ==> r->Some_0 == self@.chunk_len(),
    {
        let start: usize = if self.is_record_var() { 1 } else { 0 };
        proof {
            let dv = dims_view(self.dims@);
            if self@.is_record() {
                assert(dv.subrange(1, dv.len() as int) =~= dv.drop_first());
            } else {
                assert(dv.subrange(0, dv.len() as int) =~= dv);
            }
        }
        let (len, over) = product_from(&self.dims, start);
        if over {
            None
        } else {
            Some(len)
        }
    }

    /// Bytes of one chunk with its padding, where that fits in a `usize`.
    pub fn chunk_size_checked(&self) -> (r: Option<usize>)
        ensures
            r is Some <==> self@.chunk_size() <= usize::MAX,
            r is Some ==> r->Some_0 == self@.chunk_size(),
    {
        let start: usize = if self.is_record_var() { 1 } else { 0 };
        proof {
            let dv = dims_view(self.dims@);
            if self@.is_record() {
                assert(dv.subrange(1, dv.len() as int) =~= dv.drop_first());
            } else {
                assert(dv.subrange(0, dv.len() as int) =~= dv);
            }
        }
        let (len, over) = product_from(&self.dims, start);
        let w: usize = self.data_type.size_of();
        let ghost cl = self@.chunk_len();
        if over {
            assert(cl * w >= cl) by (nonlinear_arith)
                requires
                    w >= 1,
            ;
            return None;
        }
        match len.checked_mul(w) {
            None => None,
            Some(b) => {
                let pad: usize = crate::io::compute_num_bytes_zero_padding(b);
                match b.checked_add(pad) {
                    None => None,
                    Some(s) => Some(s),
                }
            },
        }
    }

    /// Bytes of one chunk with its padding (the largest `usize` where it does not fit).
    pub fn chunk_size(&self) -> (r: usize)
        ensures
            r == saturate(self@.chunk_size()),
            self@.chunk_size() <= usize::MAX ==> r % 4 == 0 && r >= self@.chunk_len() * size_of_spec(self@.data_type),
    {
        proof { lemma_chunk_size(self@); }
        match self.chunk_size_checked() {
            Some(s) => s,
            None => usize::MAX,
        }
    }

    /// Number of chunks: the record count for a record variable, else one.
    pub fn num_chunks(&self) -> (r: usize)
        ensures
            r == self@.num_chunks(),
    {
        if self.is_record_var() {
            self.dims[0].size()
        } else {
            1
        }
    }

    /// The attributes, in order.
    pub fn get_attrs(&self) -> (r: &Vec<Attribute>)
        ensures
            attrs_view(r@) == self@.attrs,
    {
        &self.attrs
    }

    /// Names of the attributes, in order.
    pub fn get_attr_names(&self) -> (r: Vec<String>)
        ensures
            string_views(r@) == super::attribute::attr_names(self@.attrs),
    {
        let mut r: Vec<String> = Vec::new();
        let mut i: usize = 0;
        while i < self.attrs.len()
            invariant
                0 <= i <= self.attrs@.len(),
                r@.len() == i,
                forall|k: int| 0 <= k < i ==> (#[trigger] r@[k])@ == self.attrs@[k]@.name,
            decreases self.attrs@.len() - i,
        {
            r.push(self.attrs[i].name().to_owned());
            i = i + 1;
        }
        assert(string_views(r@) =~= super::attribute::attr_names(self@.attrs));
        r
    }

    /// The attribute of that name, if any.
    pub fn get_attr(&self, attr_name: &str) -> (r: Option<&Attribute>)
        ensures
            r is Some <==> exists|i: int| 0 <= i < self@.attrs.len() && (#[trigger] self@.attrs[i]).name == attr_name@,
            r is Some ==> r->Some_0@.name == attr_name@ && self@.attrs.contains(r->Some_0@),
    {
        match find_attr(&self.attrs, attr_name) {
            Some(i) => {
                assert(self@.attrs[i as int] == self.attrs@[i as int]@);
                Some(&self.attrs[i])
            },
            None => {
                assert(forall|i: int| 0 <= i < self@.attrs.len() ==> self.attrs@[i]@ == self@.attrs[i]);
                None
            },
        }
    }

    /// Position of the attribute of that name.
    pub(crate) fn find_attr_from_name(&self, attr_name: &str) -> (r: Result<usize, InvalidDataSet>)
        ensures
            r is Ok ==> r->Ok_0 < self@.attrs.len() && self@.attrs[r->Ok_0 as int].name == attr_name@,
            r is Err ==> (forall|i: int| 0 <= i < self@.attrs.len() ==> (#[trigger] self@.attrs[i]).name != attr_name@)
                && (r->Err_0 matches InvalidDataSet::VariableAttributeNotDefined { var_name, attr_name: a }
                    && var_name@ == self@.name && a@ == attr_name@),
    {
        match find_attr(&self.attrs, attr_name) {
            Some(i) => Ok(i),
            None => {
                assert(forall|i: int| 0 <= i < self@.attrs.len() ==> self.attrs@[i]@ == self@.attrs[i]);
                Err(
                    InvalidDataSet::VariableAttributeNotDefined {
                        var_name: self.name.clone(),
                        attr_name: attr_name.to_owned(),
                    },
                )
            },
        }
    }

    pub(crate) fn check_var_name(var_name: &str) -> (r: Result<(), InvalidDataSet>)
        ensures
            r is Ok <==> is_valid_name_spec(var_name@),
            r is Err ==> (r matches Err(InvalidDataSet::VariableNameNotValid(n)) && n@ == var_name@),
    {
        if is_valid_name(var_name) {
            Ok(())
        } else {
            Err(InvalidDataSet::VariableNameNotValid(var_name.to_owned()))
        }
    }

    /// Checks that the unlimited dimension, if used, comes first, and that no dimension is
    /// used twice.
    fn check_dims_validity(var_name: &str, dims: &Vec<Dimension>) -> (r: Result<(), InvalidDataSet>)
        ensures
            r is Ok <==> dims_rules_hold(dims_view(dims@)),
            dims_error(err_of(r), var_name@, dims_view(dims@)),
    {
        let ghost dv = dims_view(dims@);
        let ghost m = VariableModel { name: var_name@, dims: dv, attrs: Seq::empty(), data_type: DataType::I8, data: None };
        let n: usize = dims.len();
        let mut k: usize = 1;
        while k < n
            invariant
                1 <= k,
                n == dims@.len(),
                dv == dims_view(dims@),
                m.dims == dv,
                forall|j: int| 1 <= j < k && j < n ==> !(#[trigger] dv[j]).unlimited,
            decreases n - k,
        {
            if dims[k].is_unlimited() {
                assert(dv[k as int].unlimited);
                return Err(
                    InvalidDataSet::UnlimitedDimensionMustBeDefinedFirst {
                        var_name: var_name.to_owned(),
                        unlim_dim_name: dims[k].name(),
                        get_dim_names: names_of_dims(dims),
                    },
                );
            }
            k = k + 1;
        }
        assert(m.unlimited_first());
        let mut i: usize = 0;
        while i < n
            invariant
                n == dims@.len(),
                dv == dims_view(dims@),
                m.dims == dv,
                m.unlimited_first(),
                0 <= i <= n,
                forall|a: int, b: int| 0 <= a < b < i ==> dv[a].name != dv[b].name,
            decreases n - i,
        {
            let mut j: usize = 0;
            while j < i
                invariant
                    n == dims@.len(),
                    dv == dims_view(dims@),
                    0 <= j <= i < n,
                    m.dims == dv,
                    m.unlimited_first(),
                    forall|a: int| 0 <= a < j ==> dv[a].name != dv[i as int].name,
                decreases i - j,
            {
                if same_name(dims[j].name_str(), dims[i].name_str()) {
                    assert(dv[j as int].name == dv[i as int].name);
                    assert(forall|k: int| 1 <= k < dv.len() ==> !(#[trigger] dv[k]).unlimited);
                    return Err(
                        InvalidDataSet::DimensionsUsedMultipleTimes {
                            var_name: var_name.to_owned(),
                            get_dim_names: names_of_dims(dims),
                        },
                    );
                }
                j = j + 1;
            }
            i = i + 1;
        }
        Ok(())
    }

    /// Sets the data; fails when its type or its length does not match the variable.
    pub fn set_data(&mut self, data: DataVector) -> (r: Result<(), InvalidDataSet>)
        requires
            old(self)@.wf(),
        ensures
            set_data_outcome(old(self)@, data@, r),
            r is Ok ==> final(self)@ == (VariableModel { data: Some(data@), ..old(self)@ }),
            r is Err ==> final(self)@ == old(self)@,
            final(self)@.wf(),
    {
        let t: DataType = data.data_type();
        if self.data_type != t {
            return Err(
                InvalidDataSet::VariableMismatchDataType {
                    var_name: self.name.clone(),
                    req: self.data_type,
                    get: t,
                },
            );
        }
        let var_len: usize = self.len();
        let data_len: usize = data.len();
        if var_len != data_len || (var_len == usize::MAX && !self.len_fits()) {
            return Err(
                InvalidDataSet::VariableMismatchDataLength {
                    var_name: self.name.clone(),
                    req: var_len,
                    get: data_len,
                },
            );
        }
        self.data = Some(data);
        Ok(())
    }

    /// Whether the number of elements fits in a `usize`.
    fn len_fits(&self) -> (r: bool)
        ensures
            r == (self@.len() <= usize::MAX),
    {
        proof {
            lemma_len_is_product(self@);
            assert(dims_view(self.dims@).subrange(0, self.dims@.len() as int) =~= self@.dims);
        }
        !product_from(&self.dims, 0).1
    }

    pub fn set_i8(&mut self, data: Vec<i8>) -> (r: Result<(), InvalidDataSet>)
        requires
            old(self)@.wf(),
        ensures
            set_data_outcome(old(self)@, Values::I8(data@), r),
            r is Ok ==> final(self)@ == (VariableModel { data: Some(Values::I8(data@)), ..old(self)@ }),
            r is Err ==> final(self)@ == old(self)@,
            final(self)@.wf(),
    {
        self.set_data(DataVector::I8(data))
    }

    pub fn set_u8(&mut self, data: Vec<u8>) -> (r: Result<(), InvalidDataSet>)
        requires
            old(self)@.wf(),
        ensures
            set_data_outcome(old(self)@, Values::U8(data@), r),
            r is Ok ==> final(self)@ == (VariableModel { data: Some(Values::U8(data@)), ..old(self)@ }),
            r is Err ==> final(self)@ == old(self)@,
            final(self)@.wf(),
    {
        self.set_data(DataVector::U8(data))
    }

    pub fn set_i16(&mut self, data: Vec<i16>) -> (r: Result<(), InvalidDataSet>)
        requires
            old(self)@.wf(),
        ensures
            set_data_outcome(old(self)@, Values::I16(data@), r),
            r is Ok ==> final(self)@ == (VariableModel { data: Some(Values::I16(data@)), ..old(self)@ }),
            r is Err ==> final(self)@ == old(self)@,
            final(self)@.wf(),
    {
        self.set_data(DataVector::I16(data))
    }

    pub fn set_i32(&mut self, data: Vec<i32>) -> (r: Result<(), InvalidDataSet>)
        requires
            old(self)@.wf(),
        ensures
            set_data_outcome(old(self)@, Values::I32(data@), r),
            r is Ok ==> final(self)@ == (VariableModel { data: Some(Values::I32(data@)), ..old(self)@ }),
            r is Err ==> final(self)@ == old(self)@,
            final(self)@.wf(),
    {
        self.set_data(DataVector::I32(data))
    }

    /// Sets `F32` data from the bit patterns of its values.
    pub fn set_f32(&mut self, data: Vec<u32>) -> (r: Result<(), InvalidDataSet>)
        requires
            old(self)@.wf(),
        ensures
            set_data_outcome(old(self)@, Values::F32(data@), r),
            r is Ok ==> final(self)@ == (VariableModel { data: Some(Values::F32(data@)), ..old(self)@ }),
            r is Err ==> final(self)@ == old(self)@,
            final(self)@.wf(),
    {
        self.set_data(DataVector::F32(data))
    }

    /// Sets `F64` data from the bit patterns of its values.
    pub fn set_f64(&mut self, data: Vec<u64>) -> (r: Result<(), InvalidDataSet>)
        requires
            old(self)@.wf(),
        ensures
            set_data_outcome(old(self)@, Values::F64(data@), r),
            r is Ok ==> final(self)@ == (VariableModel { data: Some(Values::F64(data@)), ..old(self)@ }),
            r is Err ==> final(self)@ == old(self)@,
            final(self)@.wf(),
    {
        self.set_data(DataVector::F64(data))
    }


    /// Adds an attribute; fails when one of that name exists.
    pub(crate) fn add_attr(&mut self, new_attr: Attribute) -> (r: Result<(), InvalidDataSet>)
        requires
            old(self)@.wf(),
            is_valid_name_spec(new_attr@.name),
        ensures
            r is Ok <==> !has_attr_named(old(self)@.attrs, new_attr@.name),
            r is Ok ==> final(self)@ == (VariableModel { attrs: old(self)@.attrs.push(new_attr@), ..old(self)@ }),
            r is Err ==> final(self)@ == old(self)@ && (r matches Err(InvalidDataSet::VariableAttributeAlreadyExists { var_name, attr_name })
                && var_name@ == old(self)@.name && attr_name@ == new_attr@.name),
            final(self)@.wf(),
    {
        match find_attr(&self.attrs, new_attr.name()) {
            Some(j) => {
                assert(self@.attrs[j as int] == self.attrs@[j as int]@);
                return Err(
                    InvalidDataSet::VariableAttributeAlreadyExists {
                        var_name: self.name.clone(),
                        attr_name: new_attr.name().to_owned(),
                    },
                );
            },
            None => {},
        }
        let ghost before = self.attrs@;
        self.attrs.push(new_attr);
        proof {
            assert(attrs_view(self.attrs@) =~= attrs_view(before).push(new_attr@));
            assert(forall|i: int| 0 <= i < before.len() ==> before[i]@ == attrs_view(before)[i]);
        }
        Ok(())
    }

    /// Adds an attribute with the given values; fails when the name is not valid or is taken.
    pub(crate) fn add_attr_values(&mut self, attr_name: &str, data: DataVector) -> (r: Result<(), InvalidDataSet>)
        requires
            old(self)@.wf(),
        ensures
            add_attr_outcome(old(self)@, attr_name@, err_of(r)),
            r is Ok ==> final(self)@ == (VariableModel {
                attrs: old(self)@.attrs.push(AttributeModel { name: attr_name@, values: data@ }),
                ..old(self)@
            }),
            r is Err ==> final(self)@ == old(self)@,
            final(self)@.wf(),
    {
        let attr = match Attribute::new(attr_name, data) {
            Ok(a) => a,
            Err(n) => {
                return Err(
                    InvalidDataSet::VariableAttributeNameNotValid { var_name: self.name.clone(), attr_name: n },
                );
            },
        };
        self.add_attr(attr)
    }

    /// Renames an attribute; nothing happens when the two names are equal.
    pub(crate) fn rename_attr(&mut self, old_attr_name: &str, new_attr_name: &str) -> (r: Result<(), InvalidDataSet>)
        requires
            old(self)@.wf(),
        ensures
            rename_attr_outcome(old(self)@, old_attr_name@, new_attr_name@, err_of(r)),
            r is Ok && old_attr_name@ != new_attr_name@ ==> final(self)@ == (VariableModel {
                attrs: rename_in_attrs(old(self)@.attrs, old_attr_name@, new_attr_name@),
                ..old(self)@
            }),
            r is Err || old_attr_name@ == new_attr_name@ ==> final(self)@ == old(self)@,
            final(self)@.wf(),
    {
        if same_name(old_attr_name, new_attr_name) {
            return Ok(());
        }
        let index: usize = self.find_attr_from_name(old_attr_name)?;
        match find_attr(&self.attrs, new_attr_name) {
            Some(j) => {
                assert(self@.attrs[j as int] == self.attrs@[j as int]@);
                return Err(
                    InvalidDataSet::VariableAttributeAlreadyExists {
                        var_name: self.name.clone(),
                        attr_name: new_attr_name.to_owned(),
                    },
                );
            },
            None => {},
        }
        match Attribute::check_attr_name(new_attr_name) {
            Ok(()) => {},
            Err(n) => {
                return Err(
                    InvalidDataSet::VariableAttributeNameNotValid { var_name: self.name.clone(), attr_name: n },
                );
            },
        }
        let ghost before = self@;
        let mut attr = self.attrs.remove(index);
        attr.set_name(new_attr_name);
        self.attrs.insert(index, attr);
        proof {
            assert(forall|i: int| 0 <= i < before.attrs.len() ==> (#[trigger] before.attrs[i]).name != new_attr_name@);
            lemma_rename_attrs_wf(before.attrs, old_attr_name@, new_attr_name@);
            assert(attrs_view(self.attrs@) =~= rename_in_attrs(before.attrs, old_attr_name@, new_attr_name@));
        }
        Ok(())
    }

    /// Removes the attribute of that name and hands it back.
    pub fn remove_attr(&mut self, attr_name: &str) -> (r: Result<Attribute, InvalidDataSet>)
        requires
            old(self)@.wf(),
        ensures
            r is Ok <==> has_attr_named(old(self)@.attrs, attr_name@),
            r is Ok ==> exists|i: int| 0 <= i < old(self)@.attrs.len() && old(self)@.attrs[i].name == attr_name@
                && (#[trigger] old(self)@.attrs[i]) == r->Ok_0@
                && final(self)@ == (VariableModel { attrs: old(self)@.attrs.remove(i), ..old(self)@ }),
            r is Err ==> final(self)@ == old(self)@ && (r matches Err(InvalidDataSet::VariableAttributeNotDefined { var_name, attr_name: a })
                && var_name@ == old(self)@.name && a@ == attr_name@),
            final(self)@.wf(),
    {
        let index: usize = self.find_attr_from_name(attr_name)?;
        let ghost before = self@;
        let a = self.attrs.remove(index);
        proof {
            assert(attrs_view(self.attrs@) =~= before.attrs.remove(index as int));
            lemma_remove_attrs_wf(before.attrs, index as int);
        }
        Ok(a)
    }

    /// Renames the dimension called `old` among this variable's dimensions, if used.
    pub(crate) fn rename_dim(&mut self, old_name: &str, new_name: &str)
        ensures
            final(self)@ == (VariableModel { dims: rename_in_dims(old(self)@.dims, old_name@, new_name@), ..old(self)@ }),
    {
        let ghost before = self@;
        let mut i: usize = 0;
        while i < self.dims.len()
            invariant
                0 <= i <= self.dims@.len(),
                self.dims@.len() == before.dims.len(),
                self@ == (VariableModel { dims: self@.dims, ..before }),
                forall|k: int| 0 <= k < i ==> (#[trigger] self.dims@[k])@ == rename_dim_model(before.dims[k], old_name@, new_name@),
                forall|k: int| i <= k < self.dims@.len() ==> (#[trigger] self.dims@[k])@ == before.dims[k],
            decreases self.dims@.len() - i,
        {
            let ghost prev = self.dims@;
            if same_name(self.dims[i].name_str(), old_name) {
                let mut d = self.dims.remove(i);
                d.set_name(new_name);
                let ghost dv = d@;
                self.dims.insert(i, d);
                assert(self.dims@ =~= prev.update(i as int, self.dims@[i as int]));
                assert(self.dims@[i as int]@ == dv);
            }
            i = i + 1;
        }
        assert(self@.dims =~= rename_in_dims(before.dims, old_name@, new_name@));
    }

    pub(crate) fn set_name(&mut self, name: &str)
        ensures
            final(self)@ == (VariableModel { name: name@, ..old(self)@ }),
    {
        self.name = name.to_owned();
    }

    /// A copy with the same content.
    pub fn duplicate(&self) -> (r: Variable)
        ensures
            r@ == self@,
    {
        let mut dims: Vec<Dimension> = Vec::new();
        let mut i: usize = 0;
        while i < self.dims.len()
            invariant
                0 <= i <= self.dims@.len(),
                dims@.len() == i,
                forall|k: int| 0 <= k < i ==> (#[trigger] dims@[k])@ == self.dims@[k]@,
            decreases self.dims@.len() - i,
        {
            dims.push(self.dims[i].duplicate());
            i = i + 1;
        }
        let mut attrs: Vec<Attribute> = Vec::new();
        let mut j: usize = 0;
        while j < self.attrs.len()
            invariant
                0 <= j <= self.attrs@.len(),
                attrs@.len() == j,
                forall|k: int| 0 <= k < j ==> (#[trigger] attrs@[k])@ == self.attrs@[k]@,
            decreases self.attrs@.len() - j,
        {
            attrs.push(self.attrs[j].duplicate());
            j = j + 1;
        }
        let data = match &self.data {
            Some(d) => Some(d.duplicate()),
            None => None,
        };
        let r = Variable { name: self.name.clone(), dims, attrs, data_type: self.data_type, data };
        assert(dims_view(r.dims@) =~= dims_view(self.dims@));
        assert(attrs_view(r.attrs@) =~= attrs_view(self.attrs@));
        r
    }

    /// The data, if set.
    pub fn data(&self) -> (r: Option<&DataVector>)
        ensures
            r is Some <==> self@.data is Some,
            r is Some ==> r->Some_0@ == self@.data->Some_0,
    {
        match &self.data {
            Some(d) => Some(d),
            None => None,
        }
    }

    pub fn get_i8(&self) -> (r: Option<&[i8]>)
        ensures
            r is Some <==> self@.data matches Some(Values::I8(_)),
            r is Some ==> self@.data == Some(Values::I8(r->Some_0@)),
    {
        match &self.data {
            Some(DataVector::I8(v)) => Some(v.as_slice()),
            _ => None,
        }
    }

    pub fn get_u8(&self) -> (r: Option<&[u8]>)
        ensures
            r is Some <==> self@.data matches Some(Values::U8(_)),
            r is Some ==> self@.data == Some(Values::U8(r->Some_0@)),
    {
        match &self.data {
            Some(DataVector::U8(v)) => Some(v.as_slice()),
            _ => None,
        }
    }

    pub fn get_i16(&self) -> (r: Option<&[i16]>)
        ensures
            r is Some <==> self@.data matches Some(Values::I16(_)),
            r is Some ==> self@.data == Some(Values::I16(r->Some_0@)),
    {
        match &self.data {
            Some(DataVector::I16(v)) => Some(v.as_slice()),
            _ => None,
        }
    }

    pub fn get_i32(&self) -> (r: Option<&[i32]>)
        ensures
            r is Some <==> self@.data matches Some(Values::I32(_)),
            r is Some ==> self@.data == Some(Values::I32(r->Some_0@)),
    {
        match &self.data {
            Some(DataVector::I32(v)) => Some(v.as_slice()),
            _ => None,
        }
    }

    /// The bit patterns of `F32` data.
    pub fn get_f32(&self) -> (r: Option<&[u32]>)
        ensures
            r is Some <==> self@.data matches Some(Values::F32(_)),
            r is Some ==> self@.data == Some(Values::F32(r->Some_0@)),
    {
        match &self.data {
            Some(DataVector::F32(v)) => Some(v.as_slice()),
            _ => None,
        }
    }

    /// The bit patterns of `F64` data.
    pub fn get_f64(&self) -> (r: Option<&[u64]>)
        ensures
            r is Some <==> self@.data matches Some(Values::F64(_)),
            r is Some ==> self@.data == Some(Values::F64(r->Some_0@)),
    {
        match &self.data {
            Some(DataVector::F64(v)) => Some(v.as_slice()),
            _ => None,
        }
    }
}

/// The two rules on a variable's dimension list.
pub open spec fn dims_rules_hold(dims: Seq<DimensionModel>) -> bool {
    &&& forall|k: int| 1 <= k < dims.len() ==> !(#[trigger] dims[k]).unlimited
    &&& forall|i: int, j: int| 0 <= i < j < dims.len() ==> dims[i].name != dims[j].name
}

/// The error that a dimension list breaking a rule gives: first the unlimited-first rule,
/// then the rule against repeats; each error lists all the dimension names.
pub open spec fn dims_error(e: Option<InvalidDataSet>, var: Seq<char>, dims: Seq<DimensionModel>) -> bool {
    if exists|k: int| 1 <= k < dims.len() && (#[trigger] dims[k]).unlimited {
        e matches Some(InvalidDataSet::UnlimitedDimensionMustBeDefinedFirst { var_name, unlim_dim_name, get_dim_names })
            && var_name@ == var && string_views(get_dim_names@) == dim_names(dims)
            && exists|k: int| 1 <= k < dims.len() && (#[trigger] dims[k]).unlimited && dims[k].name == unlim_dim_name@
    } else if exists|i: int, j: int| 0 <= i < j < dims.len() && dims[i].name == dims[j].name {
        e matches Some(InvalidDataSet::DimensionsUsedMultipleTimes { var_name, get_dim_names })
            && var_name@ == var && string_views(get_dim_names@) == dim_names(dims)
    } else {
        e is None
    }
}

/// The list with the dimension named `old` renamed `new`.
pub open spec fn rename_in_dims(v: Seq<DimensionModel>, old: Seq<char>, new: Seq<char>) -> Seq<DimensionModel> {
    v.map_values(|d: DimensionModel| rename_dim_model(d, old, new))
}

pub open spec fn rename_dim_model(d: DimensionModel, old: Seq<char>, new: Seq<char>) -> DimensionModel {
    if d.name == old {
        DimensionModel { name: new, ..d }
    } else {
        d
    }
}

/// What adding an attribute named `name` to `v` gives: an invalid name first, then a taken one.
pub open spec fn add_attr_outcome(v: VariableModel, name: Seq<char>, e: Option<InvalidDataSet>) -> bool {
    if !is_valid_name_spec(name) {
        e matches Some(InvalidDataSet::VariableAttributeNameNotValid { var_name, attr_name })
            && var_name@ == v.name && attr_name@ == name
    } else if has_attr_named(v.attrs, name) {
        e matches Some(InvalidDataSet::VariableAttributeAlreadyExists { var_name, attr_name })
            && var_name@ == v.name && attr_name@ == name
    } else {
        e is None
    }
}

/// What renaming an attribute of `v` gives.
pub open spec fn rename_attr_outcome(v: VariableModel, old: Seq<char>, new: Seq<char>, e: Option<InvalidDataSet>) -> bool {
    if old == new {
        e is None
    } else if !has_attr_named(v.attrs, old) {
        e matches Some(InvalidDataSet::VariableAttributeNotDefined { var_name, attr_name })
            && var_name@ == v.name && attr_name@ == old
    } else if has_attr_named(v.attrs, new) {
        e matches Some(InvalidDataSet::VariableAttributeAlreadyExists { var_name, attr_name })
            && var_name@ == v.name && attr_name@ == new
    } else if !is_valid_name_spec(new) {
        e matches Some(InvalidDataSet::VariableAttributeNameNotValid { var_name, attr_name })
            && var_name@ == v.name && attr_name@ == new
    } else {
        e is None
    }
}

/// The error of a result, if any.
pub open spec fn err_of<T>(r: Result<T, InvalidDataSet>) -> Option<InvalidDataSet> {
    match r {
        Ok(_) => None,
        Err(e) => Some(e),
    }
}

/// What setting `data` on `v` gives: a type mismatch first, then a length mismatch, else success.
pub open spec fn set_data_outcome(v: VariableModel, data: Values, r: Result<(), InvalidDataSet>) -> bool {
    if data.data_type() != v.data_type {
        r matches Err(InvalidDataSet::VariableMismatchDataType { var_name, req, get })
            && var_name@ == v.name && req == v.data_type && get == data.data_type()
    } else if data.len() != v.len() {
        r matches Err(InvalidDataSet::VariableMismatchDataLength { var_name, req, get })
            && var_name@ == v.name && req == saturate(v.len()) && get == data.len()
    } else {
        r is Ok
    }
}

/// Names of a list of dimensions, in order.
pub(crate) fn names_of_dims(dims: &Vec<Dimension>) -> (r: Vec<String>)
    ensures
        string_views(r@) == dim_names(dims_view(dims@)),
{
    let mut r: Vec<String> = Vec::new();
    let mut i: usize = 0;
    while i < dims.len()
        invariant
            0 <= i <= dims@.len(),
            r@.len() == i,
            forall|k: int| 0 <= k < i ==> (#[trigger] r@[k])@ == dims@[k]@.name,
        decreases dims@.len() - i,
    {
        r.push(dims[i].name());
        i = i + 1;
    }
    assert(string_views(r@) =~= dim_names(dims_view(dims@)));
    r
}

} // verus!
