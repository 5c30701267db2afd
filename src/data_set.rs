use vstd::prelude::*;

pub mod dimension;
pub mod attribute;
pub mod variable;

use crate::data_type::DataType;
use crate::data_vector::{DataVector, Values};
use crate::error::InvalidDataSet;
use crate::name_string::{is_valid_name_spec, same_name};
use attribute::{
    Attribute, AttributeModel, attrs_view, attrs_wf, attr_names, find_attr, has_attr_named,
    rename_in_attrs, lemma_rename_attrs_wf, lemma_remove_attrs_wf, attr_index, lemma_attr_index,
    lemma_push_attrs_wf,
};
use dimension::{Dimension, DimensionModel, DimensionType};
use variable::{
    Variable, VariableModel, dims_view, dim_names, string_views, dims_product, rename_in_dims,
    rename_dim_model, lemma_len_is_product, err_of, saturate, add_attr_outcome, rename_attr_outcome,
    set_data_outcome, dims_rules_hold, dims_error,
};

verus! {

/// The in-memory model of a dataset: dimensions, global attributes and variables, in order.
#[derive(Debug, PartialEq)]
pub struct DataSet {
    dims: Vec<Dimension>,
    attrs: Vec<Attribute>,
    vars: Vec<Variable>,
}

/// Mathematical content of a `DataSet`.
pub ghost struct DataSetModel {
    pub dims: Seq<DimensionModel>,
    pub attrs: Seq<AttributeModel>,
    pub vars: Seq<VariableModel>,
}

pub open spec fn vars_view(v: Seq<Variable>) -> Seq<VariableModel> {
    v.map_values(|x: Variable| x@)
}

impl View for DataSet {
    type V = DataSetModel;

    closed spec fn view(&self) -> DataSetModel {
        DataSetModel {
            dims: dims_view(self.dims@),
            attrs: attrs_view(self.attrs@),
            vars: vars_view(self.vars@),
        }
    }
}

impl DataSetModel {
    pub open spec fn empty() -> DataSetModel {
        DataSetModel { dims: Seq::empty(), attrs: Seq::empty(), vars: Seq::empty() }
    }

    pub open spec fn has_dim(self, name: Seq<char>) -> bool {
        exists|i: int| 0 <= i < self.dims.len() && (#[trigger] self.dims[i]).name == name
    }

    pub open spec fn has_var(self, name: Seq<char>) -> bool {
        exists|i: int| 0 <= i < self.vars.len() && (#[trigger] self.vars[i]).name == name
    }

    pub open spec fn has_unlimited(self) -> bool {
        exists|i: int| 0 <= i < self.dims.len() && (#[trigger] self.dims[i]).unlimited
    }

    /// Position of the dimension of that name.
    pub open spec fn dim_index(self, name: Seq<char>) -> int {
        choose|i: int| 0 <= i < self.dims.len() && (#[trigger] self.dims[i]).name == name
    }

    /// Position of the variable of that name.
    pub open spec fn var_index(self, name: Seq<char>) -> int {
        choose|i: int| 0 <= i < self.vars.len() && (#[trigger] self.vars[i]).name == name
    }

    /// Position of the unlimited dimension.
    pub open spec fn unlimited_index(self) -> int {
        choose|i: int| 0 <= i < self.dims.len() && (#[trigger] self.dims[i]).unlimited
    }

    /// Valid, distinct names, and at most one unlimited dimension.
    pub open spec fn dims_wf(self) -> bool {
        &&& forall|i: int| 0 <= i < self.dims.len() ==> is_valid_name_spec(#[trigger] self.dims[i].name)
        &&& forall|i: int, j: int| 0 <= i < j < self.dims.len() ==> self.dims[i].name != self.dims[j].name
        &&& forall|i: int, j: int|
            #![trigger self.dims[i], self.dims[j]]
            0 <= i < j < self.dims.len() ==> !(self.dims[i].unlimited && self.dims[j].unlimited)
    }

    /// Each dimension of `v` is one of the dataset's dimensions.
    pub open spec fn var_dims_defined(self, v: VariableModel) -> bool {
        forall|k: int| 0 <= k < v.dims.len() ==> self.dims.contains(#[trigger] v.dims[k])
    }

    pub open spec fn wf(self) -> bool {
        &&& self.dims_wf()
        &&& attrs_wf(self.attrs)
        &&& forall|i: int, j: int| 0 <= i < j < self.vars.len() ==> self.vars[i].name != self.vars[j].name
        &&& forall|i: int| 0 <= i < self.vars.len() ==> (#[trigger] self.vars[i]).wf() && self.var_dims_defined(self.vars[i])
    }

    /// Number of records: the size of the unlimited dimension, else zero.
    pub open spec fn num_records(self) -> nat {
        if self.has_unlimited() {
            self.dims[self.unlimited_index()].size
        } else {
            0
        }
    }

    /// The model with one more dimension at the end.
    pub open spec fn with_dim(self, name: Seq<char>, size: nat, unlimited: bool) -> DataSetModel {
        DataSetModel { dims: self.dims.push(DimensionModel { name, size, unlimited }), ..self }
    }

    /// The model without its `i`-th dimension.
    pub open spec fn without_dim(self, i: int) -> DataSetModel {
        DataSetModel { dims: self.dims.remove(i), ..self }
    }

    /// The model with the dimension `old` renamed `new`, in the dataset and in every variable.
    pub open spec fn with_dim_renamed(self, old: Seq<char>, new: Seq<char>) -> DataSetModel {
        DataSetModel {
            dims: rename_in_dims(self.dims, old, new),
            attrs: self.attrs,
            vars: self.vars.map_values(|v: VariableModel| VariableModel { dims: rename_in_dims(v.dims, old, new), ..v }),
        }
    }

    /// Names of the variables that use the dimension `name`.
    pub open spec fn vars_using(self, name: Seq<char>) -> Seq<Seq<char>> {
        self.vars.filter(|v: VariableModel| v.uses_dim(name)).map_values(|v: VariableModel| v.name)
    }
}

/// Names of the variables of `vars` that use the dimension `name`, in order.
pub open spec fn names_using(vars: Seq<VariableModel>, name: Seq<char>) -> Seq<Seq<char>>
    decreases vars.len(),
{
    if vars.len() == 0 {
        Seq::empty()
    } else {
        let rest = names_using(vars.drop_last(), name);
        if vars.last().uses_dim(name) {
            rest.push(vars.last().name)
        } else {
            rest
        }
    }
}

/// The names of `names` that are not dimensions of `m`, in order.
pub open spec fn undefined_names(m: DataSetModel, names: Seq<Seq<char>>) -> Seq<Seq<char>>
    decreases names.len(),
{
    if names.len() == 0 {
        Seq::empty()
    } else {
        let rest = undefined_names(m, names.drop_last());
        if !m.has_dim(names.last()) {
            rest.push(names.last())
        } else {
            rest
        }
    }
}

/// The ids of `ids` that are not positions in a list of `n` dimensions, in order.
pub open spec fn invalid_ids(ids: Seq<usize>, n: nat) -> Seq<usize>
    decreases ids.len(),
{
    if ids.len() == 0 {
        Seq::empty()
    } else {
        let rest = invalid_ids(ids.drop_last(), n);
        if ids.last() >= n {
            rest.push(ids.last())
        } else {
            rest
        }
    }
}

pub open spec fn str_views(v: Seq<&str>) -> Seq<Seq<char>> {
    v.map_values(|s: &str| s@)
}

impl DataSetModel {
    /// The dimensions of `m` named by `names`, in that order.
    pub open spec fn resolve(self, names: Seq<Seq<char>>) -> Seq<DimensionModel> {
        names.map_values(|n: Seq<char>| self.dims[self.dim_index(n)])
    }

    /// The model with one more variable at the end.
    pub open spec fn with_var(self, v: VariableModel) -> DataSetModel {
        DataSetModel { vars: self.vars.push(v), ..self }
    }

    /// A new variable without attributes or data.
    pub open spec fn new_var(name: Seq<char>, dims: Seq<DimensionModel>, t: DataType) -> VariableModel {
        VariableModel { name, dims, attrs: Seq::empty(), data_type: t, data: None }
    }
}

/// What adding a variable gives: undefined dimensions first, then a taken name, an invalid
/// name, and a dimension list that breaks a rule.
pub open spec fn add_var_outcome(m: DataSetModel, name: Seq<char>, names: Seq<Seq<char>>, e: Option<InvalidDataSet>) -> bool {
    if exists|k: int| 0 <= k < names.len() && !m.has_dim(#[trigger] names[k]) {
        e matches Some(InvalidDataSet::DimensionsNotDefined { var_name, get_undef_dim_names })
            && var_name@ == name && string_views(get_undef_dim_names@) == undefined_names(m, names)
    } else if m.has_var(name) {
        e matches Some(InvalidDataSet::VariableAlreadyExists(n)) && n@ == name
    } else if !is_valid_name_spec(name) {
        e matches Some(InvalidDataSet::VariableNameNotValid(n)) && n@ == name
    } else {
        dims_error(e, name, m.resolve(names))
    }
}

/// Removing an unused dimension keeps the model well formed.
pub proof fn lemma_without_dim_wf(m: DataSetModel, i: int)
    requires
        m.wf(),
        0 <= i < m.dims.len(),
        forall|v: int| 0 <= v < m.vars.len() ==> !(#[trigger] m.vars[v]).uses_dim(m.dims[i].name),
    ensures
        m.without_dim(i).wf(),
{
    let n = m.without_dim(i);
    assert forall|a: int, b: int| 0 <= a < b < n.dims.len() implies n.dims[a].name != n.dims[b].name
        && !(n.dims[a].unlimited && n.dims[b].unlimited) by {
        let a2 = if a < i { a } else { a + 1 };
        let b2 = if b < i { b } else { b + 1 };
        assert(n.dims[a] == m.dims[a2] && n.dims[b] == m.dims[b2]);
    }
    assert forall|a: int| 0 <= a < n.dims.len() implies is_valid_name_spec(#[trigger] n.dims[a].name) by {
        let a2 = if a < i { a } else { a + 1 };
        assert(n.dims[a] == m.dims[a2]);
    }
    assert forall|v: int| 0 <= v < n.vars.len() implies n.var_dims_defined(#[trigger] n.vars[v]) by {
        assert forall|k: int| 0 <= k < n.vars[v].dims.len() implies n.dims.contains(#[trigger] n.vars[v].dims[k]) by {
            let d = m.vars[v].dims[k];
            assert(m.var_dims_defined(m.vars[v]));
            assert(m.dims.contains(d));
            let j = choose|j: int| 0 <= j < m.dims.len() && m.dims[j] == d;
            if j == i {
                assert(m.vars[v].uses_dim(m.dims[i].name));
            } else if j < i {
                assert(n.dims[j] == d);
            } else {
                assert(n.dims[j - 1] == d);
            }
        }
    }
}

/// Renaming a dimension to a fresh valid name keeps the model well formed.
pub proof fn lemma_rename_dim_wf(m: DataSetModel, old: Seq<char>, new: Seq<char>)
    requires
        m.wf(),
        !m.has_dim(new),
        is_valid_name_spec(new),
    ensures
        m.with_dim_renamed(old, new).wf(),
{
    let n = m.with_dim_renamed(old, new);
    assert forall|a: int, b: int| 0 <= a < b < n.dims.len() implies n.dims[a].name != n.dims[b].name by {
        if m.dims[a].name == old {
            assert(m.dims[b].name != old);
            assert(m.dims[b].name != new);
        } else if m.dims[b].name == old {
            assert(m.dims[a].name != new);
        }
    }
    assert forall|a: int, b: int| 0 <= a < b < n.dims.len() implies !(n.dims[a].unlimited && n.dims[b].unlimited) by {
        assert(!(m.dims[a].unlimited && m.dims[b].unlimited));
    }
    assert forall|v: int| 0 <= v < n.vars.len() implies (#[trigger] n.vars[v]).wf() && n.var_dims_defined(n.vars[v]) by {
        let mv = m.vars[v];
        let nv = n.vars[v];
        assert(mv.wf() && m.var_dims_defined(mv));
        assert forall|k: int| 0 <= k < nv.dims.len() implies n.dims.contains(#[trigger] nv.dims[k]) by {
            assert(m.dims.contains(mv.dims[k]));
            let j = choose|j: int| 0 <= j < m.dims.len() && m.dims[j] == mv.dims[k];
            assert(n.dims[j] == nv.dims[k]);
        }
        assert forall|a: int, b: int| 0 <= a < b < nv.dims.len() implies nv.dims[a].name != nv.dims[b].name by {
            assert(m.dims.contains(mv.dims[a]));
            assert(m.dims.contains(mv.dims[b]));
            let ja = choose|j: int| 0 <= j < m.dims.len() && m.dims[j] == mv.dims[a];
            let jb = choose|j: int| 0 <= j < m.dims.len() && m.dims[j] == mv.dims[b];
            assert(mv.dims[a].name != new);
            assert(mv.dims[b].name != new);
        }
        assert(nv.unlimited_first());
        lemma_len_is_product(mv);
        lemma_len_is_product(nv);
        lemma_rename_product(mv.dims, old, new);
    }
}

/// Adding a variable whose dimensions are the dataset's keeps the model well formed.
pub proof fn lemma_with_var_wf(m: DataSetModel, v: VariableModel)
    requires
        m.wf(),
        v.wf(),
        m.var_dims_defined(v),
        !m.has_var(v.name),
    ensures
        m.with_var(v).wf(),
{
    let n = m.with_var(v);
    assert forall|i: int, j: int| 0 <= i < j < n.vars.len() implies n.vars[i].name != n.vars[j].name by {
        if j == m.vars.len() {
            assert(m.vars[i].name != v.name);
        }
    }
    assert forall|i: int| 0 <= i < n.vars.len() implies (#[trigger] n.vars[i]).wf() && n.var_dims_defined(n.vars[i]) by {
        if i < m.vars.len() {
            assert(n.vars[i] == m.vars[i]);
        }
    }
}

impl DataSetModel {
    /// The model with its `i`-th variable replaced by `v`.
    pub open spec fn with_var_at(self, i: int, v: VariableModel) -> DataSetModel {
        DataSetModel { vars: self.vars.update(i, v), ..self }
    }

    /// The model without its `i`-th variable.
    pub open spec fn without_var(self, i: int) -> DataSetModel {
        DataSetModel { vars: self.vars.remove(i), ..self }
    }
}

/// Replacing a variable by a well-formed one over the dataset's dimensions, under a name no
/// other variable has, keeps the model well formed.
pub proof fn lemma_with_var_at_wf(m: DataSetModel, i: int, v: VariableModel)
    requires
        m.wf(),
        0 <= i < m.vars.len(),
        v.wf(),
        m.var_dims_defined(v),
        forall|j: int| 0 <= j < m.vars.len() && j != i ==> (#[trigger] m.vars[j]).name != v.name,
    ensures
        m.with_var_at(i, v).wf(),
{
    let n = m.with_var_at(i, v);
    assert forall|a: int, b: int| 0 <= a < b < n.vars.len() implies n.vars[a].name != n.vars[b].name by {
        if a != i && b != i {
            assert(m.vars[a].name != m.vars[b].name);
        }
    }
}

/// Removing a variable keeps the model well formed.
pub proof fn lemma_without_var_wf(m: DataSetModel, i: int)
    requires
        m.wf(),
        0 <= i < m.vars.len(),
    ensures
        m.without_var(i).wf(),
{
    let n = m.without_var(i);
    assert forall|a: int, b: int| 0 <= a < b < n.vars.len() implies n.vars[a].name != n.vars[b].name by {
        let a2 = if a < i { a } else { a + 1 };
        let b2 = if b < i { b } else { b + 1 };
        assert(n.vars[a] == m.vars[a2] && n.vars[b] == m.vars[b2]);
    }
    assert forall|a: int| 0 <= a < n.vars.len() implies (#[trigger] n.vars[a]).wf() && n.var_dims_defined(n.vars[a]) by {
        let a2 = if a < i { a } else { a + 1 };
        assert(n.vars[a] == m.vars[a2]);
    }
}

impl DataSetModel {
    /// The variable of that name has an attribute of that name.
    pub open spec fn has_var_attr(self, var: Seq<char>, attr: Seq<char>) -> bool {
        self.has_var(var) && has_attr_named(self.vars[self.var_index(var)].attrs, attr)
    }

    /// The attribute `attr` of the variable `var`.
    pub open spec fn var_attr(self, var: Seq<char>, attr: Seq<char>) -> AttributeModel {
        let v = self.vars[self.var_index(var)];
        v.attrs[attr_index(v.attrs, attr)]
    }

    /// The global attribute of that name.
    pub open spec fn global_attr(self, attr: Seq<char>) -> AttributeModel {
        self.attrs[attr_index(self.attrs, attr)]
    }

    /// The model with a different list of global attributes.
    pub open spec fn with_attrs(self, attrs: Seq<AttributeModel>) -> DataSetModel {
        DataSetModel { attrs, ..self }
    }
}

/// Changing the global attributes to a well-formed list keeps the model well formed.
pub proof fn lemma_with_attrs_wf(m: DataSetModel, attrs: Seq<AttributeModel>)
    requires
        m.wf(),
        attrs_wf(attrs),
    ensures
        m.with_attrs(attrs).wf(),
{
    let n = m.with_attrs(attrs);
    assert forall|i: int| 0 <= i < n.vars.len() implies (#[trigger] n.vars[i]).wf() && n.var_dims_defined(n.vars[i]) by {
        assert(m.vars[i].wf() && m.var_dims_defined(m.vars[i]));
    }
}

/// A variable is a record variable exactly when its first dimension is the dataset's
/// unlimited dimension; no later dimension is unlimited; a record variable has one chunk per
/// record.
pub proof fn lemma_record_vars(m: DataSetModel, i: int)
    requires
        m.wf(),
        0 <= i < m.vars.len(),
    ensures
        m.vars[i].is_record() <==> (m.has_unlimited() && m.vars[i].dims.len() > 0
            && m.vars[i].dims[0] == m.dims[m.unlimited_index()]),
        forall|k: int| 1 <= k < m.vars[i].dims.len() ==> !(#[trigger] m.vars[i].dims[k]).unlimited,
        m.vars[i].is_record() ==> m.vars[i].num_chunks() == m.num_records(),
{
    let v = m.vars[i];
    assert(v.wf() && m.var_dims_defined(v));
    if v.is_record() {
        assert(m.dims.contains(v.dims[0]));
        let j = choose|j: int| 0 <= j < m.dims.len() && m.dims[j] == v.dims[0];
        assert(m.dims[j].unlimited);
        assert(m.has_unlimited());
        let u = m.unlimited_index();
        assert(m.dims[u].unlimited);
        if j < u {
            assert(!(m.dims[j].unlimited && m.dims[u].unlimited));
        } else if u < j {
            assert(!(m.dims[u].unlimited && m.dims[j].unlimited));
        }
    }
}

/// Removing a dimension and adding it again with the same name, size and kind gives the same
/// dimensions, the new one at the end, with attributes and variables unchanged; the second
/// step is owed to succeed (the name is free again and valid, and no other unlimited
/// dimension exists).
pub proof fn lemma_remove_then_add_dim(m: DataSetModel, i: int)
    requires
        m.wf(),
        0 <= i < m.dims.len(),
    ensures
        ({
            let d = m.dims[i];
            let removed = m.without_dim(i);
            let back = removed.with_dim(d.name, d.size, d.unlimited);
            &&& !removed.has_dim(d.name)
            &&& is_valid_name_spec(d.name)
            &&& d.unlimited ==> !removed.has_unlimited()
            &&& back.attrs == m.attrs
            &&& back.vars == m.vars
            &&& back.dims.len() == m.dims.len()
            &&& back.dims.to_multiset() == m.dims.to_multiset()
        }),
{
    let d = m.dims[i];
    let removed = m.without_dim(i);
    assert forall|j: int| 0 <= j < removed.dims.len() implies (#[trigger] removed.dims[j]).name != d.name by {
        let j2 = if j < i { j } else { j + 1 };
        assert(removed.dims[j] == m.dims[j2]);
    }
    if d.unlimited {
        assert forall|j: int| 0 <= j < removed.dims.len() implies !(#[trigger] removed.dims[j]).unlimited by {
            let j2 = if j < i { j } else { j + 1 };
            assert(removed.dims[j] == m.dims[j2]);
            if j2 < i {
                assert(!(m.dims[j2].unlimited && m.dims[i].unlimited));
            } else {
                assert(!(m.dims[i].unlimited && m.dims[j2].unlimited));
            }
        }
    }
    let back = removed.with_dim(d.name, d.size, d.unlimited);
    assert(DimensionModel { name: d.name, size: d.size, unlimited: d.unlimited } == d);
    assert(back.dims =~= m.dims.remove(i).push(d));
    m.dims.to_multiset_ensures();
    m.dims.remove(i).to_multiset_ensures();
    assert(m.dims.remove(i).to_multiset() =~= m.dims.to_multiset().remove(d));
    assert(m.dims.contains(d));
    assert(m.dims.to_multiset().count(d) > 0);
    assert(m.dims.to_multiset().remove(d).insert(d) =~= m.dims.to_multiset());
    assert(back.dims.to_multiset() =~= m.dims.to_multiset());
}

/// Where no id is out of range, every id is in range.
pub proof fn lemma_no_invalid_ids(ids: Seq<usize>, n: nat)
    requires
        invalid_ids(ids, n).len() == 0,
    ensures
        forall|k: int| 0 <= k < ids.len() ==> ids[k] < n,
    decreases ids.len(),
{
    if ids.len() > 0 {
        let rest = invalid_ids(ids.drop_last(), n);
        if ids.last() >= n {
            assert(invalid_ids(ids, n).len() == rest.len() + 1);
        }
        lemma_no_invalid_ids(ids.drop_last(), n);
        assert forall|k: int| 0 <= k < ids.len() implies ids[k] < n by {
            if k < ids.len() - 1 {
                assert(ids.drop_last()[k] == ids[k]);
            }
        }
    }
}

/// Product of dimension sizes does not depend on their names.
pub proof fn lemma_rename_product(d: Seq<DimensionModel>, old: Seq<char>, new: Seq<char>)
    ensures
        dims_product(rename_in_dims(d, old, new)) == dims_product(d),
    decreases d.len(),
{
    if d.len() > 0 {
        assert(rename_in_dims(d, old, new).drop_first() =~= rename_in_dims(d.drop_first(), old, new));
        lemma_rename_product(d.drop_first(), old, new);
    }
}

/// Position of the dimension of that name, if any.
fn find_dim(dims: &Vec<Dimension>, name: &str) -> (r: Option<usize>)
    ensures
        r is Some ==> r->Some_0 < dims@.len() && dims@[r->Some_0 as int]@.name == name@,
        r is None ==> forall|i: int| 0 <= i < dims@.len() ==> (#[trigger] dims@[i])@.name != name@,
{
    let mut i: usize = 0;
    while i < dims.len()
        invariant
            0 <= i <= dims@.len(),
            forall|k: int| 0 <= k < i ==> (#[trigger] dims@[k])@.name != name@,
        decreases dims@.len() - i,
    {
        if same_name(dims[i].name_str(), name) {
            return Some(i);
        }
        i = i + 1;
    }
    None
}

impl DataSet {
    #[verifier::type_invariant]
    spec fn inv(&self) -> bool {
        self@.wf()
    }

    /// An empty dataset.
    pub fn new() -> (r: DataSet)
        ensures
            r@ == DataSetModel::empty(),
    {
        let dims: Vec<Dimension> = Vec::new();
        let attrs: Vec<Attribute> = Vec::new();
        let vars: Vec<Variable> = Vec::new();
        assert(dims_view(dims@) =~= Seq::empty());
        assert(attrs_view(attrs@) =~= Seq::empty());
        assert(vars_view(vars@) =~= Seq::empty());
        DataSet { dims, attrs, vars }
    }

    /// Position of the dimension of that name, if any.
    fn find_dim_from_name(&self, dim_name: &str) -> (r: Option<usize>)
        ensures
            r is Some ==> r->Some_0 < self@.dims.len() && self@.dims[r->Some_0 as int].name == dim_name@
                && r->Some_0 == self@.dim_index(dim_name@),
            r is None <==> !self@.has_dim(dim_name@),
    {
        proof { use_type_invariant(self); }
        let r = find_dim(&self.dims, dim_name);
        proof {
            if r is Some {
                let i = r->Some_0 as int;
                assert(self@.dims[i] == self.dims@[i]@);
                let j = self@.dim_index(dim_name@);
                assert(self@.dims[j].name == dim_name@);
            } else {
                assert(forall|i: int| 0 <= i < self@.dims.len() ==> self@.dims[i] == self.dims@[i]@);
            }
        }
        r
    }

    /// Moves the three lists out, leaving an empty dataset.
    fn take_parts(&mut self) -> (r: (Vec<Dimension>, Vec<Attribute>, Vec<Variable>))
        ensures
            final(self)@ == DataSetModel::empty(),
            (DataSetModel { dims: dims_view(r.0@), attrs: attrs_view(r.1@), vars: vars_view(r.2@) })
                == old(self)@,
            old(self)@.wf(),
    {
        proof { use_type_invariant(&*self); }
        let mut vars: Vec<Variable> = Vec::new();
        assert(vars_view(vars@) =~= Seq::empty());
        assert((DataSetModel { vars: vars_view(vars@), ..self@ }).wf());
        std::mem::swap(&mut vars, &mut self.vars);
        let mut attrs: Vec<Attribute> = Vec::new();
        assert(attrs_view(attrs@) =~= Seq::empty());
        std::mem::swap(&mut attrs, &mut self.attrs);
        let mut dims: Vec<Dimension> = Vec::new();
        assert(dims_view(dims@) =~= Seq::empty());
        std::mem::swap(&mut dims, &mut self.dims);
        assert(self@ =~~= DataSetModel::empty());
        (dims, attrs, vars)
    }

    fn push_dim(&mut self, dim: Dimension)
        requires
            old(self)@.with_dim(dim@.name, dim@.size, dim@.unlimited).wf(),
        ensures
            final(self)@ == old(self)@.with_dim(dim@.name, dim@.size, dim@.unlimited),
    {
        let ghost dv = dim@;
        let (mut dims, attrs, vars) = self.take_parts();
        let ghost before = dims@;
        dims.push(dim);
        assert(dims_view(dims@) =~= dims_view(before).push(dv));
        *self = DataSet { dims, attrs, vars };
    }

    /// Adds a fixed-size dimension at the end of the list.
    pub fn add_fixed_dim(&mut self, dim_name: &str, dim_size: usize) -> (r: Result<(), InvalidDataSet>)
        ensures
            if old(self)@.has_dim(dim_name@) {
                r matches Err(InvalidDataSet::DimensionAlreadyExists(n)) && n@ == dim_name@
            } else if !is_valid_name_spec(dim_name@) {
                r matches Err(InvalidDataSet::DimensionNameNotValid(n)) && n@ == dim_name@
            } else {
                r is Ok
            },
            r is Ok ==> final(self)@ == old(self)@.with_dim(dim_name@, dim_size as nat, false),
            r is Err ==> final(self)@ == old(self)@,
    {
        proof { use_type_invariant(&*self); }
        if self.find_dim_from_name(dim_name).is_some() {
            return Err(InvalidDataSet::DimensionAlreadyExists(dim_name.to_owned()));
        }
        let dim = Dimension::new_fixed_size(dim_name, dim_size)?;
        proof { DataSet::lemma_push_dim_wf(self@, dim@); }
        self.push_dim(dim);
        Ok(())
    }

    /// Adds the unlimited dimension, whose current size is `dim_size`, at the end of the list.
    pub fn set_unlimited_dim(&mut self, dim_name: &str, dim_size: usize) -> (r: Result<(), InvalidDataSet>)
        ensures
            if old(self)@.has_unlimited() {
                r matches Err(InvalidDataSet::UnlimitedDimensionAlreadyExists(n))
                    && n@ == old(self)@.dims[old(self)@.unlimited_index()].name
            } else if old(self)@.has_dim(dim_name@) {
                r matches Err(InvalidDataSet::DimensionAlreadyExists(n)) && n@ == dim_name@
            } else if !is_valid_name_spec(dim_name@) {
                r matches Err(InvalidDataSet::DimensionNameNotValid(n)) && n@ == dim_name@
            } else {
                r is Ok
            },
            r is Ok ==> final(self)@ == old(self)@.with_dim(dim_name@, dim_size as nat, true),
            r is Err ==> final(self)@ == old(self)@,
    {
        proof { use_type_invariant(&*self); }
        match self.find_unlimited() {
            Some(i) => {
                return Err(InvalidDataSet::UnlimitedDimensionAlreadyExists(self.dims[i].name()));
            },
            None => {},
        }
        if self.find_dim_from_name(dim_name).is_some() {
            return Err(InvalidDataSet::DimensionAlreadyExists(dim_name.to_owned()));
        }
        let dim = Dimension::new_unlimited_size(dim_name, dim_size)?;
        proof { DataSet::lemma_push_dim_wf(self@, dim@); }
        self.push_dim(dim);
        Ok(())
    }

    proof fn lemma_push_dim_wf(m: DataSetModel, d: DimensionModel)
        requires
            m.wf(),
            !m.has_dim(d.name),
            is_valid_name_spec(d.name),
            d.unlimited ==> !m.has_unlimited(),
        ensures
            m.with_dim(d.name, d.size, d.unlimited).wf(),
    {
        let n = m.with_dim(d.name, d.size, d.unlimited);
        assert(n.dims == m.dims.push(d)) by {
            assert(DimensionModel { name: d.name, size: d.size, unlimited: d.unlimited } == d);
        }
        assert forall|i: int| 0 <= i < n.vars.len() implies n.var_dims_defined(#[trigger] n.vars[i]) by {
            assert forall|k: int| 0 <= k < n.vars[i].dims.len() implies n.dims.contains(#[trigger] n.vars[i].dims[k]) by {
                assert(m.var_dims_defined(m.vars[i]));
                assert(m.dims.contains(m.vars[i].dims[k]));
                let j = choose|j: int| 0 <= j < m.dims.len() && m.dims[j] == m.vars[i].dims[k];
                assert(n.dims[j] == m.dims[j]);
            }
        }
        assert forall|i: int, j: int| 0 <= i < j < n.dims.len() implies !(n.dims[i].unlimited && n.dims[j].unlimited) by {
            if j == m.dims.len() && d.unlimited {
                assert(!m.dims[i].unlimited);
            }
        }
    }

    /// Position of the unlimited dimension, if any.
    fn find_unlimited(&self) -> (r: Option<usize>)
        ensures
            r is Some <==> self@.has_unlimited(),
            r is Some ==> r->Some_0 < self@.dims.len() && r->Some_0 == self@.unlimited_index()
                && self@.dims[r->Some_0 as int].unlimited,
    {
        proof { use_type_invariant(self); }
        let mut i: usize = 0;
        while i < self.dims.len()
            invariant
                0 <= i <= self.dims@.len(),
                self@.wf(),
                forall|k: int| 0 <= k < i ==> !self@.dims[k].unlimited,
            decreases self.dims@.len() - i,
        {
            if self.dims[i].is_unlimited() {
                proof {
                    let j = self@.unlimited_index();
                    assert(self@.dims[i as int].unlimited);
                    assert(self@.dims[j].unlimited);
                    if (i as int) < j {
                        assert(!(self@.dims[i as int].unlimited && self@.dims[j].unlimited));
                    } else if j < i {
                        assert(!(self@.dims[j].unlimited && self@.dims[i as int].unlimited));
                    }
                }
                return Some(i);
            }
            i = i + 1;
        }
        None
    }

    /// Removes the dimension of that name and hands it back; fails while a variable uses it.
    pub fn remove_dim(&mut self, dim_name: &str) -> (r: Result<Dimension, InvalidDataSet>)
        ensures
            if !old(self)@.has_dim(dim_name@) {
                r matches Err(InvalidDataSet::DimensionNotDefined(n)) && n@ == dim_name@
            } else if exists|v: int| 0 <= v < old(self)@.vars.len() && (#[trigger] old(self)@.vars[v]).uses_dim(dim_name@) {
                r matches Err(InvalidDataSet::DimensionYetUsed { var_names, dim_name: n })
                    && n@ == dim_name@ && string_views(var_names@) == names_using(old(self)@.vars, dim_name@)
            } else {
                r is Ok
            },
            r is Ok ==> r->Ok_0@ == old(self)@.dims[old(self)@.dim_index(dim_name@)]
                && final(self)@ == old(self)@.without_dim(old(self)@.dim_index(dim_name@)),
            r is Err ==> final(self)@ == old(self)@,
    {
        proof { use_type_invariant(&*self); }
        let index: usize = match self.find_dim_from_name(dim_name) {
            None => {
                return Err(InvalidDataSet::DimensionNotDefined(dim_name.to_owned()));
            },
            Some(i) => i,
        };
        let mut users: Vec<String> = Vec::new();
        let mut i: usize = 0;
        while i < self.vars.len()
            invariant
                0 <= i <= self.vars@.len(),
                self@.vars == vars_view(self.vars@),
                string_views(users@) == names_using(self@.vars.take(i as int), dim_name@),
                (users@.len() == 0) == (forall|v: int| 0 <= v < i ==> !(#[trigger] self@.vars[v]).uses_dim(dim_name@)),
            decreases self.vars@.len() - i,
        {
            let ghost before = users@;
            assert(self@.vars.take(i + 1).drop_last() =~= self@.vars.take(i as int));
            if self.vars[i].use_dim(dim_name) {
                users.push(self.vars[i].name().to_owned());
                assert(string_views(users@) =~= string_views(before).push(self@.vars[i as int].name));
            }
            i = i + 1;
        }
        assert(self@.vars.take(self.vars@.len() as int) =~= self@.vars);
        if users.len() > 0 {
            return Err(InvalidDataSet::DimensionYetUsed { var_names: users, dim_name: dim_name.to_owned() });
        }
        proof { lemma_without_dim_wf(self@, index as int); }
        let (mut dims, attrs, vars) = self.take_parts();
        let ghost before = dims@;
        let d = dims.remove(index);
        assert(dims_view(dims@) =~= dims_view(before).remove(index as int));
        *self = DataSet { dims, attrs, vars };
        Ok(d)
    }

    /// Renames a dimension, in the dataset and in every variable that uses it; nothing happens
    /// when the two names are equal.
    pub fn rename_dim(&mut self, old_dim_name: &str, new_dim_name: &str) -> (r: Result<(), InvalidDataSet>)
        ensures
            if old_dim_name@ == new_dim_name@ {
                r is Ok
            } else if !old(self)@.has_dim(old_dim_name@) {
                r matches Err(InvalidDataSet::DimensionNotDefined(n)) && n@ == old_dim_name@
            } else if old(self)@.has_dim(new_dim_name@) {
                r matches Err(InvalidDataSet::DimensionAlreadyExists(n)) && n@ == new_dim_name@
            } else if !is_valid_name_spec(new_dim_name@) {
                r matches Err(InvalidDataSet::DimensionNameNotValid(n)) && n@ == new_dim_name@
            } else {
                r is Ok
            },
            r is Ok && old_dim_name@ != new_dim_name@ ==> final(self)@ == old(self)@.with_dim_renamed(old_dim_name@, new_dim_name@),
            r is Ok && old(self)@.has_dim(old_dim_name@) ==> is_valid_name_spec(new_dim_name@),
            r is Err || old_dim_name@ == new_dim_name@ ==> final(self)@ == old(self)@,
    {
        proof { use_type_invariant(&*self); }
        if same_name(old_dim_name, new_dim_name) {
            return Ok(());
        }
        let index: usize = match self.find_dim_from_name(old_dim_name) {
            None => {
                return Err(InvalidDataSet::DimensionNotDefined(old_dim_name.to_owned()));
            },
            Some(i) => i,
        };
        if self.find_dim_from_name(new_dim_name).is_some() {
            return Err(InvalidDataSet::DimensionAlreadyExists(new_dim_name.to_owned()));
        }
        Dimension::check_dim_name(new_dim_name)?;
        let ghost m = self@;
        proof { lemma_rename_dim_wf(m, old_dim_name@, new_dim_name@); }
        let (mut dims, attrs, mut vars) = self.take_parts();
        let ghost before = dims@;
        let mut d = dims.remove(index);
        d.set_name(new_dim_name);
        dims.insert(index, d);
        proof {
            assert forall|k: int| 0 <= k < m.dims.len() && k != index implies m.dims[k].name != old_dim_name@ by {
                assert(m.dims[index as int].name == old_dim_name@);
            }
            assert(dims_view(dims@) =~= rename_in_dims(m.dims, old_dim_name@, new_dim_name@));
        }
        let ghost target = m.with_dim_renamed(old_dim_name@, new_dim_name@);
        let mut i: usize = 0;
        while i < vars.len()
            invariant
                0 <= i <= vars@.len(),
                vars@.len() == m.vars.len(),
                target == m.with_dim_renamed(old_dim_name@, new_dim_name@),
                forall|k: int| 0 <= k < i ==> (#[trigger] vars@[k])@ == target.vars[k],
                forall|k: int| i <= k < vars@.len() ==> (#[trigger] vars@[k])@ == m.vars[k],
            decreases vars@.len() - i,
        {
            let ghost prev = vars@;
            let mut v = vars.remove(i);
            v.rename_dim(old_dim_name, new_dim_name);
            vars.insert(i, v);
            assert(vars@ =~= prev.update(i as int, vars@[i as int]));
            i = i + 1;
        }
        assert(vars_view(vars@) =~= target.vars);
        *self = DataSet { dims, attrs, vars };
        Ok(())
    }

    /// Copies of the dimensions at the given positions; fails listing the positions that are
    /// not valid.
    pub fn get_dims_from_ids(&self, dim_ids: &[usize]) -> (r: Result<Vec<Dimension>, InvalidDataSet>)
        ensures
            r is Ok <==> invalid_ids(dim_ids@, self@.dims.len()).len() == 0,
            r is Err ==> (r matches Err(InvalidDataSet::DimensionsIdsNotValid(ids))
                && ids@ == invalid_ids(dim_ids@, self@.dims.len())),
            r is Ok ==> dims_view(r->Ok_0@) == dim_ids@.map_values(|id: usize| self@.dims[id as int]),
    {
        let n: usize = self.dims.len();
        let mut bad: Vec<usize> = Vec::new();
        let mut i: usize = 0;
        while i < dim_ids.len()
            invariant
                0 <= i <= dim_ids@.len(),
                n == self@.dims.len(),
                bad@ == invalid_ids(dim_ids@.take(i as int), n as nat),
            decreases dim_ids@.len() - i,
        {
            assert(dim_ids@.take(i + 1).drop_last() =~= dim_ids@.take(i as int));
            if dim_ids[i] >= n {
                bad.push(dim_ids[i]);
            }
            i = i + 1;
        }
        assert(dim_ids@.take(dim_ids@.len() as int) =~= dim_ids@);
        if bad.len() > 0 {
            return Err(InvalidDataSet::DimensionsIdsNotValid(bad));
        }
        proof { lemma_no_invalid_ids(dim_ids@, n as nat); }
        let mut r: Vec<Dimension> = Vec::new();
        let mut j: usize = 0;
        while j < dim_ids.len()
            invariant
                0 <= j <= dim_ids@.len(),
                n == self@.dims.len(),
                forall|k: int| 0 <= k < dim_ids@.len() ==> dim_ids@[k] < n,
                r@.len() == j,
                forall|k: int| 0 <= k < j ==> (#[trigger] r@[k])@ == self@.dims[dim_ids@[k] as int],
            decreases dim_ids@.len() - j,
        {
            let id: usize = dim_ids[j];
            r.push(self.dims[id].duplicate());
            j = j + 1;
        }
        assert(dims_view(r@) =~= dim_ids@.map_values(|id: usize| self@.dims[id as int]));
        Ok(r)
    }

    /// Adds a variable over the named dimensions, in that order.
    pub fn add_var(&mut self, var_name: &str, dims_name: &[&str], data_type: DataType) -> (r: Result<(), InvalidDataSet>)
        ensures
            add_var_outcome(old(self)@, var_name@, str_views(dims_name@), err_of(r)),
            r is Ok ==> final(self)@ == old(self)@.with_var(
                DataSetModel::new_var(var_name@, old(self)@.resolve(str_views(dims_name@)), data_type),
            ),
            r is Err ==> final(self)@ == old(self)@,
    {
        proof { use_type_invariant(&*self); }
        let ghost names = str_views(dims_name@);
        let mut var_dims: Vec<Dimension> = Vec::new();
        let mut undefined: Vec<String> = Vec::new();
        let mut i: usize = 0;
        while i < dims_name.len()
            invariant
                0 <= i <= dims_name@.len(),
                names == str_views(dims_name@),
                self@.wf(),
                string_views(undefined@) == undefined_names(self@, names.take(i as int)),
                (undefined@.len() == 0) == (forall|k: int| 0 <= k < i ==> self@.has_dim(#[trigger] names[k])),
                undefined@.len() == 0 ==> var_dims@.len() == i && forall|k: int| 0 <= k < i ==> (#[trigger] var_dims@[k])@ == self@.dims[self@.dim_index(names[k])],
            decreases dims_name@.len() - i,
        {
            assert(names.take(i + 1).drop_last() =~= names.take(i as int));
            let name: &str = dims_name[i];
            match self.find_dim_from_name(name) {
                None => {
                    let ghost before = undefined@;
                    undefined.push(name.to_owned());
                    assert(string_views(undefined@) =~= string_views(before).push(names[i as int]));
                },
                Some(j) => {
                    var_dims.push(self.dims[j].duplicate());
                },
            }
            i = i + 1;
        }
        assert(names.take(dims_name@.len() as int) =~= names);
        if undefined.len() > 0 {
            return Err(
                InvalidDataSet::DimensionsNotDefined { var_name: var_name.to_owned(), get_undef_dim_names: undefined },
            );
        }
        assert(dims_view(var_dims@) =~= self@.resolve(names));
        if self.find_var_from_name(var_name).is_ok() {
            return Err(InvalidDataSet::VariableAlreadyExists(var_name.to_owned()));
        }
        self.add_var_using_dim_refs(var_name, var_dims, data_type)
    }

    /// Adds a variable over dimensions of this dataset; fails when the name is taken or not
    /// valid, or when the dimension list breaks a rule.
    pub(crate) fn add_var_using_dim_refs(&mut self, var_name: &str, var_dims: Vec<Dimension>, data_type: DataType) -> (r: Result<(), InvalidDataSet>)
        requires
            old(self)@.var_dims_defined(DataSetModel::new_var(var_name@, dims_view(var_dims@), data_type)),
        ensures
            if old(self)@.has_var(var_name@) {
                r matches Err(InvalidDataSet::VariableAlreadyExists(n)) && n@ == var_name@
            } else if !is_valid_name_spec(var_name@) {
                r matches Err(InvalidDataSet::VariableNameNotValid(n)) && n@ == var_name@
            } else {
                dims_error(err_of(r), var_name@, dims_view(var_dims@))
            },
            r is Ok ==> final(self)@ == old(self)@.with_var(DataSetModel::new_var(var_name@, dims_view(var_dims@), data_type)),
            r is Err ==> final(self)@ == old(self)@,
    {
        proof { use_type_invariant(&*self); }
        if self.find_var_from_name(var_name).is_ok() {
            return Err(InvalidDataSet::VariableAlreadyExists(var_name.to_owned()));
        }
        let var = Variable::new(var_name, var_dims, data_type)?;
        proof { lemma_with_var_wf(self@, var@); }
        let (dims, attrs, mut vars) = self.take_parts();
        let ghost before = vars@;
        let ghost vv = var@;
        vars.push(var);
        assert(vars_view(vars@) =~= vars_view(before).push(vv));
        *self = DataSet { dims, attrs, vars };
        Ok(())
    }

    /// Position of the variable of that name.
    pub(crate) fn find_var_from_name(&self, var_name: &str) -> (r: Result<usize, InvalidDataSet>)
        ensures
            r is Ok <==> self@.has_var(var_name@),
            r is Ok ==> r->Ok_0 < self@.vars.len() && r->Ok_0 == self@.var_index(var_name@)
                && self@.vars[r->Ok_0 as int].name == var_name@,
            r is Err ==> (r matches Err(InvalidDataSet::VariableNotDefined(n)) && n@ == var_name@),
    {
        proof { use_type_invariant(self); }
        let mut i: usize = 0;
        while i < self.vars.len()
            invariant
                0 <= i <= self.vars@.len(),
                self@.wf(),
                forall|k: int| 0 <= k < i ==> (#[trigger] self@.vars[k]).name != var_name@,
            decreases self.vars@.len() - i,
        {
            if same_name(self.vars[i].name(), var_name) {
                proof {
                    let j = self@.var_index(var_name@);
                    assert(self@.vars[i as int].name == var_name@);
                    assert(self@.vars[j].name == var_name@);
                }
                return Ok(i);
            }
            i = i + 1;
        }
        Err(InvalidDataSet::VariableNotDefined(var_name.to_owned()))
    }

    /// Puts `v` in place of the `i`-th variable.
    fn put_var(&mut self, i: usize, v: Variable)
        requires
            i < old(self)@.vars.len(),
            old(self)@.with_var_at(i as int, v@).wf(),
        ensures
            final(self)@ == old(self)@.with_var_at(i as int, v@),
    {
        let (dims, attrs, mut vars) = self.take_parts();
        let ghost before = vars@;
        let ghost vv = v@;
        vars.remove(i);
        vars.insert(i, v);
        assert(vars_view(vars@) =~= vars_view(before).update(i as int, vv));
        *self = DataSet { dims, attrs, vars };
    }

    pub fn num_vars(&self) -> (r: usize)
        ensures
            r == self@.vars.len(),
    {
        self.vars.len()
    }

    pub fn has_var(&self, var_name: &str) -> (r: bool)
        ensures
            r == self@.has_var(var_name@),
    {
        self.find_var_from_name(var_name).is_ok()
    }

    /// The variable of that name, if any.
    pub fn get_var(&self, var_name: &str) -> (r: Option<&Variable>)
        ensures
            r is Some <==> self@.has_var(var_name@),
            r is Some ==> r->Some_0@ == self@.vars[self@.var_index(var_name@)],
    {
        match self.find_var_from_name(var_name) {
            Ok(i) => Some(&self.vars[i]),
            Err(_) => None,
        }
    }

    /// Number of elements of the variable of that name (saturated to the largest `usize`).
    pub fn get_var_len(&self, var_name: &str) -> (r: Option<usize>)
        ensures
            r is Some <==> self@.has_var(var_name@),
            r is Some ==> r->Some_0 == saturate(self@.vars[self@.var_index(var_name@)].len()),
    {
        match self.find_var_from_name(var_name) {
            Ok(i) => Some(self.vars[i].len()),
            Err(_) => None,
        }
    }

    pub fn get_var_data_type(&self, var_name: &str) -> (r: Option<DataType>)
        ensures
            r is Some <==> self@.has_var(var_name@),
            r is Some ==> r->Some_0 == self@.vars[self@.var_index(var_name@)].data_type,
    {
        match self.find_var_from_name(var_name) {
            Ok(i) => Some(self.vars[i].data_type()),
            Err(_) => None,
        }
    }

    /// All variables, in order.
    pub fn get_vars(&self) -> (r: &Vec<Variable>)
        ensures
            vars_view(r@) == self@.vars,
            self@.wf(),
    {
        proof { use_type_invariant(self); }
        &self.vars
    }

    /// Names of all variables, in order.
    pub fn get_var_names(&self) -> (r: Vec<String>)
        ensures
            string_views(r@) == self@.vars.map_values(|v: VariableModel| v.name),
    {
        let mut r: Vec<String> = Vec::new();
        let mut i: usize = 0;
        while i < self.vars.len()
            invariant
                0 <= i <= self.vars@.len(),
                r@.len() == i,
                forall|k: int| 0 <= k < i ==> (#[trigger] r@[k])@ == self.vars@[k]@.name,
            decreases self.vars@.len() - i,
        {
            r.push(self.vars[i].name().to_owned());
            i = i + 1;
        }
        assert(string_views(r@) =~= self@.vars.map_values(|v: VariableModel| v.name));
        r
    }

    /// Renames a variable; nothing happens when the two names are equal.
    pub fn rename_var(&mut self, old_var_name: &str, new_var_name: &str) -> (r: Result<(), InvalidDataSet>)
        ensures
            if old_var_name@ == new_var_name@ {
                r is Ok
            } else if !old(self)@.has_var(old_var_name@) {
                r matches Err(InvalidDataSet::VariableNotDefined(n)) && n@ == old_var_name@
            } else if old(self)@.has_var(new_var_name@) {
                r matches Err(InvalidDataSet::VariableAlreadyExists(n)) && n@ == new_var_name@
            } else if !is_valid_name_spec(new_var_name@) {
                r matches Err(InvalidDataSet::VariableNameNotValid(n)) && n@ == new_var_name@
            } else {
                r is Ok
            },
            r is Ok && old(self)@.has_var(old_var_name@) ==> is_valid_name_spec(new_var_name@),
            r is Ok && old_var_name@ != new_var_name@ ==> final(self)@ == old(self)@.with_var_at(
                old(self)@.var_index(old_var_name@),
                VariableModel { name: new_var_name@, ..old(self)@.vars[old(self)@.var_index(old_var_name@)] },
            ),
            r is Err || old_var_name@ == new_var_name@ ==> final(self)@ == old(self)@,
    {
        proof { use_type_invariant(&*self); }
        if same_name(old_var_name, new_var_name) {
            return Ok(());
        }
        let index: usize = self.find_var_from_name(old_var_name)?;
        if self.find_var_from_name(new_var_name).is_ok() {
            return Err(InvalidDataSet::VariableAlreadyExists(new_var_name.to_owned()));
        }
        Variable::check_var_name(new_var_name)?;
        let mut v = self.vars[index].duplicate();
        v.set_name(new_var_name);
        proof {
            assert(self@.vars[index as int] == self.vars@[index as int]@);
            lemma_with_var_at_wf(self@, index as int, v@);
        }
        self.put_var(index, v);
        Ok(())
    }

    /// Removes the variable of that name and hands it back.
    pub fn remove_var(&mut self, var_name: &str) -> (r: Result<Variable, InvalidDataSet>)
        ensures
            r is Ok <==> old(self)@.has_var(var_name@),
            r is Ok ==> r->Ok_0@ == old(self)@.vars[old(self)@.var_index(var_name@)]
                && final(self)@ == old(self)@.without_var(old(self)@.var_index(var_name@)),
            r is Err ==> final(self)@ == old(self)@ && (r matches Err(InvalidDataSet::VariableNotDefined(n)) && n@ == var_name@),
    {
        proof { use_type_invariant(&*self); }
        let index: usize = self.find_var_from_name(var_name)?;
        proof { lemma_without_var_wf(self@, index as int); }
        let (dims, attrs, mut vars) = self.take_parts();
        let ghost before = vars@;
        let v = vars.remove(index);
        assert(vars_view(vars@) =~= vars_view(before).remove(index as int));
        *self = DataSet { dims, attrs, vars };
        Ok(v)
    }

    /// Sets the data of the variable of that name; fails when the variable is not defined, or
    /// when the type or the length of the data does not match it.
    pub fn set_var_data(&mut self, var_name: &str, data: DataVector) -> (r: Result<(), InvalidDataSet>)
        ensures
            if !old(self)@.has_var(var_name@) {
                r matches Err(InvalidDataSet::VariableNotDefined(n)) && n@ == var_name@
            } else {
                set_data_outcome(old(self)@.vars[old(self)@.var_index(var_name@)], data@, r)
            },
            r is Ok ==> final(self)@ == old(self)@.with_var_at(
                old(self)@.var_index(var_name@),
                VariableModel { data: Some(data@), ..old(self)@.vars[old(self)@.var_index(var_name@)] },
            ),
            r is Err ==> final(self)@ == old(self)@,
    {
        proof { use_type_invariant(&*self); }
        let index: usize = self.find_var_from_name(var_name)?;
        let mut v = self.vars[index].duplicate();
        proof { assert(self@.vars[index as int] == self.vars@[index as int]@); }
        let r = v.set_data(data);
        if r.is_err() {
            return r;
        }
        proof { lemma_with_var_at_wf(self@, index as int, v@); }
        self.put_var(index, v);
        r
    }

    /// Adds a variable of type `I8` over the named dimensions.
    pub fn add_var_i8(&mut self, var_name: &str, dims_name: &[&str]) -> (r: Result<(), InvalidDataSet>)
        ensures
            add_var_outcome(old(self)@, var_name@, str_views(dims_name@), err_of(r)),
            r is Ok ==> final(self)@ == old(self)@.with_var(
                DataSetModel::new_var(var_name@, old(self)@.resolve(str_views(dims_name@)), DataType::I8),
            ),
            r is Err ==> final(self)@ == old(self)@,
    {
        self.add_var(var_name, dims_name, DataType::I8)
    }

    /// The data of the variable of that name, where it is set and of type `I8`.
    pub fn get_var_i8(&self, var_name: &str) -> (r: Option<&[i8]>)
        ensures
            r is Some <==> self@.has_var(var_name@) && self@.vars[self@.var_index(var_name@)].data matches Some(Values::I8(_)),
            r is Some ==> self@.vars[self@.var_index(var_name@)].data == Some(Values::I8(r->Some_0@)),
    {
        match self.find_var_from_name(var_name) {
            Ok(i) => self.vars[i].get_i8(),
            Err(_) => None,
        }
    }

    /// Sets the data of the variable of that name.
    pub fn set_var_i8(&mut self, var_name: &str, data: Vec<i8>) -> (r: Result<(), InvalidDataSet>)
        ensures
            if !old(self)@.has_var(var_name@) {
                r matches Err(InvalidDataSet::VariableNotDefined(n)) && n@ == var_name@
            } else {
                set_data_outcome(old(self)@.vars[old(self)@.var_index(var_name@)], Values::I8(data@), r)
            },
            r is Ok ==> final(self)@ == old(self)@.with_var_at(
                old(self)@.var_index(var_name@),
                VariableModel { data: Some(Values::I8(data@)), ..old(self)@.vars[old(self)@.var_index(var_name@)] },
            ),
            r is Err ==> final(self)@ == old(self)@,
    {
        self.set_var_data(var_name, DataVector::I8(data))
    }

    /// Adds a variable of type `U8` over the named dimensions.
    pub fn add_var_u8(&mut self, var_name: &str, dims_name: &[&str]) -> (r: Result<(), InvalidDataSet>)
        ensures
            add_var_outcome(old(self)@, var_name@, str_views(dims_name@), err_of(r)),
            r is Ok ==> final(self)@ == old(self)@.with_var(
                DataSetModel::new_var(var_name@, old(self)@.resolve(str_views(dims_name@)), DataType::U8),
            ),
            r is Err ==> final(self)@ == old(self)@,
    {
        self.add_var(var_name, dims_name, DataType::U8)
    }

    /// The data of the variable of that name, where it is set and of type `U8`.
    pub fn get_var_u8(&self, var_name: &str) -> (r: Option<&[u8]>)
        ensures
            r is Some <==> self@.has_var(var_name@) && self@.vars[self@.var_index(var_name@)].data matches Some(Values::U8(_)),
            r is Some ==> self@.vars[self@.var_index(var_name@)].data == Some(Values::U8(r->Some_0@)),
    {
        match self.find_var_from_name(var_name) {
            Ok(i) => self.vars[i].get_u8(),
            Err(_) => None,
        }
    }

    /// Sets the data of the variable of that name.
    pub fn set_var_u8(&mut self, var_name: &str, data: Vec<u8>) -> (r: Result<(), InvalidDataSet>)
        ensures
            if !old(self)@.has_var(var_name@) {
                r matches Err(InvalidDataSet::VariableNotDefined(n)) && n@ == var_name@
            } else {
                set_data_outcome(old(self)@.vars[old(self)@.var_index(var_name@)], Values::U8(data@), r)
            },
            r is Ok ==> final(self)@ == old(self)@.with_var_at(
                old(self)@.var_index(var_name@),
                VariableModel { data: Some(Values::U8(data@)), ..old(self)@.vars[old(self)@.var_index(var_name@)] },
            ),
            r is Err ==> final(self)@ == old(self)@,
    {
        self.set_var_data(var_name, DataVector::U8(data))
    }

    /// Adds a variable of type `I16` over the named dimensions.
    pub fn add_var_i16(&mut self, var_name: &str, dims_name: &[&str]) -> (r: Result<(), InvalidDataSet>)
        ensures
            add_var_outcome(old(self)@, var_name@, str_views(dims_name@), err_of(r)),
            r is Ok ==> final(self)@ == old(self)@.with_var(
                DataSetModel::new_var(var_name@, old(self)@.resolve(str_views(dims_name@)), DataType::I16),
            ),
            r is Err ==> final(self)@ == old(self)@,
    {
        self.add_var(var_name, dims_name, DataType::I16)
    }

    /// The data of the variable of that name, where it is set and of type `I16`.
    pub fn get_var_i16(&self, var_name: &str) -> (r: Option<&[i16]>)
        ensures
            r is Some <==> self@.has_var(var_name@) && self@.vars[self@.var_index(var_name@)].data matches Some(Values::I16(_)),
            r is Some ==> self@.vars[self@.var_index(var_name@)].data == Some(Values::I16(r->Some_0@)),
    {
        match self.find_var_from_name(var_name) {
            Ok(i) => self.vars[i].get_i16(),
            Err(_) => None,
        }
    }

    /// Sets the data of the variable of that name.
    pub fn set_var_i16(&mut self, var_name: &str, data: Vec<i16>) -> (r: Result<(), InvalidDataSet>)
        ensures
            if !old(self)@.has_var(var_name@) {
                r matches Err(InvalidDataSet::VariableNotDefined(n)) && n@ == var_name@
            } else {
                set_data_outcome(old(self)@.vars[old(self)@.var_index(var_name@)], Values::I16(data@), r)
            },
            r is Ok ==> final(self)@ == old(self)@.with_var_at(
                old(self)@.var_index(var_name@),
                VariableModel { data: Some(Values::I16(data@)), ..old(self)@.vars[old(self)@.var_index(var_name@)] },
            ),
            r is Err ==> final(self)@ == old(self)@,
    {
        self.set_var_data(var_name, DataVector::I16(data))
    }

    /// Adds a variable of type `I32` over the named dimensions.
    pub fn add_var_i32(&mut self, var_name: &str, dims_name: &[&str]) -> (r: Result<(), InvalidDataSet>)
        ensures
            add_var_outcome(old(self)@, var_name@, str_views(dims_name@), err_of(r)),
            r is Ok ==> final(self)@ == old(self)@.with_var(
                DataSetModel::new_var(var_name@, old(self)@.resolve(str_views(dims_name@)), DataType::I32),
            ),
            r is Err ==> final(self)@ == old(self)@,
    {
        self.add_var(var_name, dims_name, DataType::I32)
    }

    /// The data of the variable of that name, where it is set and of type `I32`.
    pub fn get_var_i32(&self, var_name: &str) -> (r: Option<&[i32]>)
        ensures
            r is Some <==> self@.has_var(var_name@) && self@.vars[self@.var_index(var_name@)].data matches Some(Values::I32(_)),
            r is Some ==> self@.vars[self@.var_index(var_name@)].data == Some(Values::I32(r->Some_0@)),
    {
        match self.find_var_from_name(var_name) {
            Ok(i) => self.vars[i].get_i32(),
            Err(_) => None,
        }
    }

    /// Sets the data of the variable of that name.
    pub fn set_var_i32(&mut self, var_name: &str, data: Vec<i32>) -> (r: Result<(), InvalidDataSet>)
        ensures
            if !old(self)@.has_var(var_name@) {
                r matches Err(InvalidDataSet::VariableNotDefined(n)) && n@ == var_name@
            } else {
                set_data_outcome(old(self)@.vars[old(self)@.var_index(var_name@)], Values::I32(data@), r)
            },
            r is Ok ==> final(self)@ == old(self)@.with_var_at(
                old(self)@.var_index(var_name@),
                VariableModel { data: Some(Values::I32(data@)), ..old(self)@.vars[old(self)@.var_index(var_name@)] },
            ),
            r is Err ==> final(self)@ == old(self)@,
    {
        self.set_var_data(var_name, DataVector::I32(data))
    }

    /// Adds a variable of type `F32` over the named dimensions.
    pub fn add_var_f32(&mut self, var_name: &str, dims_name: &[&str]) -> (r: Result<(), InvalidDataSet>)
        ensures
            add_var_outcome(old(self)@, var_name@, str_views(dims_name@), err_of(r)),
            r is Ok ==> final(self)@ == old(self)@.with_var(
                DataSetModel::new_var(var_name@, old(self)@.resolve(str_views(dims_name@)), DataType::F32),
            ),
            r is Err ==> final(self)@ == old(self)@,
    {
        self.add_var(var_name, dims_name, DataType::F32)
    }

    /// The data of the variable of that name, where it is set and of type `F32`.
    /// Values are given as IEEE-754 bit patterns.
    pub fn get_var_f32(&self, var_name: &str) -> (r: Option<&[u32]>)
        ensures
            r is Some <==> self@.has_var(var_name@) && self@.vars[self@.var_index(var_name@)].data matches Some(Values::F32(_)),
            r is Some ==> self@.vars[self@.var_index(var_name@)].data == Some(Values::F32(r->Some_0@)),
    {
        match self.find_var_from_name(var_name) {
            Ok(i) => self.vars[i].get_f32(),
            Err(_) => None,
        }
    }

    /// Sets the data of the variable of that name.
    /// Values are given as IEEE-754 bit patterns.
    pub fn set_var_f32(&mut self, var_name: &str, data: Vec<u32>) -> (r: Result<(), InvalidDataSet>)
        ensures
            if !old(self)@.has_var(var_name@) {
                r matches Err(InvalidDataSet::VariableNotDefined(n)) && n@ == var_name@
            } else {
                set_data_outcome(old(self)@.vars[old(self)@.var_index(var_name@)], Values::F32(data@), r)
            },
            r is Ok ==> final(self)@ == old(self)@.with_var_at(
                old(self)@.var_index(var_name@),
                VariableModel { data: Some(Values::F32(data@)), ..old(self)@.vars[old(self)@.var_index(var_name@)] },
            ),
            r is Err ==> final(self)@ == old(self)@,
    {
        self.set_var_data(var_name, DataVector::F32(data))
    }

    /// Adds a variable of type `F64` over the named dimensions.
    pub fn add_var_f64(&mut self, var_name: &str, dims_name: &[&str]) -> (r: Result<(), InvalidDataSet>)
        ensures
            add_var_outcome(old(self)@, var_name@, str_views(dims_name@), err_of(r)),
            r is Ok ==> final(self)@ == old(self)@.with_var(
                DataSetModel::new_var(var_name@, old(self)@.resolve(str_views(dims_name@)), DataType::F64),
            ),
            r is Err ==> final(self)@ == old(self)@,
    {
        self.add_var(var_name, dims_name, DataType::F64)
    }

    /// The data of the variable of that name, where it is set and of type `F64`.
    /// Values are given as IEEE-754 bit patterns.
    pub fn get_var_f64(&self, var_name: &str) -> (r: Option<&[u64]>)
        ensures
            r is Some <==> self@.has_var(var_name@) && self@.vars[self@.var_index(var_name@)].data matches Some(Values::F64(_)),
            r is Some ==> self@.vars[self@.var_index(var_name@)].data == Some(Values::F64(r->Some_0@)),
    {
        match self.find_var_from_name(var_name) {
            Ok(i) => self.vars[i].get_f64(),
            Err(_) => None,
        }
    }

    /// Sets the data of the variable of that name.
    /// Values are given as IEEE-754 bit patterns.
    pub fn set_var_f64(&mut self, var_name: &str, data: Vec<u64>) -> (r: Result<(), InvalidDataSet>)
        ensures
            if !old(self)@.has_var(var_name@) {
                r matches Err(InvalidDataSet::VariableNotDefined(n)) && n@ == var_name@
            } else {
                set_data_outcome(old(self)@.vars[old(self)@.var_index(var_name@)], Values::F64(data@), r)
            },
            r is Ok ==> final(self)@ == old(self)@.with_var_at(
                old(self)@.var_index(var_name@),
                VariableModel { data: Some(Values::F64(data@)), ..old(self)@.vars[old(self)@.var_index(var_name@)] },
            ),
            r is Err ==> final(self)@ == old(self)@,
    {
        self.set_var_data(var_name, DataVector::F64(data))
    }

    /// Position of the variable `var_name` and of its attribute `attr_name`.
    fn find_var_attr_from_name(&self, var_name: &str, attr_name: &str) -> (r: Result<(usize, usize), InvalidDataSet>)
        ensures
            r is Ok <==> self@.has_var_attr(var_name@, attr_name@),
            r is Ok ==> r->Ok_0.0 == self@.var_index(var_name@) && r->Ok_0.0 < self@.vars.len()
                && r->Ok_0.1 < self@.vars[r->Ok_0.0 as int].attrs.len()
                && r->Ok_0.1 == attr_index(self@.vars[r->Ok_0.0 as int].attrs, attr_name@),
    {
        proof { use_type_invariant(self); }
        let i: usize = self.find_var_from_name(var_name)?;
        proof { assert(self@.vars[i as int] == self.vars@[i as int]@); }
        let j: usize = self.vars[i].find_attr_from_name(attr_name)?;
        proof {
            assert(self@.vars[i as int].wf());
            lemma_attr_index(self@.vars[i as int].attrs, attr_name@, j as int);
        }
        Ok((i, j))
    }

    /// The attribute `attr_name` of the variable `var_name`, if both exist.
    pub fn get_var_attr(&self, var_name: &str, attr_name: &str) -> (r: Option<&Attribute>)
        ensures
            r is Some <==> self@.has_var_attr(var_name@, attr_name@),
            r is Some ==> r->Some_0@ == self@.var_attr(var_name@, attr_name@),
    {
        match self.find_var_attr_from_name(var_name, attr_name) {
            Ok((i, j)) => {
                let attrs: &Vec<Attribute> = self.vars[i].get_attrs();
                proof { assert(self@.vars[i as int] == self.vars@[i as int]@); }
                Some(&attrs[j])
            },
            Err(_) => None,
        }
    }

    /// Number of values of an attribute of a variable, if both exist.
    pub fn get_var_attr_len(&self, var_name: &str, attr_name: &str) -> (r: Option<usize>)
        ensures
            r is Some <==> self@.has_var_attr(var_name@, attr_name@),
            r is Some ==> r->Some_0 == self@.var_attr(var_name@, attr_name@).values.len(),
    {
        match self.get_var_attr(var_name, attr_name) {
            Some(a) => Some(a.len()),
            None => None,
        }
    }

    /// Type of an attribute of a variable, if both exist.
    pub fn get_var_attr_data_type(&self, var_name: &str, attr_name: &str) -> (r: Option<DataType>)
        ensures
            r is Some <==> self@.has_var_attr(var_name@, attr_name@),
            r is Some ==> r->Some_0 == self@.var_attr(var_name@, attr_name@).values.data_type(),
    {
        match self.get_var_attr(var_name, attr_name) {
            Some(a) => Some(a.data_type()),
            None => None,
        }
    }

    /// Same as `get_var_attr_len`.
    pub fn has_var_attr_len(&self, var_name: &str, attr_name: &str) -> (r: Option<usize>)
        ensures
            r is Some <==> self@.has_var_attr(var_name@, attr_name@),
            r is Some ==> r->Some_0 == self@.var_attr(var_name@, attr_name@).values.len(),
    {
        self.get_var_attr_len(var_name, attr_name)
    }

    /// Same as `get_var_attr_data_type`.
    pub fn has_var_attr_data_type(&self, var_name: &str, attr_name: &str) -> (r: Option<DataType>)
        ensures
            r is Some <==> self@.has_var_attr(var_name@, attr_name@),
            r is Some ==> r->Some_0 == self@.var_attr(var_name@, attr_name@).values.data_type(),
    {
        self.get_var_attr_data_type(var_name, attr_name)
    }

    /// The attributes of the variable of that name, if it exists.
    pub fn get_var_attrs(&self, var_name: &str) -> (r: Option<&Vec<Attribute>>)
        ensures
            r is Some <==> self@.has_var(var_name@),
            r is Some ==> attrs_view(r->Some_0@) == self@.vars[self@.var_index(var_name@)].attrs,
    {
        match self.find_var_from_name(var_name) {
            Ok(i) => Some(self.vars[i].get_attrs()),
            Err(_) => None,
        }
    }

    /// Whether the variable has an attribute of that name; `None` when the variable does not exist.
    pub fn has_var_attr(&self, var_name: &str, attr_name: &str) -> (r: Option<bool>)
        ensures
            r is Some <==> self@.has_var(var_name@),
            r is Some ==> r->Some_0 == has_attr_named(self@.vars[self@.var_index(var_name@)].attrs, attr_name@),
    {
        match self.find_var_from_name(var_name) {
            Ok(i) => Some(self.vars[i].has_attr(attr_name)),
            Err(_) => None,
        }
    }

    /// Number of attributes of the variable of that name, if it exists.
    pub fn num_var_attrs(&self, var_name: &str) -> (r: Option<usize>)
        ensures
            r is Some <==> self@.has_var(var_name@),
            r is Some ==> r->Some_0 == self@.vars[self@.var_index(var_name@)].attrs.len(),
    {
        match self.find_var_from_name(var_name) {
            Ok(i) => Some(self.vars[i].num_attrs()),
            Err(_) => None,
        }
    }

    /// Adds an attribute with the given values to the variable of that name.
    pub fn add_var_attr(&mut self, var_name: &str, attr_name: &str, data: DataVector) -> (r: Result<(), InvalidDataSet>)
        ensures
            if !old(self)@.has_var(var_name@) {
                r matches Err(InvalidDataSet::VariableNotDefined(n)) && n@ == var_name@
            } else {
                add_attr_outcome(old(self)@.vars[old(self)@.var_index(var_name@)], attr_name@, err_of(r))
            },
            r is Ok ==> final(self)@ == old(self)@.with_var_at(
                old(self)@.var_index(var_name@),
                VariableModel {
                    attrs: old(self)@.vars[old(self)@.var_index(var_name@)].attrs.push(AttributeModel { name: attr_name@, values: data@ }),
                    ..old(self)@.vars[old(self)@.var_index(var_name@)]
                },
            ),
            r is Err ==> final(self)@ == old(self)@,
    {
        proof { use_type_invariant(&*self); }
        let index: usize = self.find_var_from_name(var_name)?;
        let mut v = self.vars[index].duplicate();
        proof { assert(self@.vars[index as int] == self.vars@[index as int]@); }
        let r = v.add_attr_values(attr_name, data);
        if r.is_err() {
            return r;
        }
        proof { lemma_with_var_at_wf(self@, index as int, v@); }
        self.put_var(index, v);
        r
    }

    /// Renames an attribute of the variable of that name; nothing happens to the attributes
    /// when the two names are equal.
    pub fn rename_var_attr(&mut self, var_name: &str, old_attr_name: &str, new_attr_name: &str) -> (r: Result<(), InvalidDataSet>)
        ensures
            if !old(self)@.has_var(var_name@) {
                r matches Err(InvalidDataSet::VariableNotDefined(n)) && n@ == var_name@
            } else {
                rename_attr_outcome(old(self)@.vars[old(self)@.var_index(var_name@)], old_attr_name@, new_attr_name@, err_of(r))
            },
            r is Ok && old(self)@.has_var_attr(var_name@, old_attr_name@) ==> is_valid_name_spec(new_attr_name@),
            r is Ok && old_attr_name@ != new_attr_name@ ==> final(self)@ == old(self)@.with_var_at(
                old(self)@.var_index(var_name@),
                VariableModel {
                    attrs: rename_in_attrs(old(self)@.vars[old(self)@.var_index(var_name@)].attrs, old_attr_name@, new_attr_name@),
                    ..old(self)@.vars[old(self)@.var_index(var_name@)]
                },
            ),
            r is Err || old_attr_name@ == new_attr_name@ ==> final(self)@ == old(self)@,
    {
        proof { use_type_invariant(&*self); }
        let index: usize = self.find_var_from_name(var_name)?;
        let mut v = self.vars[index].duplicate();
        proof { assert(self@.vars[index as int] == self.vars@[index as int]@); }
        let r = v.rename_attr(old_attr_name, new_attr_name);
        proof {
            let w = self@.vars[index as int];
            assert(w.wf());
            if has_attr_named(w.attrs, old_attr_name@) {
                let j = choose|j: int| 0 <= j < w.attrs.len() && (#[trigger] w.attrs[j]).name == old_attr_name@;
                assert(is_valid_name_spec(w.attrs[j].name));
            }
        }
        if r.is_err() || same_name(old_attr_name, new_attr_name) {
            return r;
        }
        proof { lemma_with_var_at_wf(self@, index as int, v@); }
        self.put_var(index, v);
        r
    }

    /// Removes an attribute of the variable of that name and hands it back.
    pub fn remove_var_attr(&mut self, var_name: &str, attr_name: &str) -> (r: Result<Attribute, InvalidDataSet>)
        ensures
            r is Ok <==> old(self)@.has_var_attr(var_name@, attr_name@),
            !old(self)@.has_var(var_name@) ==> (r matches Err(InvalidDataSet::VariableNotDefined(n)) && n@ == var_name@),
            old(self)@.has_var(var_name@) && r is Err ==> (r matches Err(InvalidDataSet::VariableAttributeNotDefined { var_name: v, attr_name: a })
                && v@ == var_name@ && a@ == attr_name@),
            r is Ok ==> r->Ok_0@ == old(self)@.var_attr(var_name@, attr_name@)
                && final(self)@ == old(self)@.with_var_at(
                old(self)@.var_index(var_name@),
                VariableModel {
                    attrs: old(self)@.vars[old(self)@.var_index(var_name@)].attrs.remove(
                        attr_index(old(self)@.vars[old(self)@.var_index(var_name@)].attrs, attr_name@),
                    ),
                    ..old(self)@.vars[old(self)@.var_index(var_name@)]
                },
            ),
            r is Err ==> final(self)@ == old(self)@,
    {
        proof { use_type_invariant(&*self); }
        let index: usize = self.find_var_from_name(var_name)?;
        let mut v = self.vars[index].duplicate();
        proof { assert(self@.vars[index as int] == self.vars@[index as int]@); }
        let r = v.remove_attr(attr_name);
        match r {
            Err(e) => {
                return Err(e);
            },
            Ok(a) => {
                proof {
                    let w = self@.vars[index as int];
                    let k = choose|k: int| 0 <= k < w.attrs.len() && w.attrs[k].name == attr_name@
                        && #[trigger] w.attrs[k] == a@ && v@ == (VariableModel { attrs: w.attrs.remove(k), ..w });
                    lemma_attr_index(w.attrs, attr_name@, k);
                    lemma_with_var_at_wf(self@, index as int, v@);
                }
                self.put_var(index, v);
                Ok(a)
            },
        }
    }

    /// Position of the global attribute of that name.
    fn find_global_attr_from_name(&self, attr_name: &str) -> (r: Result<usize, InvalidDataSet>)
        ensures
            r is Ok <==> has_attr_named(self@.attrs, attr_name@),
            r is Ok ==> r->Ok_0 < self@.attrs.len() && r->Ok_0 == attr_index(self@.attrs, attr_name@),
            r is Err ==> (r matches Err(InvalidDataSet::GlobalAttributeNotDefined(n)) && n@ == attr_name@),
    {
        proof { use_type_invariant(self); }
        match find_attr(&self.attrs, attr_name) {
            Some(i) => {
                proof {
                    assert(self@.attrs[i as int] == self.attrs@[i as int]@);
                    lemma_attr_index(self@.attrs, attr_name@, i as int);
                }
                Ok(i)
            },
            None => {
                assert(forall|i: int| 0 <= i < self@.attrs.len() ==> self.attrs@[i]@ == self@.attrs[i]);
                Err(InvalidDataSet::GlobalAttributeNotDefined(attr_name.to_owned()))
            },
        }
    }

    /// The global attribute of that name, if any.
    pub fn get_global_attr(&self, attr_name: &str) -> (r: Option<&Attribute>)
        ensures
            r is Some <==> has_attr_named(self@.attrs, attr_name@),
            r is Some ==> r->Some_0@ == self@.global_attr(attr_name@),
    {
        match self.find_global_attr_from_name(attr_name) {
            Ok(i) => Some(&self.attrs[i]),
            Err(_) => None,
        }
    }

    /// All global attributes, in order.
    pub fn get_global_attrs(&self) -> (r: &Vec<Attribute>)
        ensures
            attrs_view(r@) == self@.attrs,
    {
        &self.attrs
    }

    pub fn get_global_attr_len(&self, attr_name: &str) -> (r: Option<usize>)
        ensures
            r is Some <==> has_attr_named(self@.attrs, attr_name@),
            r is Some ==> r->Some_0 == self@.global_attr(attr_name@).values.len(),
    {
        match self.find_global_attr_from_name(attr_name) {
            Ok(i) => Some(self.attrs[i].len()),
            Err(_) => None,
        }
    }

    pub fn get_global_attr_data_type(&self, attr_name: &str) -> (r: Option<DataType>)
        ensures
            r is Some <==> has_attr_named(self@.attrs, attr_name@),
            r is Some ==> r->Some_0 == self@.global_attr(attr_name@).values.data_type(),
    {
        match self.find_global_attr_from_name(attr_name) {
            Ok(i) => Some(self.attrs[i].data_type()),
            Err(_) => None,
        }
    }

    pub fn num_global_attrs(&self) -> (r: usize)
        ensures
            r == self@.attrs.len(),
    {
        self.attrs.len()
    }

    pub fn has_global_attr(&self, attr_name: &str) -> (r: bool)
        ensures
            r == has_attr_named(self@.attrs, attr_name@),
    {
        self.find_global_attr_from_name(attr_name).is_ok()
    }

    /// Names of the global attributes, in order.
    pub fn get_global_attr_names(&self) -> (r: Vec<String>)
        ensures
            string_views(r@) == attr_names(self@.attrs),
    {
        let mut r: Vec<String> = Vec::new();
        let mut i: usize = 0;
        while i < self.attrs.len()
            invariant
                0 <= i <= self.attrs@.len(),
                r@.len() == i,
                forall|k: int| 0 <= k < i ==> (#[trigger] r@[k])@ == self.attrs@[k]@.name,
            decreases self.attrs@.len() - i,
        {
            r.push(self.attrs[i].name().to_owned());
            i = i + 1;
        }
        assert(string_views(r@) =~= attr_names(self@.attrs));
        r
    }

    /// Adds a global attribute with the given values at the end of the list.
    pub fn add_global_attr(&mut self, attr_name: &str, data: DataVector) -> (r: Result<(), InvalidDataSet>)
        ensures
            if has_attr_named(old(self)@.attrs, attr_name@) {
                r matches Err(InvalidDataSet::GlobalAttributeAlreadyExists(n)) && n@ == attr_name@
            } else if !is_valid_name_spec(attr_name@) {
                r matches Err(InvalidDataSet::GlobalAttributeNameNotValid(n)) && n@ == attr_name@
            } else {
                r is Ok
            },
            r is Ok ==> final(self)@ == old(self)@.with_attrs(old(self)@.attrs.push(AttributeModel { name: attr_name@, values: data@ })),
            r is Err ==> final(self)@ == old(self)@,
    {
        proof { use_type_invariant(&*self); }
        if self.find_global_attr_from_name(attr_name).is_ok() {
            return Err(InvalidDataSet::GlobalAttributeAlreadyExists(attr_name.to_owned()));
        }
        let attr = match Attribute::new(attr_name, data) {
            Ok(a) => a,
            Err(n) => {
                return Err(InvalidDataSet::GlobalAttributeNameNotValid(n));
            },
        };
        let ghost m = self@;
        proof {
            lemma_push_attrs_wf(m.attrs, attr@);
            lemma_with_attrs_wf(m, m.attrs.push(attr@));
        }
        let ghost av = attr@;
        let (dims, mut attrs, vars) = self.take_parts();
        let ghost before = attrs@;
        attrs.push(attr);
        assert(attrs_view(attrs@) =~= attrs_view(before).push(av));
        assert((DataSetModel { dims: dims_view(dims@), attrs: attrs_view(attrs@), vars: vars_view(vars@) }) == m.with_attrs(m.attrs.push(av)));
        *self = DataSet { dims, attrs, vars };
        Ok(())
    }

    /// Renames a global attribute; nothing happens when the two names are equal.
    pub fn rename_global_attr(&mut self, old_attr_name: &str, new_attr_name: &str) -> (r: Result<(), InvalidDataSet>)
        ensures
            if old_attr_name@ == new_attr_name@ {
                r is Ok
            } else if !has_attr_named(old(self)@.attrs, old_attr_name@) {
                r matches Err(InvalidDataSet::GlobalAttributeNotDefined(n)) && n@ == old_attr_name@
            } else if has_attr_named(old(self)@.attrs, new_attr_name@) {
                r matches Err(InvalidDataSet::GlobalAttributeAlreadyExists(n)) && n@ == new_attr_name@
            } else if !is_valid_name_spec(new_attr_name@) {
                r matches Err(InvalidDataSet::GlobalAttributeNameNotValid(n)) && n@ == new_attr_name@
            } else {
                r is Ok
            },
            r is Ok && has_attr_named(old(self)@.attrs, old_attr_name@) ==> is_valid_name_spec(new_attr_name@),
            r is Ok && old_attr_name@ != new_attr_name@ ==> final(self)@ == old(self)@.with_attrs(
                rename_in_attrs(old(self)@.attrs, old_attr_name@, new_attr_name@),
            ),
            r is Err || old_attr_name@ == new_attr_name@ ==> final(self)@ == old(self)@,
    {
        proof { use_type_invariant(&*self); }
        if same_name(old_attr_name, new_attr_name) {
            return Ok(());
        }
        let index: usize = self.find_global_attr_from_name(old_attr_name)?;
        if self.find_global_attr_from_name(new_attr_name).is_ok() {
            return Err(InvalidDataSet::GlobalAttributeAlreadyExists(new_attr_name.to_owned()));
        }
        match Attribute::check_attr_name(new_attr_name) {
            Ok(()) => {},
            Err(n) => {
                return Err(InvalidDataSet::GlobalAttributeNameNotValid(n));
            },
        }
        let ghost m = self@;
        proof {
            assert(forall|i: int| 0 <= i < m.attrs.len() ==> (#[trigger] m.attrs[i]).name != new_attr_name@);
            lemma_rename_attrs_wf(m.attrs, old_attr_name@, new_attr_name@);
        }
        let (dims, mut attrs, vars) = self.take_parts();
        let mut a = attrs.remove(index);
        a.set_name(new_attr_name);
        attrs.insert(index, a);
        proof {
            assert forall|k: int| 0 <= k < m.attrs.len() && k != index implies m.attrs[k].name != old_attr_name@ by {
                assert(m.attrs[index as int].name == old_attr_name@);
            }
            assert(attrs_view(attrs@) =~= rename_in_attrs(m.attrs, old_attr_name@, new_attr_name@));
            lemma_with_attrs_wf(m, rename_in_attrs(m.attrs, old_attr_name@, new_attr_name@));
            assert((DataSetModel { dims: dims_view(dims@), attrs: attrs_view(attrs@), vars: vars_view(vars@) })
                == m.with_attrs(rename_in_attrs(m.attrs, old_attr_name@, new_attr_name@)));
        }
        *self = DataSet { dims, attrs, vars };
        Ok(())
    }

    /// Removes the global attribute of that name and hands it back.
    pub fn remove_global_attr(&mut self, attr_name: &str) -> (r: Result<Attribute, InvalidDataSet>)
        ensures
            r is Ok <==> has_attr_named(old(self)@.attrs, attr_name@),
            r is Ok ==> r->Ok_0@ == old(self)@.global_attr(attr_name@) && final(self)@ == old(self)@.with_attrs(
                old(self)@.attrs.remove(attr_index(old(self)@.attrs, attr_name@)),
            ),
            r is Err ==> final(self)@ == old(self)@ && (r matches Err(InvalidDataSet::GlobalAttributeNotDefined(n)) && n@ == attr_name@),
    {
        proof { use_type_invariant(&*self); }
        let index: usize = self.find_global_attr_from_name(attr_name)?;
        let ghost m = self@;
        proof {
            lemma_remove_attrs_wf(m.attrs, index as int);
            lemma_with_attrs_wf(m, m.attrs.remove(index as int));
        }
        let (dims, mut attrs, vars) = self.take_parts();
        let ghost before = attrs@;
        let a = attrs.remove(index);
        assert(attrs_view(attrs@) =~= attrs_view(before).remove(index as int));
        assert((DataSetModel { dims: dims_view(dims@), attrs: attrs_view(attrs@), vars: vars_view(vars@) }) == m.with_attrs(m.attrs.remove(index as int)));
        *self = DataSet { dims, attrs, vars };
        Ok(a)
    }

    /// Adds an attribute of type `I8` to the variable of that name.
    pub fn add_var_attr_i8(&mut self, var_name: &str, attr_name: &str, var_attr_value: Vec<i8>) -> (r: Result<(), InvalidDataSet>)
        ensures
            if !old(self)@.has_var(var_name@) {
                r matches Err(InvalidDataSet::VariableNotDefined(n)) && n@ == var_name@
            } else {
                add_attr_outcome(old(self)@.vars[old(self)@.var_index(var_name@)], attr_name@, err_of(r))
            },
            r is Ok ==> final(self)@ == old(self)@.with_var_at(
                old(self)@.var_index(var_name@),
                VariableModel {
                    attrs: old(self)@.vars[old(self)@.var_index(var_name@)].attrs.push(AttributeModel { name: attr_name@, values: Values::I8(var_attr_value@) }),
                    ..old(self)@.vars[old(self)@.var_index(var_name@)]
                },
            ),
            r is Err ==> final(self)@ == old(self)@,
    {
        self.add_var_attr(var_name, attr_name, DataVector::I8(var_attr_value))
    }

    /// The values of an attribute of a variable, where both exist and the type is `I8`.
    pub fn get_var_attr_i8(&self, var_name: &str, attr_name: &str) -> (r: Option<&[i8]>)
        ensures
            r is Some <==> self@.has_var_attr(var_name@, attr_name@) && self@.var_attr(var_name@, attr_name@).values is I8,
            r is Some ==> self@.var_attr(var_name@, attr_name@).values == Values::I8(r->Some_0@),
    {
        match self.get_var_attr(var_name, attr_name) {
            Some(a) => match a.get_i8() {
                Some(v) => Some(v.as_slice()),
                None => None,
            },
            None => None,
        }
    }

    /// Adds a global attribute of type `I8`.
    pub fn add_global_attr_i8(&mut self, attr_name: &str, attr_data: Vec<i8>) -> (r: Result<(), InvalidDataSet>)
        ensures
            if has_attr_named(old(self)@.attrs, attr_name@) {
                r matches Err(InvalidDataSet::GlobalAttributeAlreadyExists(n)) && n@ == attr_name@
            } else if !is_valid_name_spec(attr_name@) {
                r matches Err(InvalidDataSet::GlobalAttributeNameNotValid(n)) && n@ == attr_name@
            } else {
                r is Ok
            },
            r is Ok ==> final(self)@ == old(self)@.with_attrs(old(self)@.attrs.push(AttributeModel { name: attr_name@, values: Values::I8(attr_data@) })),
            r is Err ==> final(self)@ == old(self)@,
    {
        self.add_global_attr(attr_name, DataVector::I8(attr_data))
    }

    /// The values of a global attribute, where it exists and its type is `I8`.
    pub fn get_global_attr_i8(&self, attr_name: &str) -> (r: Option<&[i8]>)
        ensures
            r is Some <==> has_attr_named(self@.attrs, attr_name@) && self@.global_attr(attr_name@).values is I8,
            r is Some ==> self@.global_attr(attr_name@).values == Values::I8(r->Some_0@),
    {
        match self.get_global_attr(attr_name) {
            Some(a) => match a.get_i8() {
                Some(v) => Some(v.as_slice()),
                None => None,
            },
            None => None,
        }
    }

    /// Adds an attribute of type `U8` to the variable of that name.
    pub fn add_var_attr_u8(&mut self, var_name: &str, attr_name: &str, var_attr_value: Vec<u8>) -> (r: Result<(), InvalidDataSet>)
        ensures
            if !old(self)@.has_var(var_name@) {
                r matches Err(InvalidDataSet::VariableNotDefined(n)) && n@ == var_name@
            } else {
                add_attr_outcome(old(self)@.vars[old(self)@.var_index(var_name@)], attr_name@, err_of(r))
            },
            r is Ok ==> final(self)@ == old(self)@.with_var_at(
                old(self)@.var_index(var_name@),
                VariableModel {
                    attrs: old(self)@.vars[old(self)@.var_index(var_name@)].attrs.push(AttributeModel { name: attr_name@, values: Values::U8(var_attr_value@) }),
                    ..old(self)@.vars[old(self)@.var_index(var_name@)]
                },
            ),
            r is Err ==> final(self)@ == old(self)@,
    {
        self.add_var_attr(var_name, attr_name, DataVector::U8(var_attr_value))
    }

    /// The values of an attribute of a variable, where both exist and the type is `U8`.
    pub fn get_var_attr_u8(&self, var_name: &str, attr_name: &str) -> (r: Option<&[u8]>)
        ensures
            r is Some <==> self@.has_var_attr(var_name@, attr_name@) && self@.var_attr(var_name@, attr_name@).values is U8,
            r is Some ==> self@.var_attr(var_name@, attr_name@).values == Values::U8(r->Some_0@),
    {
        match self.get_var_attr(var_name, attr_name) {
            Some(a) => match a.get_u8() {
                Some(v) => Some(v.as_slice()),
                None => None,
            },
            None => None,
        }
    }

    /// Adds a global attribute of type `U8`.
    pub fn add_global_attr_u8(&mut self, attr_name: &str, attr_data: Vec<u8>) -> (r: Result<(), InvalidDataSet>)
        ensures
            if has_attr_named(old(self)@.attrs, attr_name@) {
                r matches Err(InvalidDataSet::GlobalAttributeAlreadyExists(n)) && n@ == attr_name@
            } else if !is_valid_name_spec(attr_name@) {
                r matches Err(InvalidDataSet::GlobalAttributeNameNotValid(n)) && n@ == attr_name@
            } else {
                r is Ok
            },
            r is Ok ==> final(self)@ == old(self)@.with_attrs(old(self)@.attrs.push(AttributeModel { name: attr_name@, values: Values::U8(attr_data@) })),
            r is Err ==> final(self)@ == old(self)@,
    {
        self.add_global_attr(attr_name, DataVector::U8(attr_data))
    }

    /// The values of a global attribute, where it exists and its type is `U8`.
    pub fn get_global_attr_u8(&self, attr_name: &str) -> (r: Option<&[u8]>)
        ensures
            r is Some <==> has_attr_named(self@.attrs, attr_name@) && self@.global_attr(attr_name@).values is U8,
            r is Some ==> self@.global_attr(attr_name@).values == Values::U8(r->Some_0@),
    {
        match self.get_global_attr(attr_name) {
            Some(a) => match a.get_u8() {
                Some(v) => Some(v.as_slice()),
                None => None,
            },
            None => None,
        }
    }

    /// Adds an attribute of type `I16` to the variable of that name.
    pub fn add_var_attr_i16(&mut self, var_name: &str, attr_name: &str, var_attr_value: Vec<i16>) -> (r: Result<(), InvalidDataSet>)
        ensures
            if !old(self)@.has_var(var_name@) {
                r matches Err(InvalidDataSet::VariableNotDefined(n)) && n@ == var_name@
            } else {
                add_attr_outcome(old(self)@.vars[old(self)@.var_index(var_name@)], attr_name@, err_of(r))
            },
            r is Ok ==> final(self)@ == old(self)@.with_var_at(
                old(self)@.var_index(var_name@),
                VariableModel {
                    attrs: old(self)@.vars[old(self)@.var_index(var_name@)].attrs.push(AttributeModel { name: attr_name@, values: Values::I16(var_attr_value@) }),
                    ..old(self)@.vars[old(self)@.var_index(var_name@)]
                },
            ),
            r is Err ==> final(self)@ == old(self)@,
    {
        self.add_var_attr(var_name, attr_name, DataVector::I16(var_attr_value))
    }

    /// The values of an attribute of a variable, where both exist and the type is `I16`.
    pub fn get_var_attr_i16(&self, var_name: &str, attr_name: &str) -> (r: Option<&[i16]>)
        ensures
            r is Some <==> self@.has_var_attr(var_name@, attr_name@) && self@.var_attr(var_name@, attr_name@).values is I16,
            r is Some ==> self@.var_attr(var_name@, attr_name@).values == Values::I16(r->Some_0@),
    {
        match self.get_var_attr(var_name, attr_name) {
            Some(a) => match a.get_i16() {
                Some(v) => Some(v.as_slice()),
                None => None,
            },
            None => None,
        }
    }

    /// Adds a global attribute of type `I16`.
    pub fn add_global_attr_i16(&mut self, attr_name: &str, attr_data: Vec<i16>) -> (r: Result<(), InvalidDataSet>)
        ensures
            if has_attr_named(old(self)@.attrs, attr_name@) {
                r matches Err(InvalidDataSet::GlobalAttributeAlreadyExists(n)) && n@ == attr_name@
            } else if !is_valid_name_spec(attr_name@) {
                r matches Err(InvalidDataSet::GlobalAttributeNameNotValid(n)) && n@ == attr_name@
            } else {
                r is Ok
            },
            r is Ok ==> final(self)@ == old(self)@.with_attrs(old(self)@.attrs.push(AttributeModel { name: attr_name@, values: Values::I16(attr_data@) })),
            r is Err ==> final(self)@ == old(self)@,
    {
        self.add_global_attr(attr_name, DataVector::I16(attr_data))
    }

    /// The values of a global attribute, where it exists and its type is `I16`.
    pub fn get_global_attr_i16(&self, attr_name: &str) -> (r: Option<&[i16]>)
        ensures
            r is Some <==> has_attr_named(self@.attrs, attr_name@) && self@.global_attr(attr_name@).values is I16,
            r is Some ==> self@.global_attr(attr_name@).values == Values::I16(r->Some_0@),
    {
        match self.get_global_attr(attr_name) {
            Some(a) => match a.get_i16() {
                Some(v) => Some(v.as_slice()),
                None => None,
            },
            None => None,
        }
    }

    /// Adds an attribute of type `I32` to the variable of that name.
    pub fn add_var_attr_i32(&mut self, var_name: &str, attr_name: &str, var_attr_value: Vec<i32>) -> (r: Result<(), InvalidDataSet>)
        ensures
            if !old(self)@.has_var(var_name@) {
                r matches Err(InvalidDataSet::VariableNotDefined(n)) && n@ == var_name@
            } else {
                add_attr_outcome(old(self)@.vars[old(self)@.var_index(var_name@)], attr_name@, err_of(r))
            },
            r is Ok ==> final(self)@ == old(self)@.with_var_at(
                old(self)@.var_index(var_name@),
                VariableModel {
                    attrs: old(self)@.vars[old(self)@.var_index(var_name@)].attrs.push(AttributeModel { name: attr_name@, values: Values::I32(var_attr_value@) }),
                    ..old(self)@.vars[old(self)@.var_index(var_name@)]
                },
            ),
            r is Err ==> final(self)@ == old(self)@,
    {
        self.add_var_attr(var_name, attr_name, DataVector::I32(var_attr_value))
    }

    /// The values of an attribute of a variable, where both exist and the type is `I32`.
    pub fn get_var_attr_i32(&self, var_name: &str, attr_name: &str) -> (r: Option<&[i32]>)
        ensures
            r is Some <==> self@.has_var_attr(var_name@, attr_name@) && self@.var_attr(var_name@, attr_name@).values is I32,
            r is Some ==> self@.var_attr(var_name@, attr_name@).values == Values::I32(r->Some_0@),
    {
        match self.get_var_attr(var_name, attr_name) {
            Some(a) => match a.get_i32() {
                Some(v) => Some(v.as_slice()),
                None => None,
            },
            None => None,
        }
    }

    /// Adds a global attribute of type `I32`.
    pub fn add_global_attr_i32(&mut self, attr_name: &str, attr_data: Vec<i32>) -> (r: Result<(), InvalidDataSet>)
        ensures
            if has_attr_named(old(self)@.attrs, attr_name@) {
                r matches Err(InvalidDataSet::GlobalAttributeAlreadyExists(n)) && n@ == attr_name@
            } else if !is_valid_name_spec(attr_name@) {
                r matches Err(InvalidDataSet::GlobalAttributeNameNotValid(n)) && n@ == attr_name@
            } else {
                r is Ok
            },
            r is Ok ==> final(self)@ == old(self)@.with_attrs(old(self)@.attrs.push(AttributeModel { name: attr_name@, values: Values::I32(attr_data@) })),
            r is Err ==> final(self)@ == old(self)@,
    {
        self.add_global_attr(attr_name, DataVector::I32(attr_data))
    }

    /// The values of a global attribute, where it exists and its type is `I32`.
    pub fn get_global_attr_i32(&self, attr_name: &str) -> (r: Option<&[i32]>)
        ensures
            r is Some <==> has_attr_named(self@.attrs, attr_name@) && self@.global_attr(attr_name@).values is I32,
            r is Some ==> self@.global_attr(attr_name@).values == Values::I32(r->Some_0@),
    {
        match self.get_global_attr(attr_name) {
            Some(a) => match a.get_i32() {
                Some(v) => Some(v.as_slice()),
                None => None,
            },
            None => None,
        }
    }

    /// Adds an attribute of type `F32` to the variable of that name. Values are given as IEEE-754 bit patterns.
    pub fn add_var_attr_f32(&mut self, var_name: &str, attr_name: &str, var_attr_value: Vec<u32>) -> (r: Result<(), InvalidDataSet>)
        ensures
            if !old(self)@.has_var(var_name@) {
                r matches Err(InvalidDataSet::VariableNotDefined(n)) && n@ == var_name@
            } else {
                add_attr_outcome(old(self)@.vars[old(self)@.var_index(var_name@)], attr_name@, err_of(r))
            },
            r is Ok ==> final(self)@ == old(self)@.with_var_at(
                old(self)@.var_index(var_name@),
                VariableModel {
                    attrs: old(self)@.vars[old(self)@.var_index(var_name@)].attrs.push(AttributeModel { name: attr_name@, values: Values::F32(var_attr_value@) }),
                    ..old(self)@.vars[old(self)@.var_index(var_name@)]
                },
            ),
            r is Err ==> final(self)@ == old(self)@,
    {
        self.add_var_attr(var_name, attr_name, DataVector::F32(var_attr_value))
    }

    /// The values of an attribute of a variable, where both exist and the type is `F32`. Values are given as IEEE-754 bit patterns.
    pub fn get_var_attr_f32(&self, var_name: &str, attr_name: &str) -> (r: Option<&[u32]>)
        ensures
            r is Some <==> self@.has_var_attr(var_name@, attr_name@) && self@.var_attr(var_name@, attr_name@).values is F32,
            r is Some ==> self@.var_attr(var_name@, attr_name@).values == Values::F32(r->Some_0@),
    {
        match self.get_var_attr(var_name, attr_name) {
            Some(a) => match a.get_f32() {
                Some(v) => Some(v.as_slice()),
                None => None,
            },
            None => None,
        }
    }

    /// Adds a global attribute of type `F32`. Values are given as IEEE-754 bit patterns.
    pub fn add_global_attr_f32(&mut self, attr_name: &str, attr_data: Vec<u32>) -> (r: Result<(), InvalidDataSet>)
        ensures
            if has_attr_named(old(self)@.attrs, attr_name@) {
                r matches Err(InvalidDataSet::GlobalAttributeAlreadyExists(n)) && n@ == attr_name@
            } else if !is_valid_name_spec(attr_name@) {
                r matches Err(InvalidDataSet::GlobalAttributeNameNotValid(n)) && n@ == attr_name@
            } else {
                r is Ok
            },
            r is Ok ==> final(self)@ == old(self)@.with_attrs(old(self)@.attrs.push(AttributeModel { name: attr_name@, values: Values::F32(attr_data@) })),
            r is Err ==> final(self)@ == old(self)@,
    {
        self.add_global_attr(attr_name, DataVector::F32(attr_data))
    }

    /// The values of a global attribute, where it exists and its type is `F32`. Values are given as IEEE-754 bit patterns.
    pub fn get_global_attr_f32(&self, attr_name: &str) -> (r: Option<&[u32]>)
        ensures
            r is Some <==> has_attr_named(self@.attrs, attr_name@) && self@.global_attr(attr_name@).values is F32,
            r is Some ==> self@.global_attr(attr_name@).values == Values::F32(r->Some_0@),
    {
        match self.get_global_attr(attr_name) {
            Some(a) => match a.get_f32() {
                Some(v) => Some(v.as_slice()),
                None => None,
            },
            None => None,
        }
    }

    /// Adds an attribute of type `F64` to the variable of that name. Values are given as IEEE-754 bit patterns.
    pub fn add_var_attr_f64(&mut self, var_name: &str, attr_name: &str, var_attr_value: Vec<u64>) -> (r: Result<(), InvalidDataSet>)
        ensures
            if !old(self)@.has_var(var_name@) {
                r matches Err(InvalidDataSet::VariableNotDefined(n)) && n@ == var_name@
            } else {
                add_attr_outcome(old(self)@.vars[old(self)@.var_index(var_name@)], attr_name@, err_of(r))
            },
            r is Ok ==> final(self)@ == old(self)@.with_var_at(
                old(self)@.var_index(var_name@),
                VariableModel {
                    attrs: old(self)@.vars[old(self)@.var_index(var_name@)].attrs.push(AttributeModel { name: attr_name@, values: Values::F64(var_attr_value@) }),
                    ..old(self)@.vars[old(self)@.var_index(var_name@)]
                },
            ),
            r is Err ==> final(self)@ == old(self)@,
    {
        self.add_var_attr(var_name, attr_name, DataVector::F64(var_attr_value))
    }

    /// The values of an attribute of a variable, where both exist and the type is `F64`. Values are given as IEEE-754 bit patterns.
    pub fn get_var_attr_f64(&self, var_name: &str, attr_name: &str) -> (r: Option<&[u64]>)
        ensures
            r is Some <==> self@.has_var_attr(var_name@, attr_name@) && self@.var_attr(var_name@, attr_name@).values is F64,
            r is Some ==> self@.var_attr(var_name@, attr_name@).values == Values::F64(r->Some_0@),
    {
        match self.get_var_attr(var_name, attr_name) {
            Some(a) => match a.get_f64() {
                Some(v) => Some(v.as_slice()),
                None => None,
            },
            None => None,
        }
    }

    /// Adds a global attribute of type `F64`. Values are given as IEEE-754 bit patterns.
    pub fn add_global_attr_f64(&mut self, attr_name: &str, attr_data: Vec<u64>) -> (r: Result<(), InvalidDataSet>)
        ensures
            if has_attr_named(old(self)@.attrs, attr_name@) {
                r matches Err(InvalidDataSet::GlobalAttributeAlreadyExists(n)) && n@ == attr_name@
            } else if !is_valid_name_spec(attr_name@) {
                r matches Err(InvalidDataSet::GlobalAttributeNameNotValid(n)) && n@ == attr_name@
            } else {
                r is Ok
            },
            r is Ok ==> final(self)@ == old(self)@.with_attrs(old(self)@.attrs.push(AttributeModel { name: attr_name@, values: Values::F64(attr_data@) })),
            r is Err ==> final(self)@ == old(self)@,
    {
        self.add_global_attr(attr_name, DataVector::F64(attr_data))
    }

    /// The values of a global attribute, where it exists and its type is `F64`. Values are given as IEEE-754 bit patterns.
    pub fn get_global_attr_f64(&self, attr_name: &str) -> (r: Option<&[u64]>)
        ensures
            r is Some <==> has_attr_named(self@.attrs, attr_name@) && self@.global_attr(attr_name@).values is F64,
            r is Some ==> self@.global_attr(attr_name@).values == Values::F64(r->Some_0@),
    {
        match self.get_global_attr(attr_name) {
            Some(a) => match a.get_f64() {
                Some(v) => Some(v.as_slice()),
                None => None,
            },
            None => None,
        }
    }

    /// Positions, in the dataset's list, of the dimensions of its `i`-th variable.
    pub fn var_dim_ids(&self, i: usize) -> (r: Vec<usize>)
        requires
            i < self@.vars.len(),
        ensures
            r@.len() == self@.vars[i as int].dims.len(),
            forall|k: int| 0 <= k < r@.len() ==> (#[trigger] r@[k]) < self@.dims.len()
                && self@.dims[r@[k] as int] == self@.vars[i as int].dims[k],
    {
        proof { use_type_invariant(self); }
        let v: &Variable = &self.vars[i];
        let ghost vm = self@.vars[i as int];
        assert(vm == v@);
        assert(self@.var_dims_defined(vm));
        let names = v.get_dim_names();
        assert(string_views(names@).len() == names@.len());
        let mut r: Vec<usize> = Vec::new();
        let mut k: usize = 0;
        while k < v.num_dims()
            invariant
                self@.wf(),
                vm == v@,
                self@.var_dims_defined(vm),
                string_views(names@) == dim_names(vm.dims),
                names@.len() == vm.dims.len(),
                0 <= k <= vm.dims.len(),
                r@.len() == k,
                forall|j: int| 0 <= j < k ==> (#[trigger] r@[j]) < self@.dims.len()
                    && self@.dims[r@[j] as int] == vm.dims[j],
            decreases vm.dims.len() - k,
        {
            assert(string_views(names@)[k as int] == vm.dims[k as int].name);
            let id = self.find_dim_from_name(names[k].as_str());
            proof {
                assert(self@.dims.contains(vm.dims[k as int]));
                let j = choose|j: int| 0 <= j < self@.dims.len() && self@.dims[j] == vm.dims[k as int];
                assert(self@.dims[j].name == vm.dims[k as int].name);
                assert(self@.has_dim(vm.dims[k as int].name));
            }
            let id: usize = id.unwrap();
            proof {
                let j = choose|j: int| 0 <= j < self@.dims.len() && self@.dims[j] == vm.dims[k as int];
                if (id as int) < j {
                    assert(self@.dims[id as int].name != self@.dims[j].name);
                } else if j < id {
                    assert(self@.dims[j].name != self@.dims[id as int].name);
                }
                assert(id as int == j);
                assert(self@.dims[id as int] == vm.dims[k as int]);
            }
            r.push(id);
            k = k + 1;
        }
        r
    }

    /// A copy with the same content.
    pub fn duplicate(&self) -> (r: DataSet)
        ensures
            r@ == self@,
    {
        proof { use_type_invariant(self); }
        let dims = self.get_dims();
        let mut attrs: Vec<Attribute> = Vec::new();
        let mut i: usize = 0;
        while i < self.attrs.len()
            invariant
                0 <= i <= self.attrs@.len(),
                attrs@.len() == i,
                forall|k: int| 0 <= k < i ==> (#[trigger] attrs@[k])@ == self.attrs@[k]@,
            decreases self.attrs@.len() - i,
        {
            attrs.push(self.attrs[i].duplicate());
            i = i + 1;
        }
        let mut vars: Vec<Variable> = Vec::new();
        let mut j: usize = 0;
        while j < self.vars.len()
            invariant
                0 <= j <= self.vars@.len(),
                vars@.len() == j,
                forall|k: int| 0 <= k < j ==> (#[trigger] vars@[k])@ == self.vars@[k]@,
            decreases self.vars@.len() - j,
        {
            vars.push(self.vars[j].duplicate());
            j = j + 1;
        }
        assert(attrs_view(attrs@) =~= self@.attrs);
        assert(vars_view(vars@) =~= self@.vars);
        DataSet { dims, attrs, vars }
    }

    /// Adds a variable built elsewhere over dimensions of this dataset; fails when its name is taken.
    pub(crate) fn add_variable(&mut self, var: Variable) -> (r: Result<(), InvalidDataSet>)
        requires
            var@.wf(),
            old(self)@.var_dims_defined(var@),
        ensures
            r is Ok <==> !old(self)@.has_var(var@.name),
            r is Ok ==> final(self)@ == old(self)@.with_var(var@),
            r is Err ==> final(self)@ == old(self)@ && (r matches Err(InvalidDataSet::VariableAlreadyExists(n)) && n@ == var@.name),
    {
        proof { use_type_invariant(&*self); }
        if self.find_var_from_name(var.name()).is_ok() {
            return Err(InvalidDataSet::VariableAlreadyExists(var.name().to_owned()));
        }
        proof { lemma_with_var_wf(self@, var@); }
        let (dims, attrs, mut vars) = self.take_parts();
        let ghost before = vars@;
        let ghost vv = var@;
        vars.push(var);
        assert(vars_view(vars@) =~= vars_view(before).push(vv));
        *self = DataSet { dims, attrs, vars };
        Ok(())
    }

    /// Size of one record: the sum of the chunk sizes of the record variables (the largest
    /// `usize` where it does not fit).
    pub fn num_bytes_per_record(&self) -> (r: usize)
        ensures
            r == saturate(crate::io::layout::record_sum(self@.vars)),
    {
        match self.record_size_checked() {
            Some(n) => n,
            None => usize::MAX,
        }
    }

    /// Size of one record, where it fits in a `usize`.
    pub fn record_size_checked(&self) -> (r: Option<usize>)
        ensures
            r is Some <==> crate::io::layout::record_sum(self@.vars) <= usize::MAX,
            r is Some ==> r->Some_0 == crate::io::layout::record_sum(self@.vars),
    {
        let ghost vs = self@.vars;
        let mut acc: usize = 0;
        let mut over: bool = false;
        let mut i: usize = 0;
        while i < self.vars.len()
            invariant
                0 <= i <= self.vars@.len(),
                vs == self@.vars,
                over == (crate::io::layout::record_sum(vs.take(i as int)) > usize::MAX),
                !over ==> acc == crate::io::layout::record_sum(vs.take(i as int)),
            decreases self.vars@.len() - i,
        {
            proof { crate::io::layout::lemma_sums_step(vs, i as int); }
            assert(vs[i as int] == self.vars@[i as int]@);
            if self.vars[i].is_record_var() {
                match self.vars[i].chunk_size_checked() {
                    None => {
                        over = true;
                    },
                    Some(c) => {
                        if !over {
                            match acc.checked_add(c) {
                                Some(x) => {
                                    acc = x;
                                },
                                None => {
                                    over = true;
                                },
                            }
                        }
                    },
                }
            }
            i = i + 1;
        }
        assert(vs.take(self.vars@.len() as int) =~= vs);
        if over {
            None
        } else {
            Some(acc)
        }
    }

    pub fn num_dims(&self) -> (r: usize)
        ensures
            r == self@.dims.len(),
    {
        self.dims.len()
    }

    pub fn has_dim(&self, dim_name: &str) -> (r: bool)
        ensures
            r == self@.has_dim(dim_name@),
    {
        self.find_dim_from_name(dim_name).is_some()
    }

    /// A copy of the dimension of that name, if any.
    pub fn get_dim(&self, dim_name: &str) -> (r: Option<Dimension>)
        ensures
            r is Some <==> self@.has_dim(dim_name@),
            r is Some ==> r->Some_0@ == self@.dims[self@.dim_index(dim_name@)],
    {
        match self.find_dim_from_name(dim_name) {
            Some(i) => Some(self.dims[i].duplicate()),
            None => None,
        }
    }

    /// Copies of all dimensions, in order.
    pub fn get_dims(&self) -> (r: Vec<Dimension>)
        ensures
            dims_view(r@) == self@.dims,
    {
        let mut r: Vec<Dimension> = Vec::new();
        let mut i: usize = 0;
        while i < self.dims.len()
            invariant
                0 <= i <= self.dims@.len(),
                r@.len() == i,
                forall|k: int| 0 <= k < i ==> (#[trigger] r@[k])@ == self.dims@[k]@,
            decreases self.dims@.len() - i,
        {
            r.push(self.dims[i].duplicate());
            i = i + 1;
        }
        assert(dims_view(r@) =~= self@.dims);
        r
    }

    /// Names of all dimensions, in order.
    pub fn get_dim_names(&self) -> (r: Vec<String>)
        ensures
            string_views(r@) == dim_names(self@.dims),
    {
        variable::names_of_dims(&self.dims)
    }

    pub fn has_unlimited_dim(&self) -> (r: bool)
        ensures
            r == self@.has_unlimited(),
    {
        self.find_unlimited().is_some()
    }

    /// A copy of the unlimited dimension, if any.
    pub fn get_unlimited_dim(&self) -> (r: Option<Dimension>)
        ensures
            r is Some <==> self@.has_unlimited(),
            r is Some ==> r->Some_0@ == self@.dims[self@.unlimited_index()],
    {
        match self.find_unlimited() {
            Some(i) => Some(self.dims[i].duplicate()),
            None => None,
        }
    }

    pub fn get_dim_size(&self, dim_name: &str) -> (r: Option<usize>)
        ensures
            r is Some <==> self@.has_dim(dim_name@),
            r is Some ==> r->Some_0 == self@.dims[self@.dim_index(dim_name@)].size,
    {
        match self.find_dim_from_name(dim_name) {
            Some(i) => Some(self.dims[i].size()),
            None => None,
        }
    }

    pub fn get_dim_type(&self, dim_name: &str) -> (r: Option<DimensionType>)
        ensures
            r is Some <==> self@.has_dim(dim_name@),
            r is Some ==> (r->Some_0 == DimensionType::UnlimitedSize <==> self@.dims[self@.dim_index(dim_name@)].unlimited),
    {
        match self.find_dim_from_name(dim_name) {
            Some(i) => Some(self.dims[i].dim_type()),
            None => None,
        }
    }

    /// Number of records: the size of the unlimited dimension, else zero.
    pub fn num_records(&self) -> (r: usize)
        ensures
            r == self@.num_records(),
    {
        match self.find_unlimited() {
            Some(i) => self.dims[i].size(),
            None => 0,
        }
    }
}

} // verus!
