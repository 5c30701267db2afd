use vstd::prelude::*;
use crate::data_type::DataType;
use crate::data_vector::{DataVector, Values};
use crate::name_string::{is_valid_name, is_valid_name_spec, same_name};

verus! {

/// A named vector of values, attached to a dataset or to a variable.
#[derive(Debug, Clone, PartialEq)]
pub struct Attribute {
    name: String,
    data: DataVector,
}

/// Mathematical content of an `Attribute`.
pub ghost struct AttributeModel {
    pub name: Seq<char>,
    pub values: Values,
}

impl View for Attribute {
    type V = AttributeModel;

    closed spec fn view(&self) -> AttributeModel {
        AttributeModel { name: self.name@, values: self.data@ }
    }
}

/// The views of a sequence of attributes.
pub open spec fn attrs_view(v: Seq<Attribute>) -> Seq<AttributeModel> {
    v.map_values(|a: Attribute| a@)
}

/// The names of a sequence of attributes.
pub open spec fn attr_names(v: Seq<AttributeModel>) -> Seq<Seq<char>> {
    v.map_values(|a: AttributeModel| a.name)
}

/// No two attributes share a name, and each name is valid.
pub open spec fn attrs_wf(v: Seq<AttributeModel>) -> bool {
    &&& forall|i: int| 0 <= i < v.len() ==> is_valid_name_spec(#[trigger] v[i].name)
    &&& forall|i: int, j: int| 0 <= i < j < v.len() ==> v[i].name != v[j].name
}

/// Position of the attribute named `name`, if any.
pub fn find_attr(attrs: &Vec<Attribute>, name: &str) -> (r: Option<usize>)
    ensures
        r is Some ==> r->Some_0 < attrs@.len() && attrs@[r->Some_0 as int]@.name == name@,
        r is None ==> forall|i: int| 0 <= i < attrs@.len() ==> (#[trigger] attrs@[i])@.name != name@,
{
    let mut i: usize = 0;
    while i < attrs.len()
        invariant
            0 <= i <= attrs@.len(),
            forall|k: int| 0 <= k < i ==> (#[trigger] attrs@[k])@.name != name@,
        decreases attrs@.len() - i,
    {
        if same_name(attrs[i].name.as_str(), name) {
            return Some(i);
        }
        i = i + 1;
    }
    None
}

impl Attribute {
    /// An attribute; fails with the name when it is not valid.
    pub fn new(name: &str, data: DataVector) -> (r: Result<Attribute, String>)
        ensures
            r is Ok <==> is_valid_name_spec(name@),
            r is Ok ==> r->Ok_0@ == (AttributeModel { name: name@, values: data@ }),
            r is Err ==> r->Err_0@ == name@,
    {
        Attribute::check_attr_name(name)?;
        Ok(Attribute { name: name.to_owned(), data })
    }

    pub fn new_i8_attr(name: &str, data: Vec<i8>) -> (r: Result<Attribute, String>)
        ensures
            r is Ok <==> is_valid_name_spec(name@),
            r is Ok ==> r->Ok_0@ == (AttributeModel { name: name@, values: Values::I8(data@) }),
            r is Err ==> r->Err_0@ == name@,
    {
        Attribute::new(name, DataVector::I8(data))
    }

    pub fn new_u8_attr(name: &str, data: Vec<u8>) -> (r: Result<Attribute, String>)
        ensures
            r is Ok <==> is_valid_name_spec(name@),
            r is Ok ==> r->Ok_0@ == (AttributeModel { name: name@, values: Values::U8(data@) }),
            r is Err ==> r->Err_0@ == name@,
    {
        Attribute::new(name, DataVector::U8(data))
    }

    pub fn new_i16_attr(name: &str, data: Vec<i16>) -> (r: Result<Attribute, String>)
        ensures
            r is Ok <==> is_valid_name_spec(name@),
            r is Ok ==> r->Ok_0@ == (AttributeModel { name: name@, values: Values::I16(data@) }),
            r is Err ==> r->Err_0@ == name@,
    {
        Attribute::new(name, DataVector::I16(data))
    }

    pub fn new_i32_attr(name: &str, data: Vec<i32>) -> (r: Result<Attribute, String>)
        ensures
            r is Ok <==> is_valid_name_spec(name@),
            r is Ok ==> r->Ok_0@ == (AttributeModel { name: name@, values: Values::I32(data@) }),
            r is Err ==> r->Err_0@ == name@,
    {
        Attribute::new(name, DataVector::I32(data))
    }

    /// An `F32` attribute from the bit patterns of its values.
    pub fn new_f32_attr(name: &str, data: Vec<u32>) -> (r: Result<Attribute, String>)
        ensures
            r is Ok <==> is_valid_name_spec(name@),
            r is Ok ==> r->Ok_0@ == (AttributeModel { name: name@, values: Values::F32(data@) }),
            r is Err ==> r->Err_0@ == name@,
    {
        Attribute::new(name, DataVector::F32(data))
    }

    /// An `F64` attribute from the bit patterns of its values.
    pub fn new_f64_attr(name: &str, data: Vec<u64>) -> (r: Result<Attribute, String>)
        ensures
            r is Ok <==> is_valid_name_spec(name@),
            r is Ok ==> r->Ok_0@ == (AttributeModel { name: name@, values: Values::F64(data@) }),
            r is Err ==> r->Err_0@ == name@,
    {
        Attribute::new(name, DataVector::F64(data))
    }

    pub fn name(&self) -> (r: &str)
        ensures
            r@ == self@.name,
    {
        self.name.as_str()
    }

    pub fn data_type(&self) -> (r: DataType)
        ensures
            r == self@.values.data_type(),
    {
        self.data.data_type()
    }

    pub fn len(&self) -> (r: usize)
        ensures
            r == self@.values.len(),
    {
        self.data.len()
    }

    /// The values.
    pub fn values(&self) -> (r: &DataVector)
        ensures
            r@ == self@.values,
    {
        &self.data
    }

    pub fn get_i8(&self) -> (r: Option<&Vec<i8>>)
        ensures
            r is Some <==> self@.values is I8,
            r is Some ==> self@.values == Values::I8(r->Some_0@),
    {
        match &self.data {
            DataVector::I8(v) => Some(v),
            _ => None,
        }
    }

    pub fn get_u8(&self) -> (r: Option<&Vec<u8>>)
        ensures
            r is Some <==> self@.values is U8,
            r is Some ==> self@.values == Values::U8(r->Some_0@),
    {
        match &self.data {
            DataVector::U8(v) => Some(v),
            _ => None,
        }
    }

    pub fn get_i16(&self) -> (r: Option<&Vec<i16>>)
        ensures
            r is Some <==> self@.values is I16,
            r is Some ==> self@.values == Values::I16(r->Some_0@),
    {
        match &self.data {
            DataVector::I16(v) => Some(v),
            _ => None,
        }
    }

    pub fn get_i32(&self) -> (r: Option<&Vec<i32>>)
        ensures
            r is Some <==> self@.values is I32,
            r is Some ==> self@.values == Values::I32(r->Some_0@),
    {
        match &self.data {
            DataVector::I32(v) => Some(v),
            _ => None,
        }
    }

    /// The bit patterns of `F32` values.
    pub fn get_f32(&self) -> (r: Option<&Vec<u32>>)
        ensures
            r is Some <==> self@.values is F32,
            r is Some ==> self@.values == Values::F32(r->Some_0@),
    {
        match &self.data {
            DataVector::F32(v) => Some(v),
            _ => None,
        }
    }

    /// The bit patterns of `F64` values.
    pub fn get_f64(&self) -> (r: Option<&Vec<u64>>)
        ensures
            r is Some <==> self@.values is F64,
            r is Some ==> self@.values == Values::F64(r->Some_0@),
    {
        match &self.data {
            DataVector::F64(v) => Some(v),
            _ => None,
        }
    }

    /// A copy with the same content.
    pub fn duplicate(&self) -> (r: Attribute)
        ensures
            r@ == self@,
    {
        Attribute { name: self.name.clone(), data: self.data.duplicate() }
    }

    pub(crate) fn set_name(&mut self, name: &str)
        ensures
            final(self)@ == (AttributeModel { name: name@, ..old(self)@ }),
    {
        self.name = name.to_owned();
    }

    pub(crate) fn check_attr_name(attr_name: &str) -> (r: Result<(), String>)
        ensures
            r is Ok <==> is_valid_name_spec(attr_name@),
            r is Err ==> r->Err_0@ == attr_name@,
    {
        if is_valid_name(attr_name) {
            Ok(())
        } else {
            Err(attr_name.to_owned())
        }
    }
}


/// An attribute of that name is in the list.
pub open spec fn has_attr_named(v: Seq<AttributeModel>, name: Seq<char>) -> bool {
    exists|i: int| 0 <= i < v.len() && (#[trigger] v[i]).name == name
}

/// The list with the attribute named `old` renamed `new`.
pub open spec fn rename_in_attrs(v: Seq<AttributeModel>, old: Seq<char>, new: Seq<char>) -> Seq<AttributeModel> {
    v.map_values(|a: AttributeModel| if a.name == old { AttributeModel { name: new, ..a } } else { a })
}

/// Position of the attribute of that name.
pub open spec fn attr_index(v: Seq<AttributeModel>, name: Seq<char>) -> int {
    choose|i: int| 0 <= i < v.len() && (#[trigger] v[i]).name == name
}

/// In a well-formed list, the attribute of a name is at one position only.
pub proof fn lemma_attr_index(v: Seq<AttributeModel>, name: Seq<char>, i: int)
    requires
        attrs_wf(v),
        0 <= i < v.len(),
        v[i].name == name,
    ensures
        attr_index(v, name) == i,
{
    let j = attr_index(v, name);
    assert(v[j].name == name);
    if i < j {
        assert(v[i].name != v[j].name);
    } else if j < i {
        assert(v[j].name != v[i].name);
    }
}

/// Adding an attribute under a fresh valid name keeps the list well formed.
pub proof fn lemma_push_attrs_wf(v: Seq<AttributeModel>, a: AttributeModel)
    requires
        attrs_wf(v),
        !has_attr_named(v, a.name),
        is_valid_name_spec(a.name),
    ensures
        attrs_wf(v.push(a)),
{
    let w = v.push(a);
    assert forall|i: int, j: int| 0 <= i < j < w.len() implies w[i].name != w[j].name by {
        if j == v.len() {
            assert(v[i] == w[i]);
        }
    }
}

/// Renaming an attribute to a fresh valid name keeps the list well formed.
pub proof fn lemma_rename_attrs_wf(v: Seq<AttributeModel>, old: Seq<char>, new: Seq<char>)
    requires
        attrs_wf(v),
        !has_attr_named(v, new),
        is_valid_name_spec(new),
    ensures
        attrs_wf(rename_in_attrs(v, old, new)),
{
    let w = rename_in_attrs(v, old, new);
    assert forall|i: int, j: int| 0 <= i < j < w.len() implies w[i].name != w[j].name by {
        if v[i].name == old {
            assert(v[j].name != old);
            assert(v[j].name != new);
        } else if v[j].name == old {
            assert(v[i].name != new);
        }
    }
}

/// Removing an attribute keeps the list well formed.
pub proof fn lemma_remove_attrs_wf(v: Seq<AttributeModel>, i: int)
    requires
        attrs_wf(v),
        0 <= i < v.len(),
    ensures
        attrs_wf(v.remove(i)),
{
    let w = v.remove(i);
    assert forall|a: int, b: int| 0 <= a < b < w.len() implies w[a].name != w[b].name by {
        let a2 = if a < i { a } else { a + 1 };
        let b2 = if b < i { b } else { b + 1 };
        assert(w[a] == v[a2] && w[b] == v[b2]);
    }
    assert forall|a: int| 0 <= a < w.len() implies is_valid_name_spec(#[trigger] w[a].name) by {
        let a2 = if a < i { a } else { a + 1 };
        assert(w[a] == v[a2]);
    }
}

} // verus!
