use vstd::prelude::*;
use crate::error::InvalidDataSet;
use crate::name_string::{is_valid_name, is_valid_name_spec};

verus! {

/// A named dimension of a dataset.
#[derive(Debug, Clone, PartialEq, Eq)]
pub struct Dimension {
    name: String,
    size: DimensionSize,
}

/// Size of a dimension together with its kind.
#[derive(Debug, Clone, Copy, PartialEq, Eq, Structural)]
pub enum DimensionSize {
    Unlimited(usize),
    Fixed(usize),
}

/// Kind of a dimension.
#[derive(Debug, Clone, Copy, PartialEq, Eq, Structural)]
pub enum DimensionType {
    UnlimitedSize,
    FixedSize,
}

/// Mathematical content of a `Dimension`.
pub ghost struct DimensionModel {
    pub name: Seq<char>,
    pub size: nat,
    pub unlimited: bool,
}

impl View for Dimension {
    type V = DimensionModel;

    closed spec fn view(&self) -> DimensionModel {
        DimensionModel {
            name: self.name@,
            size: self.size.size_spec() as nat,
            unlimited: self.size is Unlimited,
        }
    }
}

impl DimensionSize {
    pub open spec fn size_spec(self) -> usize {
        match self {
            DimensionSize::Unlimited(n) => n,
            DimensionSize::Fixed(n) => n,
        }
    }

    pub fn new(size: usize, dim_type: DimensionType) -> (r: DimensionSize)
        ensures
            r.size_spec() == size,
            r is Unlimited <==> dim_type == DimensionType::UnlimitedSize,
    {
        match dim_type {
            DimensionType::FixedSize => DimensionSize::Fixed(size),
            DimensionType::UnlimitedSize => DimensionSize::Unlimited(size),
        }
    }

    pub fn size(&self) -> (r: usize)
        ensures
            r == self.size_spec(),
    {
        match self {
            DimensionSize::Unlimited(n) => *n,
            DimensionSize::Fixed(n) => *n,
        }
    }

    pub fn dim_type(&self) -> (r: DimensionType)
        ensures
            r == DimensionType::UnlimitedSize <==> *self is Unlimited,
    {
        match self {
            DimensionSize::Unlimited(_) => DimensionType::UnlimitedSize,
            DimensionSize::Fixed(_) => DimensionType::FixedSize,
        }
    }
}

impl Dimension {
    /// A fixed-size dimension; fails when the name is not valid.
    pub fn new_fixed_size(name: &str, size: usize) -> (r: Result<Dimension, InvalidDataSet>)
        ensures
            r is Ok <==> is_valid_name_spec(name@),
            r is Ok ==> r->Ok_0@ == (DimensionModel { name: name@, size: size as nat, unlimited: false }),
            r is Err ==> r->Err_0 is DimensionNameNotValid && r->Err_0->DimensionNameNotValid_0@
                == name@,
    {
        Dimension::check_dim_name(name)?;
        Ok(Dimension { name: name.to_owned(), size: DimensionSize::Fixed(size) })
    }

    /// An unlimited-size dimension whose current size is `size`; fails when the name is not valid.
    pub fn new_unlimited_size(name: &str, size: usize) -> (r: Result<Dimension, InvalidDataSet>)
        ensures
            r is Ok <==> is_valid_name_spec(name@),
            r is Ok ==> r->Ok_0@ == (DimensionModel { name: name@, size: size as nat, unlimited: true }),
            r is Err ==> r->Err_0 is DimensionNameNotValid && r->Err_0->DimensionNameNotValid_0@
                == name@,
    {
        Dimension::check_dim_name(name)?;
        Ok(Dimension { name: name.to_owned(), size: DimensionSize::Unlimited(size) })
    }

    pub fn name(&self) -> (r: String)
        ensures
            r@ == self@.name,
    {
        self.name.clone()
    }

    /// The name, borrowed.
    pub fn name_str(&self) -> (r: &str)
        ensures
            r@ == self@.name,
    {
        self.name.as_str()
    }

    pub fn size(&self) -> (r: usize)
        ensures
            r == self@.size,
    {
        self.size.size()
    }

    pub fn dim_type(&self) -> (r: DimensionType)
        ensures
            r == DimensionType::UnlimitedSize <==> self@.unlimited,
    {
        self.size.dim_type()
    }

    pub fn is_unlimited(&self) -> (r: bool)
        ensures
            r == self@.unlimited,
    {
        self.dim_type() == DimensionType::UnlimitedSize
    }

    pub fn is_fixed(&self) -> (r: bool)
        ensures
            r == !self@.unlimited,
    {
        self.dim_type() == DimensionType::FixedSize
    }

    /// A copy with the same content.
    pub fn duplicate(&self) -> (r: Dimension)
        ensures
            r@ == self@,
    {
        Dimension { name: self.name.clone(), size: self.size }
    }

    pub(crate) fn set_name(&mut self, name: &str)
        ensures
            final(self)@ == (DimensionModel { name: name@, ..old(self)@ }),
    {
        self.name = name.to_owned();
    }

    pub(crate) fn check_dim_name(dim_name: &str) -> (r: Result<(), InvalidDataSet>)
        ensures
            r is Ok <==> is_valid_name_spec(dim_name@),
            r is Err ==> r->Err_0 is DimensionNameNotValid && r->Err_0->DimensionNameNotValid_0@
                == dim_name@,
    {
        if is_valid_name(dim_name) {
            Ok(())
        } else {
            Err(InvalidDataSet::DimensionNameNotValid(dim_name.to_owned()))
        }
    }
}

} // verus!
