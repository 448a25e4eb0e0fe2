//! Data types and operator kinds of the intermediate representation.

use vstd::prelude::*;

verus! {

broadcast use vstd::std_specs::vec::group_vec_axioms;

/// Mathematical model of a [`DataType`]: the same tree with `Seq` in place of
/// `Vec`, used by contracts so that two structurally equal types are equal.
pub enum TypeV {
    I64,
    F64,
    Bool,
    Void,
    Array(Box<TypeV>, nat),
    Struct(Seq<TypeV>),
}

/// A value type of the intermediate representation. Aggregates (arrays and
/// structs) are decomposed into member storage spaces when declared.
pub enum DataType {
    I64,
    F64,
    Bool,
    Void,
    Array(Box<DataType>, u32),
    Struct(Vec<DataType>),
}

pub open spec fn type_view(dt: DataType) -> TypeV
    decreases dt,
{
    match dt {
        DataType::I64 => TypeV::I64,
        DataType::F64 => TypeV::F64,
        DataType::Bool => TypeV::Bool,
        DataType::Void => TypeV::Void,
        DataType::Array(elem, n) => TypeV::Array(Box::new(type_view(*elem)), n as nat),
        DataType::Struct(members) => TypeV::Struct(type_list_view(members@)),
    }
}

pub open spec fn type_list_view(ts: Seq<DataType>) -> Seq<TypeV>
    decreases ts,
{
    if ts.len() == 0 {
        Seq::empty()
    } else {
        type_list_view(ts.drop_last()).push(type_view(ts.last()))
    }
}

pub broadcast proof fn lemma_type_list_view_len(ts: Seq<DataType>)
    ensures
        #[trigger] type_list_view(ts).len() == ts.len(),
    decreases ts,
{
    if ts.len() > 0 {
        lemma_type_list_view_len(ts.drop_last());
    }
}

pub broadcast proof fn lemma_type_list_view_index(ts: Seq<DataType>, i: int)
    requires
        0 <= i < ts.len(),
    ensures
        #[trigger] type_list_view(ts)[i] == type_view(ts[i]),
    decreases ts,
{
    lemma_type_list_view_len(ts);
    if i < ts.len() - 1 {
        lemma_type_list_view_index(ts.drop_last(), i);
    }
}

impl View for DataType {
    type V = TypeV;

    open spec fn view(&self) -> TypeV {
        type_view(*self)
    }
}

impl DataType {
    /// Structural copy; the `ensures` pins the result's model to the input's,
    /// which a derived `Clone` would not give inside verified code.
    pub fn deep_clone(&self) -> (r: DataType)
        ensures
            r@ == self@,
        decreases *self,
    {
        match self {
            DataType::I64 => DataType::I64,
            DataType::F64 => DataType::F64,
            DataType::Bool => DataType::Bool,
            DataType::Void => DataType::Void,
            DataType::Array(elem, n) => DataType::Array(Box::new(elem.deep_clone()), *n),
            DataType::Struct(members) => {
                let copies = clone_type_list(members);
                proof {
                    lemma_type_list_view_len(members@);
                    lemma_type_list_view_len(copies@);
                    assert forall|i: int| 0 <= i < copies@.len() implies type_list_view(copies@)[i]
                        == type_list_view(members@)[i] by {
                        lemma_type_list_view_index(copies@, i);
                        lemma_type_list_view_index(members@, i);
                        assert(copies@[i]@ == members@[i]@);
                    }
                    assert(type_list_view(copies@) =~= type_list_view(members@));
                }
                DataType::Struct(copies)
            },
        }
    }
}

/// Structural copy of a list of types, element by element.
fn clone_type_list(ts: &Vec<DataType>) -> (r: Vec<DataType>)
    ensures
        r@.len() == ts@.len(),
        forall|i: int| 0 <= i < ts@.len() ==> #[trigger] r@[i]@ == ts@[i]@,
    decreases ts@,
{
    let mut copies: Vec<DataType> = Vec::new();
    let mut i: usize = 0;
    while i < ts.len()
        invariant
            i <= ts@.len(),
            copies@.len() == i,
            forall|j: int| 0 <= j < i ==> #[trigger] copies@[j]@ == ts@[j]@,
        decreases ts@.len() - i,
    {
        copies.push(ts[i].deep_clone());
        i += 1;
    }
    copies
}

#[derive(Debug, Copy, Clone, PartialEq, Eq, Structural)]
pub enum CompareType {
    Less,
    Greater,
    Eq,
    NotEq,
    LessEqual,
    GreaterEqual,
}

#[derive(Debug, Copy, Clone)]
pub enum Op {
    Binary(BinaryOp),
    Unary(UnaryOp),
}

#[derive(Debug, Copy, Clone, PartialEq, Eq, Structural)]
pub enum BinaryOp {
    Add,
    Sub,
    Mul,
    Div,
    Compare(CompareType),
    And,
    Or,
    Xor,
}

#[derive(Debug, Copy, Clone, PartialEq, Eq, Structural)]
pub enum UnaryOp {
    Not,
    Negative,
    Unit,
}

} // verus!
