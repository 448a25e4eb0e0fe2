//! The intermediate representation and its scoped storage model: spaces
//! (storage locations), scopes, instructions, functions and the program
//! root that owns the shared arena pools.

use vstd::prelude::*;

use crate::lattice::{FlatLattice, FlatV};
use crate::ops::{type_view, BinaryOp, CompareType, DataType, TypeV, UnaryOp};

verus! {

broadcast use vstd::std_specs::vec::group_vec_axioms, crate::ops::lemma_type_list_view_len, crate::ops::lemma_type_list_view_index;

/// Whether a space belongs to the global namespace or to one function.
#[derive(Debug, Clone, Copy, PartialEq, Eq, Structural)]
pub enum Scope {
    Global,
    Local { fn_name_id: usize },
}

/// The role of a basic block inside its function's graph.
#[derive(Debug, Clone, Copy, PartialEq, Eq, Structural)]
pub enum BlockType {
    Entry,
    Exit,
    Normal,
}

/// The shape of a storage location: a `Normal` space has an optional
/// declared type and the logical ids of its member spaces (aggregate
/// decomposition); an `Offset` space addresses part of a base space.
pub enum SpaceSignature {
    Normal(Option<DataType>, Vec<usize>),
    Offset(usize, usize, Option<DataType>, Vec<usize>),
}

/// Model of a [`SpaceSignature`].
pub enum SigV {
    Normal(Option<TypeV>, Seq<usize>),
    Offset(usize, usize, Option<TypeV>, Seq<usize>),
}

pub open spec fn opt_type_view(o: Option<DataType>) -> Option<TypeV> {
    match o {
        Some(t) => Some(type_view(t)),
        None => None,
    }
}

impl View for SpaceSignature {
    type V = SigV;

    open spec fn view(&self) -> SigV {
        match self {
            SpaceSignature::Normal(ty, members) => SigV::Normal(opt_type_view(*ty), members@),
            SpaceSignature::Offset(base, off, ty, members) => SigV::Offset(
                *base,
                *off,
                opt_type_view(*ty),
                members@,
            ),
        }
    }
}

impl SigV {
    /// The declared type carried by a signature, if any.
    pub open spec fn type_of(self) -> Option<TypeV> {
        match self {
            SigV::Normal(ty, _) => ty,
            SigV::Offset(_, _, ty, _) => ty,
        }
    }

    /// The member spaces of a signature.
    pub open spec fn members_of(self) -> Seq<usize> {
        match self {
            SigV::Normal(_, ms) => ms,
            SigV::Offset(_, _, _, ms) => ms,
        }
    }
}

impl SpaceSignature {
    pub fn get_type(&self) -> (r: Option<DataType>)
        ensures
            opt_type_view(r) == self@.type_of(),
    {
        match self {
            SpaceSignature::Normal(Some(ty), _) => Some(ty.deep_clone()),
            SpaceSignature::Normal(None, _) => None,
            SpaceSignature::Offset(_, _, Some(ty), _) => Some(ty.deep_clone()),
            SpaceSignature::Offset(_, _, None, _) => None,
        }
    }
}

/// A storage location: its signature, its scope, and the abstract value
/// currently known for it (a flat lattice over concrete values).
pub struct Space {
    pub signature: SpaceSignature,
    pub scope: Scope,
    pub value: FlatLattice<Value>,
}

/// Model of a [`Space`].
pub struct SpaceV {
    pub signature: SigV,
    pub scope: Scope,
    pub value: FlatV<ValueV>,
}

impl View for Space {
    type V = SpaceV;

    open spec fn view(&self) -> SpaceV {
        SpaceV { signature: self.signature@, scope: self.scope, value: self.value@ }
    }
}

/// An indirection to a block, identified by the block's logical id; usable
/// before the target block has been created (forward jumps to labels).
#[derive(Debug, Clone, Copy, PartialEq, Eq, Structural)]
pub struct AddressMarker {
    pub block_id: usize,
}

impl AddressMarker {
    pub fn new(block_id: usize) -> (m: Self)
        ensures
            m.block_id == block_id,
    {
        Self { block_id }
    }
}

/// A concrete runtime value. Aggregate values list the logical ids of the
/// member spaces that hold their elements.
#[derive(Debug)]
pub enum Value {
    Int(IntValue),
    Array(ArrayValue),
    Struct(StructValue),
    Void,
}

#[derive(Debug, Clone, Copy, PartialEq, Eq, Structural)]
pub struct IntValue {
    pub value: i64,
}

#[derive(Debug)]
pub struct ArrayValue {
    pub value: Vec<usize>,
}

#[derive(Debug)]
pub struct StructValue {
    pub value: Vec<usize>,
}

/// Model of a [`Value`].
pub enum ValueV {
    Int(int),
    Array(Seq<usize>),
    Struct(Seq<usize>),
    Void,
}

impl View for Value {
    type V = ValueV;

    open spec fn view(&self) -> ValueV {
        match self {
            Value::Int(v) => ValueV::Int(v.value as int),
            Value::Array(v) => ValueV::Array(v.value@),
            Value::Struct(v) => ValueV::Struct(v.value@),
            Value::Void => ValueV::Void,
        }
    }
}

/// Element-wise comparison of two id lists.
fn usize_vec_eq(a: &Vec<usize>, b: &Vec<usize>) -> (r: bool)
    ensures
        r == (a@ == b@),
{
    if a.len() != b.len() {
        proof {
            assert(a@.len() != b@.len());
        }
        return false;
    }
    let mut i: usize = 0;
    while i < a.len()
        invariant
            i <= a@.len(),
            a@.len() == b@.len(),
            forall|j: int| 0 <= j < i ==> a@[j] == b@[j],
        decreases a@.len() - i,
    {
        if a[i] != b[i] {
            return false;
        }
        i += 1;
    }
    proof {
        assert(a@ =~= b@);
    }
    true
}

/// Element-wise copy of an id list.
fn usize_vec_copy(a: &Vec<usize>) -> (r: Vec<usize>)
    ensures
        r@ == a@,
{
    let mut out: Vec<usize> = Vec::new();
    let mut i: usize = 0;
    while i < a.len()
        invariant
            i <= a@.len(),
            out@.len() == i,
            forall|j: int| 0 <= j < i ==> out@[j] == a@[j],
        decreases a@.len() - i,
    {
        out.push(a[i]);
        i += 1;
    }
    proof {
        assert(out@ =~= a@);
    }
    out
}

/// Whether two concrete values are the same value; this is the equality the
/// constants table deduplicates by.
pub fn value_eq(a: &Value, b: &Value) -> (r: bool)
    ensures
        r == (a@ == b@),
{
    match (a, b) {
        (Value::Int(x), Value::Int(y)) => x.value == y.value,
        (Value::Array(x), Value::Array(y)) => usize_vec_eq(&x.value, &y.value),
        (Value::Struct(x), Value::Struct(y)) => usize_vec_eq(&x.value, &y.value),
        (Value::Void, Value::Void) => true,
        _ => false,
    }
}

/// Structural copy of a concrete value, with its model preserved.
pub fn value_clone(a: &Value) -> (r: Value)
    ensures
        r@ == a@,
{
    match a {
        Value::Int(x) => Value::Int(IntValue { value: x.value }),
        Value::Array(x) => Value::Array(ArrayValue { value: usize_vec_copy(&x.value) }),
        Value::Struct(x) => Value::Struct(StructValue { value: usize_vec_copy(&x.value) }),
        Value::Void => Value::Void,
    }
}

/// A literal value on which the IR can evaluate operators. An operation a
/// literal type does not define is outside its contract (`can_*` is false),
/// so verified code can never reach it.
pub trait Literal: Sized {
    /// Which binary evaluations this literal type defines.
    spec fn can_binary(&self, op: BinaryOp, other: Option<Self>) -> bool;

    /// The defined result of a binary evaluation.
    spec fn binary_result(&self, op: BinaryOp, other: Option<Self>) -> Self;

    /// Which unary evaluations this literal type defines.
    spec fn can_unary(&self, op: UnaryOp, other: Option<Self>) -> bool;

    /// Which static comparisons this literal type defines.
    spec fn can_compare(&self, cmp: CompareType, other: Option<Self>) -> bool;

    fn get_type(&self) -> DataType;

    fn binary(&mut self, op: BinaryOp, other: Option<Self>) -> (r: Self)
        requires
            old(self).can_binary(op, other),
        ensures
            r == old(self).binary_result(op, other),
    ;

    fn unary(&mut self, op: UnaryOp, other: Option<Self>) -> Self
        requires
            old(self).can_unary(op, other),
    ;

    fn static_cmp(&self, cmp: CompareType, other: Option<Self>) -> bool
        requires
            self.can_compare(cmp, other),
    ;
}

impl Literal for IntValue {
    /// Only addition of two integers is a defined evaluation, and only when
    /// the mathematical sum fits the value type.
    open spec fn can_binary(&self, op: BinaryOp, other: Option<IntValue>) -> bool {
        &&& op == BinaryOp::Add
        &&& other is Some
        &&& i64::MIN <= self.value + other->0.value <= i64::MAX
    }

    open spec fn binary_result(&self, op: BinaryOp, other: Option<IntValue>) -> IntValue {
        IntValue { value: (self.value + other->0.value) as i64 }
    }

    /// No unary evaluation is defined for integers yet.
    open spec fn can_unary(&self, op: UnaryOp, other: Option<IntValue>) -> bool {
        false
    }

    /// No static comparison is defined for integers yet.
    open spec fn can_compare(&self, cmp: CompareType, other: Option<IntValue>) -> bool {
        false
    }

    fn get_type(&self) -> DataType {
        DataType::I64
    }

    fn binary(&mut self, op: BinaryOp, other: Option<IntValue>) -> (r: IntValue) {
        match op {
            BinaryOp::Add => IntValue { value: self.value + other.unwrap().value },
            _ => unreached(),
        }
    }

    fn unary(&mut self, op: UnaryOp, other: Option<IntValue>) -> IntValue {
        unreached()
    }

    fn static_cmp(&self, cmp: CompareType, other: Option<IntValue>) -> bool {
        unreached()
    }
}

/// The computation of an assignment: all operands are logical space ids,
/// calls name a function's logical id.
#[derive(Debug, Clone, Copy)]
pub enum Operation {
    Binary(BinaryOp, usize, usize),
    Unary(UnaryOp, usize),
    Compare(CompareType, usize, usize),
    Call(usize),
}

/// A side-effecting command.
#[derive(Debug, Clone, Copy)]
pub enum CommandOperation {
    Store(usize, usize),
}

/// A control transfer ending a block.
#[derive(Debug, Clone, Copy)]
pub enum JumpOperation {
    Unconditional(AddressMarker),
    Branch(usize, AddressMarker, AddressMarker),
    Next,
    End,
    Ret(usize),
}

/// Per-instruction metadata. `declaration_number` is the dense bit-vector
/// index given to assignment instructions by the graph-weight pass; other
/// instructions never carry one.
#[derive(Debug, Clone, Copy)]
pub struct IRInformation {
    pub declaration_number: Option<usize>,
}

impl Default for IRInformation {
    fn default() -> (r: Self)
        ensures
            r.declaration_number is None,
    {
        IRInformation { declaration_number: None }
    }
}

/// One instruction of the intermediate representation.
#[derive(Debug, Clone, Copy)]
pub enum IR {
    Assignment(usize, Operation, IRInformation),
    Jump(JumpOperation, IRInformation),
    Command(CommandOperation, IRInformation),
}

} // verus!

use crate::pool::Pool;

verus! {

/// How many spaces declaring a value of type `t` allocates: one for every
/// array element or struct member, recursively, plus one for the aggregate
/// itself.
pub open spec fn tsize(t: TypeV) -> nat
    decreases t,
{
    match t {
        TypeV::Array(el, n) => 1 + n * tsize(*el),
        TypeV::Struct(ms) => 1 + tsize_list(ms),
        _ => 1,
    }
}

pub open spec fn tsize_list(ms: Seq<TypeV>) -> nat
    decreases ms,
{
    if ms.len() == 0 {
        0
    } else {
        tsize_list(ms.drop_last()) + tsize(ms.last())
    }
}

/// Total spaces declared for an optional type (an untyped declaration still
/// allocates its own space).
pub open spec fn declared_size(t: Option<TypeV>) -> nat {
    match t {
        Some(tv) => tsize(tv),
        None => 1,
    }
}

pub proof fn lemma_tsize_pos(t: TypeV)
    ensures
        tsize(t) >= 1,
{
}

pub proof fn lemma_tsize_list_take_step(ms: Seq<TypeV>, j: int)
    requires
        0 <= j < ms.len(),
    ensures
        tsize_list(ms.take(j + 1)) == tsize_list(ms.take(j)) + tsize(ms[j]),
{
    let s = ms.take(j + 1);
    assert(s.drop_last() =~= ms.take(j));
    assert(s.last() == ms[j]);
}

pub proof fn lemma_tsize_list_take_bound(ms: Seq<TypeV>, j: int)
    requires
        0 <= j <= ms.len(),
    ensures
        tsize_list(ms.take(j)) <= tsize_list(ms),
    decreases ms.len() - j,
{
    if j == ms.len() {
        assert(ms.take(j) =~= ms);
    } else {
        lemma_tsize_list_take_step(ms, j);
        lemma_tsize_list_take_bound(ms, j + 1);
        lemma_tsize_pos(ms[j]);
    }
}

/// How many member spaces an aggregate of type `t` lists in its signature.
pub open spec fn member_count(t: Option<TypeV>) -> nat {
    match t {
        Some(TypeV::Array(_, n)) => n,
        Some(TypeV::Struct(ms)) => ms.len(),
        _ => 0,
    }
}

/// The declared type of the `k`-th member of an aggregate of type `t`.
pub open spec fn member_type(t: Option<TypeV>, k: int) -> TypeV
    recommends
        0 <= k < member_count(t),
{
    match t {
        Some(TypeV::Array(el, _)) => *el,
        Some(TypeV::Struct(ms)) => ms[k],
        _ => arbitrary(),
    }
}

/// What holds of a member space freshly declared during aggregate
/// decomposition: it exists, carries the member's type, and inherits the
/// aggregate's scope.
pub open spec fn member_declared_ok(post: Pool<Space>, mid: int, mt: TypeV, scope: Scope) -> bool {
    &&& post.valid_id(mid)
    &&& post.at_id(mid).signature@ is Normal
    &&& post.at_id(mid).signature@.type_of() == Some(mt)
    &&& post.at_id(mid).scope == scope
}

/// The full contract of declaring a space of type `dt` in scope `scope`:
/// the pool keeps everything it had, grows by exactly the spaces of the
/// decomposition, and the new aggregate space (logical id `id`, the highest
/// id issued) lists one fresh member per array element or struct member, in
/// index order, each of the member's type.
pub open spec fn declared_ok(
    pre: Pool<Space>,
    post: Pool<Space>,
    dt: Option<TypeV>,
    scope: Scope,
    id: int,
) -> bool {
    &&& post.first_id() == pre.first_id()
    &&& post.entries().len() == pre.entries().len() + declared_size(dt)
    &&& forall|i: int|
        0 <= i < pre.entries().len() ==> post.entries()[i] == pre.entries()[i]
    &&& id == post.next_id() - 1
    &&& id >= pre.next_id()
    &&& post.valid_id(id)
    &&& post.at_id(id).scope == scope
    &&& post.at_id(id).value@ is Top
    &&& post.at_id(id).signature@ is Normal
    &&& post.at_id(id).signature@.type_of() == dt
    &&& {
        let ms = post.at_id(id).signature@.members_of();
        &&& ms.len() == member_count(dt)
        &&& forall|k1: int, k2: int| 0 <= k1 < k2 < ms.len() ==> ms[k1] < ms[k2]
        &&& forall|k: int|
            0 <= k < ms.len() ==> pre.next_id() <= #[trigger] ms[k] < id
        &&& forall|k: int|
            0 <= k < ms.len() ==> member_declared_ok(
                post,
                #[trigger] ms[k] as int,
                member_type(dt, k),
                scope,
            )
    }
}

/// Declare a space of type `dt` (recursively declaring member spaces for
/// aggregates first) in the shared space pool, without binding any name.
fn declare_space_typed(spaces: &mut Pool<Space>, dt: &DataType, scope: &Scope) -> (r: (
    usize,
    usize,
))
    requires
        old(spaces).next_id() + tsize(dt@) <= usize::MAX,
    ensures
        declared_ok(*old(spaces), *final(spaces), Some(dt@), *scope, r.0 as int),
        r.1 == r.0 - final(spaces).first_id(),
    decreases *dt,
{
    let ghost pre = *spaces;
    match dt {
        DataType::Array(elem, n) => {
            let ghost t = (**elem)@;
            let count: usize = *n as usize;
            let mut member_ids: Vec<usize> = Vec::new();
            let mut i: usize = 0;
            proof {
                lemma_tsize_pos(t);
            }
            while i < count
                invariant
                    i <= count,
                    *dt is Array,
                    *elem == (*dt)->Array_0,
                    count == (*dt)->Array_1,
                    t == (**elem)@,
                    tsize(dt@) == 1 + count * tsize(t),
                    pre.next_id() + tsize(dt@) <= usize::MAX,
                    spaces.first_id() == pre.first_id(),
                    spaces.entries().len() == pre.entries().len() + i * tsize(t),
                    forall|idx: int|
                        0 <= idx < pre.entries().len() ==> spaces.entries()[idx]
                            == pre.entries()[idx],
                    member_ids@.len() == i,
                    forall|k: int|
                        0 <= k < i ==> pre.next_id() <= #[trigger] member_ids@[k]
                            < spaces.next_id(),
                    forall|k1: int, k2: int|
                        0 <= k1 < k2 < i ==> member_ids@[k1] < member_ids@[k2],
                    forall|k: int|
                        0 <= k < i ==> member_declared_ok(
                            *spaces,
                            #[trigger] member_ids@[k] as int,
                            t,
                            *scope,
                        ),
                decreases count - i,
            {
                proof {
                    lemma_tsize_pos(t);
                    assert((i + 1) * tsize(t) == i * tsize(t) + tsize(t)) by (nonlinear_arith);
                    assert((i + 1) * tsize(t) <= count * tsize(t)) by (nonlinear_arith)
                        requires
                            i + 1 <= count,
                            tsize(t) >= 0,
                    ;
                }
                let ghost before = *spaces;
                let (mid, _mh) = declare_space_typed(spaces, &**elem, scope);
                proof {
                    assert forall|k: int| 0 <= k < i implies member_declared_ok(
                        *spaces,
                        #[trigger] member_ids@[k] as int,
                        t,
                        *scope,
                    ) by {
                        assert(member_declared_ok(before, member_ids@[k] as int, t, *scope));
                        assert(member_ids@[k] - before.first_id() < before.entries().len());
                    }
                }
                member_ids.push(mid);
                i += 1;
            }
            proof {
                assert(i * tsize(t) == count * tsize(t));
            }
            let space = Space {
                signature: SpaceSignature::Normal(Some(dt.deep_clone()), member_ids),
                scope: *scope,
                value: FlatLattice::Top,
            };
            let ghost ms = space.signature@.members_of();
            let r = spaces.insert(space);
            proof {
                assert forall|k: int| 0 <= k < ms.len() implies member_declared_ok(
                    *spaces,
                    #[trigger] ms[k] as int,
                    member_type(Some(dt@), k),
                    *scope,
                ) by {
                    assert(member_type(Some(dt@), k) == t);
                }
            }
            r
        },
        DataType::Struct(members) => {
            let ghost tl = crate::ops::type_list_view(members@);
            let count: usize = members.len();
            let mut member_ids: Vec<usize> = Vec::new();
            let mut i: usize = 0;
            proof {
                assert(tl.take(0) =~= Seq::<TypeV>::empty());
            }
            while i < count
                invariant
                    i <= count,
                    *dt is Struct,
                    *members == (*dt)->Struct_0,
                    count == members@.len(),
                    tl == crate::ops::type_list_view(members@),
                    tl.len() == count,
                    dt@ == TypeV::Struct(tl),
                    tsize(dt@) == 1 + tsize_list(tl),
                    pre.next_id() + tsize(dt@) <= usize::MAX,
                    spaces.first_id() == pre.first_id(),
                    spaces.entries().len() == pre.entries().len() + tsize_list(tl.take(i as int)),
                    forall|idx: int|
                        0 <= idx < pre.entries().len() ==> spaces.entries()[idx]
                            == pre.entries()[idx],
                    member_ids@.len() == i,
                    forall|k: int|
                        0 <= k < i ==> pre.next_id() <= #[trigger] member_ids@[k]
                            < spaces.next_id(),
                    forall|k1: int, k2: int|
                        0 <= k1 < k2 < i ==> member_ids@[k1] < member_ids@[k2],
                    forall|k: int|
                        0 <= k < i ==> member_declared_ok(
                            *spaces,
                            #[trigger] member_ids@[k] as int,
                            tl[k],
                            *scope,
                        ),
                decreases count - i,
            {
                proof {
                    assert(decreases_to!(*dt => (*dt)->Struct_0));
                    assert(decreases_to!(*members => members@));
                    assert(decreases_to!(members@ => members@[i as int]));
                    assert(decreases_to!(*dt => members@[i as int]));
                    lemma_tsize_list_take_step(tl, i as int);
                    lemma_tsize_list_take_bound(tl, i + 1);
                    assert(tl[i as int] == members@[i as int]@);
                }
                let ghost before = *spaces;
                let member = &members[i];
                let (mid, _mh) = declare_space_typed(spaces, member, scope);
                proof {
                    assert forall|k: int| 0 <= k < i implies member_declared_ok(
                        *spaces,
                        #[trigger] member_ids@[k] as int,
                        tl[k],
                        *scope,
                    ) by {
                        assert(member_declared_ok(before, member_ids@[k] as int, tl[k], *scope));
                        assert(member_ids@[k] - before.first_id() < before.entries().len());
                    }
                }
                member_ids.push(mid);
                i += 1;
            }
            proof {
                assert(tl.take(count as int) =~= tl);
            }
            let space = Space {
                signature: SpaceSignature::Normal(Some(dt.deep_clone()), member_ids),
                scope: *scope,
                value: FlatLattice::Top,
            };
            let ghost ms = space.signature@.members_of();
            let r = spaces.insert(space);
            proof {
                assert forall|k: int| 0 <= k < ms.len() implies member_declared_ok(
                    *spaces,
                    #[trigger] ms[k] as int,
                    member_type(Some(dt@), k),
                    *scope,
                ) by {
                    assert(member_type(Some(dt@), k) == tl[k]);
                }
            }
            r
        },
        _ => {
            let space = Space {
                signature: SpaceSignature::Normal(Some(dt.deep_clone()), Vec::new()),
                scope: *scope,
                value: FlatLattice::Top,
            };
            spaces.insert(space)
        },
    }
}

/// Declare a space of optional type `dt` in scope `scope`. A `None` type
/// declares a single space of unknown type with no members.
pub fn declare_space_in(spaces: &mut Pool<Space>, data_type: &Option<DataType>, scope: &Scope) -> (r:
    (usize, usize))
    requires
        old(spaces).next_id() + declared_size(opt_type_view(*data_type)) <= usize::MAX,
    ensures
        declared_ok(
            *old(spaces),
            *final(spaces),
            opt_type_view(*data_type),
            *scope,
            r.0 as int,
        ),
        r.1 == r.0 - final(spaces).first_id(),
{
    match data_type {
        Some(dt) => declare_space_typed(spaces, dt, scope),
        None => {
            let space = Space {
                signature: SpaceSignature::Normal(None, Vec::new()),
                scope: *scope,
                value: FlatLattice::Top,
            };
            spaces.insert(space)
        },
    }
}

} // verus!

use crate::block::{CodeBlock, CodeBlockGraphWeight};
use crate::graph::DataFlowGraph;
use crate::pool::{assoc_view, lemma_assoc_contains, lemma_assoc_get, NameMap};

verus! {

/// The member-space ids an aggregate constant value carries.
pub open spec fn value_members(v: ValueV) -> Seq<usize> {
    match v {
        ValueV::Array(s) => s,
        ValueV::Struct(s) => s,
        _ => Seq::empty(),
    }
}

/// A map from concrete constant values to the logical ids of the spaces
/// holding them; this is what deduplicates equal literals.
pub struct ConstMap {
    bindings: Vec<(Value, usize)>,
}

impl View for ConstMap {
    type V = Map<ValueV, usize>;

    closed spec fn view(&self) -> Map<ValueV, usize> {
        assoc_view(self.bindings@)
    }
}

impl ConstMap {
    pub fn new() -> (m: Self)
        ensures
            m@ =~= Map::<ValueV, usize>::empty(),
    {
        ConstMap { bindings: Vec::new() }
    }

    /// Associate a constant value with the space that holds it.
    pub fn bind(&mut self, value: Value, id: usize)
        ensures
            final(self)@ == old(self)@.insert(value@, id),
    {
        self.bindings.push((value, id));
        proof {
            assert(self.bindings@.drop_last() =~= old(self).bindings@);
        }
    }

    /// Look a constant value up; `None` when no equal value was inserted.
    pub fn get(&self, value: &Value) -> (r: Option<usize>)
        ensures
            match r {
                Some(id) => self@.contains_key(value@) && self@[value@] == id,
                None => !self@.contains_key(value@),
            },
    {
        let ghost s = self.bindings@;
        let mut i: usize = self.bindings.len();
        while i > 0
            invariant
                i <= s.len(),
                s == self.bindings@,
                forall|j: int| i <= j < s.len() ==> (#[trigger] s[j].0)@ != value@,
            decreases i,
        {
            i = i - 1;
            let entry = &self.bindings[i];
            if value_eq(&entry.0, value) {
                proof {
                    lemma_assoc_get(s, value@, i as int);
                }
                return Some(entry.1);
            }
        }
        proof {
            lemma_assoc_contains(s, value@);
        }
        None
    }
}

/// The program: the single long-lived root of the model. It owns the global
/// name map, the arena pools shared by all functions, the function registry
/// and the constants table.
///
/// Ownership note: the program does not own [`Function`] records. The
/// function pool registers each allocated function id with its name; the
/// records themselves are held by the front end, which refers back to the
/// program through logical ids only and borrows it for the duration of a
/// builder call. This keeps the program/function relationship acyclic.
pub struct Program {
    pub globals: NameMap,
    pub functions: NameMap,
    pub constants: ConstMap,
    pub space_pool: Pool<Space>,
    pub block_pool: Pool<CodeBlock>,
    /// One registered name per allocated function id.
    pub function_pool: Pool<String>,
}

impl Program {
    /// Internal consistency: every bound id was issued by the pool it
    /// refers into, and distinct constant values sit in distinct spaces.
    pub open spec fn wf(self) -> bool {
        &&& forall|k: Seq<char>|
            #[trigger] self.globals@.contains_key(k) ==> self.space_pool.valid_id(
                self.globals@[k] as int,
            )
        &&& forall|v: ValueV|
            #[trigger] self.constants@.contains_key(v) ==> self.space_pool.valid_id(
                self.constants@[v] as int,
            )
        &&& forall|v1: ValueV, v2: ValueV|
            self.constants@.contains_key(v1) && self.constants@.contains_key(v2) && v1 != v2
                ==> self.constants@[v1] != self.constants@[v2]
        &&& forall|k: Seq<char>|
            #[trigger] self.functions@.contains_key(k) ==> self.function_pool.valid_id(
                self.functions@[k] as int,
            )
    }

    /// A fresh program: empty name maps and empty pools, whose logical ids
    /// start at 1.
    pub fn new() -> (p: Program)
        ensures
            p.wf(),
            p.globals@ =~= Map::<Seq<char>, usize>::empty(),
            p.functions@ =~= Map::<Seq<char>, usize>::empty(),
            p.constants@ =~= Map::<ValueV, usize>::empty(),
            p.space_pool.entries() =~= Seq::<Space>::empty(),
            p.block_pool.entries() =~= Seq::<CodeBlock>::empty(),
            p.function_pool.entries() =~= Seq::<String>::empty(),
            p.space_pool.first_id() == 1,
            p.block_pool.first_id() == 1,
            p.function_pool.first_id() == 1,
    {
        Program {
            globals: NameMap::new(),
            functions: NameMap::new(),
            constants: ConstMap::new(),
            space_pool: Pool::new(1),
            block_pool: Pool::new(1),
            function_pool: Pool::new(1),
        }
    }

    /// The arena handle behind a space's logical id, if it was issued.
    pub fn lookup_space(&self, name_id: usize) -> (r: Option<usize>)
        ensures
            match r {
                Some(h) => self.space_pool.valid_id(name_id as int) && h
                    == self.space_pool.handle_of(name_id as int),
                None => !self.space_pool.valid_id(name_id as int),
            },
    {
        self.space_pool.get_id(name_id)
    }

    /// Resolve a global name to its space, if one is bound.
    pub fn lookup_global_by_name(&self, name: &String) -> (r: Option<(usize, usize)>)
        requires
            self.wf(),
        ensures
            match r {
                Some(p) => self.globals@.contains_key(name@) && p.0 == self.globals@[name@]
                    && self.space_pool.valid_id(p.0 as int) && p.1 == self.space_pool.handle_of(
                    p.0 as int,
                ),
                None => !self.globals@.contains_key(name@),
            },
    {
        match self.globals.get(name) {
            Some(nid) => {
                match self.space_pool.get_id(nid) {
                    Some(h) => Some((nid, h)),
                    None => unreached(),
                }
            },
            None => None,
        }
    }

    /// Resolve a global name, declaring an untyped global when it is new.
    pub fn lookup_or_insert_global(&mut self, name: &String) -> (r: (usize, usize))
        requires
            old(self).wf(),
            old(self).space_pool.next_id() + 1 <= usize::MAX,
        ensures
            final(self).wf(),
            old(self).globals@.contains_key(name@) ==> *final(self) == *old(self) && r.0 == old(self).globals@[name@],
            !old(self).globals@.contains_key(name@) ==> {
                &&& declared_ok(
                    old(self).space_pool,
                    final(self).space_pool,
                    None,
                    Scope::Global,
                    r.0 as int,
                )
                &&& final(self).globals@ == old(self).globals@.insert(name@, r.0)
                &&& final(self).constants@ == old(self).constants@
                &&& final(self).functions@ == old(self).functions@
                &&& final(self).block_pool == old(self).block_pool
                &&& final(self).function_pool == old(self).function_pool
            },
            final(self).space_pool.valid_id(r.0 as int),
            r.1 == final(self).space_pool.handle_of(r.0 as int),
    {
        match self.lookup_global_by_name(name) {
            Some(pair) => pair,
            None => self.declare_global(name.clone(), None),
        }
    }

    /// Declare a global space of the given type and bind `name` to it.
    pub fn declare_global(&mut self, name: String, data_type: Option<DataType>) -> (r: (
        usize,
        usize,
    ))
        requires
            old(self).wf(),
            old(self).space_pool.next_id() + declared_size(opt_type_view(data_type))
                <= usize::MAX,
        ensures
            final(self).wf(),
            declared_ok(
                old(self).space_pool,
                final(self).space_pool,
                opt_type_view(data_type),
                Scope::Global,
                r.0 as int,
            ),
            final(self).globals@ == old(self).globals@.insert(name@, r.0),
            final(self).constants@ == old(self).constants@,
            final(self).functions@ == old(self).functions@,
            final(self).block_pool == old(self).block_pool,
            final(self).function_pool == old(self).function_pool,
            final(self).space_pool.valid_id(r.0 as int),
            r.1 == final(self).space_pool.handle_of(r.0 as int),
    {
        let r = declare_space_in(&mut self.space_pool, &data_type, &Scope::Global);
        self.globals.bind(name, r.0);
        r
    }

    /// Declare a space (no name binding) in the shared pool.
    pub fn declare_space(&mut self, data_type: Option<DataType>, scope: Scope) -> (r: (
        usize,
        usize,
    ))
        requires
            old(self).wf(),
            old(self).space_pool.next_id() + declared_size(opt_type_view(data_type))
                <= usize::MAX,
        ensures
            final(self).wf(),
            declared_ok(
                old(self).space_pool,
                final(self).space_pool,
                opt_type_view(data_type),
                scope,
                r.0 as int,
            ),
            final(self).globals@ == old(self).globals@,
            final(self).constants@ == old(self).constants@,
            final(self).functions@ == old(self).functions@,
            final(self).block_pool == old(self).block_pool,
            final(self).function_pool == old(self).function_pool,
            final(self).space_pool.valid_id(r.0 as int),
            r.1 == final(self).space_pool.handle_of(r.0 as int),
    {
        declare_space_in(&mut self.space_pool, &data_type, &scope)
    }

    /// Resolve a constant value to its space, declaring and recording a new
    /// constant space when no equal value exists yet. The space of a
    /// constant is global, fully known (`Value`, never `Top`), and lists the
    /// member ids an aggregate value carries.
    pub fn lookup_or_insert_constant(&mut self, data_type: DataType, value: Value) -> (r: (
        usize,
        usize,
    ))
        requires
            old(self).wf(),
            old(self).space_pool.next_id() + 1 <= usize::MAX,
        ensures
            final(self).wf(),
            old(self).constants@.contains_key(value@) ==> *final(self) == *old(self) && r.0 == old(self).constants@[value@],
            !old(self).constants@.contains_key(value@) ==> {
                &&& r.0 == old(self).space_pool.next_id()
                &&& final(self).space_pool.entries().len() == old(self).space_pool.entries().len() + 1
                &&& final(self).space_pool.first_id() == old(self).space_pool.first_id()
                &&& forall|i: int|
                    0 <= i < old(self).space_pool.entries().len() ==> final(self).space_pool.entries()[i] == old(self).space_pool.entries()[i]
                &&& {
                    let sp = final(self).space_pool.at_id(r.0 as int);
                    &&& sp.scope == Scope::Global
                    &&& sp.value@ == FlatV::Value(value@)
                    &&& sp.signature@.type_of() == Some(data_type@)
                    &&& sp.signature@.members_of() == value_members(value@)
                }
                &&& final(self).constants@ == old(self).constants@.insert(value@, r.0)
                &&& final(self).globals@ == old(self).globals@
                &&& final(self).functions@ == old(self).functions@
                &&& final(self).block_pool == old(self).block_pool
                &&& final(self).function_pool == old(self).function_pool
            },
            final(self).space_pool.valid_id(r.0 as int),
            r.1 == final(self).space_pool.handle_of(r.0 as int),
    {
        match self.constants.get(&value) {
            Some(nid) => {
                match self.space_pool.get_id(nid) {
                    Some(h) => (nid, h),
                    None => unreached(),
                }
            },
            None => {
                let members: Vec<usize> = match &value {
                    Value::Array(av) => usize_vec_copy(&av.value),
                    Value::Struct(sv) => usize_vec_copy(&sv.value),
                    _ => Vec::new(),
                };
                let stored = value_clone(&value);
                let space = Space {
                    signature: SpaceSignature::Normal(Some(data_type), members),
                    scope: Scope::Global,
                    value: FlatLattice::Value(stored),
                };
                let (nid, h) = self.space_pool.insert(space);
                self.constants.bind(value, nid);
                (nid, h)
            },
        }
    }

    /// Resolve a function name to its logical id, allocating a fresh id in
    /// the function pool when the name is new.
    pub fn lookup_or_insert_function(&mut self, name: String) -> (r: (usize, usize))
        requires
            old(self).wf(),
            old(self).function_pool.next_id() + 1 <= usize::MAX,
        ensures
            final(self).wf(),
            old(self).functions@.contains_key(name@) ==> *final(self) == *old(self) && r.0 == old(self).functions@[name@],
            !old(self).functions@.contains_key(name@) ==> {
                &&& r.0 == old(self).function_pool.next_id()
                &&& final(self).function_pool.first_id() == old(self).function_pool.first_id()
                &&& final(self).function_pool.entries() == old(self).function_pool.entries().push(
                    name,
                )
                &&& final(self).functions@ == old(self).functions@.insert(name@, r.0)
                &&& final(self).globals@ == old(self).globals@
                &&& final(self).constants@ == old(self).constants@
                &&& final(self).space_pool == old(self).space_pool
                &&& final(self).block_pool == old(self).block_pool
            },
            final(self).function_pool.valid_id(r.0 as int),
            r.1 == final(self).function_pool.handle_of(r.0 as int),
    {
        match self.functions.get(&name) {
            Some(nid) => {
                match self.function_pool.get_id(nid) {
                    Some(h) => (nid, h),
                    None => unreached(),
                }
            },
            None => {
                let registered = name.clone();
                let (nid, h) = self.function_pool.insert(registered);
                self.functions.bind(name, nid);
                (nid, h)
            },
        }
    }
}

/// Constant deduplication, stated over the constants table: two equal
/// values share one space id, and two distinct values never do.
pub proof fn lemma_constant_dedup(p: Program, v1: ValueV, v2: ValueV)
    requires
        p.wf(),
        p.constants@.contains_key(v1),
        p.constants@.contains_key(v2),
    ensures
        (v1 == v2) <==> (p.constants@[v1] == p.constants@[v2]),
{
}

} // verus!

verus! {

/// A function under construction: its local name map, block name map,
/// parameters and flags. Functions refer to the program that owns the
/// shared pools through logical ids only, so methods that resolve or
/// declare entities borrow the [`Program`] for the duration of the call.
pub struct Function {
    pub name: String,
    pub name_id: usize,
    pub params: Vec<usize>,
    pub return_type: DataType,
    pub locals: NameMap,
    pub blocks: NameMap,
    pub graph: DataFlowGraph,
    pub is_declared: bool,
    pub is_imported: bool,
    pub is_defined: bool,
}

impl Function {
    /// Consistency with the owning program: every bound local resolves into
    /// the space pool and every bound block into the block pool.
    pub open spec fn wf_in(self, p: Program) -> bool {
        &&& forall|k: Seq<char>|
            #[trigger] self.locals@.contains_key(k) ==> p.space_pool.valid_id(
                self.locals@[k] as int,
            )
        &&& forall|k: Seq<char>|
            #[trigger] self.blocks@.contains_key(k) ==> p.block_pool.valid_id(
                self.blocks@[k] as int,
            )
    }

    /// A fresh, empty function with the given registered name and id.
    pub fn new(name: String, name_id: usize) -> (f: Function)
        ensures
            f.name@ == name@,
            f.name_id == name_id,
            f.params@ =~= Seq::<usize>::empty(),
            f.return_type@ == TypeV::Void,
            f.locals@ =~= Map::<Seq<char>, usize>::empty(),
            f.blocks@ =~= Map::<Seq<char>, usize>::empty(),
            !f.is_declared,
            !f.is_imported,
            !f.is_defined,
            f.graph.wf(),
            f.graph.nodes@.len() == 0,
            f.graph.weight.assignment_count == 0,
            f.graph.weight.variable_assignment_map@ == Seq::<(usize, Vec<usize>)>::empty(),
            forall|p: Program| f.wf_in(p),
    {
        Function {
            name,
            name_id,
            params: Vec::new(),
            return_type: DataType::Void,
            locals: NameMap::new(),
            blocks: NameMap::new(),
            graph: DataFlowGraph::new(CodeBlockGraphWeight::empty()),
            is_declared: false,
            is_imported: false,
            is_defined: false,
        }
    }

    /// The arena handle behind a space's logical id; local and global
    /// spaces share one pool, so one lookup serves both.
    pub fn lookup_space(&self, program: &Program, name_id: usize) -> (r: Option<usize>)
        ensures
            match r {
                Some(h) => program.space_pool.valid_id(name_id as int) && h
                    == program.space_pool.handle_of(name_id as int),
                None => !program.space_pool.valid_id(name_id as int),
            },
    {
        program.space_pool.get_id(name_id)
    }

    /// Declare a function-scoped space (no name binding), decomposing
    /// aggregates into member spaces.
    pub fn declare_space(&mut self, program: &mut Program, data_type: Option<DataType>, scope: Scope) -> (r: (usize, usize))
        requires
            old(program).wf(),
            old(self).wf_in(*old(program)),
            old(program).space_pool.next_id() + declared_size(opt_type_view(data_type))
                <= usize::MAX,
        ensures
            *final(self) == *old(self),
            final(program).wf(),
            final(self).wf_in(*final(program)),
            declared_ok(
                old(program).space_pool,
                final(program).space_pool,
                opt_type_view(data_type),
                scope,
                r.0 as int,
            ),
            final(program).globals@ == old(program).globals@,
            final(program).constants@ == old(program).constants@,
            final(program).functions@ == old(program).functions@,
            final(program).block_pool == old(program).block_pool,
            final(program).function_pool == old(program).function_pool,
            final(program).space_pool.valid_id(r.0 as int),
            r.1 == final(program).space_pool.handle_of(r.0 as int),
    {
        program.declare_space(data_type, scope)
    }

    /// Declare a local space of the given type and bind `name` to it in
    /// this function's scope.
    pub fn declare_local(&mut self, program: &mut Program, name: String, data_type: Option<DataType>) -> (r: (usize, usize))
        requires
            old(program).wf(),
            old(self).wf_in(*old(program)),
            old(program).space_pool.next_id() + declared_size(opt_type_view(data_type))
                <= usize::MAX,
        ensures
            final(program).wf(),
            final(self).wf_in(*final(program)),
            declared_ok(
                old(program).space_pool,
                final(program).space_pool,
                opt_type_view(data_type),
                Scope::Local { fn_name_id: old(self).name_id },
                r.0 as int,
            ),
            final(self).locals@ == old(self).locals@.insert(name@, r.0),
            final(self).blocks@ == old(self).blocks@,
            final(self).name_id == old(self).name_id,
            final(self).name@ == old(self).name@,
            final(program).globals@ == old(program).globals@,
            final(program).constants@ == old(program).constants@,
            final(program).functions@ == old(program).functions@,
            final(program).block_pool == old(program).block_pool,
            final(program).function_pool == old(program).function_pool,
            final(program).space_pool.valid_id(r.0 as int),
            r.1 == final(program).space_pool.handle_of(r.0 as int),
    {
        let fn_name_id = self.name_id;
        let r = program.declare_space(data_type, Scope::Local { fn_name_id });
        self.locals.bind(name, r.0);
        r
    }

    /// Resolve a name inside this function. Resolution order encodes
    /// shadowing: (1) an existing local wins, (2) otherwise an existing
    /// global of that name, (3) otherwise the name is implicitly declared
    /// as a new local of unknown type.
    pub fn lookup_or_insert_space(&mut self, program: &mut Program, name: String) -> (r: (usize, usize))
        requires
            old(program).wf(),
            old(self).wf_in(*old(program)),
            old(program).space_pool.next_id() + 1 <= usize::MAX,
        ensures
            final(program).wf(),
            final(self).wf_in(*final(program)),
            old(self).locals@.contains_key(name@) ==> {
                &&& *final(self) == *old(self)
                &&& *final(program) == *old(program)
                &&& r.0 == old(self).locals@[name@]
            },
            !old(self).locals@.contains_key(name@) && old(program).globals@.contains_key(name@)
                ==> {
                &&& *final(self) == *old(self)
                &&& *final(program) == *old(program)
                &&& r.0 == old(program).globals@[name@]
            },
            !old(self).locals@.contains_key(name@) && !old(program).globals@.contains_key(name@)
                ==> {
                &&& declared_ok(
                    old(program).space_pool,
                    final(program).space_pool,
                    None,
                    Scope::Local { fn_name_id: old(self).name_id },
                    r.0 as int,
                )
                &&& final(self).locals@ == old(self).locals@.insert(name@, r.0)
                &&& final(self).blocks@ == old(self).blocks@
                &&& final(program).globals@ == old(program).globals@
                &&& final(program).constants@ == old(program).constants@
                &&& final(program).functions@ == old(program).functions@
                &&& final(program).block_pool == old(program).block_pool
            },
            final(program).space_pool.valid_id(r.0 as int),
            r.1 == final(program).space_pool.handle_of(r.0 as int),
    {
        match self.locals.get(&name) {
            Some(nid) => {
                match program.space_pool.get_id(nid) {
                    Some(h) => (nid, h),
                    None => unreached(),
                }
            },
            None => {
                match program.lookup_global_by_name(&name) {
                    Some(pair) => pair,
                    None => self.declare_local(program, name, None),
                }
            },
        }
    }

    /// Resolve a block label inside this function, creating an empty block
    /// (with a fall-through terminator, to be finalised later) when the
    /// label is new. This lets a jump reference a label before the label's
    /// block body exists.
    pub fn lookup_or_insert_block(&mut self, program: &mut Program, name: String) -> (r: (usize, usize))
        requires
            old(program).wf(),
            old(self).wf_in(*old(program)),
            old(program).block_pool.next_id() + 1 <= usize::MAX,
        ensures
            final(program).wf(),
            final(self).wf_in(*final(program)),
            old(self).blocks@.contains_key(name@) ==> {
                &&& *final(self) == *old(self)
                &&& *final(program) == *old(program)
                &&& r.0 == old(self).blocks@[name@]
            },
            !old(self).blocks@.contains_key(name@) ==> {
                &&& r.0 == old(program).block_pool.next_id()
                &&& {
                    let b = final(program).block_pool.at_id(r.0 as int);
                    &&& b.id == r.0
                    &&& b.block_type == BlockType::Normal
                    &&& b.irs@ =~= Seq::<IR>::empty()
                    &&& b.terminator is Jump
                    &&& b.terminator->Jump_0 is Next
                }
                &&& final(program).block_pool.entries().len() == old(program).block_pool.entries().len() + 1
                &&& final(program).block_pool.first_id() == old(program).block_pool.first_id()
                &&& forall|i: int|
                    0 <= i < old(program).block_pool.entries().len() ==> final(program).block_pool.entries()[i] == old(program).block_pool.entries()[i]
                &&& final(self).blocks@ == old(self).blocks@.insert(name@, r.0)
                &&& final(self).blocks.binding_seq() == old(self).blocks.binding_seq().push(
                    (name, r.0),
                )
                &&& final(self).locals@ == old(self).locals@
                &&& final(program).globals@ == old(program).globals@
                &&& final(program).constants@ == old(program).constants@
                &&& final(program).functions@ == old(program).functions@
                &&& final(program).space_pool == old(program).space_pool
                &&& final(program).function_pool == old(program).function_pool
            },
            final(program).block_pool.valid_id(r.0 as int),
            r.1 == final(program).block_pool.handle_of(r.0 as int),
    {
        match self.blocks.get(&name) {
            Some(nid) => {
                match program.block_pool.get_id(nid) {
                    Some(h) => (nid, h),
                    None => unreached(),
                }
            },
            None => {
                let nid = program.block_pool.peek_next_id();
                let block = CodeBlock::new(
                    nid,
                    BlockType::Normal,
                    Vec::new(),
                    IR::Jump(JumpOperation::Next, IRInformation::default()),
                );
                let (nid2, h) = program.block_pool.insert(block);
                self.blocks.bind(name, nid2);
                (nid2, h)
            },
        }
    }
}

} // verus!

use crate::block::assoc_decls;

verus! {

/// A build-time error surfaced when a function is finalised.
#[derive(Debug, Clone, Copy, PartialEq, Eq, Structural)]
pub enum IrError {
    /// A jump references a label whose block was never declared.
    DanglingLabel { block_id: usize },
}

/// How many assignment instructions a sequence holds.
pub open spec fn count_assign(irs: Seq<IR>) -> nat
    decreases irs.len(),
{
    if irs.len() == 0 {
        0
    } else {
        count_assign(irs.drop_last()) + (if irs.last() is Assignment {
            1nat
        } else {
            0nat
        })
    }
}

pub proof fn lemma_count_assign_take_step(irs: Seq<IR>, k: int)
    requires
        0 <= k < irs.len(),
    ensures
        count_assign(irs.take(k + 1)) == count_assign(irs.take(k)) + (if irs[k] is Assignment {
            1nat
        } else {
            0nat
        }),
{
    assert(irs.take(k + 1).drop_last() =~= irs.take(k));
    assert(irs.take(k + 1).last() == irs[k]);
}

/// Whether `dst` is `src` after the numbering pass gave it declaration
/// number `d` (assignments only; other instructions pass unchanged).
pub open spec fn renumbered_ir(src: IR, dst: IR, d: usize) -> bool {
    match src {
        IR::Assignment(v, op, info) => dst == IR::Assignment(
            v,
            op,
            IRInformation { declaration_number: Some(d) },
        ),
        _ => dst == src,
    }
}

/// Whether `ir` is an assignment to `v` carrying declaration number `d`.
pub open spec fn is_assign_with(ir: IR, v: usize, d: usize) -> bool {
    &&& ir is Assignment
    &&& ir->Assignment_0 == v
    &&& ir->Assignment_2.declaration_number == Some(d)
}

/// The position of the first block with logical id `m` in a function's
/// block order, if any.
pub open spec fn find_pos(order: Seq<usize>, m: usize) -> Option<int>
    decreases order.len(),
{
    if order.len() == 0 {
        None
    } else if order[0] == m {
        Some(0)
    } else {
        match find_pos(order.drop_first(), m) {
            Some(j) => Some(j + 1),
            None => None,
        }
    }
}

pub proof fn lemma_find_pos(order: Seq<usize>, m: usize)
    ensures
        match find_pos(order, m) {
            Some(j) => 0 <= j < order.len() && order[j] == m,
            None => forall|j: int| 0 <= j < order.len() ==> order[j] != m,
        },
    decreases order.len(),
{
    if order.len() > 0 && order[0] != m {
        lemma_find_pos(order.drop_first(), m);
        match find_pos(order.drop_first(), m) {
            Some(j) => {
                assert(order.drop_first()[j] == order[j + 1]);
            },
            None => {
                assert forall|j: int| 0 <= j < order.len() implies order[j] != m by {
                    if j > 0 {
                        assert(order.drop_first()[j - 1] == order[j]);
                    }
                }
            },
        }
    }
}

/// A miss on every position before `t` pushes the first hit past `t`.
pub proof fn lemma_find_pos_from(order: Seq<usize>, m: usize, t: int)
    requires
        0 <= t <= order.len(),
        forall|j: int| 0 <= j < t ==> order[j] != m,
    ensures
        find_pos(order, m) == match find_pos(order.skip(t), m) {
            Some(j) => Some(j + t),
            None => None::<int>,
        },
    decreases t,
{
    if t == 0 {
        assert(order.skip(0) =~= order);
    } else {
        assert(order.len() > 0);
        assert(order[0] != m);
        assert(order.drop_first() =~= order.skip(1));
        assert(forall|j: int| 0 <= j < t - 1 ==> order.drop_first()[j] == order[j + 1]);
        lemma_find_pos_from(order.drop_first(), m, t - 1);
        assert(order.drop_first().skip(t - 1) =~= order.skip(t));
    }
}

/// First-position search for a block id in the block order.
fn find_node(order: &Vec<usize>, m: usize) -> (r: Option<usize>)
    ensures
        match r {
            Some(j) => find_pos(order@, m) == Some(j as int),
            None => find_pos(order@, m) is None,
        },
{
    let ghost full = order@;
    let mut t: usize = 0;
    while t < order.len()
        invariant
            t <= full.len(),
            full == order@,
            forall|j: int| 0 <= j < t ==> full[j] != m,
        decreases full.len() - t,
    {
        if order[t] == m {
            proof {
                lemma_find_pos_from(full, m, t as int);
                assert(full.skip(t as int)[0] == full[t as int]);
            }
            return Some(t);
        }
        t += 1;
    }
    proof {
        lemma_find_pos_from(full, m, full.len() as int);
        assert(full.skip(full.len() as int) =~= Seq::<usize>::empty());
    }
    None
}

/// Element-wise copy of an instruction list.
fn copy_irs(a: &Vec<IR>) -> (r: Vec<IR>)
    ensures
        r@ == a@,
{
    let mut out: Vec<IR> = Vec::new();
    let mut i: usize = 0;
    while i < a.len()
        invariant
            i <= a@.len(),
            out@.len() == i,
            forall|j: int| 0 <= j < i ==> out@[j] == a@[j],
        decreases a@.len() - i,
    {
        out.push(a[i]);
        i += 1;
    }
    proof {
        assert(out@ =~= a@);
    }
    out
}

pub proof fn lemma_assoc_decls_push(s: Seq<(usize, Vec<usize>)>, e: (usize, Vec<usize>), var: usize)
    ensures
        assoc_decls(s.push(e), var) == (if assoc_decls(s, var) is Some {
            assoc_decls(s, var)
        } else if e.0 == var {
            Some(e.1@)
        } else {
            None
        }),
    decreases s.len(),
{
    if s.len() == 0 {
        assert(s.push(e)[0] == e);
        assert(s.push(e).drop_first() =~= Seq::<(usize, Vec<usize>)>::empty());
        assert(s.push(e).len() == 1);
        assert(assoc_decls(s, var) is None);
        if e.0 == var {
            assert(assoc_decls(s.push(e), var) == Some(s.push(e)[0].1@));
            assert(s.push(e)[0].1@ == e.1@);
        } else {
            assert(assoc_decls(s.push(e), var) == assoc_decls(
                s.push(e).drop_first(),
                var,
            ));
        }
    } else {
        assert(s.push(e)[0] == s[0]);
        assert(s.push(e).drop_first() =~= s.drop_first().push(e));
        lemma_assoc_decls_push(s.drop_first(), e, var);
    }
}

pub proof fn lemma_assoc_decls_update(
    s: Seq<(usize, Vec<usize>)>,
    idx: int,
    e2: (usize, Vec<usize>),
    var: usize,
)
    requires
        0 <= idx < s.len(),
        s[idx].0 == e2.0,
        forall|j: int| 0 <= j < idx ==> (#[trigger] s[j]).0 != e2.0,
    ensures
        assoc_decls(s.update(idx, e2), var) == (if var == e2.0 {
            Some(e2.1@)
        } else {
            assoc_decls(s, var)
        }),
    decreases idx,
{
    let s2 = s.update(idx, e2);
    if idx == 0 {
        assert(s2[0] == e2);
        assert(s2.drop_first() =~= s.drop_first());
    } else {
        assert(s2[0] == s[0]);
        assert(s2.drop_first() =~= s.drop_first().update(idx - 1, e2));
        assert(forall|j: int|
            0 <= j < idx - 1 ==> (#[trigger] s.drop_first()[j]).0 != e2.0);
        lemma_assoc_decls_update(s.drop_first(), idx - 1, e2, var);
    }
}

/// Record that declaration number `d` assigns space `dest` in the variable
/// assignment map.
fn record_assignment(wmap: &mut Vec<(usize, Vec<usize>)>, dest: usize, d: usize)
    ensures
        forall|v: usize|
            v != dest ==> #[trigger] assoc_decls(final(wmap)@, v) == assoc_decls(old(wmap)@, v),
        assoc_decls(old(wmap)@, dest) is Some ==> assoc_decls(final(wmap)@, dest) == Some(
            assoc_decls(old(wmap)@, dest)->0.push(d),
        ),
        assoc_decls(old(wmap)@, dest) is None ==> assoc_decls(final(wmap)@, dest) == Some(
            seq![d],
        ),
{
    let ghost pre = wmap@;
    let mlen = wmap.len();
    let mut t: usize = 0;
    while t < mlen
        invariant
            t <= pre.len(),
            mlen == pre.len(),
            pre == wmap@,
            pre == old(wmap)@,
            forall|j: int| 0 <= j < t ==> (#[trigger] pre[j]).0 != dest,
        decreases mlen - t,
    {
        if wmap[t].0 == dest {
            let entry = &mut wmap[t];
            entry.1.push(d);
            proof {
                let e2 = wmap@[t as int];
                assert(e2.0 == dest);
                assert(e2.1@ == pre[t as int].1@.push(d));
                assert(wmap@ == pre.update(t as int, e2));
                lemma_assoc_first_match(pre, t as int, dest);
                assert forall|v: usize| v != dest implies #[trigger] assoc_decls(wmap@, v)
                    == assoc_decls(pre, v) by {
                    lemma_assoc_decls_update(pre, t as int, e2, v);
                }
                lemma_assoc_decls_update(pre, t as int, e2, dest);
                assert(assoc_decls(wmap@, dest) == Some(e2.1@));
            }
            return ;
        }
        t += 1;
    }
    let mut fresh: Vec<usize> = Vec::new();
    fresh.push(d);
    let entry = (dest, fresh);
    let ghost epair = entry;
    wmap.push(entry);
    proof {
        assert(wmap@ == pre.push(epair));
        lemma_assoc_none_when_absent(pre, dest);
        assert forall|v: usize| v != dest implies #[trigger] assoc_decls(wmap@, v)
            == assoc_decls(pre, v) by {
            lemma_assoc_decls_push(pre, epair, v);
        }
        lemma_assoc_decls_push(pre, epair, dest);
        assert(epair.1@ =~= seq![d]);
        assert(assoc_decls(wmap@, dest) == Some(epair.1@));
    }
}

/// With no entry for `var`, the lookup is `None`.
pub proof fn lemma_assoc_none_when_absent(s: Seq<(usize, Vec<usize>)>, var: usize)
    requires
        forall|j: int| 0 <= j < s.len() ==> (#[trigger] s[j]).0 != var,
    ensures
        assoc_decls(s, var) is None,
    decreases s.len(),
{
    if s.len() > 0 {
        assert(s.drop_first() =~= s.skip(1));
        assert(forall|j: int|
            0 <= j < s.drop_first().len() ==> (#[trigger] s.drop_first()[j]).0 != var);
        lemma_assoc_none_when_absent(s.drop_first(), var);
    }
}

/// The first matching entry decides the lookup.
pub proof fn lemma_assoc_first_match(s: Seq<(usize, Vec<usize>)>, idx: int, var: usize)
    requires
        0 <= idx < s.len(),
        s[idx].0 == var,
        forall|j: int| 0 <= j < idx ==> (#[trigger] s[j]).0 != var,
    ensures
        assoc_decls(s, var) == Some(s[idx].1@),
    decreases idx,
{
    if idx == 0 {
    } else {
        assert(s.drop_first() =~= s.skip(1));
        assert(forall|j: int|
            0 <= j < idx - 1 ==> (#[trigger] s.drop_first()[j]).0 != var);
        lemma_assoc_first_match(s.drop_first(), idx - 1, var);
    }
}

} // verus!

use crate::graph::CodeBlockAnalysisNode;

verus! {

/// The logical ids of a function's blocks, in declaration order.
pub open spec fn block_order(f: Function) -> Seq<usize> {
    f.blocks.binding_seq().map_values(|p: (String, usize)| p.1)
}

/// Whether the map `wmap` records declaration number `d` for space `v`.
pub open spec fn decls_in(wmap: Seq<(usize, Vec<usize>)>, v: usize, d: usize) -> bool {
    match assoc_decls(wmap, v) {
        Some(lst) => lst.contains(d),
        None => false,
    }
}

/// The variable assignment map agrees with the declaration log: `d` is
/// recorded for `v` exactly when the `d`-th assignment's destination is `v`.
pub open spec fn map_matches_log(wmap: Seq<(usize, Vec<usize>)>, log: Seq<usize>) -> bool {
    forall|v: usize, d: usize|
        #[trigger] decls_in(wmap, v, d) <==> (d < log.len() && log[d as int] == v)
}

/// Some built node holds an assignment to `v` numbered `d`.
pub open spec fn decl_position(nodes: Seq<CodeBlockAnalysisNode>, v: usize, d: usize) -> bool {
    exists|i: int, k: int|
        0 <= i < nodes.len() && 0 <= k < nodes[i].irs@.len() && is_assign_with(
            #[trigger] nodes[i].irs@[k],
            v,
            d,
        )
}

/// Whether `(e.0, e.1)` is a control edge demanded by block `e.0`'s
/// terminator, with labels resolved to the first block of that id.
pub open spec fn term_edge(pool: Pool<CodeBlock>, order: Seq<usize>, e: (usize, usize)) -> bool {
    &&& e.0 < order.len()
    &&& match pool.at_id(order[e.0 as int] as int).terminator {
        IR::Jump(j, _) => match j {
            JumpOperation::Unconditional(m) => find_pos(order, m.block_id) == Some(e.1 as int),
            JumpOperation::Branch(_, m1, m2) => find_pos(order, m1.block_id) == Some(e.1 as int)
                || find_pos(order, m2.block_id) == Some(e.1 as int),
            JumpOperation::Next => e.1 == e.0 + 1 && e.1 < order.len(),
            _ => false,
        },
        _ => false,
    }
}

/// Whether terminator `t` references label `b` and no block of that id
/// exists in the order (a dangling label).
pub open spec fn term_dangles(t: IR, order: Seq<usize>, b: usize) -> bool {
    match t {
        IR::Jump(j, _) => match j {
            JumpOperation::Unconditional(m) => m.block_id == b && find_pos(order, b) is None,
            JumpOperation::Branch(_, m1, m2) => (m1.block_id == b || m2.block_id == b)
                && find_pos(order, b) is None,
            _ => false,
        },
        _ => false,
    }
}

/// Total assignments in the blocks before position `i` of the order.
pub open spec fn order_prefix_assign(pool: Pool<CodeBlock>, order: Seq<usize>, i: int) -> nat
    decreases i,
{
    if i <= 0 {
        0
    } else {
        order_prefix_assign(pool, order, i - 1) + count_assign(
            pool.at_id(order[i - 1] as int).irs@,
        )
    }
}

/// What the numbering pass guarantees of the per-block instruction lists it
/// builds, relative to the source blocks and the declaration log.
pub open spec fn numbered_ok(
    pool: Pool<CodeBlock>,
    order: Seq<usize>,
    built: Seq<(usize, Vec<IR>)>,
    log: Seq<usize>,
) -> bool {
    &&& built.len() <= order.len()
    &&& forall|i: int| 0 <= i < built.len() ==> (#[trigger] built[i]).0 == order[i]
    &&& forall|i: int|
        0 <= i < built.len() ==> (#[trigger] built[i]).1@.len() == pool.at_id(
            order[i] as int,
        ).irs@.len()
    &&& forall|i: int, k: int|
        0 <= i < built.len() && 0 <= k < built[i].1@.len() ==> renumbered_ir(
            pool.at_id(order[i] as int).irs@[k],
            #[trigger] built[i].1@[k],
            (order_prefix_assign(pool, order, i) + count_assign(
                pool.at_id(order[i] as int).irs@.take(k),
            )) as usize,
        )
    &&& forall|i: int, k: int|
        0 <= i < built.len() && 0 <= k < built[i].1@.len() && (#[trigger] built[i].1@[k])
            is Assignment ==> {
            let ir = built[i].1@[k];
            &&& ir->Assignment_2.declaration_number is Some
            &&& ir->Assignment_2.declaration_number->0 < log.len()
            &&& log[ir->Assignment_2.declaration_number->0 as int] == ir->Assignment_0
        }
    &&& log_covered(built, log)
}

/// Some built block holds an assignment to `v` numbered `d`.
pub open spec fn has_assign(built: Seq<(usize, Vec<IR>)>, v: usize, d: usize) -> bool {
    exists|i: int, k: int|
        0 <= i < built.len() && 0 <= k < built[i].1@.len() && is_assign_with(
            #[trigger] built[i].1@[k],
            v,
            d,
        )
}

/// Every declaration number in the log has its assignment somewhere in the
/// built blocks.
pub open spec fn log_covered(built: Seq<(usize, Vec<IR>)>, log: Seq<usize>) -> bool {
    forall|d: int| 0 <= d < log.len() ==> has_assign(built, #[trigger] log[d], d as usize)
}

} // verus!

verus! {

impl Function {
    /// Finalise the function: a single linear scan assigns declaration
    /// numbers to assignment instructions and fills the variable assignment
    /// map, one analysis node is created per declared block, and every
    /// jump's address marker is resolved against the block order. A marker
    /// whose block id never resolves is a dangling label and aborts the
    /// build, leaving the function unchanged.
    #[verifier::rlimit(100)]
    pub fn build_graph(&mut self, program: &Program) -> (r: Result<(), IrError>)
        requires
            forall|k: int|
                0 <= k < old(self).blocks.binding_seq().len() ==> program.block_pool.valid_id(
                    (#[trigger] old(self).blocks.binding_seq()[k]).1 as int,
                ),
            old(self).blocks.binding_seq().len() <= 0x7FFF_FFFE,
        ensures
            final(self).name == old(self).name,
            final(self).name_id == old(self).name_id,
            final(self).params == old(self).params,
            final(self).locals == old(self).locals,
            final(self).blocks == old(self).blocks,
            match r {
                Ok(()) => ({
                    let order = block_order(*old(self));
                    let pool = program.block_pool;
                    let g = final(self).graph;
                    &&& g.wf()
                    &&& g.under_approx()
                    &&& g.nodes@.len() == order.len()
                    &&& forall|i: int|
                        0 <= i < order.len() ==> (#[trigger] g.nodes@[i]).block_id == order[i]
                    &&& forall|i: int|
                        0 <= i < order.len() ==> (#[trigger] g.nodes@[i]).irs@.len()
                            == pool.at_id(order[i] as int).irs@.len()
                    &&& forall|i: int, k: int|
                        0 <= i < order.len() && 0 <= k < g.nodes@[i].irs@.len()
                            ==> renumbered_ir(
                            pool.at_id(order[i] as int).irs@[k],
                            #[trigger] g.nodes@[i].irs@[k],
                            (order_prefix_assign(pool, order, i) + count_assign(
                                pool.at_id(order[i] as int).irs@.take(k),
                            )) as usize,
                        )
                    &&& g.weight.assignment_count == order_prefix_assign(
                        pool,
                        order,
                        order.len() as int,
                    )
                    &&& forall|v: usize, d: usize|
                        #[trigger] g.weight.decls_of(v).contains(d) <==> decl_position(
                            g.nodes@,
                            v,
                            d,
                        )
                    &&& forall|e: (usize, usize)|
                        #[trigger] g.edges().contains(e) <==> term_edge(pool, order, e)
                    &&& forall|i: int, b: usize|
                        0 <= i < order.len() ==> !#[trigger] term_dangles(
                            pool.at_id(order[i] as int).terminator,
                            order,
                            b,
                        )
                }),
                Err(e) => ({
                    let order = block_order(*old(self));
                    &&& *final(self) == *old(self)
                    &&& match e {
                        IrError::DanglingLabel { block_id } => exists|i: int|
                            0 <= i < order.len() && term_dangles(
                                program.block_pool.at_id(#[trigger] order[i] as int).terminator,
                                order,
                                block_id,
                            ),
                    }
                }),
            },
    {
        let ghost order_g = block_order(*old(self));
        let ghost pool_g = program.block_pool;
        let nb = self.blocks.binding_count();
        let mut order: Vec<usize> = Vec::new();
        let mut q: usize = 0;
        while q < nb
            invariant
                q <= nb,
                *self == *old(self),
                nb == old(self).blocks.binding_seq().len(),
                order_g == block_order(*old(self)),
                order@.len() == q,
                forall|j: int| 0 <= j < q ==> order@[j] == order_g[j],
            decreases nb - q,
        {
            let b = self.blocks.binding_at(q);
            order.push(b.1);
            q += 1;
        }
        proof {
            assert(order_g.len() == nb);
            assert(order@ =~= order_g);
            assert forall|kk: int| 0 <= kk < order_g.len() implies pool_g.valid_id(
                #[trigger] order_g[kk] as int,
            ) by {
                assert(order_g[kk] == (old(self).blocks.binding_seq()[kk]).1);
            }
        }
        let n = order.len();

        // Numbering pass.
        let mut built: Vec<(usize, Vec<IR>)> = Vec::new();
        let mut wmap: Vec<(usize, Vec<usize>)> = Vec::new();
        let mut decl_dests: Vec<usize> = Vec::new();
        let mut bi: usize = 0;
        while bi < n
            invariant
                bi <= n,
                *self == *old(self),
                n == order_g.len(),
                order@ == order_g,
                pool_g == program.block_pool,
                forall|kk: int|
                    0 <= kk < order_g.len() ==> pool_g.valid_id(#[trigger] order_g[kk] as int),
                built@.len() == bi,
                decl_dests@.len() == order_prefix_assign(pool_g, order_g, bi as int),
                map_matches_log(wmap@, decl_dests@),
                numbered_ok(pool_g, order_g, built@, decl_dests@),
            decreases n - bi,
        {
            let bid = order[bi];
            let h = match program.block_pool.get_id(bid) {
                Some(h) => h,
                None => unreached(),
            };
            let src = program.block_pool.get(h);
            let ghost src_irs = src.irs@;
            let ghost pre_count = decl_dests@.len();
            let ghost log_pre = decl_dests@;
            let ghost built_snap = built@;
            let mut out_irs: Vec<IR> = Vec::new();
            let mut k: usize = 0;
            proof {
                assert(src_irs.take(0) =~= Seq::<IR>::empty());
                assert(decl_dests@.take(pre_count as int) =~= decl_dests@);
                assert(bid == order_g[bi as int]);
                assert(pool_g.valid_id(bid as int));
                assert(*src == pool_g.at_id(order_g[bi as int] as int));
            }
            while k < src.irs.len()
                invariant
                    k <= src_irs.len(),
                    src_irs == src.irs@,
                    *src == pool_g.at_id(order_g[bi as int] as int),
                    bi < order_g.len(),
                    built@ == built_snap,
                    built@.len() == bi,
                    pool_g == program.block_pool,
                    pre_count == order_prefix_assign(pool_g, order_g, bi as int),
                    out_irs@.len() == k,
                    decl_dests@.len() == pre_count + count_assign(src_irs.take(k as int)),
                    decl_dests@.take(pre_count as int) == log_pre,
                    map_matches_log(wmap@, decl_dests@),
                    numbered_ok(pool_g, order_g, built@, log_pre),
                    forall|kk: int|
                        0 <= kk < k ==> renumbered_ir(
                            src_irs[kk],
                            #[trigger] out_irs@[kk],
                            (pre_count + count_assign(src_irs.take(kk))) as usize,
                        ),
                    forall|kk: int|
                        0 <= kk < k && (#[trigger] out_irs@[kk]) is Assignment ==> {
                            let ir = out_irs@[kk];
                            &&& ir->Assignment_2.declaration_number is Some
                            &&& ir->Assignment_2.declaration_number->0 < decl_dests@.len()
                            &&& decl_dests@[ir->Assignment_2.declaration_number->0 as int]
                                == ir->Assignment_0
                        },
                    forall|d: int|
                        pre_count <= d < decl_dests@.len() ==> exists|kk: int|
                            0 <= kk < out_irs@.len() && is_assign_with(
                                #[trigger] out_irs@[kk],
                                #[trigger] decl_dests@[d],
                                d as usize,
                            ),
                decreases src_irs.len() - k,
            {
                let ir = src.irs[k];
                proof {
                    lemma_count_assign_take_step(src_irs, k as int);
                }
                match ir {
                    IR::Assignment(dest, op2, _info) => {
                        let d = decl_dests.len();
                        let ghost log0 = decl_dests@;
                        let ghost wmap0 = wmap@;
                        let ghost out0 = out_irs@;
                        decl_dests.push(dest);
                        record_assignment(&mut wmap, dest, d);
                        out_irs.push(
                            IR::Assignment(
                                dest,
                                op2,
                                IRInformation { declaration_number: Some(d) },
                            ),
                        );
                        proof {
                            let log1 = decl_dests@;
                            assert(log1 == log0.push(dest));
                            assert(log1.take(pre_count as int) =~= log0.take(pre_count as int));
                            assert forall|d2: int| 0 <= d2 < log0.len() implies log1[d2]
                                == log0[d2] by {}
                            assert forall|v: usize, d2: usize| #[trigger]
                                decls_in(wmap@, v, d2) <==> (d2 < log1.len() && log1[d2 as int]
                                == v) by {
                                if v == dest {
                                    match assoc_decls(wmap0, dest) {
                                        Some(lst) => {
                                            assert(assoc_decls(wmap@, dest) == Some(
                                                lst.push(d),
                                            ));
                                            if decls_in(wmap@, dest, d2) {
                                                let j = choose|j: int|
                                                    0 <= j < lst.push(d).len() && lst.push(d)[j]
                                                        == d2;
                                                if j < lst.len() {
                                                    assert(lst[j] == d2);
                                                    assert(lst.contains(d2));
                                                    assert(decls_in(wmap0, dest, d2));
                                                    assert(d2 < log0.len() && log0[d2 as int]
                                                        == dest);
                                                    assert(log1[d2 as int] == dest);
                                                } else {
                                                    assert(d2 == d);
                                                    assert(log1[d2 as int] == dest);
                                                }
                                            }
                                            if d2 < log1.len() && log1[d2 as int] == dest {
                                                if d2 < log0.len() {
                                                    assert(log0[d2 as int] == dest);
                                                    assert(decls_in(wmap0, dest, d2));
                                                    let j = choose|j: int|
                                                        0 <= j < lst.len() && lst[j] == d2;
                                                    assert(lst.push(d)[j] == d2);
                                                    assert(lst.push(d).contains(d2));
                                                } else {
                                                    assert(d2 == d);
                                                    assert(lst.push(d)[lst.len() as int] == d);
                                                    assert(lst.push(d).contains(d2));
                                                }
                                            }
                                        },
                                        None => {
                                            assert(assoc_decls(wmap@, dest) == Some(seq![d]));
                                            if decls_in(wmap@, dest, d2) {
                                                let j = choose|j: int|
                                                    0 <= j < seq![d].len() && seq![d][j] == d2;
                                                assert(d2 == d);
                                            }
                                            if d2 < log1.len() && log1[d2 as int] == dest {
                                                if d2 < log0.len() {
                                                    assert(decls_in(wmap0, dest, d2));
                                                    assert(false);
                                                } else {
                                                    assert(d2 == d);
                                                    assert(seq![d][0] == d);
                                                    assert(seq![d].contains(d2));
                                                }
                                            }
                                        },
                                    }
                                } else {
                                    assert(assoc_decls(wmap@, v) == assoc_decls(wmap0, v));
                                    assert(decls_in(wmap@, v, d2) == decls_in(wmap0, v, d2));
                                    if d2 < log1.len() && log1[d2 as int] == v {
                                        assert(log1[log0.len() as int] == dest);
                                        assert(d2 < log0.len());
                                        assert(log0[d2 as int] == v);
                                    }
                                    if decls_in(wmap0, v, d2) {
                                        assert(d2 < log0.len() && log0[d2 as int] == v);
                                        assert(log1[d2 as int] == v);
                                    }
                                }
                            }
                            assert forall|d2: int|
                                pre_count <= d2 < log1.len() implies exists|kk: int|
                                0 <= kk < out_irs@.len() && is_assign_with(
                                    #[trigger] out_irs@[kk],
                                    #[trigger] log1[d2],
                                    d2 as usize,
                                ) by {
                                if d2 < log0.len() {
                                    let kk = choose|kk: int|
                                        0 <= kk < out0.len() && is_assign_with(
                                            out0[kk],
                                            #[trigger] log0[d2],
                                            d2 as usize,
                                        );
                                    assert(out_irs@[kk] == out0[kk]);
                                } else {
                                    assert(d2 == d);
                                    assert(out_irs@[out_irs@.len() - 1] == IR::Assignment(
                                        dest,
                                        op2,
                                        IRInformation { declaration_number: Some(d) },
                                    ));
                                    assert(is_assign_with(
                                        out_irs@[out_irs@.len() - 1],
                                        dest,
                                        d,
                                    ));
                                }
                            }
                        }
                    },
                    _ => {
                        let ghost out0 = out_irs@;
                        out_irs.push(ir);
                        proof {
                            assert forall|d2: int|
                                pre_count <= d2 < decl_dests@.len() implies exists|kk: int|
                                0 <= kk < out_irs@.len() && is_assign_with(
                                    #[trigger] out_irs@[kk],
                                    #[trigger] decl_dests@[d2],
                                    d2 as usize,
                                ) by {
                                let kk = choose|kk: int|
                                    0 <= kk < out0.len() && is_assign_with(
                                        out0[kk],
                                        #[trigger] decl_dests@[d2],
                                        d2 as usize,
                                    );
                                assert(out_irs@[kk] == out0[kk]);
                            }
                        }
                    },
                }
                k += 1;
            }
            proof {
                assert(src_irs.take(src_irs.len() as int) =~= src_irs);
            }
            let ghost out_snap = out_irs@;
            built.push((bid, out_irs));
            bi += 1;
            proof {
                let log = decl_dests@;
                assert(built@.len() == bi);
                assert(built@[bi - 1].1@ == out_snap);
                assert(built@[bi - 1].0 == order_g[bi - 1]);
                assert forall|dd: int| 0 <= dd < pre_count implies log[dd] == log_pre[dd] by {
                    assert(log.take(pre_count as int)[dd] == log[dd]);
                }
                assert(log.len() == pre_count + count_assign(src_irs));
                assert(order_prefix_assign(pool_g, order_g, bi as int)
                    == order_prefix_assign(pool_g, order_g, bi - 1) + count_assign(
                    pool_g.at_id(order_g[bi - 1] as int).irs@,
                ));
                assert(log.len() == order_prefix_assign(pool_g, order_g, bi as int));
                assert forall|i: int, kk: int|
                    0 <= i < built@.len() && 0 <= kk < built@[i].1@.len() implies renumbered_ir(
                    pool_g.at_id(order_g[i] as int).irs@[kk],
                    #[trigger] built@[i].1@[kk],
                    (order_prefix_assign(pool_g, order_g, i) + count_assign(
                        pool_g.at_id(order_g[i] as int).irs@.take(kk),
                    )) as usize,
                ) by {
                    if i < bi - 1 {
                        assert(built@[i] == built_snap[i]);
                    } else {
                        assert(built@[i].1@[kk] == out_snap[kk]);
                        assert(order_prefix_assign(pool_g, order_g, i) == pre_count);
                    }
                }
                assert forall|i: int, kk: int|
                    0 <= i < built@.len() && 0 <= kk < built@[i].1@.len() && (
                    #[trigger] built@[i].1@[kk]) is Assignment implies {
                    let ir = built@[i].1@[kk];
                    &&& ir->Assignment_2.declaration_number is Some
                    &&& ir->Assignment_2.declaration_number->0 < log.len()
                    &&& log[ir->Assignment_2.declaration_number->0 as int] == ir->Assignment_0
                } by {
                    if i < bi - 1 {
                        assert(built@[i] == built_snap[i]);
                        let ir = built@[i].1@[kk];
                        assert(ir->Assignment_2.declaration_number->0 < log_pre.len());
                    } else {
                        assert(built@[i].1@[kk] == out_snap[kk]);
                    }
                }
                assert forall|d: int| 0 <= d < log.len() implies has_assign(
                    built@,
                    #[trigger] log[d],
                    d as usize,
                ) by {
                    if d < pre_count {
                        assert(log[d] == log_pre[d]);
                        assert(has_assign(built_snap, log_pre[d], d as usize));
                        let (i, k): (int, int) = choose|i: int, k: int|
                            0 <= i < built_snap.len() && 0 <= k < built_snap[i].1@.len()
                                && is_assign_with(
                                #[trigger] built_snap[i].1@[k],
                                log_pre[d],
                                d as usize,
                            );
                        assert(built@[i] == built_snap[i]);
                        assert(is_assign_with(built@[i].1@[k], log[d], d as usize));
                    } else {
                        let k = choose|k: int|
                            0 <= k < out_snap.len() && is_assign_with(
                                out_snap[k],
                                #[trigger] log[d],
                                d as usize,
                            );
                        assert(is_assign_with(built@[bi - 1].1@[k], log[d], d as usize));
                    }
                }
                assert forall|i: int| 0 <= i < built@.len() implies (#[trigger] built@[i]).0
                    == order_g[i] by {
                    if i < bi - 1 {
                        assert(built@[i] == built_snap[i]);
                    }
                }
                assert forall|i: int| 0 <= i < built@.len() implies (#[trigger] built@[i]).1@.len()
                    == pool_g.at_id(order_g[i] as int).irs@.len() by {
                    if i < bi - 1 {
                        assert(built@[i] == built_snap[i]);
                    } else {
                        assert(built@[i].1@ == out_snap);
                    }
                }
                assert(numbered_ok(pool_g, order_g, built@, log));
            }
        }
        proof {
            assert(built@.len() == order_g.len());
        }

        // Weight and nodes.
        let count = decl_dests.len();
        let weight = CodeBlockGraphWeight { assignment_count: count, variable_assignment_map: wmap };
        proof {
            assert forall|var: usize, j: int|
                0 <= j < weight.decls_of(var).len() implies (#[trigger] weight.decls_of(var)[j])
                < weight.assignment_count by {
                assert(decls_in(weight.variable_assignment_map@, var, weight.decls_of(var)[j]));
            }
        }
        let mut g = crate::graph::DataFlowGraph::new(weight);
        let ghost weight_g = weight;
        let mut i: usize = 0;
        while i < n
            invariant
                i <= n,
                n == order_g.len(),
                n == built@.len(),
                n <= 0x7FFF_FFFE,
                *self == *old(self),
                g.wf(),
                g.weight == weight_g,
                weight_g.assignment_count == decl_dests@.len(),
                map_matches_log(weight_g.variable_assignment_map@, decl_dests@),
                numbered_ok(pool_g, order_g, built@, decl_dests@),
                g.nodes@.len() == i,
                g.edges().len() == 0,
                forall|j: int|
                    0 <= j < i ==> (#[trigger] g.nodes@[j]).block_id == built@[j].0
                        && g.nodes@[j].irs@ == built@[j].1@,
                forall|j: int|
                    0 <= j < i ==> (#[trigger] g.nodes@[j]).reach_in@ == crate::reach::zero_bits(
                        weight_g.assignment_count as nat,
                    ) && g.nodes@[j].reach_out@ == crate::reach::zero_bits(
                        weight_g.assignment_count as nat,
                    ),
            decreases n - i,
        {
            let irs_copy = copy_irs(&built[i].1);
            proof {
                assert forall|kk: int|
                    0 <= kk < irs_copy@.len() implies crate::reach::ir_wf(
                    #[trigger] irs_copy@[kk],
                    g.weight,
                ) by {
                    let ir = irs_copy@[kk];
                    assert(ir == built@[i as int].1@[kk]);
                    if ir is Assignment {
                        let dn = ir->Assignment_2.declaration_number->0;
                        assert(decl_dests@[dn as int] == ir->Assignment_0);
                        assert(decls_in(
                            weight_g.variable_assignment_map@,
                            ir->Assignment_0,
                            dn,
                        ));
                        assert(weight_g.has_var(ir->Assignment_0));
                    }
                }
            }
            g.add_block_node(built[i].0, irs_copy);
            i += 1;
        }

        // Edge resolution.
        let mut i2: usize = 0;
        while i2 < n
            invariant
                i2 <= n,
                n == order_g.len(),
                n == built@.len(),
                n <= 0x7FFF_FFFE,
                *self == *old(self),
                order_g == block_order(*old(self)),
                order@ == order_g,
                pool_g == program.block_pool,
                forall|kk: int|
                    0 <= kk < order_g.len() ==> pool_g.valid_id(#[trigger] order_g[kk] as int),
                g.wf(),
                g.weight == weight_g,
                weight_g.assignment_count == decl_dests@.len(),
                map_matches_log(weight_g.variable_assignment_map@, decl_dests@),
                numbered_ok(pool_g, order_g, built@, decl_dests@),
                decl_dests@.len() == order_prefix_assign(pool_g, order_g, n as int),
                g.nodes@.len() == n,
                forall|j: int|
                    0 <= j < n ==> (#[trigger] g.nodes@[j]).block_id == built@[j].0
                        && g.nodes@[j].irs@ == built@[j].1@,
                forall|j: int|
                    0 <= j < n ==> (#[trigger] g.nodes@[j]).reach_in@ == crate::reach::zero_bits(
                        weight_g.assignment_count as nat,
                    ) && g.nodes@[j].reach_out@ == crate::reach::zero_bits(
                        weight_g.assignment_count as nat,
                    ),
                g.edges().len() <= 2 * i2,
                forall|e: (usize, usize)|
                    #[trigger] g.edges().contains(e) <==> (term_edge(pool_g, order_g, e) && e.0
                        < i2),
                forall|j: int, b: usize|
                    0 <= j < i2 ==> !#[trigger] term_dangles(
                        pool_g.at_id(order_g[j] as int).terminator,
                        order_g,
                        b,
                    ),
            decreases n - i2,
        {
            let bid = order[i2];
            let h = match program.block_pool.get_id(bid) {
                Some(h) => h,
                None => unreached(),
            };
            let blk = program.block_pool.get(h);
            let ghost pre_edges = g.edges();
            proof {
                assert(bid == order_g[i2 as int]);
                assert(pool_g.valid_id(bid as int));
                assert(*blk == pool_g.at_id(order_g[i2 as int] as int));
            }
            match &blk.terminator {
                IR::Jump(j, _) => match j {
                    JumpOperation::Unconditional(m) => {
                        match find_node(&order, m.block_id) {
                            Some(t) => {
                                proof {
                                    lemma_find_pos(order_g, m.block_id);
                                }
                                g.add_edge_between(i2, t);
                                proof {
                                    assert forall|e: (usize, usize)|
                                        #[trigger] g.edges().contains(e) <==> (term_edge(
                                        pool_g,
                                        order_g,
                                        e,
                                    ) && e.0 < i2 + 1) by {
                                        if g.edges().contains(e) && !pre_edges.contains(e) {
                                            assert(e == ((i2, t)));
                                        }
                                        if term_edge(pool_g, order_g, e) && e.0 == i2 {
                                            assert(e.1 == t);
                                            assert(g.edges().last() == ((i2, t)));
                                            assert(g.edges().contains(e));
                                        }
                                        if pre_edges.contains(e) {
                                            assert(g.edges()[choose|j: int|
                                                0 <= j < pre_edges.len() && pre_edges[j] == e]
                                                == e);
                                            assert(g.edges().contains(e));
                                        }
                                    }
                                }
                            },
                            None => {
                                proof {
                                    assert(term_dangles(
                                        pool_g.at_id(order_g[i2 as int] as int).terminator,
                                        order_g,
                                        m.block_id,
                                    ));
                                }
                                return Err(IrError::DanglingLabel { block_id: m.block_id });
                            },
                        }
                    },
                    JumpOperation::Branch(_, m1, m2) => {
                        let t1 = match find_node(&order, m1.block_id) {
                            Some(t1) => t1,
                            None => {
                                proof {
                                    assert(term_dangles(
                                        pool_g.at_id(order_g[i2 as int] as int).terminator,
                                        order_g,
                                        m1.block_id,
                                    ));
                                }
                                return Err(IrError::DanglingLabel { block_id: m1.block_id });
                            },
                        };
                        let t2 = match find_node(&order, m2.block_id) {
                            Some(t2) => t2,
                            None => {
                                proof {
                                    assert(term_dangles(
                                        pool_g.at_id(order_g[i2 as int] as int).terminator,
                                        order_g,
                                        m2.block_id,
                                    ));
                                }
                                return Err(IrError::DanglingLabel { block_id: m2.block_id });
                            },
                        };
                        proof {
                            lemma_find_pos(order_g, m1.block_id);
                            lemma_find_pos(order_g, m2.block_id);
                        }
                        g.add_edge_between(i2, t1);
                        let ghost mid_edges = g.edges();
                        g.add_edge_between(i2, t2);
                        proof {
                            assert(g.edges() == pre_edges.push((i2, t1)).push((i2, t2)));
                            assert forall|e: (usize, usize)|
                                #[trigger] g.edges().contains(e) <==> (term_edge(
                                pool_g,
                                order_g,
                                e,
                            ) && e.0 < i2 + 1) by {
                                if g.edges().contains(e) && !pre_edges.contains(e) {
                                    let j = choose|j: int|
                                        0 <= j < g.edges().len() && g.edges()[j] == e;
                                    assert(e == ((i2, t1)) || e == ((i2, t2)));
                                }
                                if term_edge(pool_g, order_g, e) && e.0 == i2 {
                                    assert(e.1 == t1 || e.1 == t2);
                                    assert(g.edges()[g.edges().len() - 2] == ((i2, t1)));
                                    assert(g.edges()[g.edges().len() - 1] == ((i2, t2)));
                                    assert(g.edges().contains(e));
                                }
                                if pre_edges.contains(e) {
                                    let j = choose|j: int|
                                        0 <= j < pre_edges.len() && pre_edges[j] == e;
                                    assert(g.edges()[j] == e);
                                    assert(g.edges().contains(e));
                                }
                            }
                        }
                    },
                    JumpOperation::Next => {
                        if i2 + 1 < n {
                            g.add_edge_between(i2, i2 + 1);
                            proof {
                                assert forall|e: (usize, usize)|
                                    #[trigger] g.edges().contains(e) <==> (term_edge(
                                    pool_g,
                                    order_g,
                                    e,
                                ) && e.0 < i2 + 1) by {
                                    if g.edges().contains(e) && !pre_edges.contains(e) {
                                        assert(e == ((i2, (i2 + 1) as usize)));
                                    }
                                    if term_edge(pool_g, order_g, e) && e.0 == i2 {
                                        assert(g.edges().last() == ((i2, (i2 + 1) as usize)));
                                        assert(g.edges().contains(e));
                                    }
                                    if pre_edges.contains(e) {
                                        let j = choose|j: int|
                                            0 <= j < pre_edges.len() && pre_edges[j] == e;
                                        assert(g.edges()[j] == e);
                                        assert(g.edges().contains(e));
                                    }
                                }
                            }
                        } else {
                            proof {
                                assert forall|e: (usize, usize)|
                                    #[trigger] g.edges().contains(e) <==> (term_edge(
                                    pool_g,
                                    order_g,
                                    e,
                                ) && e.0 < i2 + 1) by {}
                            }
                        }
                    },
                    JumpOperation::End => {},
                    JumpOperation::Ret(_) => {},
                },
                _ => {},
            }
            i2 += 1;
        }
        self.graph = g;
        proof {
            assert forall|j: int| 0 <= j < self.graph.nodes@.len() implies {
                &&& crate::graph::bits_le(
                    (#[trigger] self.graph.nodes@[j]).reach_in@,
                    self.graph.expected_in(j),
                )
                &&& crate::graph::bits_le(
                    self.graph.nodes@[j].reach_out@,
                    crate::reach::block_out(
                        self.graph.nodes@[j].reach_in@,
                        self.graph.nodes@[j].irs@,
                        self.graph.weight,
                    ),
                )
            } by {
                assert(self.graph.expected_in(j).len() == weight_g.assignment_count);
                assert(crate::reach::block_out(
                    self.graph.nodes@[j].reach_in@,
                    self.graph.nodes@[j].irs@,
                    self.graph.weight,
                ).len() == weight_g.assignment_count);
            }
            assert(self.graph.under_approx());
        }
        proof {
            assert forall|v: usize, d: usize| #[trigger]
                self.graph.weight.decls_of(v).contains(d) <==> decl_position(
                self.graph.nodes@,
                v,
                d,
            ) by {
                if self.graph.weight.decls_of(v).contains(d) {
                    assert(decls_in(weight_g.variable_assignment_map@, v, d));
                    assert(d < decl_dests@.len() && decl_dests@[d as int] == v);
                    let (i, kk): (int, int) = choose|i: int, kk: int|
                        0 <= i < built@.len() && 0 <= kk < built@[i].1@.len() && is_assign_with(
                            built@[i].1@[kk],
                            decl_dests@[d as int],
                            d,
                        );
                    assert(self.graph.nodes@[i].irs@[kk] == built@[i].1@[kk]);
                }
                if decl_position(self.graph.nodes@, v, d) {
                    let (i, kk): (int, int) = choose|i: int, kk: int|
                        0 <= i < self.graph.nodes@.len() && 0 <= kk
                            < self.graph.nodes@[i].irs@.len() && is_assign_with(
                            self.graph.nodes@[i].irs@[kk],
                            v,
                            d,
                        );
                    assert(built@[i].1@[kk] == self.graph.nodes@[i].irs@[kk]);
                    assert(decl_dests@[d as int] == v);
                    assert(decls_in(weight_g.variable_assignment_map@, v, d));
                }
            }
        }
        Ok(())
    }
}

} // verus!

use crate::lattice::{flat_meet, SemiLattice};

verus! {

/// Whether two flat facts over concrete values are the same fact.
pub fn flat_value_eq(a: &FlatLattice<Value>, b: &FlatLattice<Value>) -> (r: bool)
    ensures
        r == (a@ == b@),
{
    match (a, b) {
        (FlatLattice::Top, FlatLattice::Top) => true,
        (FlatLattice::Bottom, FlatLattice::Bottom) => true,
        (FlatLattice::Value(x), FlatLattice::Value(y)) => value_eq(x, y),
        _ => false,
    }
}

/// Structural copy of a flat fact over concrete values.
pub fn flat_value_clone(a: &FlatLattice<Value>) -> (r: FlatLattice<Value>)
    ensures
        r@ == a@,
{
    match a {
        FlatLattice::Top => FlatLattice::Top,
        FlatLattice::Bottom => FlatLattice::Bottom,
        FlatLattice::Value(x) => FlatLattice::Value(value_clone(x)),
    }
}

impl SemiLattice for FlatLattice<Value> {
    open spec fn joinable(&self, other: &FlatLattice<Value>) -> bool {
        true
    }

    open spec fn same_fact(&self, other: &FlatLattice<Value>) -> bool {
        self@ == other@
    }

    open spec fn is_meet(
        &self,
        other: &FlatLattice<Value>,
        r: &FlatLattice<Value>,
    ) -> bool {
        r@ == flat_meet(self@, other@)
    }

    fn meet(&self, other: &FlatLattice<Value>) -> (r: FlatLattice<Value>) {
        match (self, other) {
            (FlatLattice::Top, x) => flat_value_clone(x),
            (FlatLattice::Bottom, _) => FlatLattice::Bottom,
            (FlatLattice::Value(x), FlatLattice::Top) => FlatLattice::Value(value_clone(x)),
            (FlatLattice::Value(_), FlatLattice::Bottom) => FlatLattice::Bottom,
            (FlatLattice::Value(x), FlatLattice::Value(y)) => {
                if value_eq(x, y) {
                    FlatLattice::Value(value_clone(x))
                } else {
                    FlatLattice::Bottom
                }
            },
        }
    }

    fn meet_with(&mut self, other: &FlatLattice<Value>) -> (changed: bool) {
        let joined = self.meet(other);
        let same = flat_value_eq(self, &joined);
        if same {
            false
        } else {
            *self = joined;
            true
        }
    }
}

} // verus!
