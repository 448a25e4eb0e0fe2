use irflow::ir::{
    value_eq, AddressMarker, Function, IrError, IntValue, IRInformation, JumpOperation, Literal,
    Program, Scope, SpaceSignature, Value, IR,
};
use irflow::lattice::{FlatLattice, SemiLattice};
use irflow::ops::{BinaryOp, DataType};
use irflow::pool::{NameMap, Pool};

#[test]
fn pool_ids_strictly_increase() {
    let mut pool: Pool<u32> = Pool::new(1);
    let (id1, h1) = pool.insert(10);
    let (id2, h2) = pool.insert(20);
    let (id3, h3) = pool.insert(30);
    assert_eq!((id1, h1), (1, 0));
    assert_eq!((id2, h2), (2, 1));
    assert_eq!((id3, h3), (3, 2));
    assert!(id1 < id2 && id2 < id3);
    assert_eq!(pool.get_id(2), Some(1));
    assert_eq!(pool.get_id(0), None);
    assert_eq!(pool.get_id(4), None);
    assert_eq!(*pool.get(1), 20);
}

#[test]
fn shared_pool_ids_increase_across_scopes() {
    // One arena serves globals and two functions' locals: ids never repeat.
    let mut program = Program::new();
    let mut f1 = Function::new(String::from("f1"), 1);
    let mut f2 = Function::new(String::from("f2"), 2);
    let (g, _) = program.declare_global(String::from("g"), Some(DataType::I64));
    let (a, _) = f1.declare_local(&mut program, String::from("a"), Some(DataType::I64));
    let (b, _) = f2.declare_local(&mut program, String::from("a"), Some(DataType::Bool));
    let (c, _) = program.declare_global(String::from("h"), None);
    assert!(g < a && a < b && b < c);
}

#[test]
fn name_map_last_bind_wins() {
    let mut m = NameMap::new();
    assert_eq!(m.get(&String::from("x")), None);
    m.bind(String::from("x"), 1);
    m.bind(String::from("y"), 2);
    m.bind(String::from("x"), 3);
    assert_eq!(m.get(&String::from("x")), Some(3));
    assert_eq!(m.get(&String::from("y")), Some(2));
    assert_eq!(m.get(&String::from("z")), None);
}

#[test]
fn array_declaration_decomposes_into_members() {
    let mut program = Program::new();
    let (nid, h) = program.declare_space(
        Some(DataType::Array(Box::new(DataType::I64), 3)),
        Scope::Global,
    );
    let space = program.space_pool.get(h);
    let members = match &space.signature {
        SpaceSignature::Normal(Some(DataType::Array(_, 3)), ms) => ms.clone(),
        _ => panic!("aggregate signature expected"),
    };
    assert_eq!(members.len(), 3);
    let mut prev = 0;
    for (k, mid) in members.iter().enumerate() {
        if k > 0 {
            assert!(*mid > prev, "members in index order");
        }
        prev = *mid;
        assert!(*mid < nid, "members are declared before the aggregate");
        let mh = program.lookup_space(*mid).expect("member id resolves");
        let member = program.space_pool.get(mh);
        assert!(matches!(
            member.signature,
            SpaceSignature::Normal(Some(DataType::I64), _)
        ));
        assert!(matches!(member.scope, Scope::Global));
    }
}

#[test]
fn struct_declaration_decomposes_in_declared_order() {
    let mut program = Program::new();
    let (_nid, h) = program.declare_space(
        Some(DataType::Struct(vec![DataType::I64, DataType::Bool])),
        Scope::Global,
    );
    let space = program.space_pool.get(h);
    let members = match &space.signature {
        SpaceSignature::Normal(Some(DataType::Struct(_)), ms) => ms.clone(),
        _ => panic!("aggregate signature expected"),
    };
    assert_eq!(members.len(), 2);
    let h0 = program.lookup_space(members[0]).unwrap();
    let h1 = program.lookup_space(members[1]).unwrap();
    assert!(matches!(
        program.space_pool.get(h0).signature,
        SpaceSignature::Normal(Some(DataType::I64), _)
    ));
    assert!(matches!(
        program.space_pool.get(h1).signature,
        SpaceSignature::Normal(Some(DataType::Bool), _)
    ));
}

#[test]
fn untyped_declaration_has_no_members() {
    let mut program = Program::new();
    let (_nid, h) = program.declare_space(None, Scope::Global);
    match &program.space_pool.get(h).signature {
        SpaceSignature::Normal(None, ms) => assert!(ms.is_empty()),
        _ => panic!("untyped signature expected"),
    }
}

#[test]
fn constants_deduplicate_by_value() {
    let mut program = Program::new();
    let v42 = Value::Int(IntValue { value: 42 });
    let v42b = Value::Int(IntValue { value: 42 });
    let v7 = Value::Int(IntValue { value: 7 });
    let (id1, h1) = program.lookup_or_insert_constant(DataType::I64, v42);
    let (id2, _) = program.lookup_or_insert_constant(DataType::I64, v42b);
    let (id3, _) = program.lookup_or_insert_constant(DataType::I64, v7);
    assert_eq!(id1, id2);
    assert_ne!(id1, id3);
    // A constant's space is global and fully known, never Top.
    let space = program.space_pool.get(h1);
    assert!(matches!(space.scope, Scope::Global));
    match &space.value {
        FlatLattice::Value(Value::Int(iv)) => assert_eq!(iv.value, 42),
        _ => panic!("constant must carry its concrete value"),
    }
}

#[test]
fn scoping_prefers_local_once_declared() {
    let mut program = Program::new();
    let (gx, _) = program.declare_global(String::from("x"), Some(DataType::I64));
    let (fid, _) = program.lookup_or_insert_function(String::from("f"));
    let mut f = Function::new(String::from("f"), fid);

    // Before a local `x` exists, the global wins.
    let (seen, _) = f.lookup_or_insert_space(&mut program, String::from("x"));
    assert_eq!(seen, gx);

    // Once a local `x` is declared it shadows the global.
    let (lx, _) = f.declare_local(&mut program, String::from("x"), None);
    assert_ne!(lx, gx);
    let (seen2, _) = f.lookup_or_insert_space(&mut program, String::from("x"));
    assert_eq!(seen2, lx);

    // An unknown name is implicitly declared as a fresh local.
    let (ly, _) = f.lookup_or_insert_space(&mut program, String::from("y"));
    assert!(ly > lx);
    let h = program.lookup_space(ly).unwrap();
    assert!(matches!(
        program.space_pool.get(h).scope,
        Scope::Local { fn_name_id } if fn_name_id == fid
    ));
}

#[test]
fn blocks_resolve_by_label_and_start_empty() {
    let mut program = Program::new();
    let mut f = Function::new(String::from("f"), 1);
    let (b1, h1) = f.lookup_or_insert_block(&mut program, String::from("entry"));
    let (b2, _) = f.lookup_or_insert_block(&mut program, String::from("entry"));
    assert_eq!(b1, b2);
    let block = program.block_pool.get(h1);
    assert_eq!(block.id, b1);
    assert!(block.irs.is_empty());
    assert!(matches!(
        block.terminator,
        IR::Jump(JumpOperation::Next, _)
    ));
}

#[test]
fn functions_deduplicate_by_name() {
    let mut program = Program::new();
    let (f1, _) = program.lookup_or_insert_function(String::from("main"));
    let (f2, _) = program.lookup_or_insert_function(String::from("main"));
    let (f3, _) = program.lookup_or_insert_function(String::from("helper"));
    assert_eq!(f1, f2);
    assert_ne!(f1, f3);
}

#[test]
fn dangling_label_is_reported_at_finalisation() {
    let mut program = Program::new();
    let mut f = Function::new(String::from("f"), 1);
    let (_b, h) = f.lookup_or_insert_block(&mut program, String::from("entry"));
    program.block_pool.get_mut(h).set_terminator(IR::Jump(
        JumpOperation::Unconditional(AddressMarker::new(9999)),
        IRInformation::default(),
    ));
    let r = f.build_graph(&program);
    assert_eq!(r, Err(IrError::DanglingLabel { block_id: 9999 }));
}

#[test]
fn literal_addition_evaluates() {
    let mut a = IntValue { value: 2 };
    let r = a.binary(BinaryOp::Add, Some(IntValue { value: 3 }));
    assert_eq!(r.value, 5);
}

#[test]
fn signature_get_type_returns_declared_type() {
    let sig = SpaceSignature::Normal(Some(DataType::Bool), vec![]);
    assert!(matches!(sig.get_type(), Some(DataType::Bool)));
    let sig2 = SpaceSignature::Offset(1, 8, None, vec![]);
    assert!(sig2.get_type().is_none());
}

#[test]
fn address_marker_keeps_its_target() {
    let m = AddressMarker::new(17);
    assert_eq!(m.block_id, 17);
}

#[test]
fn value_equality_is_structural() {
    let a = Value::Array(irflow::ir::ArrayValue { value: vec![1, 2, 3] });
    let b = Value::Array(irflow::ir::ArrayValue { value: vec![1, 2, 3] });
    let c = Value::Array(irflow::ir::ArrayValue { value: vec![1, 2] });
    assert!(value_eq(&a, &b));
    assert!(!value_eq(&a, &c));
    assert!(!value_eq(&a, &Value::Void));
    assert!(value_eq(&Value::Void, &Value::Void));
    let d = irflow::ir::value_clone(&a);
    assert!(value_eq(&a, &d));
}

#[test]
fn deep_clone_preserves_structure() {
    let t = DataType::Array(
        Box::new(DataType::Struct(vec![DataType::I64, DataType::F64])),
        4,
    );
    let c = t.deep_clone();
    match c {
        DataType::Array(elem, 4) => match *elem {
            DataType::Struct(ms) => {
                assert_eq!(ms.len(), 2);
                assert!(matches!(ms[0], DataType::I64));
                assert!(matches!(ms[1], DataType::F64));
            }
            _ => panic!("struct element expected"),
        },
        _ => panic!("array expected"),
    }
}

#[test]
fn flat_lattice_meet_follows_the_order() {
    let mut top: FlatLattice<Value> = FlatLattice::Top;
    let one = FlatLattice::Value(Value::Int(IntValue { value: 1 }));
    let two = FlatLattice::Value(Value::Int(IntValue { value: 2 }));

    // Top joined with a value refines to the value.
    let changed = top.meet_with(&one);
    assert!(changed);
    assert!(matches!(
        &top,
        FlatLattice::Value(Value::Int(iv)) if iv.value == 1
    ));

    // The same value again changes nothing.
    let changed2 = top.meet_with(&one);
    assert!(!changed2);

    // Two distinct concrete values contradict each other.
    let m = one.meet(&two);
    assert!(matches!(m, FlatLattice::Bottom));
}

#[test]
fn bool_lattice_join_is_or() {
    let mut a = false;
    assert!(a.meet_with(&true));
    assert!(a);
    assert!(!a.meet_with(&false));
    assert!(a);
    assert_eq!(false.meet(&false), false);
    assert_eq!(true.meet(&false), true);
}

#[test]
fn globals_resolve_or_get_declared() {
    let mut program = Program::new();
    assert!(program.lookup_global_by_name(&String::from("g")).is_none());
    let (id1, _) = program.lookup_or_insert_global(&String::from("g"));
    let (id2, _) = program.lookup_or_insert_global(&String::from("g"));
    assert_eq!(id1, id2);
    let (id3, h3) = program.lookup_global_by_name(&String::from("g")).unwrap();
    assert_eq!(id1, id3);
    assert!(matches!(program.space_pool.get(h3).scope, Scope::Global));
}

#[test]
fn default_instruction_metadata_is_unnumbered() {
    let info = IRInformation::default();
    assert!(info.declaration_number.is_none());
}

#[test]
fn lookup_space_translates_ids_from_any_scope() {
    let mut program = Program::new();
    let mut f = Function::new(String::from("f"), 1);
    let (a, ha) = f.declare_local(&mut program, String::from("a"), None);
    assert_eq!(f.lookup_space(&program, a), Some(ha));
    assert_eq!(program.lookup_space(a), Some(ha));
    assert_eq!(f.lookup_space(&program, 999), None);
}
