use noirc_evaluator::ir::{
    BinaryOp, DataFlowGraph, Function, Instruction, NumericType, RuntimeType, Ssa, Terminator,
    Type, Value,
};
use std::collections::HashMap;

fn u32_type() -> Type {
    Type::Numeric(NumericType::Unsigned { bit_size: 32 })
}

fn field_type() -> Type {
    Type::Numeric(NumericType::NativeField)
}

fn function(id: usize, name: &str, dfg: DataFlowGraph) -> Function {
    Function { name: name.to_string(), id, entry_block: 0, runtime: RuntimeType::Acir, dfg }
}

/// `fn name(a: u32, b: u32) -> u32 { a <op> b }`
fn binary_function(id: usize, name: &str, op: BinaryOp) -> Function {
    let mut dfg = DataFlowGraph::new();
    let b = dfg.insert_block();
    let a = dfg.add_block_parameter(b, u32_type());
    let c = dfg.add_block_parameter(b, u32_type());
    let x = dfg.insert_instruction(b, Instruction::Binary { lhs: a, operator: op, rhs: c }, &vec![u32_type()]);
    let r = dfg.results[x][0];
    dfg.terminate(b, Terminator::Return { return_values: vec![r] });
    function(id, name, dfg)
}

/// `fn name(a: u32) -> u32 { a + 1 }`
fn increment_function(id: usize, name: &str) -> Function {
    let mut dfg = DataFlowGraph::new();
    let b = dfg.insert_block();
    let a = dfg.add_block_parameter(b, u32_type());
    let one = dfg.make_constant(1, u32_type());
    let x = dfg.insert_instruction(b, Instruction::Binary { lhs: a, operator: BinaryOp::Add, rhs: one }, &vec![u32_type()]);
    let r = dfg.results[x][0];
    dfg.terminate(b, Terminator::Return { return_values: vec![r] });
    function(id, name, dfg)
}

/// `fn caller(g: fn(u32, u32) -> u32, a: u32, b: u32) -> u32 { g(a, b) }`
fn caller_function(id: usize) -> Function {
    let mut dfg = DataFlowGraph::new();
    let b = dfg.insert_block();
    let g = dfg.add_block_parameter(b, Type::Function);
    let a = dfg.add_block_parameter(b, u32_type());
    let c = dfg.add_block_parameter(b, u32_type());
    let x = dfg.insert_instruction(b, Instruction::Call { func: g, arguments: vec![a, c] }, &vec![u32_type()]);
    let r = dfg.results[x][0];
    dfg.terminate(b, Terminator::Return { return_values: vec![r] });
    function(id, "caller", dfg)
}

/// A function that returns `callee(f, x, y)` for each `(f, x, y)`.
fn main_calling(id: usize, callee: usize, calls: &[(usize, u128, u128)]) -> Function {
    let mut dfg = DataFlowGraph::new();
    let b = dfg.insert_block();
    let mut returned = Vec::new();
    for (f, x, y) in calls {
        let target = dfg.import_function(callee);
        let fv = dfg.import_function(*f);
        let xv = dfg.make_constant(*x, u32_type());
        let yv = dfg.make_constant(*y, u32_type());
        let i = dfg.insert_instruction(b, Instruction::Call { func: target, arguments: vec![fv, xv, yv] }, &vec![u32_type()]);
        returned.push(dfg.results[i][0]);
    }
    dfg.terminate(b, Terminator::Return { return_values: returned });
    function(id, "main", dfg)
}

/// add (0), sub (1), caller (2), main (3) calling caller with add and sub.
fn two_callee_program() -> Ssa {
    Ssa {
        functions: vec![
            binary_function(0, "add", BinaryOp::Add),
            binary_function(1, "sub", BinaryOp::Sub),
            caller_function(2),
            main_calling(3, 2, &[(0, 1, 2), (1, 5, 2)]),
        ],
        main_id: 3,
    }
}

fn eval(f: &Function, env: &HashMap<usize, u128>, v: usize) -> u128 {
    match f.dfg.values[v] {
        Value::NumericConstant { constant, .. } => constant,
        Value::Function(id) => id as u128,
        _ => env[&v],
    }
}

/// Runs function `fid` of `ssa` on `args`; a function used as a value is its
/// identifier, before the pass and after it.
fn run(ssa: &Ssa, fid: usize, args: &[u128]) -> Vec<u128> {
    let f = &ssa.functions[fid];
    let mut env: HashMap<usize, u128> = HashMap::new();
    let mut memory: HashMap<u128, u128> = HashMap::new();
    let mut block = f.entry_block;
    let mut incoming = args.to_vec();
    loop {
        let b = &f.dfg.blocks[block];
        for (i, p) in b.parameters.iter().enumerate() {
            env.insert(*p, incoming[i]);
        }
        for &x in &b.instructions {
            match &f.dfg.instructions[x] {
                Instruction::Binary { lhs, operator, rhs } => {
                    let l = eval(f, &env, *lhs);
                    let r = eval(f, &env, *rhs);
                    let v = match operator {
                        BinaryOp::Add => l + r,
                        BinaryOp::Sub => l - r,
                        BinaryOp::Mul => l * r,
                        BinaryOp::Div => l / r,
                        BinaryOp::Eq => (l == r) as u128,
                        BinaryOp::Lt => (l < r) as u128,
                    };
                    env.insert(f.dfg.results[x][0], v);
                }
                Instruction::Call { func, arguments } => {
                    let target = eval(f, &env, *func) as usize;
                    let a: Vec<u128> = arguments.iter().map(|v| eval(f, &env, *v)).collect();
                    let out = run(ssa, target, &a);
                    for (k, r) in f.dfg.results[x].iter().enumerate() {
                        env.insert(*r, out[k]);
                    }
                }
                Instruction::Constrain(c) => assert_eq!(eval(f, &env, *c), 1),
                Instruction::Allocate => {
                    let cell = memory.len() as u128 + 1000;
                    memory.insert(cell, 0);
                    env.insert(f.dfg.results[x][0], cell);
                }
                Instruction::Store { address, value } => {
                    let a = eval(f, &env, *address);
                    let v = eval(f, &env, *value);
                    memory.insert(a, v);
                }
                Instruction::Load { address } => {
                    let a = eval(f, &env, *address);
                    env.insert(f.dfg.results[x][0], memory[&a]);
                }
            }
        }
        match &b.terminator {
            Some(Terminator::Jmp { destination, arguments }) => {
                incoming = arguments.iter().map(|v| eval(f, &env, *v)).collect();
                block = *destination;
            }
            Some(Terminator::JmpIf { condition, then_destination, else_destination }) => {
                incoming = Vec::new();
                block = if eval(f, &env, *condition) != 0 { *then_destination } else { *else_destination };
            }
            Some(Terminator::Return { return_values }) => {
                return return_values.iter().map(|v| eval(f, &env, *v)).collect();
            }
            None => panic!("block without terminator"),
        }
    }
}

use noirc_evaluator::defunctionalize::{
    common_signature, find_dynamic_dispatches, find_functions_as_values, find_variants,
    function_id_to_field, CallSignature,
};
use noirc_evaluator::ir::Signature;

fn find_function_value(f: &Function, id: usize) -> bool {
    f.dfg.values.iter().any(|v| *v == Value::Function(id))
}

#[test]
fn single_callee_is_called_directly() {
    // add (0), caller (1) with caller(g) = g(1, 2), main (2) = caller(add)
    let mut caller = DataFlowGraph::new();
    let b = caller.insert_block();
    let g = caller.add_block_parameter(b, Type::Function);
    let one = caller.make_constant(1, u32_type());
    let two = caller.make_constant(2, u32_type());
    let x = caller.insert_instruction(b, Instruction::Call { func: g, arguments: vec![one, two] }, &vec![u32_type()]);
    let r = caller.results[x][0];
    caller.terminate(b, Terminator::Return { return_values: vec![r] });
    let mut main = DataFlowGraph::new();
    let mb = main.insert_block();
    let callee = main.import_function(1);
    let add_value = main.import_function(0);
    let y = main.insert_instruction(mb, Instruction::Call { func: callee, arguments: vec![add_value] }, &vec![u32_type()]);
    let mr = main.results[y][0];
    main.terminate(mb, Terminator::Return { return_values: vec![mr] });
    let ssa = Ssa {
        functions: vec![binary_function(0, "add", BinaryOp::Add), function(1, "caller", caller), function(2, "main", main)],
        main_id: 2,
    };
    assert_eq!(run(&ssa, 2, &[]), vec![3]);
    let out = ssa.defunctionalize();
    assert_eq!(out.functions.len(), 3);
    let caller = &out.functions[1];
    match &caller.dfg.instructions[x] {
        Instruction::Call { func, arguments } => {
            assert_eq!(caller.dfg.values[*func], Value::Function(0));
            assert_eq!(arguments, &vec![one, two]);
        }
        other => panic!("expected a call, found {:?}", other),
    }
    assert_eq!(caller.dfg.values[g].get_type(), field_type());
    let main = &out.functions[2];
    assert_eq!(main.dfg.values[add_value], Value::NumericConstant { constant: 0, typ: field_type() });
    assert_eq!(main.dfg.values[callee], Value::Function(1));
    assert_eq!(run(&out, 2, &[]), vec![3]);
}

#[test]
fn two_callees_share_an_apply_function() {
    let out = two_callee_program().defunctionalize();
    assert_eq!(out.functions.len(), 5);
    let apply = &out.functions[4];
    assert_eq!(apply.name, "apply");
    assert_eq!(apply.runtime, RuntimeType::Acir);
    let sig = Signature::of(apply);
    assert_eq!(sig.params, vec![field_type(), u32_type(), u32_type()]);
    assert_eq!(sig.return_types, vec![u32_type()]);
    assert!(find_function_value(apply, 0));
    assert!(find_function_value(apply, 1));
    // the first test compares the identifier with add's, the last is asserted
    let entry = &apply.dfg.blocks[apply.entry_block];
    match &apply.dfg.instructions[entry.instructions[0]] {
        Instruction::Binary { lhs, operator, rhs } => {
            assert_eq!(*lhs, entry.parameters[0]);
            assert_eq!(*operator, BinaryOp::Eq);
            assert_eq!(apply.dfg.values[*rhs], Value::NumericConstant { constant: 0, typ: field_type() });
        }
        other => panic!("expected a comparison, found {:?}", other),
    }
    assert!(apply.dfg.instructions.iter().any(|i| matches!(i, Instruction::Constrain(_))));
    assert!(matches!(entry.terminator, Some(Terminator::JmpIf { .. })));
    assert_eq!(run(&out, 4, &[0, 1, 2]), vec![3]);
    assert_eq!(run(&out, 4, &[1, 5, 2]), vec![3]);
    // the call inside caller goes through apply with the target first
    let caller = &out.functions[2];
    let params = &caller.dfg.blocks[0].parameters;
    match &caller.dfg.instructions[0] {
        Instruction::Call { func, arguments } => {
            assert_eq!(caller.dfg.values[*func], Value::Function(4));
            assert_eq!(arguments, &vec![params[0], params[1], params[2]]);
        }
        other => panic!("expected a call, found {:?}", other),
    }
    assert_eq!(caller.dfg.values[params[0]].get_type(), field_type());
    assert_eq!(run(&out, 3, &[]), vec![3, 3]);
}

#[test]
fn rewritten_program_computes_the_same() {
    let before = two_callee_program();
    let expected = run(&before, 3, &[]);
    let after = before.defunctionalize();
    assert_eq!(run(&after, 3, &[]), expected);
    assert_eq!(run(&after, 2, &[0, 7, 4]), vec![11]);
    assert_eq!(run(&after, 2, &[1, 7, 4]), vec![3]);
}

#[test]
fn distinct_signatures_do_not_merge() {
    // inc (0): (u32) -> u32; add (1): (u32, u32) -> u32
    let mut one_arg = DataFlowGraph::new();
    let b = one_arg.insert_block();
    let g = one_arg.add_block_parameter(b, Type::Function);
    let a = one_arg.add_block_parameter(b, u32_type());
    let x = one_arg.insert_instruction(b, Instruction::Call { func: g, arguments: vec![a] }, &vec![u32_type()]);
    let r = one_arg.results[x][0];
    one_arg.terminate(b, Terminator::Return { return_values: vec![r] });
    let mut main = DataFlowGraph::new();
    let mb = main.insert_block();
    let c2 = main.import_function(2);
    let inc = main.import_function(0);
    let five = main.make_constant(5, u32_type());
    let i1 = main.insert_instruction(mb, Instruction::Call { func: c2, arguments: vec![inc, five] }, &vec![u32_type()]);
    let c3 = main.import_function(3);
    let add = main.import_function(1);
    let i2 = main.insert_instruction(mb, Instruction::Call { func: c3, arguments: vec![add, five, five] }, &vec![u32_type()]);
    let r1 = main.results[i1][0];
    let r2 = main.results[i2][0];
    main.terminate(mb, Terminator::Return { return_values: vec![r1, r2] });
    let ssa = Ssa {
        functions: vec![
            increment_function(0, "inc"),
            binary_function(1, "add", BinaryOp::Add),
            function(2, "call_one", one_arg),
            caller_function(3),
            function(4, "main", main),
        ],
        main_id: 4,
    };
    let variants = find_variants(&ssa);
    assert_eq!(variants.len(), 2);
    for v in &variants {
        if v.signature.params.len() == 1 {
            assert_eq!(v.callees, vec![0]);
        } else {
            assert_eq!(v.callees, vec![1]);
        }
    }
    let out = ssa.defunctionalize();
    assert_eq!(out.functions.len(), 5);
    match &out.functions[2].dfg.instructions[x] {
        Instruction::Call { func, arguments } => {
            assert_eq!(out.functions[2].dfg.values[*func], Value::Function(0));
            assert_eq!(arguments, &vec![a]);
        }
        other => panic!("expected a call, found {:?}", other),
    }
    assert_eq!(run(&out, 4, &[]), vec![6, 10]);
}

#[test]
fn stored_function_is_loaded_and_called() {
    let mut main = DataFlowGraph::new();
    let b = main.insert_block();
    let alloc = main.insert_instruction(b, Instruction::Allocate, &vec![Type::Reference]);
    let address = main.results[alloc][0];
    let add = main.import_function(0);
    main.insert_instruction(b, Instruction::Store { address, value: add }, &vec![]);
    let load = main.insert_instruction(b, Instruction::Load { address }, &vec![Type::Function]);
    let loaded = main.results[load][0];
    let one = main.make_constant(1, u32_type());
    let two = main.make_constant(2, u32_type());
    let call = main.insert_instruction(b, Instruction::Call { func: loaded, arguments: vec![one, two] }, &vec![u32_type()]);
    let r = main.results[call][0];
    main.terminate(b, Terminator::Return { return_values: vec![r] });
    let ssa = Ssa { functions: vec![binary_function(0, "add", BinaryOp::Add), function(1, "main", main)], main_id: 1 };
    assert_eq!(find_functions_as_values(&ssa.functions[1]), vec![0]);
    let out = ssa.defunctionalize();
    let main = &out.functions[1];
    assert_eq!(main.dfg.values[add], Value::NumericConstant { constant: 0, typ: field_type() });
    assert_eq!(main.dfg.values[loaded].get_type(), field_type());
    match &main.dfg.instructions[call] {
        Instruction::Call { func, arguments } => {
            assert_eq!(main.dfg.values[*func], Value::Function(0));
            assert_eq!(arguments, &vec![one, two]);
        }
        other => panic!("expected a call, found {:?}", other),
    }
    assert_eq!(run(&out, 1, &[]), vec![3]);
}

/// `fn frame(g) -> u32 { next(g) }`, or `g(2, 1)` where there is no next.
fn frame(id: usize, next: Option<usize>) -> Function {
    let mut dfg = DataFlowGraph::new();
    let b = dfg.insert_block();
    let g = dfg.add_block_parameter(b, Type::Function);
    let one = dfg.make_constant(1, u32_type());
    let two = dfg.make_constant(2, u32_type());
    let x = match next {
        Some(n) => {
            let t = dfg.import_function(n);
            dfg.insert_instruction(b, Instruction::Call { func: t, arguments: vec![g] }, &vec![u32_type()])
        }
        None => dfg.insert_instruction(b, Instruction::Call { func: g, arguments: vec![two, one] }, &vec![u32_type()]),
    };
    let r = dfg.results[x][0];
    dfg.terminate(b, Terminator::Return { return_values: vec![r] });
    function(id, "frame", dfg)
}

#[test]
fn parameter_threaded_through_frames() {
    let mut main = DataFlowGraph::new();
    let b = main.insert_block();
    let mut results = Vec::new();
    for f in [0usize, 1] {
        let t = main.import_function(2);
        let fv = main.import_function(f);
        let i = main.insert_instruction(b, Instruction::Call { func: t, arguments: vec![fv] }, &vec![u32_type()]);
        results.push(main.results[i][0]);
    }
    main.terminate(b, Terminator::Return { return_values: results });
    let ssa = Ssa {
        functions: vec![
            binary_function(0, "add", BinaryOp::Add),
            binary_function(1, "sub", BinaryOp::Sub),
            frame(2, Some(3)),
            frame(3, Some(4)),
            frame(4, None),
            function(5, "main", main),
        ],
        main_id: 5,
    };
    let out = ssa.defunctionalize();
    assert_eq!(out.functions.len(), 7);
    for f in 2..5 {
        let g = out.functions[f].dfg.blocks[0].parameters[0];
        assert_eq!(out.functions[f].dfg.values[g].get_type(), field_type());
    }
    let inner = &out.functions[4];
    let g = inner.dfg.blocks[0].parameters[0];
    let call = inner.dfg.blocks[0].instructions[0];
    match &inner.dfg.instructions[call] {
        Instruction::Call { func, arguments } => {
            assert_eq!(inner.dfg.values[*func], Value::Function(6));
            assert_eq!(arguments[0], g);
            assert_eq!(arguments.len(), 3);
        }
        other => panic!("expected a call, found {:?}", other),
    }
    assert_eq!(run(&out, 5, &[]), vec![3, 1]);
}

#[test]
fn running_twice_equals_running_once() {
    let once = two_callee_program().defunctionalize();
    let once_text = format!("{:?}", once);
    let twice = once.defunctionalize();
    assert_eq!(format!("{:?}", twice), once_text);
}

#[test]
fn dispatch_signatures_are_found_in_reachable_blocks() {
    let ssa = two_callee_program();
    let dispatches = find_dynamic_dispatches(&ssa.functions[2]);
    assert_eq!(dispatches.len(), 1);
    assert_eq!(dispatches[0].params, vec![u32_type(), u32_type()]);
    assert_eq!(dispatches[0].return_types, vec![u32_type()]);
    assert!(find_dynamic_dispatches(&ssa.functions[3]).is_empty());
    let mut values = find_functions_as_values(&ssa.functions[3]);
    values.sort();
    values.dedup();
    assert_eq!(values, vec![0, 1]);
    let variants = find_variants(&ssa);
    assert_eq!(variants.len(), 1);
    assert_eq!(variants[0].callees, vec![0, 1]);
}

#[test]
fn unreachable_block_is_not_scanned() {
    let mut dfg = DataFlowGraph::new();
    let b = dfg.insert_block();
    let dead = dfg.insert_block();
    let g = dfg.add_block_parameter(dead, Type::Function);
    dfg.insert_instruction(dead, Instruction::Call { func: g, arguments: vec![] }, &vec![]);
    dfg.terminate(dead, Terminator::Return { return_values: vec![] });
    dfg.terminate(b, Terminator::Return { return_values: vec![] });
    let f = function(0, "f", dfg);
    assert!(find_dynamic_dispatches(&f).is_empty());
    assert_eq!(f.reachable_blocks(), vec![0]);
}

#[test]
fn can_call_requires_equal_types() {
    let call = CallSignature { params: vec![u32_type()], return_types: vec![u32_type()] };
    let same = Signature { params: vec![u32_type()], return_types: vec![u32_type()] };
    let wider = Signature { params: vec![field_type()], return_types: vec![u32_type()] };
    let longer = Signature { params: vec![u32_type(), u32_type()], return_types: vec![u32_type()] };
    let no_result = Signature { params: vec![u32_type()], return_types: vec![] };
    assert!(call.can_call(&same));
    assert!(!call.can_call(&wider));
    assert!(!call.can_call(&longer));
    assert!(!call.can_call(&no_result));
}

#[test]
fn common_signature_takes_the_wider_types() {
    let u8_type = Type::Numeric(NumericType::Unsigned { bit_size: 8 });
    let sigs = vec![
        Signature { params: vec![u8_type, field_type()], return_types: vec![u32_type()] },
        Signature { params: vec![u32_type(), u8_type], return_types: vec![u8_type] },
    ];
    let common = common_signature(sigs);
    assert_eq!(common.params, vec![u32_type(), field_type()]);
    assert_eq!(common.return_types, vec![u32_type()]);
    let single = common_signature(vec![Signature { params: vec![u8_type], return_types: vec![] }]);
    assert_eq!(single.params, vec![u8_type]);
    assert!(single.return_types.is_empty());
}

#[test]
fn cast_to_widens_within_signedness_and_to_field() {
    let i8_type = Type::Numeric(NumericType::Signed { bit_size: 8 });
    let i16_type = Type::Numeric(NumericType::Signed { bit_size: 16 });
    let u8_type = Type::Numeric(NumericType::Unsigned { bit_size: 8 });
    assert_eq!(i8_type.cast_to(&i16_type), Some(i16_type));
    assert_eq!(i16_type.cast_to(&i8_type), None);
    assert_eq!(u8_type.cast_to(&field_type()), Some(field_type()));
    assert_eq!(field_type().cast_to(&u8_type), None);
    assert_eq!(u8_type.cast_to(&i16_type), None);
    assert_eq!(Type::Function.cast_to(&Type::Function), Some(Type::Function));
    assert!(Type::Reference.is(&Type::Reference));
    assert!(!Type::Reference.is(&Type::Function));
}

#[test]
fn function_id_encodes_as_field() {
    assert_eq!(function_id_to_field(0), 0);
    assert_eq!(function_id_to_field(42), 42);
}

#[test]
fn signature_of_function_reads_entry_and_return() {
    let f = binary_function(0, "add", BinaryOp::Add);
    let sig = Signature::of(&f);
    assert_eq!(sig.params, vec![u32_type(), u32_type()]);
    assert_eq!(sig.return_types, vec![u32_type()]);
}
