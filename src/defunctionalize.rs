//! The defunctionalization pass. Functions used as values become numeric
//! constants holding their identifier, and every call through a value that is
//! only known at run time becomes a direct call of an `apply` function that
//! compares the identifier against each candidate and calls the matching one.

use vstd::prelude::*;

use crate::ir::{
    cast_result, ids_below, instruction_wf, is_dynamic, signature_of, widens, BasicBlock,
    BasicBlockId, BinaryOp, DataFlowGraph, Function, FunctionId, Instruction, InstructionId,
    NumericType, RuntimeType, Signature, Ssa, Terminator, Type, Value, ValueId,
};

verus! {

/// The parameter and result types seen at a call site.
#[derive(Debug)]
pub struct CallSignature {
    pub params: Vec<Type>,
    pub return_types: Vec<Type>,
}

impl View for CallSignature {
    type V = (Seq<Type>, Seq<Type>);

    open spec fn view(&self) -> (Seq<Type>, Seq<Type>) {
        (self.params@, self.return_types@)
    }
}

/// A call with signature `call` may target a function declaring `target`.
pub open spec fn spec_can_call(call: (Seq<Type>, Seq<Type>), target: (Seq<Type>, Seq<Type>)) -> bool {
    &&& call.0.len() == target.0.len()
    &&& call.1.len() == target.1.len()
    &&& forall|i: int| 0 <= i < call.0.len() ==> call.0[i] == target.0[i]
    &&& forall|i: int| 0 <= i < call.1.len() ==> target.1[i] == call.1[i]
}

fn copy_types(v: &Vec<Type>) -> (r: Vec<Type>)
    ensures
        r@ == v@,
{
    let mut r: Vec<Type> = Vec::new();
    for k in 0..v.len()
        invariant
            r@ == v@.take(k as int),
    {
        r.push(v[k]);
        assert(r@ =~= v@.take(k + 1));
    }
    assert(v@.take(v.len() as int) =~= v@);
    r
}

fn copy_ids(v: &Vec<usize>) -> (r: Vec<usize>)
    ensures
        r@ == v@,
{
    let mut r: Vec<usize> = Vec::new();
    for k in 0..v.len()
        invariant
            r@ == v@.take(k as int),
    {
        r.push(v[k]);
        assert(r@ =~= v@.take(k + 1));
    }
    assert(v@.take(v.len() as int) =~= v@);
    r
}

fn same_types(a: &Vec<Type>, b: &Vec<Type>) -> (r: bool)
    ensures
        r == (a@ == b@),
{
    if a.len() != b.len() {
        return false;
    }
    for k in 0..a.len()
        invariant
            a.len() == b.len(),
            forall|j: int| 0 <= j < k ==> a@[j] == b@[j],
    {
        if !a[k].is(&b[k]) {
            return false;
        }
    }
    assert(a@ =~= b@);
    true
}

impl CallSignature {
    pub fn from_call_params(caller: &Function, params: &Vec<ValueId>, results: &Vec<ValueId>) -> (r: Self)
        requires
            ids_below(params@, caller.dfg.values.len() as int),
            ids_below(results@, caller.dfg.values.len() as int),
        ensures
            r@ == (caller.dfg.types_of(params@), caller.dfg.types_of(results@)),
    {
        let params = caller.dfg.types_of_values(params);
        let return_types = caller.dfg.types_of_values(results);
        CallSignature { params, return_types }
    }

    /// Whether a function declaring `target` can serve this call: same
    /// arity, and each parameter and result type structurally equal.
    pub fn can_call(&self, target: &Signature) -> (r: bool)
        ensures
            r == spec_can_call(self@, target@),
    {
        if self.params.len() != target.params.len() || self.return_types.len() != target.return_types.len() {
            return false;
        }
        for i in 0..self.params.len()
            invariant
                self.params.len() == target.params.len(),
                forall|j: int| 0 <= j < i ==> self.params@[j] == target.params@[j],
        {
            if !self.params[i].is(&target.params[i]) {
                return false;
            }
        }
        for i in 0..self.return_types.len()
            invariant
                self.return_types.len() == target.return_types.len(),
                forall|j: int| 0 <= j < i ==> target.return_types@[j] == self.return_types@[j],
        {
            if !target.return_types[i].is(&self.return_types[i]) {
                return false;
            }
        }
        true
    }

    fn same_as(&self, other: &CallSignature) -> (r: bool)
        ensures
            r == (self@ == other@),
    {
        same_types(&self.params, &other.params) && same_types(&self.return_types, &other.return_types)
    }

    fn duplicate(&self) -> (r: CallSignature)
        ensures
            r@ == self@,
    {
        CallSignature { params: copy_types(&self.params), return_types: copy_types(&self.return_types) }
    }
}

/// Block `b` of `f` is reachable and has an instruction at position `k`.
pub open spec fn in_reachable_block(f: Function, b: BasicBlockId, k: int) -> bool {
    &&& b < f.dfg.blocks.len()
    &&& f.is_reachable(b)
    &&& 0 <= k < f.dfg.blocks@[b as int].instructions.len()
}

pub open spec fn instruction_at(f: Function, b: BasicBlockId, k: int) -> InstructionId {
    f.dfg.blocks@[b as int].instructions@[k]
}

/// Instruction `x` passes the function `id` as a call argument or stores it.
pub open spec fn carries_function(dfg: DataFlowGraph, x: InstructionId, id: FunctionId) -> bool {
    match dfg.instructions@[x as int] {
        Instruction::Call { arguments, .. } => exists|a: int|
            0 <= a < arguments@.len() && dfg.values@[#[trigger] arguments@[a] as int] == Value::Function(id),
        Instruction::Store { value, .. } => dfg.values@[value as int] == Value::Function(id),
        _ => false,
    }
}

/// The signature of instruction `x` when it is a call through a value known
/// only at run time.
pub open spec fn dynamic_call_signature(dfg: DataFlowGraph, x: InstructionId) -> Option<(Seq<Type>, Seq<Type>)> {
    match dfg.instructions@[x as int] {
        Instruction::Call { func, arguments } => if is_dynamic(dfg.values@[func as int]) {
            Some((dfg.types_of(arguments@), dfg.types_of(dfg.results@[x as int]@)))
        } else {
            None
        },
        _ => None,
    }
}

pub open spec fn carries_at(f: Function, b: BasicBlockId, k: int, id: FunctionId) -> bool {
    carries_function(f.dfg, instruction_at(f, b, k), id)
}

pub open spec fn dispatch_at(f: Function, b: BasicBlockId, k: int, sig: (Seq<Type>, Seq<Type>)) -> bool {
    dynamic_call_signature(f.dfg, instruction_at(f, b, k)) == Some(sig)
}

/// A reachable instruction of `f` uses the function `id` as a value.
pub open spec fn uses_as_value(f: Function, id: FunctionId) -> bool {
    exists|b: BasicBlockId, k: int| in_reachable_block(f, b, k) && #[trigger] carries_at(f, b, k, id)
}

/// A reachable instruction of `f` is a dynamic call with signature `sig`.
pub open spec fn dispatches_with(f: Function, sig: (Seq<Type>, Seq<Type>)) -> bool {
    exists|b: BasicBlockId, k: int| in_reachable_block(f, b, k) && #[trigger] dispatch_at(f, b, k, sig)
}

pub open spec fn has_signature(sigs: Seq<CallSignature>, sig: (Seq<Type>, Seq<Type>)) -> bool {
    exists|j: int| 0 <= j < sigs.len() && #[trigger] sigs[j]@ == sig
}

proof fn lemma_push_contains<A>(s: Seq<A>, x: A)
    ensures
        forall|y: A| #[trigger] s.push(x).contains(y) <==> s.contains(y) || y == x,
{
    assert forall|y: A| #[trigger] s.push(x).contains(y) <==> s.contains(y) || y == x by {
        if s.contains(y) {
            let j = choose|j: int| 0 <= j < s.len() && s[j] == y;
            assert(s.push(x)[j] == y);
        }
        if y == x {
            assert(s.push(x)[s.len() as int] == y);
        }
        if s.push(x).contains(y) && y != x {
            let j = choose|j: int| 0 <= j < s.len() + 1 && s.push(x)[j] == y;
            assert(s[j] == y);
        }
    }
}

fn note_function_values(dfg: &DataFlowGraph, x: InstructionId, out: &mut Vec<FunctionId>)
    requires
        dfg.wf(),
        x < dfg.instructions.len(),
    ensures
        forall|id: FunctionId| #[trigger] final(out)@.contains(id) <==> old(out)@.contains(id) || carries_function(*dfg, x, id),
{
    assert(instruction_wf(dfg.instructions@[x as int], dfg.values.len() as int));
    match &dfg.instructions[x] {
        Instruction::Call { arguments, .. } => {
            for a in 0..arguments.len()
                invariant
                    dfg.wf(),
                    x < dfg.instructions.len(),
                    dfg.instructions@[x as int] == (Instruction::Call { func: dfg.instructions@[x as int]->Call_func, arguments: *arguments }),
                    ids_below(arguments@, dfg.values.len() as int),
                    forall|id: FunctionId| #[trigger] out@.contains(id) <==> old(out)@.contains(id) || exists|aa: int|
                        0 <= aa < a && dfg.values@[#[trigger] arguments@[aa] as int] == Value::Function(id),
            {
                let ghost prev = out@;
                match dfg.values[arguments[a]] {
                    Value::Function(id) => {
                        proof {
                            lemma_push_contains(out@, id);
                        }
                        out.push(id);
                    },
                    _ => {},
                }
                assert forall|id: FunctionId| #[trigger] out@.contains(id) <==> old(out)@.contains(id) || exists|aa: int|
                    0 <= aa < a + 1 && dfg.values@[#[trigger] arguments@[aa] as int] == Value::Function(id) by {
                    if out@.contains(id) && !prev.contains(id) {
                        assert(out@.last() == id);
                        assert(dfg.values@[arguments@[a as int] as int] == Value::Function(id));
                    }
                    if prev.contains(id) {
                        let j = choose|j: int| 0 <= j < prev.len() && prev[j] == id;
                        assert(out@[j] == id);
                    }
                    if exists|aa: int| 0 <= aa < a + 1 && dfg.values@[#[trigger] arguments@[aa] as int] == Value::Function(id) {
                        let aa = choose|aa: int| 0 <= aa < a + 1 && dfg.values@[#[trigger] arguments@[aa] as int] == Value::Function(id);
                        if aa == a {
                            assert(out@.last() == id);
                        }
                    }
                }
            }
        },
        Instruction::Store { value, .. } => {
            match dfg.values[*value] {
                Value::Function(id) => {
                    proof {
                        lemma_push_contains(out@, id);
                    }
                    out.push(id);
                },
                _ => {},
            }
        },
        _ => {},
    }
}


proof fn lemma_push_signature(s: Seq<CallSignature>, c: CallSignature)
    ensures
        forall|sig: (Seq<Type>, Seq<Type>)| #[trigger] has_signature(s.push(c), sig) <==> has_signature(s, sig) || c@ == sig,
{
    assert forall|sig: (Seq<Type>, Seq<Type>)| #[trigger] has_signature(s.push(c), sig) <==> has_signature(s, sig) || c@ == sig by {
        if has_signature(s, sig) {
            let j = choose|j: int| 0 <= j < s.len() && #[trigger] s[j]@ == sig;
            assert(s.push(c)[j]@ == sig);
        }
        if c@ == sig {
            assert(s.push(c)[s.len() as int]@ == sig);
        }
        if has_signature(s.push(c), sig) && c@ != sig {
            let j = choose|j: int| 0 <= j < s.len() + 1 && #[trigger] s.push(c)[j]@ == sig;
            assert(s[j]@ == sig);
        }
    }
}

fn note_dynamic_dispatch(func: &Function, x: InstructionId, out: &mut Vec<CallSignature>)
    requires
        func.wf(),
        x < func.dfg.instructions.len(),
    ensures
        forall|sig: (Seq<Type>, Seq<Type>)| #[trigger] has_signature(final(out)@, sig) <==> has_signature(old(out)@, sig) || dynamic_call_signature(func.dfg, x) == Some(sig),
{
    let dfg = &func.dfg;
    assert(instruction_wf(dfg.instructions@[x as int], dfg.values.len() as int));
    assert(ids_below(dfg.results@[x as int]@, dfg.values.len() as int));
    match &dfg.instructions[x] {
        Instruction::Call { func: target, arguments } => {
            match dfg.values[*target] {
                Value::Param { .. } | Value::Instruction { .. } => {
                    let sig = CallSignature::from_call_params(func, arguments, &dfg.results[x]);
                    proof {
                        lemma_push_signature(out@, sig);
                    }
                    out.push(sig);
                },
                _ => {},
            }
        },
        _ => {},
    }
}

fn block_function_values(func: &Function, b: BasicBlockId, out: &mut Vec<FunctionId>)
    requires
        func.wf(),
        b < func.dfg.blocks.len(),
    ensures
        forall|id: FunctionId| #[trigger] final(out)@.contains(id) <==> old(out)@.contains(id) || exists|k: int|
            0 <= k < func.dfg.blocks@[b as int].instructions.len() && #[trigger] carries_at(*func, b, k, id),
{
    let dfg = &func.dfg;
    let block = &dfg.blocks[b];
    assert(crate::ir::block_wf(dfg.blocks@[b as int], dfg.values.len() as int, dfg.instructions.len() as int, dfg.blocks.len() as int));
    for k in 0..block.instructions.len()
        invariant
            func.wf(),
            dfg == &func.dfg,
            block == &func.dfg.blocks@[b as int],
            ids_below(block.instructions@, dfg.instructions.len() as int),
            forall|id: FunctionId| #[trigger] out@.contains(id) <==> old(out)@.contains(id) || exists|kk: int|
                0 <= kk < k && #[trigger] carries_at(*func, b, kk, id),
    {
        note_function_values(dfg, block.instructions[k], out);
        assert forall|id: FunctionId| #[trigger] out@.contains(id) <==> old(out)@.contains(id) || exists|kk: int|
            0 <= kk < k + 1 && #[trigger] carries_at(*func, b, kk, id) by {
            if carries_at(*func, b, k as int, id) {
            }
        }
    }
}

fn block_dynamic_dispatches(func: &Function, b: BasicBlockId, out: &mut Vec<CallSignature>)
    requires
        func.wf(),
        b < func.dfg.blocks.len(),
    ensures
        forall|sig: (Seq<Type>, Seq<Type>)| #[trigger] has_signature(final(out)@, sig) <==> has_signature(old(out)@, sig) || exists|k: int|
            0 <= k < func.dfg.blocks@[b as int].instructions.len() && #[trigger] dispatch_at(*func, b, k, sig),
{
    let dfg = &func.dfg;
    let block = &dfg.blocks[b];
    assert(crate::ir::block_wf(dfg.blocks@[b as int], dfg.values.len() as int, dfg.instructions.len() as int, dfg.blocks.len() as int));
    for k in 0..block.instructions.len()
        invariant
            func.wf(),
            dfg == &func.dfg,
            block == &func.dfg.blocks@[b as int],
            ids_below(block.instructions@, dfg.instructions.len() as int),
            forall|sig: (Seq<Type>, Seq<Type>)| #[trigger] has_signature(out@, sig) <==> has_signature(old(out)@, sig) || exists|kk: int|
                0 <= kk < k && #[trigger] dispatch_at(*func, b, kk, sig),
    {
        note_dynamic_dispatch(func, block.instructions[k], out);
        assert forall|sig: (Seq<Type>, Seq<Type>)| #[trigger] has_signature(out@, sig) <==> has_signature(old(out)@, sig) || exists|kk: int|
            0 <= kk < k + 1 && #[trigger] dispatch_at(*func, b, kk, sig) by {
            if dispatch_at(*func, b, k as int, sig) {
            }
        }
    }
}

/// The functions that reachable instructions of `func` pass as call
/// arguments or store.
pub fn find_functions_as_values(func: &Function) -> (r: Vec<FunctionId>)
    requires
        func.wf(),
    ensures
        forall|id: FunctionId| #[trigger] r@.contains(id) <==> uses_as_value(*func, id),
{
    let blocks = func.reachable_blocks();
    let mut out: Vec<FunctionId> = Vec::new();
    for j in 0..blocks.len()
        invariant
            func.wf(),
            forall|i: int| 0 <= i < blocks@.len() ==> #[trigger] blocks@[i] < func.dfg.blocks.len(),
            forall|id: FunctionId| #[trigger] out@.contains(id) <==> exists|jj: int, k: int|
                0 <= jj < j && 0 <= k < func.dfg.blocks@[blocks@[jj] as int].instructions.len() && #[trigger] carries_at(*func, blocks@[jj], k, id),
    {
        block_function_values(func, blocks[j], &mut out);
        assert forall|id: FunctionId| #[trigger] out@.contains(id) <==> exists|jj: int, k: int|
            0 <= jj < j + 1 && 0 <= k < func.dfg.blocks@[blocks@[jj] as int].instructions.len() && #[trigger] carries_at(*func, blocks@[jj], k, id) by {
            if exists|k: int| 0 <= k < func.dfg.blocks@[blocks@[j as int] as int].instructions.len() && #[trigger] carries_at(*func, blocks@[j as int], k, id) {
                let k = choose|k: int| 0 <= k < func.dfg.blocks@[blocks@[j as int] as int].instructions.len() && #[trigger] carries_at(*func, blocks@[j as int], k, id);
                assert(carries_at(*func, blocks@[j as int], k, id));
            }
        }
    }
    assert forall|id: FunctionId| #[trigger] out@.contains(id) <==> uses_as_value(*func, id) by {
        if out@.contains(id) {
            let (jj, k) = choose|jj: int, k: int|
                0 <= jj < blocks.len() && 0 <= k < func.dfg.blocks@[blocks@[jj] as int].instructions.len() && #[trigger] carries_at(*func, blocks@[jj], k, id);
            assert(blocks@.contains(blocks@[jj]));
            assert(in_reachable_block(*func, blocks@[jj], k));
        }
        if uses_as_value(*func, id) {
            let (b, k) = choose|b: BasicBlockId, k: int| in_reachable_block(*func, b, k) && #[trigger] carries_at(*func, b, k, id);
            assert(blocks@.contains(b));
            let jj = choose|jj: int| 0 <= jj < blocks.len() && blocks@[jj] == b;
            assert(carries_at(*func, blocks@[jj], k, id));
        }
    }
    out
}

/// The signatures of the reachable calls of `func` whose target is only
/// known at run time.
pub fn find_dynamic_dispatches(func: &Function) -> (r: Vec<CallSignature>)
    requires
        func.wf(),
    ensures
        forall|sig: (Seq<Type>, Seq<Type>)| #[trigger] has_signature(r@, sig) <==> dispatches_with(*func, sig),
{
    let blocks = func.reachable_blocks();
    let mut out: Vec<CallSignature> = Vec::new();
    for j in 0..blocks.len()
        invariant
            func.wf(),
            forall|i: int| 0 <= i < blocks@.len() ==> #[trigger] blocks@[i] < func.dfg.blocks.len(),
            forall|sig: (Seq<Type>, Seq<Type>)| #[trigger] has_signature(out@, sig) <==> exists|jj: int, k: int|
                0 <= jj < j && 0 <= k < func.dfg.blocks@[blocks@[jj] as int].instructions.len() && #[trigger] dispatch_at(*func, blocks@[jj], k, sig),
    {
        block_dynamic_dispatches(func, blocks[j], &mut out);
        assert forall|sig: (Seq<Type>, Seq<Type>)| #[trigger] has_signature(out@, sig) <==> exists|jj: int, k: int|
            0 <= jj < j + 1 && 0 <= k < func.dfg.blocks@[blocks@[jj] as int].instructions.len() && #[trigger] dispatch_at(*func, blocks@[jj], k, sig) by {
            if exists|k: int| 0 <= k < func.dfg.blocks@[blocks@[j as int] as int].instructions.len() && #[trigger] dispatch_at(*func, blocks@[j as int], k, sig) {
                let k = choose|k: int| 0 <= k < func.dfg.blocks@[blocks@[j as int] as int].instructions.len() && #[trigger] dispatch_at(*func, blocks@[j as int], k, sig);
                assert(dispatch_at(*func, blocks@[j as int], k, sig));
            }
        }
    }
    assert forall|sig: (Seq<Type>, Seq<Type>)| #[trigger] has_signature(out@, sig) <==> dispatches_with(*func, sig) by {
        if has_signature(out@, sig) {
            let (jj, k) = choose|jj: int, k: int|
                0 <= jj < blocks.len() && 0 <= k < func.dfg.blocks@[blocks@[jj] as int].instructions.len() && #[trigger] dispatch_at(*func, blocks@[jj], k, sig);
            assert(blocks@.contains(blocks@[jj]));
            assert(in_reachable_block(*func, blocks@[jj], k));
        }
        if dispatches_with(*func, sig) {
            let (b, k) = choose|b: BasicBlockId, k: int| in_reachable_block(*func, b, k) && #[trigger] dispatch_at(*func, b, k, sig);
            assert(blocks@.contains(b));
            let jj = choose|jj: int| 0 <= jj < blocks.len() && blocks@[jj] == b;
            assert(dispatch_at(*func, blocks@[jj], k, sig));
        }
    }
    out
}


/// Some function of the program uses `id` as a value.
pub open spec fn is_function_value(ssa: Ssa, id: FunctionId) -> bool {
    exists|fi: int| 0 <= fi < ssa.functions.len() && #[trigger] uses_as_value(ssa.functions@[fi], id)
}

/// Some function of the program makes a dynamic call with signature `sig`.
pub open spec fn is_dispatch(ssa: Ssa, sig: (Seq<Type>, Seq<Type>)) -> bool {
    exists|fi: int| 0 <= fi < ssa.functions.len() && #[trigger] dispatches_with(ssa.functions@[fi], sig)
}

/// `callees` lists, in increasing order, exactly the functions used as
/// values whose signature a call with `sig` can target.
pub open spec fn callees_match(ssa: Ssa, sig: (Seq<Type>, Seq<Type>), callees: Seq<FunctionId>) -> bool {
    &&& forall|i: int, j: int| 0 <= i < j < callees.len() ==> callees[i] < callees[j]
    &&& forall|id: FunctionId|
        #[trigger] callees.contains(id) <==> (id < ssa.functions.len() && is_function_value(ssa, id)
            && spec_can_call(sig, signature_of(ssa.functions@[id as int])))
}

/// A dispatch signature with every function that may serve it.
#[derive(Debug)]
pub struct Variant {
    pub signature: CallSignature,
    pub callees: Vec<FunctionId>,
}

pub open spec fn has_key(vs: Seq<Variant>, sig: (Seq<Type>, Seq<Type>)) -> bool {
    exists|i: int| 0 <= i < vs.len() && #[trigger] vs[i].signature@ == sig
}

/// `vs` holds one entry for each dynamic dispatch signature of the program,
/// and nothing else, each with its callees.
pub open spec fn variants_of(ssa: Ssa, vs: Seq<Variant>) -> bool {
    &&& forall|i: int, j: int| 0 <= i < j < vs.len() ==> vs[i].signature@ != vs[j].signature@
    &&& forall|i: int| 0 <= i < vs.len() ==> is_dispatch(ssa, #[trigger] vs[i].signature@)
    &&& forall|i: int| 0 <= i < vs.len() ==> callees_match(ssa, #[trigger] vs[i].signature@, vs[i].callees@)
    &&& forall|sig: (Seq<Type>, Seq<Type>)| is_dispatch(ssa, sig) ==> #[trigger] has_key(vs, sig)
}

fn extend_ids(out: &mut Vec<FunctionId>, more: &Vec<FunctionId>)
    ensures
        forall|id: FunctionId| #[trigger] final(out)@.contains(id) <==> old(out)@.contains(id) || more@.contains(id),
{
    for k in 0..more.len()
        invariant
            forall|id: FunctionId| #[trigger] out@.contains(id) <==> old(out)@.contains(id) || more@.take(k as int).contains(id),
    {
        proof {
            lemma_push_contains(out@, more@[k as int]);
            lemma_push_contains(more@.take(k as int), more@[k as int]);
            assert(more@.take(k + 1) =~= more@.take(k as int).push(more@[k as int]));
        }
        out.push(more[k]);
    }
    assert(more@.take(more.len() as int) =~= more@);
}

fn extend_signatures(out: &mut Vec<CallSignature>, more: Vec<CallSignature>)
    ensures
        forall|sig: (Seq<Type>, Seq<Type>)| #[trigger] has_signature(final(out)@, sig) <==> has_signature(old(out)@, sig) || has_signature(more@, sig),
{
    for k in 0..more.len()
        invariant
            forall|sig: (Seq<Type>, Seq<Type>)| #[trigger] has_signature(out@, sig) <==> has_signature(old(out)@, sig) || has_signature(more@.take(k as int), sig),
    {
        let c = more[k].duplicate();
        proof {
            lemma_push_signature(out@, c);
            lemma_push_signature(more@.take(k as int), more@[k as int]);
            assert(more@.take(k + 1) =~= more@.take(k as int).push(more@[k as int]));
        }
        out.push(c);
    }
    assert(more@.take(more.len() as int) =~= more@);
}

fn contains_id(v: &Vec<usize>, x: usize) -> (r: bool)
    ensures
        r == v@.contains(x),
{
    for k in 0..v.len()
        invariant
            forall|j: int| 0 <= j < k ==> v@[j] != x,
    {
        if v[k] == x {
            return true;
        }
    }
    false
}

fn contains_key(vs: &Vec<Variant>, sig: &CallSignature) -> (r: bool)
    ensures
        r == has_key(vs@, sig@),
{
    for k in 0..vs.len()
        invariant
            forall|j: int| 0 <= j < k ==> vs@[j].signature@ != sig@,
    {
        if vs[k].signature.same_as(sig) {
            return true;
        }
    }
    false
}

fn callees_for(ssa: &Ssa, marks: &Vec<bool>, sigs: &Vec<Signature>, sig: &CallSignature) -> (r: Vec<FunctionId>)
    requires
        marks.len() == ssa.functions.len(),
        sigs.len() == ssa.functions.len(),
        forall|id: int| 0 <= id < marks.len() ==> #[trigger] marks@[id] == is_function_value(*ssa, id as FunctionId),
        forall|id: int| 0 <= id < sigs.len() ==> #[trigger] sigs@[id]@ == signature_of(ssa.functions@[id]),
    ensures
        callees_match(*ssa, sig@, r@),
{
    let mut r: Vec<FunctionId> = Vec::new();
    for id in 0..marks.len()
        invariant
            marks.len() == ssa.functions.len(),
            sigs.len() == ssa.functions.len(),
            forall|i: int| 0 <= i < marks.len() ==> #[trigger] marks@[i] == is_function_value(*ssa, i as FunctionId),
            forall|i: int| 0 <= i < sigs.len() ==> #[trigger] sigs@[i]@ == signature_of(ssa.functions@[i]),
            forall|i: int, j: int| 0 <= i < j < r@.len() ==> r@[i] < r@[j],
            forall|j: int| 0 <= j < r@.len() ==> #[trigger] r@[j] < id,
            forall|f: FunctionId|
                #[trigger] r@.contains(f) <==> (f < id && is_function_value(*ssa, f)
                    && spec_can_call(sig@, signature_of(ssa.functions@[f as int]))),
    {
        if marks[id] && sig.can_call(&sigs[id]) {
            proof {
                lemma_push_contains(r@, id);
            }
            r.push(id);
        }
    }
    r
}

/// Each dynamic dispatch signature of the program, with the functions used
/// as values that a call of that signature can target.
pub fn find_variants(ssa: &Ssa) -> (r: Vec<Variant>)
    requires
        ssa.wf(),
    ensures
        variants_of(*ssa, r@),
        forall|i: int, k: int|
            0 <= i < r@.len() && 0 <= k < r@[i].callees@.len() ==> spec_can_call(
                r@[i].signature@,
                signature_of(ssa.functions@[#[trigger] r@[i].callees@[k] as int]),
            ),
{
    let n = ssa.functions.len();
    let mut found: Vec<FunctionId> = Vec::new();
    let mut dispatches: Vec<CallSignature> = Vec::new();
    for fi in 0..n
        invariant
            ssa.wf(),
            n == ssa.functions.len(),
            forall|id: FunctionId| #[trigger] found@.contains(id) <==> exists|ff: int|
                0 <= ff < fi && #[trigger] uses_as_value(ssa.functions@[ff], id),
            forall|sig: (Seq<Type>, Seq<Type>)| #[trigger] has_signature(dispatches@, sig) <==> exists|ff: int|
                0 <= ff < fi && #[trigger] dispatches_with(ssa.functions@[ff], sig),
    {
        assert(ssa.functions@[fi as int].wf());
        let values = find_functions_as_values(&ssa.functions[fi]);
        extend_ids(&mut found, &values);
        let more = find_dynamic_dispatches(&ssa.functions[fi]);
        extend_signatures(&mut dispatches, more);
        assert forall|id: FunctionId| #[trigger] found@.contains(id) <==> exists|ff: int|
            0 <= ff < fi + 1 && #[trigger] uses_as_value(ssa.functions@[ff], id) by {
            if uses_as_value(ssa.functions@[fi as int], id) {
            }
        }
        assert forall|sig: (Seq<Type>, Seq<Type>)| #[trigger] has_signature(dispatches@, sig) <==> exists|ff: int|
            0 <= ff < fi + 1 && #[trigger] dispatches_with(ssa.functions@[ff], sig) by {
            if dispatches_with(ssa.functions@[fi as int], sig) {
            }
        }
    }
    let mut marks: Vec<bool> = Vec::new();
    let mut sigs: Vec<Signature> = Vec::new();
    for id in 0..n
        invariant
            ssa.wf(),
            n == ssa.functions.len(),
            marks.len() == id,
            sigs.len() == id,
            forall|f: FunctionId| #[trigger] found@.contains(f) <==> is_function_value(*ssa, f),
            forall|i: int| 0 <= i < marks.len() ==> #[trigger] marks@[i] == is_function_value(*ssa, i as FunctionId),
            forall|i: int| 0 <= i < sigs.len() ==> #[trigger] sigs@[i]@ == signature_of(ssa.functions@[i]),
    {
        marks.push(contains_id(&found, id));
        assert(ssa.functions@[id as int].wf());
        sigs.push(Signature::of(&ssa.functions[id]));
    }
    let mut variants: Vec<Variant> = Vec::new();
    for d in 0..dispatches.len()
        invariant
            marks.len() == ssa.functions.len(),
            sigs.len() == ssa.functions.len(),
            forall|i: int| 0 <= i < marks.len() ==> #[trigger] marks@[i] == is_function_value(*ssa, i as FunctionId),
            forall|i: int| 0 <= i < sigs.len() ==> #[trigger] sigs@[i]@ == signature_of(ssa.functions@[i]),
            forall|sig: (Seq<Type>, Seq<Type>)| #[trigger] has_signature(dispatches@, sig) <==> is_dispatch(*ssa, sig),
            forall|i: int, j: int| 0 <= i < j < variants@.len() ==> variants@[i].signature@ != variants@[j].signature@,
            forall|i: int| 0 <= i < variants@.len() ==> is_dispatch(*ssa, #[trigger] variants@[i].signature@),
            forall|i: int| 0 <= i < variants@.len() ==> callees_match(*ssa, #[trigger] variants@[i].signature@, variants@[i].callees@),
            forall|dd: int| 0 <= dd < d ==> has_key(variants@, #[trigger] dispatches@[dd]@),
    {
        let sig = &dispatches[d];
        assert(has_signature(dispatches@, sig@));
        if !contains_key(&variants, sig) {
            let callees = callees_for(ssa, &marks, &sigs, sig);
            let ghost prev = variants@;
            variants.push(Variant { signature: sig.duplicate(), callees });
            assert forall|dd: int| 0 <= dd < d + 1 implies has_key(variants@, #[trigger] dispatches@[dd]@) by {
                if dd < d {
                    let i = choose|i: int| 0 <= i < prev.len() && #[trigger] prev[i].signature@ == dispatches@[dd]@;
                    assert(variants@[i].signature@ == dispatches@[dd]@);
                } else {
                    assert(variants@[prev.len() as int].signature@ == dispatches@[dd]@);
                }
            }
        }
    }
    assert forall|sig: (Seq<Type>, Seq<Type>)| is_dispatch(*ssa, sig) implies #[trigger] has_key(variants@, sig) by {
        assert(has_signature(dispatches@, sig));
        let j = choose|j: int| 0 <= j < dispatches@.len() && #[trigger] dispatches@[j]@ == sig;
        assert(has_key(variants@, dispatches@[j]@));
    }
    assert forall|i: int, k: int|
        0 <= i < variants@.len() && 0 <= k < variants@[i].callees@.len() implies spec_can_call(
            variants@[i].signature@,
            signature_of(ssa.functions@[#[trigger] variants@[i].callees@[k] as int]),
        ) by {
        assert(callees_match(*ssa, variants@[i].signature@, variants@[i].callees@));
        assert(variants@[i].callees@.contains(variants@[i].callees@[k]));
    }
    variants
}


/// The type that both `a` and `b` can be passed as: the wider of the two,
/// when one of them widens to the other.
pub open spec fn join_type(a: Type, b: Type) -> Option<Type> {
    match cast_result(a, b) {
        Some(t) => Some(t),
        None => cast_result(b, a),
    }
}

/// Position by position join of two type lists, over their common length.
pub open spec fn join_types(xs: Seq<Type>, ys: Seq<Type>) -> Option<Seq<Type>> {
    let n = if xs.len() <= ys.len() {
        xs.len()
    } else {
        ys.len()
    };
    if forall|k: int| 0 <= k < n ==> #[trigger] join_type(xs[k], ys[k]) is Some {
        Some(Seq::new(n, |k: int| join_type(xs[k], ys[k])->Some_0))
    } else {
        None
    }
}

pub open spec fn join_signatures(a: (Seq<Type>, Seq<Type>), b: (Seq<Type>, Seq<Type>)) -> Option<(Seq<Type>, Seq<Type>)> {
    match (join_types(a.0, b.0), join_types(a.1, b.1)) {
        (Some(p), Some(r)) => Some((p, r)),
        _ => None,
    }
}

/// The common signature of a list: the join of all of them, from the left;
/// none for an empty list or where two types cannot be joined.
pub open spec fn common_of(sigs: Seq<(Seq<Type>, Seq<Type>)>) -> Option<(Seq<Type>, Seq<Type>)>
    decreases sigs.len(),
{
    if sigs.len() == 0 {
        None
    } else if sigs.len() == 1 {
        Some(sigs[0])
    } else {
        match common_of(sigs.drop_last()) {
            Some(acc) => join_signatures(acc, sigs.last()),
            None => None,
        }
    }
}

pub open spec fn signature_views(sigs: Seq<Signature>) -> Seq<(Seq<Type>, Seq<Type>)> {
    sigs.map_values(|s: Signature| s@)
}

proof fn lemma_common_prefix(sigs: Seq<(Seq<Type>, Seq<Type>)>, i: int)
    requires
        1 <= i <= sigs.len(),
        common_of(sigs) is Some,
    ensures
        common_of(sigs.take(i)) is Some,
    decreases sigs.len() - i,
{
    if i < sigs.len() {
        assert(sigs.drop_last() =~= sigs.take(sigs.len() - 1));
        if sigs.len() > 1 {
            lemma_common_prefix(sigs.drop_last(), i);
            assert(sigs.drop_last().take(i) =~= sigs.take(i));
        }
    } else {
        assert(sigs.take(i) =~= sigs);
    }
}

fn common_types(types_a: &Vec<Type>, types_b: &Vec<Type>) -> (r: Vec<Type>)
    requires
        join_types(types_a@, types_b@) is Some,
    ensures
        r@ == join_types(types_a@, types_b@)->Some_0,
{
    let n = if types_a.len() <= types_b.len() {
        types_a.len()
    } else {
        types_b.len()
    };
    let ghost full = join_types(types_a@, types_b@)->Some_0;
    let mut r: Vec<Type> = Vec::new();
    for k in 0..n
        invariant
            n <= types_a.len(),
            n <= types_b.len(),
            full.len() == n,
            join_types(types_a@, types_b@) == Some(full),
            r@ == full.take(k as int),
    {
        assert(join_type(types_a@[k as int], types_b@[k as int]) is Some);
        let t = match types_a[k].cast_to(&types_b[k]) {
            Some(t) => t,
            None => types_b[k].cast_to(&types_a[k]).unwrap(),
        };
        r.push(t);
        assert(r@ =~= full.take(k + 1));
    }
    assert(full.take(n as int) =~= full);
    r
}

/// The signature that every one of `signatures` can be passed as: position by
/// position, the wider of each two types.
pub fn common_signature(signatures: Vec<Signature>) -> (r: Signature)
    requires
        common_of(signature_views(signatures@)) is Some,
    ensures
        r@ == common_of(signature_views(signatures@))->Some_0,
{
    let ghost views = signature_views(signatures@);
    let mut acc = Signature {
        params: copy_types(&signatures[0].params),
        return_types: copy_types(&signatures[0].return_types),
    };
    assert(views.take(1) =~= seq![views[0]]);
    for i in 1..signatures.len()
        invariant
            views == signature_views(signatures@),
            common_of(views) is Some,
            signatures.len() >= 1,
            common_of(views.take(i as int)) == Some(acc@),
    {
        proof {
            lemma_common_prefix(views, i + 1);
            assert(views.take(i + 1).drop_last() =~= views.take(i as int));
            assert(views.take(i + 1).last() == signatures@[i as int]@);
        }
        let params = common_types(&acc.params, &signatures[i].params);
        let return_types = common_types(&acc.return_types, &signatures[i].return_types);
        acc = Signature { params, return_types };
    }
    assert(views.take(signatures.len() as int) =~= views);
    acc
}

proof fn lemma_join_type_bounds(a: Type, b: Type)
    requires
        join_type(a, b) is Some,
    ensures
        widens(a, join_type(a, b)->Some_0),
        widens(b, join_type(a, b)->Some_0),
{
}

/// Every signature of a list can be passed as their common signature: each
/// of its parameter and result types widens to the type at the same
/// position of the common signature.
pub proof fn lemma_common_signature_bounds(sigs: Seq<(Seq<Type>, Seq<Type>)>, i: int)
    requires
        common_of(sigs) is Some,
        0 <= i < sigs.len(),
    ensures
        forall|k: int| 0 <= k < common_of(sigs)->Some_0.0.len() ==> cast_result(
            #[trigger] sigs[i].0[k],
            common_of(sigs)->Some_0.0[k],
        ) is Some,
        forall|k: int| 0 <= k < common_of(sigs)->Some_0.1.len() ==> cast_result(
            #[trigger] sigs[i].1[k],
            common_of(sigs)->Some_0.1[k],
        ) is Some,
    decreases sigs.len(),
{
    if sigs.len() > 1 {
        let prev = sigs.drop_last();
        let acc = common_of(prev)->Some_0;
        let c = common_of(sigs)->Some_0;
        assert forall|k: int| 0 <= k < c.0.len() implies widens(acc.0[k], c.0[k]) && widens(sigs.last().0[k], c.0[k]) by {
            assert(join_type(acc.0[k], sigs.last().0[k]) is Some);
            lemma_join_type_bounds(acc.0[k], sigs.last().0[k]);
        }
        assert forall|k: int| 0 <= k < c.1.len() implies widens(acc.1[k], c.1[k]) && widens(sigs.last().1[k], c.1[k]) by {
            assert(join_type(acc.1[k], sigs.last().1[k]) is Some);
            lemma_join_type_bounds(acc.1[k], sigs.last().1[k]);
        }
        if i < sigs.len() - 1 {
            lemma_common_signature_bounds(prev, i);
            assert(prev[i] == sigs[i]);
            assert forall|k: int| 0 <= k < c.0.len() implies cast_result(#[trigger] sigs[i].0[k], c.0[k]) is Some by {
                assert(cast_result(prev[i].0[k], acc.0[k]) is Some);
                crate::ir::lemma_widens_transitive(sigs[i].0[k], acc.0[k], c.0[k]);
            }
            assert forall|k: int| 0 <= k < c.1.len() implies cast_result(#[trigger] sigs[i].1[k], c.1[k]) is Some by {
                assert(cast_result(prev[i].1[k], acc.1[k]) is Some);
                crate::ir::lemma_widens_transitive(sigs[i].1[k], acc.1[k], c.1[k]);
            }
        }
    }
}


/// The numeric constant that stands for a function once it is used as a
/// value: its identifier.
pub fn function_id_to_field(function_id: FunctionId) -> (r: u128)
    ensures
        r == function_id as u128,
{
    function_id as u128
}

/// Values of `dfg` that refer to a function refer to one below `n`.
pub open spec fn function_refs_below(dfg: DataFlowGraph, n: int) -> bool {
    forall|v: int| 0 <= v < dfg.values.len() && (#[trigger] dfg.values@[v]) is Function ==> dfg.values@[v]->Function_0 < n
}

pub open spec fn is_return_of(t: Option<Terminator>, vals: Seq<ValueId>) -> bool {
    t is Some && t->Some_0 is Return && t->Some_0->Return_return_values@ == vals
}

pub open spec fn is_return(t: Option<Terminator>) -> bool {
    t is Some && t->Some_0 is Return
}

/// Adds a block with one parameter for each of `passed_types` that passes
/// them on to `target`, or returns them where there is no target.
fn build_return_block(dfg: &mut DataFlowGraph, passed_types: &Vec<Type>, target: Option<BasicBlockId>) -> (r: BasicBlockId)
    requires
        old(dfg).wf(),
        target is Some ==> target->Some_0 < old(dfg).blocks.len(),
    ensures
        final(dfg).wf(),
        r == old(dfg).blocks.len(),
        final(dfg).blocks@.len() == old(dfg).blocks@.len() + 1,
        forall|c: int| 0 <= c < old(dfg).blocks.len() ==> #[trigger] final(dfg).blocks@[c] == old(dfg).blocks@[c],
        final(dfg).values@.len() >= old(dfg).values@.len(),
        forall|v: int| 0 <= v < old(dfg).values.len() ==> #[trigger] final(dfg).values@[v] == old(dfg).values@[v],
        forall|v: int| old(dfg).values.len() <= v < final(dfg).values.len() ==> (#[trigger] final(dfg).values@[v]) is Param,
        final(dfg).instructions@ == old(dfg).instructions@,
        final(dfg).results@ == old(dfg).results@,
        final(dfg).types_of(final(dfg).blocks@[r as int].parameters@) == passed_types@,
        final(dfg).blocks@[r as int].instructions@.len() == 0,
        target is None ==> is_return_of(final(dfg).blocks@[r as int].terminator, final(dfg).blocks@[r as int].parameters@),
        target is Some ==> final(dfg).blocks@[r as int].terminator == Some(
            Terminator::Jmp { destination: target->Some_0, arguments: final(dfg).blocks@[r as int].terminator->Some_0->Jmp_arguments },
        ),
        target is Some ==> final(dfg).blocks@[r as int].terminator->Some_0->Jmp_arguments@ == final(dfg).blocks@[r as int].parameters@,
{
    let return_block = dfg.insert_block();
    let nv = dfg.values.len();
    let mut params: Vec<ValueId> = Vec::new();
    for k in 0..passed_types.len()
        invariant
            dfg.wf(),
            return_block == old(dfg).blocks.len(),
            nv == old(dfg).values.len(),
            dfg.blocks@.len() == old(dfg).blocks@.len() + 1,
            forall|c: int| 0 <= c < old(dfg).blocks.len() ==> #[trigger] dfg.blocks@[c] == old(dfg).blocks@[c],
            dfg.values@.len() == nv + k,
            forall|v: int| 0 <= v < nv ==> #[trigger] dfg.values@[v] == old(dfg).values@[v],
            forall|j: int| 0 <= j < k ==> #[trigger] dfg.values@[nv + j] == (Value::Param { block: return_block, position: j as usize, typ: passed_types@[j] }),
            dfg.instructions@ == old(dfg).instructions@,
            dfg.results@ == old(dfg).results@,
            dfg.blocks@[return_block as int].parameters@ == params@,
            params@ == Seq::new(k as nat, |j: int| (nv + j) as usize),
            dfg.blocks@[return_block as int].instructions@.len() == 0,
            dfg.blocks@[return_block as int].terminator is None,
            target is Some ==> target->Some_0 < old(dfg).blocks.len(),
    {
        let p = dfg.add_block_parameter(return_block, passed_types[k]);
        params.push(p);
        assert(params@ =~= Seq::new((k + 1) as nat, |j: int| (nv + j) as usize));
    }
    assert(dfg.types_of(params@) =~= passed_types@);
    let arguments = copy_ids(&params);
    assert(ids_below(arguments@, dfg.values.len() as int));
    match target {
        None => dfg.terminate(return_block, Terminator::Return { return_values: arguments }),
        Some(t) => dfg.terminate(return_block, Terminator::Jmp { destination: t, arguments }),
    }
    assert(dfg.types_of(dfg.blocks@[return_block as int].parameters@) =~= passed_types@);
    assert forall|v: int| old(dfg).values.len() <= v < dfg.values.len() implies (#[trigger] dfg.values@[v]) is Param by {
        let j = v - nv;
        assert(dfg.values@[nv + j] == (Value::Param { block: return_block, position: j as usize, typ: passed_types@[j] }));
    }
    return_block
}

/// Every call of `dfg` calls one of `ids`, as a literal function, with the
/// arguments `args`.
pub open spec fn calls_among(dfg: DataFlowGraph, ids: Seq<FunctionId>, args: Seq<ValueId>) -> bool {
    forall|x: int|
        0 <= x < dfg.instructions.len() && (#[trigger] dfg.instructions@[x]) is Call ==> {
            &&& dfg.values@[dfg.instructions@[x]->Call_func as int] is Function
            &&& ids.contains(dfg.values@[dfg.instructions@[x]->Call_func as int]->Function_0)
            &&& dfg.instructions@[x]->Call_arguments@ == args
        }
}

/// Some instruction of `dfg` calls the function `id`.
pub open spec fn calls_function(dfg: DataFlowGraph, id: FunctionId) -> bool {
    exists|x: int|
        0 <= x < dfg.instructions.len() && (#[trigger] dfg.instructions@[x]) is Call && dfg.values@[dfg.instructions@[x]->Call_func as int] == Value::Function(id)
}

/// Some instruction of `dfg` tests whether value `p` equals the field
/// constant `c`.
pub open spec fn compares_with(dfg: DataFlowGraph, p: ValueId, c: u128) -> bool {
    exists|x: int|
        0 <= x < dfg.instructions.len() && (#[trigger] dfg.instructions@[x]) is Binary && dfg.instructions@[x]->Binary_lhs == p
            && dfg.instructions@[x]->Binary_operator == BinaryOp::Eq && dfg.values@[dfg.instructions@[x]->Binary_rhs as int]
            == (Value::NumericConstant { constant: c, typ: Type::Numeric(NumericType::NativeField) })
}

proof fn lemma_compares_kept(a: DataFlowGraph, b: DataFlowGraph, p: ValueId, c: u128)
    requires
        a.wf(),
        compares_with(a, p, c),
        a.values.len() <= b.values.len(),
        forall|v: int| 0 <= v < a.values.len() ==> #[trigger] b.values@[v] == a.values@[v],
        a.instructions.len() <= b.instructions.len(),
        forall|x: int| 0 <= x < a.instructions.len() ==> #[trigger] b.instructions@[x] == a.instructions@[x],
    ensures
        compares_with(b, p, c),
{
    let x = choose|x: int|
        0 <= x < a.instructions.len() && (#[trigger] a.instructions@[x]) is Binary && a.instructions@[x]->Binary_lhs == p
            && a.instructions@[x]->Binary_operator == BinaryOp::Eq && a.values@[a.instructions@[x]->Binary_rhs as int]
            == (Value::NumericConstant { constant: c, typ: Type::Numeric(NumericType::NativeField) });
    assert(b.instructions@[x] == a.instructions@[x]);
    assert(instruction_wf(a.instructions@[x], a.values.len() as int));
}

proof fn lemma_calls_function_kept(a: DataFlowGraph, b: DataFlowGraph, id: FunctionId)
    requires
        a.wf(),
        calls_function(a, id),
        a.values.len() <= b.values.len(),
        forall|v: int| 0 <= v < a.values.len() ==> #[trigger] b.values@[v] == a.values@[v],
        a.instructions.len() <= b.instructions.len(),
        forall|x: int| 0 <= x < a.instructions.len() ==> #[trigger] b.instructions@[x] == a.instructions@[x],
    ensures
        calls_function(b, id),
{
    let x = choose|x: int|
        0 <= x < a.instructions.len() && (#[trigger] a.instructions@[x]) is Call && a.values@[a.instructions@[x]->Call_func as int] == Value::Function(id);
    assert(b.instructions@[x] == a.instructions@[x]);
    assert(instruction_wf(a.instructions@[x], a.values.len() as int));
}

proof fn lemma_calls_kept(a: DataFlowGraph, b: DataFlowGraph, ids: Seq<FunctionId>, args: Seq<ValueId>)
    requires
        a.wf(),
        calls_among(a, ids, args),
        a.values.len() <= b.values.len(),
        forall|v: int| 0 <= v < a.values.len() ==> #[trigger] b.values@[v] == a.values@[v],
        a.instructions.len() <= b.instructions.len(),
        forall|x: int| 0 <= x < a.instructions.len() ==> #[trigger] b.instructions@[x] == a.instructions@[x],
        forall|x: int|
            a.instructions.len() <= x < b.instructions.len() && (#[trigger] b.instructions@[x]) is Call ==> {
                &&& b.values@[b.instructions@[x]->Call_func as int] is Function
                &&& ids.contains(b.values@[b.instructions@[x]->Call_func as int]->Function_0)
                &&& b.instructions@[x]->Call_arguments@ == args
            },
    ensures
        calls_among(b, ids, args),
        forall|id: FunctionId| calls_function(a, id) ==> #[trigger] calls_function(b, id),
{
    assert forall|x: int| 0 <= x < b.instructions.len() && (#[trigger] b.instructions@[x]) is Call implies {
        &&& b.values@[b.instructions@[x]->Call_func as int] is Function
        &&& ids.contains(b.values@[b.instructions@[x]->Call_func as int]->Function_0)
        &&& b.instructions@[x]->Call_arguments@ == args
    } by {
        if x < a.instructions.len() {
            assert(b.instructions@[x] == a.instructions@[x]);
            assert(instruction_wf(a.instructions@[x], a.values.len() as int));
        }
    }
    assert forall|id: FunctionId| calls_function(a, id) implies #[trigger] calls_function(b, id) by {
        let x = choose|x: int|
            0 <= x < a.instructions.len() && (#[trigger] a.instructions@[x]) is Call && a.values@[a.instructions@[x]->Call_func as int] == Value::Function(id);
        assert(b.instructions@[x] == a.instructions@[x]);
        assert(instruction_wf(a.instructions@[x], a.values.len() as int));
    }
}

proof fn lemma_no_dispatch(f: Function, ids: Seq<FunctionId>, args: Seq<ValueId>)
    requires
        calls_among(f.dfg, ids, args),
        f.wf(),
    ensures
        forall|sig: (Seq<Type>, Seq<Type>)| !dispatches_with(f, sig),
{
    assert forall|sig: (Seq<Type>, Seq<Type>)| !dispatches_with(f, sig) by {
        if dispatches_with(f, sig) {
            let (b, k) = choose|b: BasicBlockId, k: int| in_reachable_block(f, b, k) && #[trigger] dispatch_at(f, b, k, sig);
            assert(crate::ir::block_wf(f.dfg.blocks@[b as int], f.dfg.values.len() as int, f.dfg.instructions.len() as int, f.dfg.blocks.len() as int));
            let x = instruction_at(f, b, k);
            assert(f.dfg.instructions@[x as int] is Call);
        }
    }
}

proof fn lemma_refs_kept(a: DataFlowGraph, b: DataFlowGraph, n: int)
    requires
        function_refs_below(a, n),
        a.values.len() <= b.values.len(),
        forall|v: int| 0 <= v < a.values.len() ==> #[trigger] b.values@[v] == a.values@[v],
        forall|v: int| a.values.len() <= v < b.values.len() ==> !((#[trigger] b.values@[v]) is Function) || b.values@[v]->Function_0 < n,
    ensures
        function_refs_below(b, n),
{
    assert forall|v: int| 0 <= v < b.values.len() && (#[trigger] b.values@[v]) is Function implies b.values@[v]->Function_0 < n by {
        if v < a.values.len() {
            assert(b.values@[v] == a.values@[v]);
        }
    }
}

proof fn lemma_first_return(blocks: Seq<BasicBlock>, r: int, i: int)
    requires
        0 <= i <= r < blocks.len(),
        forall|c: int| 0 <= c < r ==> !is_return(#[trigger] blocks[c].terminator),
        is_return(blocks[r].terminator),
    ensures
        crate::ir::return_values_from(blocks, i) == blocks[r].terminator->Some_0->Return_return_values@,
    decreases r - i,
{
    if i < r {
        lemma_first_return(blocks, r, i + 1);
        assert(!is_return(blocks[i].terminator));
    }
}


/// Branch `i` of an apply function dispatching to `ids`, with identifier
/// parameter `p0` and forwarded parameters `args`: test block `tests[i]`
/// compares `p0` with the identifier of `ids[i]` (instruction `cmps[i]`);
/// all but the last branch jump on the result to their call block or to the
/// next test, and the last asserts it and calls in the same block; the call
/// `calls[i]` of `ids[i]` passes `args` and jumps with its results to return
/// block `rets[i]`. The first return block returns its parameters, and each
/// later one passes them on to the one before it.
pub open spec fn branch_laid_out(
    dfg: DataFlowGraph,
    p0: ValueId,
    args: Seq<ValueId>,
    ids: Seq<FunctionId>,
    tests: Seq<BasicBlockId>,
    execs: Seq<BasicBlockId>,
    rets: Seq<BasicBlockId>,
    cmps: Seq<InstructionId>,
    calls: Seq<InstructionId>,
    i: int,
) -> bool {
    let n = ids.len();
    let test = dfg.blocks@[tests[i] as int];
    let exec = dfg.blocks@[execs[i] as int];
    let ret = dfg.blocks@[rets[i] as int];
    let cmp = dfg.instructions@[cmps[i] as int];
    let call = dfg.instructions@[calls[i] as int];
    let cond = dfg.results@[cmps[i] as int]@[0];
    &&& tests[i] < dfg.blocks.len() && execs[i] < dfg.blocks.len() && rets[i] < dfg.blocks.len()
    &&& cmps[i] < dfg.instructions.len() && calls[i] < dfg.instructions.len()
    &&& dfg.results@[cmps[i] as int]@.len() == 1
    &&& cmp is Binary && cmp->Binary_lhs == p0 && cmp->Binary_operator == BinaryOp::Eq
    &&& dfg.values@[cmp->Binary_rhs as int] == (Value::NumericConstant {
        constant: ids[i] as u128,
        typ: Type::Numeric(NumericType::NativeField),
    })
    &&& call is Call && dfg.values@[call->Call_func as int] == Value::Function(ids[i]) && call->Call_arguments@ == args
    &&& exec.terminator is Some && exec.terminator->Some_0 is Jmp
    &&& exec.terminator->Some_0->Jmp_destination == rets[i]
    &&& exec.terminator->Some_0->Jmp_arguments@ == dfg.results@[calls[i] as int]@
    &&& i < n - 1 ==> {
        &&& test.instructions@ == seq![cmps[i]]
        &&& test.terminator == Some(
            Terminator::JmpIf { condition: cond, then_destination: execs[i], else_destination: tests[i + 1] },
        )
        &&& exec.instructions@ == seq![calls[i]]
    }
    &&& i == n - 1 ==> {
        &&& execs[i] == tests[i]
        &&& test.instructions@.len() == 3
        &&& test.instructions@[0] == cmps[i]
        &&& test.instructions@[2] == calls[i]
        &&& dfg.instructions@[test.instructions@[1] as int] == Instruction::Constrain(cond)
    }
    &&& i == 0 ==> is_return_of(ret.terminator, ret.parameters@)
    &&& i > 0 ==> {
        &&& ret.terminator is Some && ret.terminator->Some_0 is Jmp
        &&& ret.terminator->Some_0->Jmp_destination == rets[i - 1]
        &&& ret.terminator->Some_0->Jmp_arguments@ == ret.parameters@
    }
}

/// The body of an apply function over `ids`, laid out as `branch_laid_out`
/// says for each branch, starting in the entry block, with no call besides
/// the `n` calls of the branches.
pub open spec fn layout_with(
    dfg: DataFlowGraph,
    entry: BasicBlockId,
    ids: Seq<FunctionId>,
    tests: Seq<BasicBlockId>,
    execs: Seq<BasicBlockId>,
    rets: Seq<BasicBlockId>,
    cmps: Seq<InstructionId>,
    calls: Seq<InstructionId>,
) -> bool {
    let params = dfg.blocks@[entry as int].parameters@;
    let n = ids.len();
    &&& tests.len() == n && execs.len() == n && rets.len() == n && cmps.len() == n && calls.len() == n
    &&& params.len() >= 1
    &&& tests[0] == entry
    &&& forall|i: int| 0 <= i < n ==> #[trigger] branch_laid_out(dfg, params[0], params.drop_first(), ids, tests, execs, rets, cmps, calls, i)
    &&& forall|i: int, j: int| 0 <= i < j < n ==> calls[i] < calls[j]
    &&& forall|x: int|
        0 <= x < dfg.instructions.len() && (#[trigger] dfg.instructions@[x]) is Call ==> exists|i: int| 0 <= i < n && calls[i] == x
}

/// `f` dispatches on its first parameter to `ids` as an apply function does.
pub open spec fn apply_layout(f: Function, ids: Seq<FunctionId>) -> bool {
    exists|
        tests: Seq<BasicBlockId>,
        execs: Seq<BasicBlockId>,
        rets: Seq<BasicBlockId>,
        cmps: Seq<InstructionId>,
        calls: Seq<InstructionId>,
    | #[trigger] layout_with(f.dfg, f.entry_block, ids, tests, execs, rets, cmps, calls)
}

proof fn lemma_branch_kept(
    a: DataFlowGraph,
    b: DataFlowGraph,
    p0: ValueId,
    args: Seq<ValueId>,
    ids: Seq<FunctionId>,
    tests: Seq<BasicBlockId>,
    execs: Seq<BasicBlockId>,
    rets: Seq<BasicBlockId>,
    cmps: Seq<InstructionId>,
    calls: Seq<InstructionId>,
    i: int,
)
    requires
        a.wf(),
        branch_laid_out(a, p0, args, ids, tests, execs, rets, cmps, calls, i),
        a.values.len() <= b.values.len(),
        forall|v: int| 0 <= v < a.values.len() ==> #[trigger] b.values@[v] == a.values@[v],
        a.instructions.len() <= b.instructions.len(),
        forall|x: int| 0 <= x < a.instructions.len() ==> #[trigger] b.instructions@[x] == a.instructions@[x],
        forall|x: int| 0 <= x < a.results.len() ==> #[trigger] b.results@[x] == a.results@[x],
        a.blocks.len() <= b.blocks.len(),
        b.blocks@[tests[i] as int] == a.blocks@[tests[i] as int],
        b.blocks@[execs[i] as int] == a.blocks@[execs[i] as int],
        b.blocks@[rets[i] as int] == a.blocks@[rets[i] as int],
    ensures
        branch_laid_out(b, p0, args, ids, tests, execs, rets, cmps, calls, i),
{
    assert(instruction_wf(a.instructions@[cmps[i] as int], a.values.len() as int));
    assert(instruction_wf(a.instructions@[calls[i] as int], a.values.len() as int));
    assert(b.results@[cmps[i] as int] == a.results@[cmps[i] as int]);
    assert(b.results@[calls[i] as int] == a.results@[calls[i] as int]);
    if i == ids.len() - 1 {
        let test = a.blocks@[tests[i] as int];
        assert(crate::ir::block_wf(test, a.values.len() as int, a.instructions.len() as int, a.blocks.len() as int));
        assert(b.instructions@[test.instructions@[1] as int] == a.instructions@[test.instructions@[1] as int]);
    }
}


/// Every test block and call block of a laid-out apply function is reachable.
proof fn lemma_layout_reachable(
    f: Function,
    ids: Seq<FunctionId>,
    tests: Seq<BasicBlockId>,
    execs: Seq<BasicBlockId>,
    rets: Seq<BasicBlockId>,
    cmps: Seq<InstructionId>,
    calls: Seq<InstructionId>,
    i: int,
)
    requires
        f.wf(),
        layout_with(f.dfg, f.entry_block, ids, tests, execs, rets, cmps, calls),
        0 <= i < ids.len(),
    ensures
        f.is_reachable(tests[i]),
        f.is_reachable(execs[i]),
    decreases i,
{
    let params = f.dfg.blocks@[f.entry_block as int].parameters@;
    let blocks = f.dfg.blocks@;
    assert(branch_laid_out(f.dfg, params[0], params.drop_first(), ids, tests, execs, rets, cmps, calls, i));
    if i == 0 {
        let p = seq![f.entry_block];
        assert(crate::ir::is_path(blocks, p) && p[0] == f.entry_block && p.last() == tests[0]);
    } else {
        lemma_layout_reachable(f, ids, tests, execs, rets, cmps, calls, i - 1);
        assert(branch_laid_out(f.dfg, params[0], params.drop_first(), ids, tests, execs, rets, cmps, calls, i - 1));
        let p = choose|p: Seq<BasicBlockId>| crate::ir::is_path(blocks, p) && p[0] == f.entry_block && p.last() == tests[i - 1];
        assert(crate::ir::successors_of(blocks[tests[i - 1] as int].terminator) =~= seq![execs[i - 1], tests[i]]);
        assert(crate::ir::successors_of(blocks[p.last() as int].terminator)[1] == tests[i]);
        assert(crate::ir::successors_of(blocks[p.last() as int].terminator).contains(tests[i]));
        crate::ir::lemma_path_extend(blocks, p, tests[i]);
    }
    if i < ids.len() - 1 {
        let p = choose|p: Seq<BasicBlockId>| crate::ir::is_path(blocks, p) && p[0] == f.entry_block && p.last() == tests[i];
        assert(crate::ir::successors_of(blocks[tests[i] as int].terminator) =~= seq![execs[i], tests[i + 1]]);
        assert(crate::ir::successors_of(blocks[p.last() as int].terminator)[0] == execs[i]);
        assert(crate::ir::successors_of(blocks[p.last() as int].terminator).contains(execs[i]));
        crate::ir::lemma_path_extend(blocks, p, execs[i]);
    }
}

/// The signature of an apply function: the dispatch identifier first, then
/// the parameters of `sig`; the results of `sig`.
pub open spec fn apply_signature(sig: (Seq<Type>, Seq<Type>)) -> (Seq<Type>, Seq<Type>) {
    (seq![Type::Numeric(NumericType::NativeField)] + sig.0, sig.1)
}

/// Adds to the program a function that compares its first parameter with
/// the identifier of each of `function_ids` in turn, calls the first that
/// matches with the remaining parameters, and returns what it returns; the
/// last comparison is asserted instead of tested.
pub fn create_apply_function(ssa: &mut Ssa, signature: Signature, function_ids: &Vec<FunctionId>) -> (r: FunctionId)
    requires
        old(ssa).wf(),
        function_ids.len() >= 1,
        forall|k: int| 0 <= k < function_ids.len() ==> #[trigger] function_ids@[k] < old(ssa).functions.len(),
    ensures
        final(ssa).wf(),
        r == old(ssa).functions.len(),
        final(ssa).functions@.len() == old(ssa).functions@.len() + 1,
        forall|i: int| 0 <= i < old(ssa).functions.len() ==> #[trigger] final(ssa).functions@[i] == old(ssa).functions@[i],
        final(ssa).main_id == old(ssa).main_id,
        final(ssa).functions@[r as int].runtime == RuntimeType::Acir,
        final(ssa).functions@[r as int].name@ == "apply"@,
        apply_layout(final(ssa).functions@[r as int], function_ids@),
        signature_of(final(ssa).functions@[r as int]) == apply_signature(signature@),
        forall|sig: (Seq<Type>, Seq<Type>)| !dispatches_with(final(ssa).functions@[r as int], sig),
        calls_among(
            final(ssa).functions@[r as int].dfg,
            function_ids@,
            final(ssa).functions@[r as int].dfg.blocks@[final(ssa).functions@[r as int].entry_block as int].parameters@.drop_first(),
        ),
        forall|k: int| 0 <= k < function_ids.len() ==> #[trigger] calls_function(final(ssa).functions@[r as int].dfg, function_ids@[k]),
        forall|k: int|
            0 <= k < function_ids.len() ==> #[trigger] compares_with(
                final(ssa).functions@[r as int].dfg,
                final(ssa).functions@[r as int].dfg.blocks@[final(ssa).functions@[r as int].entry_block as int].parameters@[0],
                function_ids@[k] as u128,
            ),
{
    let n = ssa.functions.len();
    let mut dfg = DataFlowGraph::new();
    let entry = dfg.insert_block();
    let target_id = dfg.add_block_parameter(entry, Type::field());
    let mut params_ids: Vec<ValueId> = Vec::new();
    for k in 0..signature.params.len()
        invariant
            dfg.wf(),
            entry == 0,
            dfg.blocks@.len() == 1,
            dfg.values@.len() == 1 + k,
            dfg.values@[0] == (Value::Param { block: 0, position: 0, typ: Type::Numeric(NumericType::NativeField) }),
            forall|j: int| 0 <= j < k ==> #[trigger] dfg.values@[1 + j] == (Value::Param { block: 0, position: (1 + j) as usize, typ: signature.params@[j] }),
            params_ids@ == Seq::new(k as nat, |j: int| (1 + j) as usize),
            dfg.blocks@[0].parameters@ == seq![target_id] + params_ids@,
            target_id == 0,
            dfg.blocks@[0].instructions@.len() == 0,
            dfg.blocks@[0].terminator is None,
            dfg.instructions@.len() == 0,
    {
        let p = dfg.add_block_parameter(entry, signature.params[k]);
        params_ids.push(p);
        assert(params_ids@ =~= Seq::new((k + 1) as nat, |j: int| (1 + j) as usize));
        assert(dfg.blocks@[0].parameters@ =~= seq![target_id] + params_ids@);
    }
    let ghost entry_params = dfg.blocks@[0].parameters@;
    let ghost nv0 = dfg.values.len();
    let ghost entry_values = dfg.values@;
    assert(dfg.types_of(entry_params) =~= apply_signature(signature@).0);
    assert forall|v: int| 0 <= v < dfg.values.len() && (#[trigger] dfg.values@[v]) is Function implies dfg.values@[v]->Function_0 < n by {
        if v > 0 {
            let j = v - 1;
            assert(dfg.values@[1 + j] == (Value::Param { block: 0, position: (1 + j) as usize, typ: signature.params@[j] }));
        }
    }
    assert(ids_below(entry_params, nv0 as int));
    assert(params_ids@ =~= entry_params.drop_first());
    let mut current = entry;
    let mut previous_target_block: Option<BasicBlockId> = None;
    let ghost mut first_return: int = 0;
    let ghost mut tests: Seq<BasicBlockId> = seq![entry];
    let ghost mut execs: Seq<BasicBlockId> = Seq::empty();
    let ghost mut rets: Seq<BasicBlockId> = Seq::empty();
    let ghost mut cmps: Seq<InstructionId> = Seq::empty();
    let ghost mut calls: Seq<InstructionId> = Seq::empty();
    for index in 0..function_ids.len()
        invariant
            execs.len() == index && rets.len() == index && cmps.len() == index && calls.len() == index,
            tests.len() == (if index < function_ids.len() { index + 1 } else { function_ids.len() as int }),
            tests[0] == 0,
            entry == 0,
            index < function_ids.len() ==> current == tests[index as int],
            index < function_ids.len() ==> dfg.blocks@[current as int].instructions@.len() == 0,
            index < function_ids.len() ==> dfg.blocks@[current as int].terminator is None,
            forall|i: int|
                0 <= i < index ==> #[trigger] branch_laid_out(dfg, target_id, entry_params.drop_first(), function_ids@, tests, execs, rets, cmps, calls, i),
            index < function_ids.len() ==> forall|i: int|
                0 <= i < index ==> #[trigger] tests[i] != current && execs[i] != current && rets[i] != current,
            forall|i: int, j: int| 0 <= i < j < index ==> calls[i] < calls[j],
            forall|x: int|
                0 <= x < dfg.instructions.len() && (#[trigger] dfg.instructions@[x]) is Call ==> exists|i: int| 0 <= i < index && calls[i] == x,
            index > 0 ==> previous_target_block == Some(rets[index - 1]),
            index > 0 ==> first_return == rets[0],
            dfg.wf(),
            forall|k: int| 0 <= k < function_ids.len() ==> #[trigger] function_ids@[k] < n,
            dfg.blocks@.len() >= 1,
            current < dfg.blocks.len(),
            dfg.blocks@[0].parameters@ == entry_params,
            nv0 <= dfg.values.len(),
            forall|v: int| 0 <= v < nv0 ==> #[trigger] dfg.values@[v] == entry_values[v],
            ids_below(entry_params, nv0 as int),
            entry_params.len() >= 1,
            dfg.types_of(entry_params) == apply_signature(signature@).0,
            params_ids@ == entry_params.drop_first(),
            target_id == entry_params[0],
            function_refs_below(dfg, n as int),
            calls_among(dfg, function_ids@, entry_params.drop_first()),
            forall|k: int| 0 <= k < index ==> #[trigger] calls_function(dfg, function_ids@[k]),
            forall|k: int| 0 <= k < index ==> #[trigger] compares_with(dfg, target_id, function_ids@[k] as u128),
            index == 0 <==> previous_target_block is None,
            index > 0 ==> previous_target_block is Some && previous_target_block->Some_0 < dfg.blocks.len(),
            index > 0 ==> 0 < first_return < dfg.blocks.len(),
            index > 0 ==> current != first_return,
            index > 0 ==> is_return_of(dfg.blocks@[first_return].terminator, dfg.blocks@[first_return].parameters@),
            index > 0 ==> dfg.types_of(dfg.blocks@[first_return].parameters@) == signature.return_types@,
            forall|c: int| 0 <= c < dfg.blocks.len() && (index == 0 || c != first_return) ==> !is_return(#[trigger] dfg.blocks@[c].terminator),
    {
        let ghost d_start = dfg;
        let ghost cur0 = current;
        let is_last = index == function_ids.len() - 1;
        let mut next_function_block: Option<BasicBlockId> = None;
        let ghost d0 = dfg;
        let function_id_constant = dfg.make_constant(function_id_to_field(function_ids[index]), Type::field());
        proof {
            lemma_refs_kept(d0, dfg, n as int);
            lemma_calls_kept(d0, dfg, function_ids@, entry_params.drop_first());
        }
        let ghost d1 = dfg;
        let cond_inst = dfg.insert_instruction(
            current,
            Instruction::Binary { lhs: target_id, operator: BinaryOp::Eq, rhs: function_id_constant },
            &vec![Type::Numeric(NumericType::Unsigned { bit_size: 1 })],
        );
        proof {
            lemma_refs_kept(d1, dfg, n as int);
            lemma_calls_kept(d1, dfg, function_ids@, entry_params.drop_first());
            assert(dfg.instructions@[cond_inst as int] is Binary);
            assert(dfg.values@[function_id_constant as int] == d1.values@[function_id_constant as int]);
            assert(compares_with(dfg, target_id, function_ids@[index as int] as u128));
        }
        let ghost d_cmp = dfg;
        let condition = dfg.results[cond_inst][0];
        if !is_last {
            let next_block = dfg.insert_block();
            let executor_block = dfg.insert_block();
            dfg.terminate(
                current,
                Terminator::JmpIf { condition, then_destination: executor_block, else_destination: next_block },
            );
            current = executor_block;
            next_function_block = Some(next_block);
            assert(dfg.blocks@[cur0 as int].instructions@ =~= seq![cond_inst]);
        } else {
            let ghost d2 = dfg;
            let constrain = dfg.insert_instruction(current, Instruction::Constrain(condition), &Vec::new());
            proof {
                lemma_refs_kept(d2, dfg, n as int);
                lemma_calls_kept(d2, dfg, function_ids@, entry_params.drop_first());
                assert(dfg.blocks@[cur0 as int].instructions@ =~= seq![cond_inst, constrain]);
                assert(dfg.instructions@[constrain as int] == Instruction::Constrain(condition));
            }
        }
        let ghost d_branch = dfg;
        let ghost before_return = dfg;
        let target_block = build_return_block(&mut dfg, &signature.return_types, previous_target_block);
        proof {
            lemma_refs_kept(before_return, dfg, n as int);
            lemma_calls_kept(before_return, dfg, function_ids@, entry_params.drop_first());
            if index == 0 {
                first_return = target_block as int;
            }
        }
        previous_target_block = Some(target_block);
        let ghost d3 = dfg;
        let target_function_value = dfg.import_function(function_ids[index]);
        proof {
            lemma_refs_kept(d3, dfg, n as int);
            lemma_calls_kept(d3, dfg, function_ids@, entry_params.drop_first());
        }
        let ghost d4 = dfg;
        let arguments = copy_ids(&params_ids);
        assert forall|j: int| 0 <= j < arguments@.len() implies #[trigger] arguments@[j] < dfg.values.len() by {
            assert(arguments@[j] == entry_params[j + 1]);
        }
        let call = dfg.insert_instruction(
            current,
            Instruction::Call { func: target_function_value, arguments },
            &signature.return_types,
        );
        proof {
            lemma_refs_kept(d3, dfg, n as int);
            assert(dfg.instructions@[call as int] is Call);
            assert(dfg.values@[target_function_value as int] == Value::Function(function_ids@[index as int]));
            assert(function_ids@.contains(function_ids@[index as int]));
            assert(arguments@ == entry_params.drop_first());
            lemma_calls_kept(d4, dfg, function_ids@, entry_params.drop_first());
            assert(calls_function(dfg, function_ids@[index as int]));
        }
        let ghost d5 = dfg;
        let call_results = copy_ids(&dfg.results[call]);
        assert(ids_below(call_results@, dfg.values.len() as int));
        dfg.terminate(current, Terminator::Jmp { destination: target_block, arguments: call_results });
        let ghost exec_block = current;
        proof {
            lemma_calls_kept(d5, dfg, function_ids@, entry_params.drop_first());
            assert(calls_function(d5, function_ids@[index as int]));
        }
        if let Some(next_block) = next_function_block {
            current = next_block;
        }
        proof {
            let ghost old_tests = tests;
            let ghost old_execs = execs;
            let ghost old_rets = rets;
            let ghost old_cmps = cmps;
            let ghost old_calls = calls;
            if !is_last {
                tests = tests.push(next_function_block->Some_0);
            }
            execs = execs.push(exec_block);
            rets = rets.push(target_block);
            cmps = cmps.push(cond_inst);
            calls = calls.push(call);
            assert forall|c: int| 0 <= c < d_start.blocks.len() && c != cur0 implies #[trigger] dfg.blocks@[c] == d_start.blocks@[c] by {}
            assert forall|i: int| 0 <= i < index implies #[trigger] branch_laid_out(dfg, target_id, entry_params.drop_first(), function_ids@, tests, execs, rets, cmps, calls, i) by {
                assert(branch_laid_out(d_start, target_id, entry_params.drop_first(), function_ids@, old_tests, old_execs, old_rets, old_cmps, old_calls, i));
                assert(tests[i] == old_tests[i] && execs[i] == old_execs[i] && rets[i] == old_rets[i] && cmps[i] == old_cmps[i] && calls[i] == old_calls[i]);
                if i < function_ids.len() - 1 {
                    assert(tests[i + 1] == old_tests[i + 1]);
                }
                assert(i > 0 ==> rets[i - 1] == old_rets[i - 1]);
                assert(branch_laid_out(d_start, target_id, entry_params.drop_first(), function_ids@, tests, execs, rets, cmps, calls, i));
                lemma_branch_kept(d_start, dfg, target_id, entry_params.drop_first(), function_ids@, tests, execs, rets, cmps, calls, i);
            }
            assert(dfg.instructions@[cond_inst as int] == d_cmp.instructions@[cond_inst as int]);
            assert(dfg.results@[cond_inst as int] == d_cmp.results@[cond_inst as int]);
            assert(d_cmp.results@[cond_inst as int]@.len() == 1);
            assert(dfg.values@[function_id_constant as int] == d1.values@[function_id_constant as int]);
            assert(dfg.instructions@[call as int] == d5.instructions@[call as int]);
            assert(dfg.results@[call as int] == d5.results@[call as int]);
            assert(dfg.values@[target_function_value as int] == d4.values@[target_function_value as int]);
            assert(dfg.blocks@[target_block as int] == d3.blocks@[target_block as int]);
            assert(target_block != exec_block);
            if !is_last {
                assert(cur0 != exec_block);
                assert(d3.blocks@[cur0 as int] == d_branch.blocks@[cur0 as int]);
                assert(dfg.blocks@[cur0 as int] == d_branch.blocks@[cur0 as int]);
                assert(d_branch.blocks@[exec_block as int].instructions@.len() == 0);
                assert(d4.blocks@[exec_block as int] == d_branch.blocks@[exec_block as int]);
                assert(dfg.blocks@[exec_block as int].instructions@ =~= seq![call]);
                assert(tests[index + 1] == next_function_block->Some_0);
            } else {
                assert(exec_block == cur0);
                assert(d4.blocks@[cur0 as int] == d_branch.blocks@[cur0 as int]);
                assert(dfg.blocks@[cur0 as int].instructions@ =~= d_branch.blocks@[cur0 as int].instructions@.push(call));
            }
            assert(index > 0 ==> rets[index - 1] == old_rets[index - 1]);
            assert(branch_laid_out(dfg, target_id, entry_params.drop_first(), function_ids@, tests, execs, rets, cmps, calls, index as int));
            assert forall|i: int| 0 <= i < index implies old_calls[i] < d_start.instructions.len() && old_tests[i] < d_start.blocks.len()
                && old_execs[i] < d_start.blocks.len() && old_rets[i] < d_start.blocks.len() by {
                assert(branch_laid_out(d_start, target_id, entry_params.drop_first(), function_ids@, old_tests, old_execs, old_rets, old_cmps, old_calls, i));
            }
            assert forall|x: int|
                0 <= x < dfg.instructions.len() && (#[trigger] dfg.instructions@[x]) is Call implies exists|i: int| 0 <= i < index + 1 && calls[i] == x by {
                if x < d_start.instructions.len() {
                    assert(dfg.instructions@[x] == d_start.instructions@[x]);
                    let i = choose|i: int| 0 <= i < index && old_calls[i] == x;
                    assert(calls[i] == x);
                } else {
                    assert(x == call);
                    assert(calls[index as int] == x);
                }
            }
        }
        proof {
            assert forall|k: int| 0 <= k < index + 1 implies #[trigger] compares_with(dfg, target_id, function_ids@[k] as u128) by {
                if k < index {
                    assert(compares_with(d_start, target_id, function_ids@[k] as u128));
                    lemma_compares_kept(d_start, dfg, target_id, function_ids@[k] as u128);
                } else {
                    lemma_compares_kept(d_cmp, dfg, target_id, function_ids@[k] as u128);
                }
            }
            assert forall|k: int| 0 <= k < index + 1 implies #[trigger] calls_function(dfg, function_ids@[k]) by {
                if k < index {
                    assert(calls_function(d_start, function_ids@[k]));
                    lemma_calls_function_kept(d_start, dfg, function_ids@[k]);
                }
            }
        }
    }
    proof {
        lemma_first_return(dfg.blocks@, first_return, 0);
    }
    let function = Function {
        name: "apply".to_string(),
        id: n,
        entry_block: entry,
        runtime: RuntimeType::Acir,
        dfg,
    };
    let ghost f = function;
    assert(f.wf());
    assert(function_refs_below(f.dfg, n as int));
    assert(f.dfg.blocks@[0].parameters@[0] == target_id);
    assert(layout_with(f.dfg, f.entry_block, function_ids@, tests, execs, rets, cmps, calls));
    assert(apply_layout(f, function_ids@));
    proof {
        lemma_no_dispatch(f, function_ids@, entry_params.drop_first());
    }
    ssa.functions.push(function);
    assert(ssa.functions@[n as int] == f);
    assert forall|i: int, v: int|
        0 <= i < ssa.functions.len() && 0 <= v < ssa.functions@[i].dfg.values.len() && (
        #[trigger] ssa.functions@[i].dfg.values@[v]) is Function implies ssa.functions@[i].dfg.values@[v]->Function_0 < ssa.functions.len() by {
        if i < n {
            assert(old(ssa).functions@[i] == ssa.functions@[i]);
            assert(old(ssa).functions@[i].dfg.values@[v] is Function);
            assert(old(ssa).functions@[i].dfg.values@[v]->Function_0 < n);
        } else {
            assert(ssa.functions@[i].dfg == f.dfg);
            assert(f.dfg.values@[v] is Function);
        }
    }
    n
}


/// The function that a dynamic call of some signature is redirected to.
#[derive(Debug, Clone, Copy)]
pub struct ApplyFunction {
    pub id: FunctionId,
    pub dispatches_to_multiple_functions: bool,
}

#[derive(Debug)]
pub struct ApplyEntry {
    pub signature: CallSignature,
    pub apply: ApplyFunction,
}

proof fn lemma_common_of_equal(sigs: Seq<(Seq<Type>, Seq<Type>)>, s: (Seq<Type>, Seq<Type>))
    requires
        sigs.len() >= 1,
        forall|i: int| 0 <= i < sigs.len() ==> #[trigger] sigs[i] == s,
    ensures
        common_of(sigs) == Some(s),
    decreases sigs.len(),
{
    if sigs.len() > 1 {
        lemma_common_of_equal(sigs.drop_last(), s);
        assert(sigs.last() == s);
        assert(forall|k: int| 0 <= k < s.0.len() ==> #[trigger] join_type(s.0[k], s.0[k]) == Some(s.0[k]));
        assert(forall|k: int| 0 <= k < s.1.len() ==> #[trigger] join_type(s.1[k], s.1[k]) == Some(s.1[k]));
        assert(join_types(s.0, s.0)->Some_0 =~= s.0);
        assert(join_types(s.1, s.1)->Some_0 =~= s.1);
    }
}

/// Every variant has a callee below `n`, and each callee's signature can
/// serve the variant's calls.
pub open spec fn variants_servable(ssa: Ssa, vs: Seq<Variant>) -> bool {
    &&& forall|i: int| 0 <= i < vs.len() ==> (#[trigger] vs[i]).callees@.len() >= 1
    &&& forall|i: int, k: int|
        0 <= i < vs.len() && 0 <= k < vs[i].callees@.len() ==> #[trigger] vs[i].callees@[k] < ssa.functions.len()
            && spec_can_call(vs[i].signature@, signature_of(ssa.functions@[vs[i].callees@[k] as int]))
}

/// `e` serves the variant `v`: a single callee directly, several through an
/// apply function of `ssa` created at or after `n`.
pub open spec fn apply_entry_for(ssa: Ssa, n: int, v: Variant, e: ApplyEntry) -> bool {
    &&& e.signature@ == v.signature@
    &&& e.apply.dispatches_to_multiple_functions == (v.callees@.len() > 1)
    &&& v.callees@.len() == 1 ==> e.apply.id == v.callees@[0]
    &&& v.callees@.len() > 1 ==> {
        let f = ssa.functions@[e.apply.id as int];
        &&& n <= e.apply.id < ssa.functions.len()
        &&& f.runtime == RuntimeType::Acir
        &&& f.name@ == "apply"@
        &&& apply_layout(f, v.callees@)
        &&& signature_of(f) == apply_signature(v.signature@)
        &&& calls_among(f.dfg, v.callees@, f.dfg.blocks@[f.entry_block as int].parameters@.drop_first())
        &&& forall|k: int| 0 <= k < v.callees@.len() ==> #[trigger] calls_function(f.dfg, v.callees@[k])
        &&& forall|k: int|
            0 <= k < v.callees@.len() ==> #[trigger] compares_with(
                f.dfg,
                f.dfg.blocks@[f.entry_block as int].parameters@[0],
                v.callees@[k] as u128,
            )
    }
}

/// Function `f` is the apply function of one of the first `upto` entries,
/// whose variant has more than one callee.
pub open spec fn created_by(vs: Seq<Variant>, es: Seq<ApplyEntry>, upto: int, f: int) -> bool {
    exists|j: int| 0 <= j < upto && vs[j].callees@.len() > 1 && es[j].apply.id == f
}

/// The number of variants with more than one callee.
pub open spec fn multi_count(vs: Seq<Variant>) -> nat
    decreases vs.len(),
{
    if vs.len() == 0 {
        0
    } else {
        multi_count(vs.drop_last()) + if vs.last().callees@.len() > 1 {
            1nat
        } else {
            0nat
        }
    }
}

/// One apply entry for each variant, in the same order.
pub fn create_apply_functions(ssa: &mut Ssa, variants_map: &Vec<Variant>) -> (r: Vec<ApplyEntry>)
    requires
        old(ssa).wf(),
        variants_servable(*old(ssa), variants_map@),
    ensures
        final(ssa).wf(),
        final(ssa).functions@.len() >= old(ssa).functions@.len(),
        forall|i: int| 0 <= i < old(ssa).functions.len() ==> #[trigger] final(ssa).functions@[i] == old(ssa).functions@[i],
        final(ssa).main_id == old(ssa).main_id,
        r@.len() == variants_map@.len(),
        forall|i: int| 0 <= i < r@.len() ==> apply_entry_for(*final(ssa), old(ssa).functions.len() as int, variants_map@[i], #[trigger] r@[i]),
        forall|f: int, sig: (Seq<Type>, Seq<Type>)|
            old(ssa).functions.len() <= f < final(ssa).functions.len() ==> !#[trigger] dispatches_with(final(ssa).functions@[f], sig),
        variants_map@.len() == 0 ==> final(ssa).functions@ == old(ssa).functions@,
        final(ssa).functions.len() == old(ssa).functions.len() + multi_count(variants_map@),
        forall|i: int, j: int|
            0 <= i < j < r@.len() && #[trigger] variants_map@[i].callees@.len() > 1 && #[trigger] variants_map@[j].callees@.len() > 1
                ==> r@[i].apply.id != r@[j].apply.id,
        forall|f: int|
            old(ssa).functions.len() <= f < final(ssa).functions.len() ==> #[trigger] created_by(variants_map@, r@, r@.len() as int, f),
{
    let n = ssa.functions.len();
    let mut apply_functions: Vec<ApplyEntry> = Vec::new();
    for i in 0..variants_map.len()
        invariant
            ssa.wf(),
            variants_servable(*old(ssa), variants_map@),
            n == old(ssa).functions.len(),
            ssa.functions@.len() >= n,
            forall|f: int| 0 <= f < n ==> #[trigger] ssa.functions@[f] == old(ssa).functions@[f],
            ssa.main_id == old(ssa).main_id,
            apply_functions@.len() == i,
            forall|j: int| 0 <= j < i ==> apply_entry_for(*ssa, n as int, variants_map@[j], #[trigger] apply_functions@[j]),
            forall|f: int, sig: (Seq<Type>, Seq<Type>)| n <= f < ssa.functions.len() ==> !#[trigger] dispatches_with(ssa.functions@[f], sig),
            i == 0 ==> ssa.functions@ == old(ssa).functions@,
            ssa.functions.len() == n + multi_count(variants_map@.take(i as int)),
            forall|a: int, b: int|
                0 <= a < b < i && #[trigger] variants_map@[a].callees@.len() > 1 && #[trigger] variants_map@[b].callees@.len() > 1
                    ==> apply_functions@[a].apply.id != apply_functions@[b].apply.id,
            forall|f: int| n <= f < ssa.functions.len() ==> #[trigger] created_by(variants_map@, apply_functions@, apply_functions@.len() as int, f),
    {
        proof {
            assert(variants_map@.take(i + 1).drop_last() =~= variants_map@.take(i as int));
        }
        let variant = &variants_map[i];
        let variants = &variant.callees;
        let dispatches_to_multiple_functions = variants.len() > 1;
        let mut target_signatures: Vec<Signature> = Vec::new();
        for k in 0..variants.len()
            invariant
                ssa.wf(),
                variants_servable(*old(ssa), variants_map@),
                n == old(ssa).functions.len(),
                ssa.functions@.len() >= n,
                forall|f: int| 0 <= f < n ==> #[trigger] ssa.functions@[f] == old(ssa).functions@[f],
                variant == &variants_map@[i as int],
                variants == &variant.callees,
                i < variants_map.len(),
                target_signatures@.len() == k,
                forall|j: int| 0 <= j < k ==> #[trigger] target_signatures@[j]@ == signature_of(ssa.functions@[variants@[j] as int]),
        {
            assert(variants_map@[i as int].callees@[k as int] < n);
            assert(ssa.functions@[variants@[k as int] as int].wf());
            target_signatures.push(Signature::of(&ssa.functions[variants[k]]));
        }
        proof {
            let views = signature_views(target_signatures@);
            assert forall|j: int| 0 <= j < views.len() implies #[trigger] views[j] == variant.signature@ by {
                let t = signature_of(old(ssa).functions@[variants@[j] as int]);
                assert(variants_map@[i as int].callees@[j] < n);
                assert(spec_can_call(variant.signature@, t));
                assert(t.0 =~= variant.signature@.0);
                assert(t.1 =~= variant.signature@.1);
            }
            lemma_common_of_equal(views, variant.signature@);
        }
        let function_signature = common_signature(target_signatures);
        let id = if dispatches_to_multiple_functions {
            let ghost before = *ssa;
            assert forall|k: int| 0 <= k < variants.len() implies #[trigger] variants@[k] < ssa.functions.len() by {
                assert(variants_map@[i as int].callees@[k] < n);
            }
            let id = create_apply_function(ssa, function_signature, variants);
            assert forall|j: int| 0 <= j < i implies apply_entry_for(*ssa, n as int, variants_map@[j], #[trigger] apply_functions@[j]) by {
                assert(apply_entry_for(before, n as int, variants_map@[j], apply_functions@[j]));
                if variants_map@[j].callees@.len() > 1 {
                    assert(ssa.functions@[apply_functions@[j].apply.id as int] == before.functions@[apply_functions@[j].apply.id as int]);
                }
            }
            assert forall|f: int, sig: (Seq<Type>, Seq<Type>)| n <= f < ssa.functions.len() implies !#[trigger] dispatches_with(ssa.functions@[f], sig) by {
                if f < before.functions.len() {
                    assert(ssa.functions@[f] == before.functions@[f]);
                }
            }
            id
        } else {
            assert(variants_map@[i as int].callees@.len() >= 1);
            variants[0]
        };
        let ghost prev_entries = apply_functions@;
        apply_functions.push(ApplyEntry {
            signature: variant.signature.duplicate(),
            apply: ApplyFunction { id, dispatches_to_multiple_functions },
        });
        proof {
            assert(apply_functions@[i as int].apply.id == id);
            assert forall|j: int| 0 <= j < i implies apply_functions@[j] == prev_entries[j] by {}
            assert forall|a: int, b: int|
                0 <= a < b < i + 1 && #[trigger] variants_map@[a].callees@.len() > 1 && #[trigger] variants_map@[b].callees@.len() > 1
                    implies apply_functions@[a].apply.id != apply_functions@[b].apply.id by {
                if b == i {
                    assert(apply_entry_for(*ssa, n as int, variants_map@[a], apply_functions@[a]));
                }
            }
            assert forall|f: int| n <= f < ssa.functions.len() implies #[trigger] created_by(variants_map@, apply_functions@, apply_functions@.len() as int, f) by {
                if dispatches_to_multiple_functions && f == ssa.functions.len() - 1 {
                    assert(apply_functions@[i as int].apply.id == f);
                } else {
                    assert(created_by(variants_map@, prev_entries, prev_entries.len() as int, f));
                    let j = choose|j: int| 0 <= j < i && variants_map@[j].callees@.len() > 1 && prev_entries[j].apply.id == f;
                    assert(apply_functions@[j].apply.id == f);
                }
            }
        }
    }
    assert(variants_map@.take(variants_map.len() as int) =~= variants_map@);
    apply_functions
}


pub open spec fn has_entry(entries: Seq<ApplyEntry>, sig: (Seq<Type>, Seq<Type>)) -> bool {
    exists|i: int| 0 <= i < entries.len() && #[trigger] entries[i].signature@ == sig
}

/// The apply function recorded for `sig`.
pub open spec fn lookup_apply(entries: Seq<ApplyEntry>, sig: (Seq<Type>, Seq<Type>)) -> ApplyFunction {
    entries[choose|i: int| 0 <= i < entries.len() && #[trigger] entries[i].signature@ == sig].apply
}

/// Instruction `x` of `new` is instruction `x` of `old`, unless that was a
/// dynamic call: then it calls the apply function for its signature, with
/// the call's own target first when that function dispatches to several.
pub open spec fn rewritten_call(entries: Seq<ApplyEntry>, old: DataFlowGraph, new: DataFlowGraph, x: InstructionId) -> bool {
    match dynamic_call_signature(old, x) {
        None => new.instructions@[x as int] == old.instructions@[x as int],
        Some(sig) => {
            let e = lookup_apply(entries, sig);
            let t = old.instructions@[x as int]->Call_func;
            let a = old.instructions@[x as int]->Call_arguments@;
            &&& new.instructions@[x as int] is Call
            &&& new.values@[new.instructions@[x as int]->Call_func as int] == Value::Function(e.id)
            &&& new.instructions@[x as int]->Call_arguments@ == (if e.dispatches_to_multiple_functions {
                seq![t] + a
            } else {
                a
            })
        },
    }
}

/// Instruction `x` is a call whose target is `t`, a literal function.
pub open spec fn static_target(dfg: DataFlowGraph, x: InstructionId, t: ValueId) -> bool {
    &&& dfg.instructions@[x as int] is Call
    &&& dfg.instructions@[x as int]->Call_func == t
    &&& dfg.values@[t as int] is Function
}

/// `new` keeps the values of `old` and adds only references to functions.
pub open spec fn values_extended(old: DataFlowGraph, new: DataFlowGraph) -> bool {
    &&& old.values.len() <= new.values.len()
    &&& forall|v: int| 0 <= v < old.values.len() ==> #[trigger] new.values@[v] == old.values@[v]
    &&& forall|v: int| old.values.len() <= v < new.values.len() ==> (#[trigger] new.values@[v]) is Function
}

/// Performs defunctionalization on all functions: functions used as values
/// become numbers, and dynamic calls go through apply functions.
#[derive(Debug)]
pub struct DefunctionalizationContext {
    pub fn_to_runtime: Vec<RuntimeType>,
    pub apply_functions: Vec<ApplyEntry>,
}

impl DefunctionalizationContext {
    /// No two entries share a signature.
    pub open spec fn wf(&self) -> bool {
        forall|i: int, j: int|
            0 <= i < j < self.apply_functions.len() ==> self.apply_functions@[i].signature@ != self.apply_functions@[j].signature@
    }

    /// Returns the apply function for the given signature.
    pub fn get_apply_function(&self, signature: &CallSignature) -> (r: ApplyFunction)
        requires
            self.wf(),
            has_entry(self.apply_functions@, signature@),
        ensures
            r == lookup_apply(self.apply_functions@, signature@),
    {
        let entries = &self.apply_functions;
        for i in 0..entries.len()
            invariant
                self.wf(),
                entries == &self.apply_functions,
                has_entry(entries@, signature@),
                forall|j: int| 0 <= j < i ==> entries@[j].signature@ != signature@,
        {
            if entries[i].signature.same_as(signature) {
                let ghost c = choose|j: int| 0 <= j < entries.len() && #[trigger] entries@[j].signature@ == signature@;
                assert(c == i);
                return entries[i].apply;
            }
        }
        let ghost c = choose|j: int| 0 <= j < entries.len() && #[trigger] entries@[j].signature@ == signature@;
        assert(false);
        entries[0].apply
    }

    fn rewrite_instruction(&self, func: &mut Function, x: InstructionId, call_target_values: &mut Vec<ValueId>)
        requires
            self.wf(),
            old(func).wf(),
            x < old(func).dfg.instructions.len(),
            dynamic_call_signature(old(func).dfg, x) is Some ==> has_entry(
                self.apply_functions@,
                dynamic_call_signature(old(func).dfg, x)->Some_0,
            ),
        ensures
            final(func).wf(),
            final(func).dfg.blocks@ == old(func).dfg.blocks@,
            final(func).dfg.results@ == old(func).dfg.results@,
            final(func).entry_block == old(func).entry_block,
            final(func).runtime == old(func).runtime,
            final(func).id == old(func).id,
            final(func).name == old(func).name,
            values_extended(old(func).dfg, final(func).dfg),
            final(func).dfg.instructions@.len() == old(func).dfg.instructions@.len(),
            forall|y: int| 0 <= y < old(func).dfg.instructions.len() && y != x ==> #[trigger] final(func).dfg.instructions@[y] == old(func).dfg.instructions@[y],
            rewritten_call(self.apply_functions@, old(func).dfg, final(func).dfg, x),
            forall|t: ValueId| #[trigger] final(call_target_values)@.contains(t) <==> old(call_target_values)@.contains(t) || static_target(final(func).dfg, x, t),
            forall|v: int| old(func).dfg.values.len() <= v < final(func).dfg.values.len() ==> #[trigger] static_target(final(func).dfg, x, v as ValueId),
    {
        assert(instruction_wf(func.dfg.instructions@[x as int], func.dfg.values.len() as int));
        assert(ids_below(func.dfg.results@[x as int]@, func.dfg.values.len() as int));
        let (target, arguments) = match &func.dfg.instructions[x] {
            Instruction::Call { func: target, arguments } => (*target, copy_ids(arguments)),
            _ => {
                return;
            },
        };
        match func.dfg.values[target] {
            Value::Param { .. } | Value::Instruction { .. } => {
                let signature = CallSignature::from_call_params(func, &arguments, &func.dfg.results[x]);
                let apply_function = self.get_apply_function(&signature);
                let mut new_arguments: Vec<ValueId> = Vec::new();
                if apply_function.dispatches_to_multiple_functions {
                    new_arguments.push(target);
                }
                let ghost prefix = new_arguments@;
                for k in 0..arguments.len()
                    invariant
                        new_arguments@ == prefix + arguments@.take(k as int),
                {
                    new_arguments.push(arguments[k]);
                    assert(new_arguments@ =~= prefix + arguments@.take(k + 1));
                }
                assert(arguments@.take(arguments.len() as int) =~= arguments@);
                let apply_function_value_id = func.dfg.import_function(apply_function.id);
                assert(ids_below(new_arguments@, func.dfg.values.len() as int));
                proof {
                    lemma_push_contains(call_target_values@, apply_function_value_id);
                }
                call_target_values.push(apply_function_value_id);
                func.dfg.replace_instruction(
                    x,
                    Instruction::Call { func: apply_function_value_id, arguments: new_arguments },
                );
                assert(func.dfg.instructions@[x as int]->Call_arguments@ =~= (if apply_function.dispatches_to_multiple_functions {
                    seq![target] + arguments@
                } else {
                    arguments@
                }));
            },
            Value::Function(..) => {
                proof {
                    lemma_push_contains(call_target_values@, target);
                }
                call_target_values.push(target);
            },
            _ => {},
        }
    }
}


pub open spec fn in_block(dfg: DataFlowGraph, b: BasicBlockId, y: InstructionId) -> bool {
    exists|k: int| 0 <= k < dfg.blocks@[b as int].instructions.len() && #[trigger] dfg.blocks@[b as int].instructions@[k] == y
}

/// Instruction `y` sits in one of the first `j` blocks of `rb`.
pub open spec fn visited_by(dfg: DataFlowGraph, rb: Seq<BasicBlockId>, j: int, y: InstructionId) -> bool {
    exists|jj: int| 0 <= jj < j && #[trigger] in_block(dfg, rb[jj], y)
}

/// Instruction `y` sits in a reachable block of `f`.
pub open spec fn in_reachable_instruction(f: Function, y: InstructionId) -> bool {
    exists|b: BasicBlockId| b < f.dfg.blocks.len() && f.is_reachable(b) && #[trigger] in_block(f.dfg, b, y)
}

pub open spec fn call_func(inst: Instruction) -> Option<ValueId> {
    match inst {
        Instruction::Call { func, .. } => Some(func),
        _ => None,
    }
}

/// Value `v` is the target of a call in a reachable block of `f`.
pub open spec fn is_call_target(f: Function, v: ValueId) -> bool {
    exists|y: InstructionId|
        #[trigger] in_reachable_instruction(f, y) && call_func(f.dfg.instructions@[y as int]) == Some(v)
}

/// What the pass makes of a value: a function that is not a call target
/// becomes its identifier as a field constant, a parameter or result of
/// function type becomes a field; anything else stays.
pub open spec fn retyped(v: Value, keep: bool) -> Value {
    match v {
        Value::Function(id) => if keep {
            v
        } else {
            Value::NumericConstant { constant: id as u128, typ: Type::Numeric(NumericType::NativeField) }
        },
        Value::Param { block, position, typ } => if typ == Type::Function {
            Value::Param { block, position, typ: Type::Numeric(NumericType::NativeField) }
        } else {
            v
        },
        Value::Instruction { instruction, position, typ } => if typ == Type::Function {
            Value::Instruction { instruction, position, typ: Type::Numeric(NumericType::NativeField) }
        } else {
            v
        },
        _ => v,
    }
}

proof fn lemma_dynamic_sig_kept(a: DataFlowGraph, b: DataFlowGraph, y: InstructionId)
    requires
        a.wf(),
        y < a.instructions.len(),
        values_extended(a, b),
        b.instructions@[y as int] == a.instructions@[y as int],
        b.results@[y as int] == a.results@[y as int],
    ensures
        dynamic_call_signature(b, y) == dynamic_call_signature(a, y),
{
    assert(instruction_wf(a.instructions@[y as int], a.values.len() as int));
    assert(ids_below(a.results@[y as int]@, a.values.len() as int));
    match a.instructions@[y as int] {
        Instruction::Call { func, arguments } => {
            assert(b.types_of(arguments@) =~= a.types_of(arguments@));
            assert(b.types_of(a.results@[y as int]@) =~= a.types_of(a.results@[y as int]@));
        },
        _ => {},
    }
}

proof fn lemma_rewritten_trans(entries: Seq<ApplyEntry>, a: DataFlowGraph, b: DataFlowGraph, c: DataFlowGraph, y: InstructionId)
    requires
        a.wf(),
        b.wf(),
        y < a.instructions.len(),
        a.instructions.len() == b.instructions.len(),
        a.results@ == b.results@,
        values_extended(a, b),
        values_extended(b, c),
        rewritten_call(entries, a, b, y),
        c.instructions@[y as int] == b.instructions@[y as int] || rewritten_call(entries, b, c, y),
    ensures
        rewritten_call(entries, a, c, y),
{
    assert(instruction_wf(b.instructions@[y as int], b.values.len() as int));
    match dynamic_call_signature(a, y) {
        None => {
            lemma_dynamic_sig_kept(a, b, y);
        },
        Some(sig) => {
            let t2 = b.instructions@[y as int]->Call_func;
            assert(b.values@[t2 as int] is Function);
            assert(dynamic_call_signature(b, y) is None);
            assert(c.values@[t2 as int] == b.values@[t2 as int]);
        },
    }
}

proof fn lemma_rewritten_from_same(entries: Seq<ApplyEntry>, a: DataFlowGraph, b: DataFlowGraph, c: DataFlowGraph, y: InstructionId)
    requires
        a.wf(),
        y < a.instructions.len(),
        values_extended(a, b),
        b.instructions@[y as int] == a.instructions@[y as int],
        b.results@ == a.results@,
        rewritten_call(entries, b, c, y),
    ensures
        rewritten_call(entries, a, c, y),
{
    lemma_dynamic_sig_kept(a, b, y);
}

impl DefunctionalizationContext {
    fn rewrite_block(&self, func: &mut Function, b: BasicBlockId, call_target_values: &mut Vec<ValueId>)
        requires
            self.wf(),
            old(func).wf(),
            b < old(func).dfg.blocks.len(),
            forall|y: InstructionId|
                #[trigger] in_block(old(func).dfg, b, y) && dynamic_call_signature(old(func).dfg, y) is Some ==> has_entry(
                    self.apply_functions@,
                    dynamic_call_signature(old(func).dfg, y)->Some_0,
                ),
        ensures
            final(func).wf(),
            final(func).dfg.blocks@ == old(func).dfg.blocks@,
            final(func).dfg.results@ == old(func).dfg.results@,
            final(func).entry_block == old(func).entry_block,
            final(func).runtime == old(func).runtime,
            final(func).id == old(func).id,
            final(func).name == old(func).name,
            values_extended(old(func).dfg, final(func).dfg),
            final(func).dfg.instructions@.len() == old(func).dfg.instructions@.len(),
            forall|y: InstructionId| y < old(func).dfg.instructions.len() && #[trigger] in_block(old(func).dfg, b, y) ==> rewritten_call(self.apply_functions@, old(func).dfg, final(func).dfg, y),
            forall|y: InstructionId| y < old(func).dfg.instructions.len() && !#[trigger] in_block(old(func).dfg, b, y) ==> final(func).dfg.instructions@[y as int] == old(func).dfg.instructions@[y as int],
            forall|t: ValueId| #[trigger] final(call_target_values)@.contains(t) <==> old(call_target_values)@.contains(t) || exists|y: InstructionId| #[trigger] in_block(old(func).dfg, b, y) && static_target(final(func).dfg, y, t),
            forall|v: int| old(func).dfg.values.len() <= v < final(func).dfg.values.len() ==> #[trigger] final(call_target_values)@.contains(v as ValueId),
    {
        let ghost start = func.dfg;
        assert(crate::ir::block_wf(start.blocks@[b as int], start.values.len() as int, start.instructions.len() as int, start.blocks.len() as int));
        let n = func.dfg.blocks[b].instructions.len();
        for k in 0..n
            invariant
                self.wf(),
                func.wf(),
                n == start.blocks@[b as int].instructions.len(),
                b < start.blocks.len(),
                start.wf(),
                ids_below(start.blocks@[b as int].instructions@, start.instructions.len() as int),
                forall|y: InstructionId|
                    #[trigger] in_block(start, b, y) && dynamic_call_signature(start, y) is Some ==> has_entry(
                        self.apply_functions@,
                        dynamic_call_signature(start, y)->Some_0,
                    ),
                start == old(func).dfg,
                func.dfg.blocks@ == start.blocks@,
                func.dfg.results@ == start.results@,
                func.entry_block == old(func).entry_block,
                func.runtime == old(func).runtime,
                func.id == old(func).id,
                func.name == old(func).name,
                values_extended(start, func.dfg),
                func.dfg.instructions@.len() == start.instructions@.len(),
                forall|y: InstructionId| y < start.instructions.len() ==> (#[trigger] func.dfg.instructions@[y as int] == start.instructions@[y as int] || rewritten_call(self.apply_functions@, start, func.dfg, y)),
                forall|y: InstructionId| y < start.instructions.len() && #[trigger] in_block(start, b, y) && func.dfg.instructions@[y as int] != start.instructions@[y as int] ==> dynamic_call_signature(func.dfg, y) is None,
                forall|kk: int| 0 <= kk < k ==> rewritten_call(self.apply_functions@, start, func.dfg, #[trigger] start.blocks@[b as int].instructions@[kk]),
                forall|y: InstructionId| y < start.instructions.len() && !#[trigger] in_block(start, b, y) ==> func.dfg.instructions@[y as int] == start.instructions@[y as int],
                forall|t: ValueId| #[trigger] call_target_values@.contains(t) <==> old(call_target_values)@.contains(t) || exists|kk: int| 0 <= kk < k && #[trigger] static_target(func.dfg, start.blocks@[b as int].instructions@[kk], t),
                forall|v: int| start.values.len() <= v < func.dfg.values.len() ==> #[trigger] call_target_values@.contains(v as ValueId),
        {
            let x = func.dfg.blocks[b].instructions[k];
            let ghost cur = func.dfg;
            assert(in_block(start, b, x));
            proof {
                if func.dfg.instructions@[x as int] == start.instructions@[x as int] {
                    lemma_dynamic_sig_kept(start, cur, x);
                }
            }
            self.rewrite_instruction(func, x, call_target_values);
            proof {
                let next = func.dfg;
                assert forall|y: InstructionId| y < start.instructions.len() implies (#[trigger] next.instructions@[y as int] == start.instructions@[y as int] || rewritten_call(self.apply_functions@, start, next, y)) by {
                    if y == x {
                        if cur.instructions@[y as int] == start.instructions@[y as int] {
                            lemma_rewritten_from_same(self.apply_functions@, start, cur, next, y);
                        } else {
                            lemma_rewritten_trans(self.apply_functions@, start, cur, next, y);
                        }
                    } else if cur.instructions@[y as int] != start.instructions@[y as int] {
                        lemma_rewritten_trans(self.apply_functions@, start, cur, next, y);
                    }
                }
                assert forall|kk: int| 0 <= kk < k + 1 implies rewritten_call(self.apply_functions@, start, next, #[trigger] start.blocks@[b as int].instructions@[kk]) by {
                    let y = start.blocks@[b as int].instructions@[kk];
                    if y == x {
                        if cur.instructions@[y as int] == start.instructions@[y as int] {
                            lemma_rewritten_from_same(self.apply_functions@, start, cur, next, y);
                        } else {
                            lemma_rewritten_trans(self.apply_functions@, start, cur, next, y);
                        }
                    } else {
                        lemma_rewritten_trans(self.apply_functions@, start, cur, next, y);
                    }
                }
                assert forall|y: InstructionId| y < start.instructions.len() && #[trigger] in_block(start, b, y) && next.instructions@[y as int] != start.instructions@[y as int] implies dynamic_call_signature(next, y) is None by {
                    if y == x {
                        if cur.instructions@[y as int] == start.instructions@[y as int] {
                            lemma_rewritten_from_same(self.apply_functions@, start, cur, next, y);
                            assert(instruction_wf(next.instructions@[y as int], next.values.len() as int));
                        } else {
                            assert(instruction_wf(next.instructions@[y as int], next.values.len() as int));
                        }
                    } else {
                        lemma_dynamic_sig_kept(cur, next, y);
                    }
                }
                assert forall|t: ValueId| #[trigger] call_target_values@.contains(t) <==> old(call_target_values)@.contains(t) || exists|kk: int| 0 <= kk < k + 1 && #[trigger] static_target(next, start.blocks@[b as int].instructions@[kk], t) by {
                    assert forall|kk: int| 0 <= kk < k && #[trigger] static_target(cur, start.blocks@[b as int].instructions@[kk], t) implies static_target(next, start.blocks@[b as int].instructions@[kk], t) by {
                        let y = start.blocks@[b as int].instructions@[kk];
                        assert(instruction_wf(cur.instructions@[y as int], cur.values.len() as int));
                        assert(dynamic_call_signature(cur, y) is None);
                    }
                    assert forall|kk: int| 0 <= kk < k && #[trigger] static_target(next, start.blocks@[b as int].instructions@[kk], t) implies static_target(cur, start.blocks@[b as int].instructions@[kk], t) by {
                        let y = start.blocks@[b as int].instructions@[kk];
                        if y == x {
                            assert(instruction_wf(cur.instructions@[y as int], cur.values.len() as int));
                            if cur.instructions@[y as int] != start.instructions@[y as int] {
                                assert(dynamic_call_signature(cur, y) is None);
                            } else {
                                lemma_rewritten_from_same(self.apply_functions@, start, cur, next, y);
                                assert(rewritten_call(self.apply_functions@, start, cur, y));
                                assert(dynamic_call_signature(cur, y) is None);
                            }
                        }
                        assert(instruction_wf(next.instructions@[y as int], next.values.len() as int));
                    }
                    if static_target(next, x, t) {
                        assert(static_target(next, start.blocks@[b as int].instructions@[k as int], t));
                    }
                }
                assert forall|v: int| start.values.len() <= v < next.values.len() implies #[trigger] call_target_values@.contains(v as ValueId) by {
                    if v >= cur.values.len() {
                        assert(static_target(next, x, v as ValueId));
                    }
                }
            }
        }
        proof {
            let fin = func.dfg;
            assert forall|y: InstructionId| y < start.instructions.len() && #[trigger] in_block(start, b, y) implies rewritten_call(self.apply_functions@, start, fin, y) by {
                let kk = choose|kk: int| 0 <= kk < n && #[trigger] start.blocks@[b as int].instructions@[kk] == y;
            }
            assert forall|t: ValueId| #[trigger] call_target_values@.contains(t) <==> old(call_target_values)@.contains(t) || exists|y: InstructionId| #[trigger] in_block(start, b, y) && static_target(fin, y, t) by {
                if exists|y: InstructionId| #[trigger] in_block(start, b, y) && static_target(fin, y, t) {
                    let y = choose|y: InstructionId| #[trigger] in_block(start, b, y) && static_target(fin, y, t);
                    let kk = choose|kk: int| 0 <= kk < n && #[trigger] start.blocks@[b as int].instructions@[kk] == y;
                    assert(static_target(fin, start.blocks@[b as int].instructions@[kk], t));
                }
                if exists|kk: int| 0 <= kk < n && #[trigger] static_target(fin, start.blocks@[b as int].instructions@[kk], t) {
                    let kk = choose|kk: int| 0 <= kk < n && #[trigger] static_target(fin, start.blocks@[b as int].instructions@[kk], t);
                    assert(in_block(start, b, start.blocks@[b as int].instructions@[kk]));
                }
            }
        }
    }
}


/// A numeric constant that claims to be of function type, which the pass
/// leaves alone.
pub open spec fn is_function_typed_constant(v: Value) -> bool {
    v is NumericConstant && v->NumericConstant_typ == Type::Function
}

impl DefunctionalizationContext {
    /// Every dynamic call of `f` has an apply entry.
    pub open spec fn serves(&self, f: Function) -> bool {
        forall|sig: (Seq<Type>, Seq<Type>)| #[trigger] dispatches_with(f, sig) ==> has_entry(self.apply_functions@, sig)
    }

    /// Defunctionalizes a single function: each reachable dynamic call now
    /// calls its apply function, each function value that is not a call
    /// target becomes its identifier, and each parameter or result of
    /// function type becomes a field.
    pub fn defunctionalize(&self, func: &mut Function)
        requires
            self.wf(),
            old(func).wf(),
            self.serves(*old(func)),
        ensures
            final(func).wf(),
            final(func).dfg.blocks@ == old(func).dfg.blocks@,
            final(func).dfg.results@ == old(func).dfg.results@,
            final(func).entry_block == old(func).entry_block,
            final(func).runtime == old(func).runtime,
            final(func).id == old(func).id,
            final(func).name == old(func).name,
            final(func).dfg.instructions@.len() == old(func).dfg.instructions@.len(),
            forall|y: InstructionId|
                y < old(func).dfg.instructions.len() && #[trigger] in_reachable_instruction(*old(func), y) ==> rewritten_call(
                    self.apply_functions@,
                    old(func).dfg,
                    final(func).dfg,
                    y,
                ),
            forall|y: InstructionId|
                y < old(func).dfg.instructions.len() && !#[trigger] in_reachable_instruction(*old(func), y) ==> final(func).dfg.instructions@[y as int] == old(func).dfg.instructions@[y as int],
            final(func).dfg.values.len() >= old(func).dfg.values.len(),
            forall|v: int|
                0 <= v < old(func).dfg.values.len() ==> #[trigger] final(func).dfg.values@[v] == retyped(
                    old(func).dfg.values@[v],
                    is_call_target(*final(func), v as ValueId),
                ),
            forall|v: int|
                old(func).dfg.values.len() <= v < final(func).dfg.values.len() ==> (#[trigger] final(func).dfg.values@[v]) is Function
                    && is_call_target(*final(func), v as ValueId),
            forall|v: int|
                0 <= v < final(func).dfg.values.len() && #[trigger] final(func).dfg.type_of(v as ValueId) == Type::Function
                    ==> is_call_target(*final(func), v as ValueId) || is_function_typed_constant(final(func).dfg.values@[v]),
            forall|v: int|
                old(func).dfg.values.len() <= v < final(func).dfg.values.len() ==> refers_to_apply(self.apply_functions@, #[trigger] final(func).dfg.values@[v]),
            forall|sig: (Seq<Type>, Seq<Type>)| !#[trigger] dispatches_with(*final(func), sig),
            in_normal_form(*old(func)) ==> same_function(*old(func), *final(func)),
    {
        let ghost orig = func.dfg;
        let ghost orig_f = *func;
        let mut call_target_values: Vec<ValueId> = Vec::new();
        let blocks = func.reachable_blocks();
        let mut j: usize = 0;
        while j < blocks.len()
            invariant
                j <= blocks.len(),
                self.wf(),
                func.wf(),
                self.serves(orig_f),
                orig_f == *old(func),
                orig == orig_f.dfg,
                orig.wf(),
                forall|i: int| 0 <= i < blocks@.len() ==> #[trigger] blocks@[i] < orig.blocks.len(),
                forall|b: BasicBlockId| #[trigger] blocks@.contains(b) <==> orig_f.is_reachable(b),
                func.dfg.blocks@ == orig.blocks@,
                func.dfg.results@ == orig.results@,
                func.entry_block == orig_f.entry_block,
                func.runtime == orig_f.runtime,
                func.id == orig_f.id,
                func.name == orig_f.name,
                values_extended(orig, func.dfg),
                func.dfg.instructions@.len() == orig.instructions@.len(),
                forall|y: InstructionId| y < orig.instructions.len() && #[trigger] visited_by(orig, blocks@, j as int, y) ==> rewritten_call(self.apply_functions@, orig, func.dfg, y),
                forall|y: InstructionId| y < orig.instructions.len() && #[trigger] visited_by(orig, blocks@, j as int, y) ==> dynamic_call_signature(func.dfg, y) is None,
                forall|y: InstructionId| y < orig.instructions.len() && !#[trigger] visited_by(orig, blocks@, j as int, y) ==> func.dfg.instructions@[y as int] == orig.instructions@[y as int],
                forall|t: ValueId| #[trigger] call_target_values@.contains(t) <==> exists|y: InstructionId| y < orig.instructions.len() && #[trigger] visited_by(orig, blocks@, j as int, y) && static_target(func.dfg, y, t),
                forall|v: int| orig.values.len() <= v < func.dfg.values.len() ==> #[trigger] call_target_values@.contains(v as ValueId),
            decreases blocks.len() - j,
        {
            let b = blocks[j];
            let ghost cur = func.dfg;
            let ghost targets_before = call_target_values@;
            proof {
                assert forall|y: InstructionId|
                    #[trigger] in_block(cur, b, y) && dynamic_call_signature(cur, y) is Some implies has_entry(
                        self.apply_functions@,
                        dynamic_call_signature(cur, y)->Some_0,
                    ) by {
                    assert(in_block(orig, b, y));
                    let k = choose|k: int| 0 <= k < orig.blocks@[b as int].instructions.len() && #[trigger] orig.blocks@[b as int].instructions@[k] == y;
                    assert(crate::ir::block_wf(orig.blocks@[b as int], orig.values.len() as int, orig.instructions.len() as int, orig.blocks.len() as int));
                    assert(y < orig.instructions.len());
                    if visited_by(orig, blocks@, j as int, y) {
                    } else {
                        lemma_dynamic_sig_kept(orig, cur, y);
                    }
                    assert(blocks@.contains(b));
                    assert(in_reachable_block(orig_f, b, k));
                    assert(dispatch_at(orig_f, b, k, dynamic_call_signature(cur, y)->Some_0));
                    assert(dispatches_with(orig_f, dynamic_call_signature(cur, y)->Some_0));
                }
            }
            self.rewrite_block(func, b, &mut call_target_values);
            proof {
                let next = func.dfg;
                assert forall|y: InstructionId| #[trigger] in_block(cur, b, y) == in_block(orig, b, y) by {}
                assert forall|y: InstructionId| #[trigger] visited_by(orig, blocks@, j + 1, y) == (visited_by(orig, blocks@, j as int, y) || in_block(orig, b, y)) by {
                    if visited_by(orig, blocks@, j + 1, y) {
                        let jj = choose|jj: int| 0 <= jj < j + 1 && #[trigger] in_block(orig, blocks@[jj], y);
                        if jj < j {
                            assert(visited_by(orig, blocks@, j as int, y));
                        }
                    }
                    if visited_by(orig, blocks@, j as int, y) {
                        let jj = choose|jj: int| 0 <= jj < j && #[trigger] in_block(orig, blocks@[jj], y);
                        assert(visited_by(orig, blocks@, j + 1, y));
                    }
                    if in_block(orig, b, y) {
                        assert(in_block(orig, blocks@[j as int], y));
                    }
                }
                assert forall|y: InstructionId| y < orig.instructions.len() && visited_by(orig, blocks@, j as int, y) implies #[trigger] next.instructions@[y as int] == cur.instructions@[y as int] by {
                    if in_block(cur, b, y) {
                        assert(rewritten_call(self.apply_functions@, cur, next, y));
                    }
                }
                assert forall|y: InstructionId| y < orig.instructions.len() && #[trigger] visited_by(orig, blocks@, (j + 1) as int, y) implies rewritten_call(self.apply_functions@, orig, next, y) && dynamic_call_signature(next, y) is None by {
                    if visited_by(orig, blocks@, j as int, y) {
                        lemma_rewritten_trans(self.apply_functions@, orig, cur, next, y);
                        lemma_dynamic_sig_kept(cur, next, y);
                    } else {
                        assert(in_block(cur, b, y));
                        lemma_rewritten_from_same(self.apply_functions@, orig, cur, next, y);
                        assert(instruction_wf(next.instructions@[y as int], next.values.len() as int));
                        if dynamic_call_signature(orig, y) is None {
                            lemma_dynamic_sig_kept(orig, next, y);
                        }
                    }
                }
                assert forall|t: ValueId| #[trigger] call_target_values@.contains(t) <==> exists|y: InstructionId| y < orig.instructions.len() && #[trigger] visited_by(orig, blocks@, j + 1, y) && static_target(next, y, t) by {
                    if targets_before.contains(t) {
                        let y = choose|y: InstructionId| y < orig.instructions.len() && #[trigger] visited_by(orig, blocks@, j as int, y) && static_target(cur, y, t);
                        assert(instruction_wf(cur.instructions@[y as int], cur.values.len() as int));
                        assert(static_target(next, y, t));
                        assert(visited_by(orig, blocks@, j + 1, y));
                    }
                    if exists|y: InstructionId| #[trigger] in_block(cur, b, y) && static_target(next, y, t) {
                        let y = choose|y: InstructionId| #[trigger] in_block(cur, b, y) && static_target(next, y, t);
                        assert(crate::ir::block_wf(orig.blocks@[b as int], orig.values.len() as int, orig.instructions.len() as int, orig.blocks.len() as int));
                        let k = choose|k: int| 0 <= k < orig.blocks@[b as int].instructions.len() && #[trigger] orig.blocks@[b as int].instructions@[k] == y;
                        assert(visited_by(orig, blocks@, j + 1, y));
                    }
                    if exists|y: InstructionId| y < orig.instructions.len() && #[trigger] visited_by(orig, blocks@, j + 1, y) && static_target(next, y, t) {
                        let y = choose|y: InstructionId| y < orig.instructions.len() && #[trigger] visited_by(orig, blocks@, j + 1, y) && static_target(next, y, t);
                        if visited_by(orig, blocks@, j as int, y) {
                            assert(instruction_wf(next.instructions@[y as int], next.values.len() as int));
                            assert(instruction_wf(cur.instructions@[y as int], cur.values.len() as int));
                            assert(static_target(cur, y, t));
                            assert(targets_before.contains(t));
                        } else {
                            assert(in_block(cur, b, y));
                        }
                    }
                }
                assert forall|y: InstructionId| y < orig.instructions.len() && !#[trigger] visited_by(orig, blocks@, j + 1, y) implies next.instructions@[y as int] == orig.instructions@[y as int] by {
                    assert(!in_block(cur, b, y));
                }
                assert(forall|y: InstructionId| y < orig.instructions.len() && #[trigger] visited_by(orig, blocks@, (j + 1) as int, y) ==> rewritten_call(self.apply_functions@, orig, next, y));
                assert(forall|y: InstructionId| y < orig.instructions.len() && #[trigger] visited_by(orig, blocks@, (j + 1) as int, y) ==> dynamic_call_signature(next, y) is None);
            }
            j = j + 1;
        }
        proof {
            assert forall|y: InstructionId| #[trigger] visited_by(orig, blocks@, blocks@.len() as int, y) == in_reachable_instruction(orig_f, y) by {
                if visited_by(orig, blocks@, blocks@.len() as int, y) {
                    let jj = choose|jj: int| 0 <= jj < blocks@.len() && #[trigger] in_block(orig, blocks@[jj], y);
                    assert(blocks@.contains(blocks@[jj]));
                }
                if in_reachable_instruction(orig_f, y) {
                    let b = choose|b: BasicBlockId| b < orig.blocks.len() && orig_f.is_reachable(b) && #[trigger] in_block(orig, b, y);
                    assert(blocks@.contains(b));
                    let jj = choose|jj: int| 0 <= jj < blocks@.len() && blocks@[jj] == b;
                    assert(in_block(orig, blocks@[jj], y));
                }
            }
        }
        let ghost mid = func.dfg;
        let nv = func.dfg.values.len();
        for v in 0..nv
            invariant
                func.wf(),
                nv == mid.values.len(),
                func.dfg.values.len() == nv,
                func.dfg.blocks@ == mid.blocks@,
                func.dfg.results@ == mid.results@,
                func.dfg.instructions@ == mid.instructions@,
                func.entry_block == orig_f.entry_block,
                func.runtime == orig_f.runtime,
                func.id == orig_f.id,
                func.name == orig_f.name,
                forall|w: int| 0 <= w < v ==> #[trigger] func.dfg.values@[w] == retyped(mid.values@[w], call_target_values@.contains(w as ValueId)),
                forall|w: int| v <= w < nv ==> #[trigger] func.dfg.values@[w] == mid.values@[w],
        {
            let value = func.dfg.values[v];
            if value.get_type().is(&Type::Function) {
                match value {
                    Value::Function(id) => {
                        if !contains_id(&call_target_values, v) {
                            func.dfg.set_value(v, Value::NumericConstant { constant: function_id_to_field(id), typ: Type::field() });
                        }
                    },
                    Value::Instruction { instruction, position, .. } => {
                        func.dfg.set_value(v, Value::Instruction { instruction, position, typ: Type::field() });
                    },
                    Value::Param { block, position, .. } => {
                        func.dfg.set_value(v, Value::Param { block, position, typ: Type::field() });
                    },
                    _ => {},
                }
            }
        }
        proof {
            let fin = *func;
            assert(fin.dfg.blocks@ == orig.blocks@);
            assert(fin.entry_block == orig_f.entry_block);
            assert forall|y: InstructionId| #[trigger] in_reachable_instruction(fin, y) == in_reachable_instruction(orig_f, y) by {
                if in_reachable_instruction(fin, y) {
                    let b = choose|b: BasicBlockId| b < fin.dfg.blocks.len() && fin.is_reachable(b) && #[trigger] in_block(fin.dfg, b, y);
                    assert(orig_f.is_reachable(b));
                    assert(in_block(orig, b, y));
                }
                if in_reachable_instruction(orig_f, y) {
                    let b = choose|b: BasicBlockId| b < orig.blocks.len() && orig_f.is_reachable(b) && #[trigger] in_block(orig, b, y);
                    assert(fin.is_reachable(b));
                    assert(in_block(fin.dfg, b, y));
                }
            }
            assert forall|w: int| 0 <= w < nv && (mid.values@[w] is Function) implies (#[trigger] call_target_values@.contains(w as ValueId)) == is_call_target(fin, w as ValueId) by {
                if call_target_values@.contains(w as ValueId) {
                    let y = choose|y: InstructionId| y < orig.instructions.len() && #[trigger] visited_by(orig, blocks@, blocks@.len() as int, y) && static_target(mid, y, w as ValueId);
                    assert(in_reachable_instruction(fin, y));
                }
                if is_call_target(fin, w as ValueId) {
                    let y = choose|y: InstructionId| #[trigger] in_reachable_instruction(fin, y) && call_func(fin.dfg.instructions@[y as int]) == Some(w as ValueId);
                    let b = choose|b: BasicBlockId| b < orig.blocks.len() && orig_f.is_reachable(b) && #[trigger] in_block(orig, b, y);
                    assert(crate::ir::block_wf(orig.blocks@[b as int], orig.values.len() as int, orig.instructions.len() as int, orig.blocks.len() as int));
                    let k = choose|k: int| 0 <= k < orig.blocks@[b as int].instructions.len() && #[trigger] orig.blocks@[b as int].instructions@[k] == y;
                    assert(y < orig.instructions.len());
                    assert(visited_by(orig, blocks@, blocks@.len() as int, y));
                    assert(static_target(mid, y, w as ValueId));
                }
            }
            assert forall|y: InstructionId|
                y < orig.instructions.len() && #[trigger] in_reachable_instruction(orig_f, y) implies rewritten_call(self.apply_functions@, orig, fin.dfg, y) by {
                assert(visited_by(orig, blocks@, blocks@.len() as int, y));
                assert(rewritten_call(self.apply_functions@, orig, mid, y));
                match dynamic_call_signature(orig, y) {
                    Some(sig) => {
                        let t2 = mid.instructions@[y as int]->Call_func;
                        assert(instruction_wf(mid.instructions@[y as int], mid.values.len() as int));
                        assert(static_target(mid, y, t2));
                        assert(call_target_values@.contains(t2));
                        assert(fin.dfg.values@[t2 as int] == mid.values@[t2 as int]);
                    },
                    None => {},
                }
            }
            assert forall|v: int|
                old(func).dfg.values.len() <= v < fin.dfg.values.len() implies (#[trigger] fin.dfg.values@[v]) is Function
                    && is_call_target(fin, v as ValueId) by {
                assert(call_target_values@.contains(v as ValueId));
            }
            assert forall|v: int|
                0 <= v < fin.dfg.values.len() && #[trigger] fin.dfg.type_of(v as ValueId) == Type::Function
                    implies is_call_target(fin, v as ValueId) || is_function_typed_constant(fin.dfg.values@[v]) by {
                assert(fin.dfg.values@[v] == retyped(mid.values@[v], call_target_values@.contains(v as ValueId)));
                if v >= orig.values.len() {
                    assert(call_target_values@.contains(v as ValueId));
                } else {
                    assert(mid.values@[v] == orig.values@[v]);
                }
            }
            assert forall|y: InstructionId|
                y < orig.instructions.len() && !#[trigger] in_reachable_instruction(orig_f, y) implies fin.dfg.instructions@[y as int] == orig.instructions@[y as int] by {
                assert(!visited_by(orig, blocks@, blocks@.len() as int, y));
            }
            assert forall|v: int|
                old(func).dfg.values.len() <= v < fin.dfg.values.len() implies refers_to_apply(self.apply_functions@, #[trigger] fin.dfg.values@[v]) by {
                assert(call_target_values@.contains(v as ValueId));
                let y = choose|y: InstructionId| y < orig.instructions.len() && #[trigger] visited_by(orig, blocks@, blocks@.len() as int, y) && static_target(mid, y, v as ValueId);
                assert(rewritten_call(self.apply_functions@, orig, mid, y));
                assert(instruction_wf(orig.instructions@[y as int], orig.values.len() as int));
                let sig = dynamic_call_signature(orig, y)->Some_0;
                assert(in_reachable_instruction(orig_f, y));
                let b = choose|b: BasicBlockId| b < orig.blocks.len() && orig_f.is_reachable(b) && #[trigger] in_block(orig, b, y);
                let k = choose|k: int| 0 <= k < orig.blocks@[b as int].instructions.len() && #[trigger] orig.blocks@[b as int].instructions@[k] == y;
                assert(in_reachable_block(orig_f, b, k));
                assert(dispatch_at(orig_f, b, k, sig));
                assert(dispatches_with(orig_f, sig));
                assert(has_entry(self.apply_functions@, sig));
                let i = choose|i: int| 0 <= i < self.apply_functions.len() && #[trigger] self.apply_functions@[i].signature@ == sig;
                assert(fin.dfg.values@[v] == mid.values@[v]);
            }
            assert forall|sig: (Seq<Type>, Seq<Type>)| !#[trigger] dispatches_with(fin, sig) by {
                if dispatches_with(fin, sig) {
                    let (b, k) = choose|b: BasicBlockId, k: int| in_reachable_block(fin, b, k) && #[trigger] dispatch_at(fin, b, k, sig);
                    let y = instruction_at(fin, b, k);
                    assert(in_block(orig, b, y));
                    assert(orig_f.is_reachable(b));
                    assert(in_reachable_instruction(orig_f, y));
                    assert(crate::ir::block_wf(orig.blocks@[b as int], orig.values.len() as int, orig.instructions.len() as int, orig.blocks.len() as int));
                    assert(y < orig.instructions.len());
                    assert(rewritten_call(self.apply_functions@, orig, fin.dfg, y));
                    assert(instruction_wf(orig.instructions@[y as int], orig.values.len() as int));
                    if dynamic_call_signature(orig, y) is None {
                        let t = orig.instructions@[y as int]->Call_func;
                        assert(fin.dfg.values@[t as int] == retyped(orig.values@[t as int], is_call_target(fin, t)));
                    }
                }
            }
            if in_normal_form(orig_f) {
                assert forall|y: int| 0 <= y < orig.instructions.len() implies #[trigger] fin.dfg.instructions@[y] == orig.instructions@[y] by {
                    let yy = y as InstructionId;
                    if in_reachable_instruction(orig_f, yy) {
                        assert(rewritten_call(self.apply_functions@, orig, fin.dfg, yy));
                        if dynamic_call_signature(orig, yy) is Some {
                            let b = choose|b: BasicBlockId| b < orig.blocks.len() && orig_f.is_reachable(b) && #[trigger] in_block(orig, b, yy);
                            let k = choose|k: int| 0 <= k < orig.blocks@[b as int].instructions.len() && #[trigger] orig.blocks@[b as int].instructions@[k] == yy;
                            assert(in_reachable_block(orig_f, b, k));
                            assert(dispatch_at(orig_f, b, k, dynamic_call_signature(orig, yy)->Some_0));
                            assert(dispatches_with(orig_f, dynamic_call_signature(orig, yy)->Some_0));
                        }
                    }
                }
                assert(fin.dfg.instructions@ =~= orig.instructions@);
                assert forall|v: ValueId| #[trigger] is_call_target(fin, v) == is_call_target(orig_f, v) by {
                    if is_call_target(fin, v) {
                        let y = choose|y: InstructionId| #[trigger] in_reachable_instruction(fin, y) && call_func(fin.dfg.instructions@[y as int]) == Some(v);
                        assert(in_reachable_instruction(orig_f, y));
                    }
                    if is_call_target(orig_f, v) {
                        let y = choose|y: InstructionId| #[trigger] in_reachable_instruction(orig_f, y) && call_func(orig.instructions@[y as int]) == Some(v);
                        assert(in_reachable_instruction(fin, y));
                    }
                }
                if fin.dfg.values.len() > orig.values.len() {
                    let v = orig.values.len() as int;
                    assert(call_target_values@.contains(v as ValueId));
                    let y = choose|y: InstructionId| y < orig.instructions.len() && #[trigger] visited_by(orig, blocks@, blocks@.len() as int, y) && static_target(mid, y, v as ValueId);
                    assert(rewritten_call(self.apply_functions@, orig, mid, y));
                    assert(instruction_wf(orig.instructions@[y as int], orig.values.len() as int));
                    assert(in_reachable_instruction(orig_f, y));
                    let b = choose|b: BasicBlockId| b < orig.blocks.len() && orig_f.is_reachable(b) && #[trigger] in_block(orig, b, y);
                    let k = choose|k: int| 0 <= k < orig.blocks@[b as int].instructions.len() && #[trigger] orig.blocks@[b as int].instructions@[k] == y;
                    assert(in_reachable_block(orig_f, b, k));
                    assert(dispatch_at(orig_f, b, k, dynamic_call_signature(orig, y)->Some_0));
                    assert(dispatches_with(orig_f, dynamic_call_signature(orig, y)->Some_0));
                }
                assert forall|v: int| 0 <= v < orig.values.len() implies #[trigger] fin.dfg.values@[v] == orig.values@[v] by {
                    assert(fin.dfg.values@[v] == retyped(orig.values@[v], is_call_target(fin, v as ValueId)));
                    if orig.type_of(v as ValueId) == Type::Function {
                        if is_call_target(orig_f, v as ValueId) && is_dynamic(orig.values@[v]) {
                            let y = choose|y: InstructionId| #[trigger] in_reachable_instruction(orig_f, y) && call_func(orig.instructions@[y as int]) == Some(v as ValueId);
                            let b = choose|b: BasicBlockId| b < orig.blocks.len() && orig_f.is_reachable(b) && #[trigger] in_block(orig, b, y);
                            let k = choose|k: int| 0 <= k < orig.blocks@[b as int].instructions.len() && #[trigger] orig.blocks@[b as int].instructions@[k] == y;
                            assert(crate::ir::block_wf(orig.blocks@[b as int], orig.values.len() as int, orig.instructions.len() as int, orig.blocks.len() as int));
                            assert(y < orig.instructions.len());
                            assert(in_reachable_block(orig_f, b, k));
                            assert(dispatch_at(orig_f, b, k, dynamic_call_signature(orig, y)->Some_0));
                            assert(dispatches_with(orig_f, dynamic_call_signature(orig, y)->Some_0));
                        }
                    }
                }
                assert(fin.dfg.values@ =~= orig.values@);
            }
        }
    }
}


/// A function without dynamic calls keeps all its instructions under the
/// pass.
proof fn lemma_no_dispatch_kept(entries: Seq<ApplyEntry>, old: Function, new: Function)
    requires
        old.wf(),
        defunctionalized(entries, old, new),
        forall|sig: (Seq<Type>, Seq<Type>)| !#[trigger] dispatches_with(old, sig),
    ensures
        new.dfg.instructions@ == old.dfg.instructions@,
{
    assert forall|y: int| 0 <= y < old.dfg.instructions.len() implies #[trigger] new.dfg.instructions@[y] == old.dfg.instructions@[y] by {
        let yy = y as InstructionId;
        if in_reachable_instruction(old, yy) {
            assert(rewritten_call(entries, old.dfg, new.dfg, yy));
            if dynamic_call_signature(old.dfg, yy) is Some {
                let b = choose|b: BasicBlockId| b < old.dfg.blocks.len() && old.is_reachable(b) && #[trigger] in_block(old.dfg, b, yy);
                let k = choose|k: int| 0 <= k < old.dfg.blocks@[b as int].instructions.len() && #[trigger] old.dfg.blocks@[b as int].instructions@[k] == yy;
                assert(in_reachable_block(old, b, k));
                assert(dispatch_at(old, b, k, dynamic_call_signature(old.dfg, yy)->Some_0));
                assert(dispatches_with(old, dynamic_call_signature(old.dfg, yy)->Some_0));
            }
        }
    }
    assert(new.dfg.instructions@ =~= old.dfg.instructions@);
}

/// The pass keeps the layout of an apply function.
proof fn lemma_layout_kept(entries: Seq<ApplyEntry>, old: Function, new: Function, ids: Seq<FunctionId>)
    requires
        old.wf(),
        apply_layout(old, ids),
        defunctionalized(entries, old, new),
        forall|sig: (Seq<Type>, Seq<Type>)| !#[trigger] dispatches_with(old, sig),
    ensures
        apply_layout(new, ids),
{
    let (tests, execs, rets, cmps, calls) = choose|
        tests: Seq<BasicBlockId>,
        execs: Seq<BasicBlockId>,
        rets: Seq<BasicBlockId>,
        cmps: Seq<InstructionId>,
        calls: Seq<InstructionId>,
    | #[trigger] layout_with(old.dfg, old.entry_block, ids, tests, execs, rets, cmps, calls);
    lemma_no_dispatch_kept(entries, old, new);
    let params = old.dfg.blocks@[old.entry_block as int].parameters@;
    assert forall|b: BasicBlockId| #[trigger] new.is_reachable(b) == old.is_reachable(b) by {}
    assert forall|i: int| 0 <= i < ids.len() implies #[trigger] branch_laid_out(new.dfg, params[0], params.drop_first(), ids, tests, execs, rets, cmps, calls, i) by {
        assert(branch_laid_out(old.dfg, params[0], params.drop_first(), ids, tests, execs, rets, cmps, calls, i));
        lemma_layout_reachable(old, ids, tests, execs, rets, cmps, calls, i);
        let cmp = old.dfg.instructions@[cmps[i] as int];
        let call = old.dfg.instructions@[calls[i] as int];
        assert(instruction_wf(cmp, old.dfg.values.len() as int));
        assert(instruction_wf(call, old.dfg.values.len() as int));
        let rhs = cmp->Binary_rhs;
        assert(new.dfg.values@[rhs as int] == retyped(old.dfg.values@[rhs as int], is_call_target(new, rhs)));
        let fv = call->Call_func;
        let b = execs[i];
        let k: int = if i < ids.len() - 1 { 0 } else { 2 };
        assert(old.dfg.blocks@[b as int].instructions@[k] == calls[i]);
        assert(in_block(old.dfg, b, calls[i]));
        assert(in_block(new.dfg, b, calls[i]));
        assert(in_reachable_instruction(new, calls[i]));
        assert(call_func(new.dfg.instructions@[calls[i] as int]) == Some(fv));
        assert(is_call_target(new, fv));
        assert(new.dfg.values@[fv as int] == retyped(old.dfg.values@[fv as int], is_call_target(new, fv)));
        if i == ids.len() - 1 {
            let test = old.dfg.blocks@[tests[i] as int];
            assert(crate::ir::block_wf(test, old.dfg.values.len() as int, old.dfg.instructions.len() as int, old.dfg.blocks.len() as int));
        }
    }
    assert(layout_with(new.dfg, new.entry_block, ids, tests, execs, rets, cmps, calls));
}

/// What the pass establishes: every reachable call has a literal target,
/// and every value of function type is the target of a reachable call
/// (or a constant that claims that type).
pub open spec fn in_normal_form(f: Function) -> bool {
    &&& forall|sig: (Seq<Type>, Seq<Type>)| !#[trigger] dispatches_with(f, sig)
    &&& forall|v: int|
        0 <= v < f.dfg.values.len() && #[trigger] f.dfg.type_of(v as ValueId) == Type::Function
            ==> is_call_target(f, v as ValueId) || is_function_typed_constant(f.dfg.values@[v])
}

/// The two functions hold the same graph.
pub open spec fn same_function(a: Function, b: Function) -> bool {
    &&& a.dfg.values@ == b.dfg.values@
    &&& a.dfg.instructions@ == b.dfg.instructions@
    &&& a.dfg.results@ == b.dfg.results@
    &&& a.dfg.blocks@ == b.dfg.blocks@
    &&& a.entry_block == b.entry_block
    &&& a.runtime == b.runtime
    &&& a.id == b.id
    &&& a.name == b.name
}

/// `v` refers to the function of one of the apply entries.
pub open spec fn refers_to_apply(entries: Seq<ApplyEntry>, v: Value) -> bool {
    exists|i: int| 0 <= i < entries.len() && v == Value::Function(#[trigger] entries[i].apply.id)
}

/// `new` is what the pass makes of `old` with the apply entries `entries`.
pub open spec fn defunctionalized(entries: Seq<ApplyEntry>, old: Function, new: Function) -> bool {
    &&& new.wf()
    &&& new.dfg.blocks@ == old.dfg.blocks@
    &&& new.entry_block == old.entry_block
    &&& new.runtime == old.runtime
    &&& new.id == old.id
    &&& new.name == old.name
    &&& new.dfg.results@ == old.dfg.results@
    &&& new.dfg.instructions@.len() == old.dfg.instructions@.len()
    &&& forall|y: InstructionId|
        y < old.dfg.instructions.len() && #[trigger] in_reachable_instruction(old, y) ==> rewritten_call(entries, old.dfg, new.dfg, y)
    &&& forall|y: InstructionId|
        y < old.dfg.instructions.len() && !#[trigger] in_reachable_instruction(old, y) ==> new.dfg.instructions@[y as int] == old.dfg.instructions@[y as int]
    &&& new.dfg.values.len() >= old.dfg.values.len()
    &&& forall|v: int|
        0 <= v < old.dfg.values.len() ==> #[trigger] new.dfg.values@[v] == retyped(old.dfg.values@[v], is_call_target(new, v as ValueId))
    &&& forall|v: int|
        old.dfg.values.len() <= v < new.dfg.values.len() ==> refers_to_apply(entries, #[trigger] new.dfg.values@[v])
    &&& forall|v: int|
        0 <= v < new.dfg.values.len() && #[trigger] new.dfg.type_of(v as ValueId) == Type::Function
            ==> is_call_target(new, v as ValueId) || is_function_typed_constant(new.dfg.values@[v])
    &&& forall|sig: (Seq<Type>, Seq<Type>)| !#[trigger] dispatches_with(new, sig)
    &&& in_normal_form(old) ==> same_function(old, new)
}

impl DefunctionalizationContext {
    /// Every apply function named by an entry is a function below `n`.
    pub open spec fn applies_below(&self, n: int) -> bool {
        forall|i: int| 0 <= i < self.apply_functions.len() ==> (#[trigger] self.apply_functions@[i]).apply.id < n
    }

    /// Defunctionalizes all functions of the program.
    pub fn defunctionalize_all(self, ssa: &mut Ssa)
        requires
            self.wf(),
            old(ssa).wf(),
            self.applies_below(old(ssa).functions.len() as int),
            forall|i: int| 0 <= i < old(ssa).functions.len() ==> self.serves(#[trigger] old(ssa).functions@[i]),
        ensures
            final(ssa).wf(),
            final(ssa).main_id == old(ssa).main_id,
            final(ssa).functions.len() == old(ssa).functions.len(),
            forall|i: int| 0 <= i < old(ssa).functions.len() ==> defunctionalized(self.apply_functions@, old(ssa).functions@[i], #[trigger] final(ssa).functions@[i]),
    {
        let n = ssa.functions.len();
        for i in 0..n
            invariant
                self.wf(),
                self.applies_below(n as int),
                n == old(ssa).functions.len(),
                ssa.functions.len() == n,
                ssa.main_id == old(ssa).main_id,
                forall|f: int| 0 <= f < n ==> self.serves(#[trigger] old(ssa).functions@[f]),
                forall|f: int| i <= f < n ==> #[trigger] ssa.functions@[f] == old(ssa).functions@[f],
                forall|f: int| 0 <= f < i ==> defunctionalized(self.apply_functions@, old(ssa).functions@[f], #[trigger] ssa.functions@[f]),
                old(ssa).wf(),
        {
            assert(old(ssa).functions@[i as int].wf());
            let ghost prev = ssa.functions@;
            self.defunctionalize(&mut ssa.functions[i]);
            assert(ssa.functions@ == prev.update(i as int, ssa.functions@[i as int]));
            assert(defunctionalized(self.apply_functions@, old(ssa).functions@[i as int], ssa.functions@[i as int]));
        }
        assert forall|i: int, v: int|
            0 <= i < ssa.functions.len() && 0 <= v < ssa.functions@[i].dfg.values.len() && (
            #[trigger] ssa.functions@[i].dfg.values@[v]) is Function implies ssa.functions@[i].dfg.values@[v]->Function_0 < ssa.functions.len() by {
            let o = old(ssa).functions@[i];
            assert(defunctionalized(self.apply_functions@, o, ssa.functions@[i]));
            if v < o.dfg.values.len() {
                assert(ssa.functions@[i].dfg.values@[v] == retyped(o.dfg.values@[v], is_call_target(ssa.functions@[i], v as ValueId)));
                assert(o.dfg.values@[v] is Function);
            } else {
                assert(refers_to_apply(self.apply_functions@, ssa.functions@[i].dfg.values@[v]));
                let k = choose|k: int| 0 <= k < self.apply_functions.len() && ssa.functions@[i].dfg.values@[v] == Value::Function(#[trigger] self.apply_functions@[k].apply.id);
                assert(self.apply_functions@[k].apply.id < n);
            }
        }
        assert forall|i: int| 0 <= i < ssa.functions.len() implies (#[trigger] ssa.functions@[i]).id == i by {
            assert(defunctionalized(self.apply_functions@, old(ssa).functions@[i], ssa.functions@[i]));
        }
    }
}

/// Every dynamic dispatch signature of the program has at least one
/// function used as a value that can serve it.
pub open spec fn dispatches_have_callees(ssa: Ssa) -> bool {
    forall|sig: (Seq<Type>, Seq<Type>)|
        #[trigger] is_dispatch(ssa, sig) ==> exists|id: FunctionId|
            id < ssa.functions.len() && is_function_value(ssa, id) && #[trigger] spec_can_call(sig, signature_of(ssa.functions@[id as int]))
}

impl Ssa {
    /// Removes function values from the program: each reachable call through
    /// a value known only at run time calls the sole function that can serve
    /// it, or an apply function added for its signature that dispatches on
    /// the function's identifier.
    pub fn defunctionalize(self) -> (r: Ssa)
        requires
            self.wf(),
            dispatches_have_callees(self),
        ensures
            r.wf(),
            r.main_id == self.main_id,
            r.functions.len() >= self.functions.len(),
            forall|i: int| 0 <= i < r.functions.len() ==> in_normal_form(#[trigger] r.functions@[i]),
            forall|i: int| self.functions.len() <= i < r.functions.len() ==> added_apply(self, #[trigger] r.functions@[i]),
            r.functions.len() == self.functions.len() + multi_dispatches(self).len(),
            (forall|i: int| 0 <= i < self.functions.len() ==> in_normal_form(#[trigger] self.functions@[i])) ==> {
                &&& r.functions.len() == self.functions.len()
                &&& forall|i: int| 0 <= i < self.functions.len() ==> same_function(self.functions@[i], #[trigger] r.functions@[i])
            },
            forall|i: int| #![trigger r.functions@[i]] 0 <= i < self.functions.len() ==> {
                &&& r.functions@[i].runtime == self.functions@[i].runtime
                &&& r.functions@[i].entry_block == self.functions@[i].entry_block
                &&& r.functions@[i].dfg.blocks@ == self.functions@[i].dfg.blocks@
                &&& r.functions@[i].name == self.functions@[i].name
                &&& r.functions@[i].dfg.results@ == self.functions@[i].dfg.results@
                &&& r.functions@[i].dfg.instructions@.len() == self.functions@[i].dfg.instructions@.len()
            },
            forall|i: int, y: InstructionId|
                0 <= i < self.functions.len() && y < self.functions@[i].dfg.instructions.len() && !(in_reachable_instruction(self.functions@[i], y)
                    && dynamic_call_signature(self.functions@[i].dfg, y) is Some) ==> #[trigger] r.functions@[i].dfg.instructions@[y as int]
                    == self.functions@[i].dfg.instructions@[y as int],
            forall|i: int, v: int|
                0 <= i < self.functions.len() && 0 <= v < self.functions@[i].dfg.values.len() ==> #[trigger] r.functions@[i].dfg.values@[v] == retyped(
                    self.functions@[i].dfg.values@[v],
                    is_call_target(r.functions@[i], v as ValueId),
                ),
            forall|i: int, y: InstructionId|
                0 <= i < self.functions.len() && y < self.functions@[i].dfg.instructions.len() && #[trigger] in_reachable_instruction(self.functions@[i], y)
                    && dynamic_call_signature(self.functions@[i].dfg, y) is Some ==> redirected(self, r, i, y),
    {
        let mut ssa = self;
        let variants = find_variants(&ssa);
        proof {
            assert forall|i: int| 0 <= i < variants@.len() implies (#[trigger] variants@[i]).callees@.len() >= 1 by {
                let sig = variants@[i].signature@;
                assert(is_dispatch(ssa, sig));
                let id = choose|id: FunctionId|
                    id < ssa.functions.len() && is_function_value(ssa, id) && #[trigger] spec_can_call(sig, signature_of(ssa.functions@[id as int]));
                assert(callees_match(ssa, sig, variants@[i].callees@));
                assert(variants@[i].callees@.contains(id));
            }
            assert forall|i: int, k: int|
                0 <= i < variants@.len() && 0 <= k < variants@[i].callees@.len() implies #[trigger] variants@[i].callees@[k] < ssa.functions.len()
                    && spec_can_call(variants@[i].signature@, signature_of(ssa.functions@[variants@[i].callees@[k] as int])) by {
                assert(callees_match(ssa, variants@[i].signature@, variants@[i].callees@));
                assert(variants@[i].callees@.contains(variants@[i].callees@[k]));
            }
        }
        let ghost before = ssa;
        let apply_functions = create_apply_functions(&mut ssa, &variants);
        let ghost with_applies = ssa;
        let mut fn_to_runtime: Vec<RuntimeType> = Vec::new();
        for i in 0..ssa.functions.len() {
            fn_to_runtime.push(ssa.functions[i].runtime);
        }
        let context = DefunctionalizationContext { fn_to_runtime, apply_functions };
        proof {
            let entries = context.apply_functions@;
            assert forall|i: int, j: int| 0 <= i < j < entries.len() implies entries[i].signature@ != entries[j].signature@ by {
                assert(apply_entry_for(with_applies, before.functions.len() as int, variants@[i], entries[i]));
                assert(apply_entry_for(with_applies, before.functions.len() as int, variants@[j], entries[j]));
            }
            assert forall|i: int| 0 <= i < entries.len() implies (#[trigger] entries[i]).apply.id < with_applies.functions.len() by {
                assert(apply_entry_for(with_applies, before.functions.len() as int, variants@[i], entries[i]));
                if variants@[i].callees@.len() == 1 {
                    assert(callees_match(before, variants@[i].signature@, variants@[i].callees@));
                    assert(variants@[i].callees@.contains(variants@[i].callees@[0]));
                }
            }
            assert forall|f: int| 0 <= f < with_applies.functions.len() implies context.serves(#[trigger] with_applies.functions@[f]) by {
                if f < before.functions.len() {
                    assert(with_applies.functions@[f] == before.functions@[f]);
                    assert forall|sig: (Seq<Type>, Seq<Type>)| #[trigger] dispatches_with(with_applies.functions@[f], sig) implies has_entry(entries, sig) by {
                        assert(is_dispatch(before, sig));
                        assert(has_key(variants@, sig));
                        let i = choose|i: int| 0 <= i < variants@.len() && #[trigger] variants@[i].signature@ == sig;
                        assert(apply_entry_for(with_applies, before.functions.len() as int, variants@[i], entries[i]));
                        assert(entries[i].signature@ == sig);
                    }
                } else {
                    assert forall|sig: (Seq<Type>, Seq<Type>)| #[trigger] dispatches_with(with_applies.functions@[f], sig) implies has_entry(entries, sig) by {
                        assert(!dispatches_with(with_applies.functions@[f], sig));
                    }
                }
            }
        }
        let ghost entries = context.apply_functions@;
        context.defunctionalize_all(&mut ssa);
        proof {
            if forall|i: int| 0 <= i < before.functions.len() ==> in_normal_form(#[trigger] before.functions@[i]) {
                if variants@.len() > 0 {
                    assert(is_dispatch(before, variants@[0].signature@));
                    let fi = choose|fi: int| 0 <= fi < before.functions.len() && #[trigger] dispatches_with(before.functions@[fi], variants@[0].signature@);
                    assert(in_normal_form(before.functions@[fi]));
                }
                assert(with_applies.functions@ == before.functions@);
                assert forall|i: int| 0 <= i < before.functions.len() implies same_function(before.functions@[i], #[trigger] ssa.functions@[i]) by {
                    assert(defunctionalized(entries, with_applies.functions@[i], ssa.functions@[i]));
                    assert(in_normal_form(before.functions@[i]));
                }
            }
            assert forall|i: int, y: InstructionId|
                0 <= i < before.functions.len() && y < before.functions@[i].dfg.instructions.len() && !(in_reachable_instruction(before.functions@[i], y)
                    && dynamic_call_signature(before.functions@[i].dfg, y) is Some) implies #[trigger] ssa.functions@[i].dfg.instructions@[y as int]
                    == before.functions@[i].dfg.instructions@[y as int] by {
                assert(with_applies.functions@[i] == before.functions@[i]);
                assert(defunctionalized(entries, with_applies.functions@[i], ssa.functions@[i]));
                if in_reachable_instruction(before.functions@[i], y) {
                    assert(rewritten_call(entries, before.functions@[i].dfg, ssa.functions@[i].dfg, y));
                }
            }
            assert forall|i: int| 0 <= i < before.functions.len() implies #[trigger] ssa.functions@[i].name == before.functions@[i].name by {
                assert(with_applies.functions@[i] == before.functions@[i]);
                assert(defunctionalized(entries, with_applies.functions@[i], ssa.functions@[i]));
            }
            lemma_multi_dispatches(before, variants@);
            assert forall|f: int| before.functions.len() <= f < ssa.functions.len() implies added_apply(before, #[trigger] ssa.functions@[f]) by {
                assert(created_by(variants@, entries, entries.len() as int, f));
                let j = choose|j: int| 0 <= j < entries.len() && variants@[j].callees@.len() > 1 && entries[j].apply.id == f;
                assert(apply_entry_for(with_applies, before.functions.len() as int, variants@[j], entries[j]));
                assert(defunctionalized(entries, with_applies.functions@[f], ssa.functions@[f]));
                assert(with_applies.wf());
                lemma_layout_kept(entries, with_applies.functions@[f], ssa.functions@[f], variants@[j].callees@);
                assert(callees_match(before, variants@[j].signature@, variants@[j].callees@));
                assert(is_dispatch(before, variants@[j].signature@));
            }
            assert forall|i: int| 0 <= i < ssa.functions.len() implies in_normal_form(#[trigger] ssa.functions@[i]) by {
                assert(defunctionalized(entries, with_applies.functions@[i], ssa.functions@[i]));
            }
            assert forall|i: int, y: InstructionId|
                0 <= i < before.functions.len() && y < before.functions@[i].dfg.instructions.len() && #[trigger] in_reachable_instruction(before.functions@[i], y)
                    && dynamic_call_signature(before.functions@[i].dfg, y) is Some implies redirected(before, ssa, i, y) by {
                let o = before.functions@[i];
                assert(with_applies.functions@[i] == o);
                assert(defunctionalized(entries, o, ssa.functions@[i]));
                let sig = dynamic_call_signature(o.dfg, y)->Some_0;
                assert(rewritten_call(entries, o.dfg, ssa.functions@[i].dfg, y));
                let b = choose|b: BasicBlockId| b < o.dfg.blocks.len() && o.is_reachable(b) && #[trigger] in_block(o.dfg, b, y);
                let k = choose|k: int| 0 <= k < o.dfg.blocks@[b as int].instructions.len() && #[trigger] o.dfg.blocks@[b as int].instructions@[k] == y;
                assert(in_reachable_block(o, b, k));
                assert(dispatch_at(o, b, k, sig));
                assert(dispatches_with(before.functions@[i], sig));
                assert(is_dispatch(before, sig));
                assert(has_key(variants@, sig));
                let vi = choose|vi: int| 0 <= vi < variants@.len() && #[trigger] variants@[vi].signature@ == sig;
                assert(apply_entry_for(with_applies, before.functions.len() as int, variants@[vi], entries[vi]));
                assert(entries[vi].signature@ == sig);
                let c = choose|c: int| 0 <= c < entries.len() && #[trigger] entries[c].signature@ == sig;
                assert(c == vi);
                assert(callees_match(before, sig, variants@[c].callees@));
                let a = entries[c].apply.id;
                if variants@[c].callees@.len() > 1 {
                    assert(defunctionalized(entries, with_applies.functions@[a as int], ssa.functions@[a as int]));
                    assert(with_applies.wf());
                    lemma_layout_kept(entries, with_applies.functions@[a as int], ssa.functions@[a as int], variants@[c].callees@);
                }
            }
        }
        ssa
    }
}

/// Function `id` is used as a value and can serve calls with `sig`.
pub open spec fn can_serve(ssa: Ssa, sig: (Seq<Type>, Seq<Type>), id: FunctionId) -> bool {
    id < ssa.functions.len() && is_function_value(ssa, id) && spec_can_call(sig, signature_of(ssa.functions@[id as int]))
}

/// The dynamic dispatch signatures of `ssa` that two distinct functions can
/// serve: one apply function is added for each.
pub open spec fn multi_dispatches(ssa: Ssa) -> Set<(Seq<Type>, Seq<Type>)> {
    Set::new(
        |sig: (Seq<Type>, Seq<Type>)|
            is_dispatch(ssa, sig) && exists|a: FunctionId, b: FunctionId|
                a != b && #[trigger] can_serve(ssa, sig, a) && #[trigger] can_serve(ssa, sig, b),
    )
}

/// The signatures of the variants with more than one callee.
pub open spec fn multi_keys(vs: Seq<Variant>) -> Set<(Seq<Type>, Seq<Type>)>
    decreases vs.len(),
{
    if vs.len() == 0 {
        Set::empty()
    } else if vs.last().callees@.len() > 1 {
        multi_keys(vs.drop_last()).insert(vs.last().signature@)
    } else {
        multi_keys(vs.drop_last())
    }
}

proof fn lemma_multi_keys(vs: Seq<Variant>)
    requires
        forall|i: int, j: int| 0 <= i < j < vs.len() ==> vs[i].signature@ != vs[j].signature@,
    ensures
        multi_keys(vs).finite(),
        multi_keys(vs).len() == multi_count(vs),
        forall|sig: (Seq<Type>, Seq<Type>)| #[trigger] multi_keys(vs).contains(sig) <==> exists|i: int|
            0 <= i < vs.len() && vs[i].callees@.len() > 1 && vs[i].signature@ == sig,
    decreases vs.len(),
{
    if vs.len() > 0 {
        let rest = vs.drop_last();
        lemma_multi_keys(rest);
        assert forall|sig: (Seq<Type>, Seq<Type>)| #[trigger] multi_keys(vs).contains(sig) <==> exists|i: int|
            0 <= i < vs.len() && vs[i].callees@.len() > 1 && vs[i].signature@ == sig by {
            if exists|i: int| 0 <= i < vs.len() && vs[i].callees@.len() > 1 && vs[i].signature@ == sig {
                let i = choose|i: int| 0 <= i < vs.len() && vs[i].callees@.len() > 1 && vs[i].signature@ == sig;
                if i < vs.len() - 1 {
                    assert(rest[i] == vs[i]);
                }
            }
            if multi_keys(rest).contains(sig) {
                let i = choose|i: int| 0 <= i < rest.len() && rest[i].callees@.len() > 1 && rest[i].signature@ == sig;
                assert(vs[i] == rest[i]);
            }
        }
        if vs.last().callees@.len() > 1 {
            if multi_keys(rest).contains(vs.last().signature@) {
                let i = choose|i: int| 0 <= i < rest.len() && rest[i].callees@.len() > 1 && rest[i].signature@ == vs.last().signature@;
                assert(vs[i] == rest[i]);
            }
        }
    }
}

proof fn lemma_multi_dispatches(ssa: Ssa, vs: Seq<Variant>)
    requires
        variants_of(ssa, vs),
    ensures
        multi_dispatches(ssa).finite(),
        multi_dispatches(ssa).len() == multi_count(vs),
{
    lemma_multi_keys(vs);
    assert forall|sig: (Seq<Type>, Seq<Type>)| #[trigger] multi_dispatches(ssa).contains(sig) == multi_keys(vs).contains(sig) by {
        if multi_keys(vs).contains(sig) {
            let i = choose|i: int| 0 <= i < vs.len() && vs[i].callees@.len() > 1 && vs[i].signature@ == sig;
            let cs = vs[i].callees@;
            assert(callees_match(ssa, sig, cs));
            assert(cs.contains(cs[0]) && cs.contains(cs[1]));
            assert(cs[0] != cs[1]);
            assert(can_serve(ssa, sig, cs[0]) && can_serve(ssa, sig, cs[1]));
        }
        if multi_dispatches(ssa).contains(sig) {
            assert(has_key(vs, sig));
            let i = choose|i: int| 0 <= i < vs.len() && #[trigger] vs[i].signature@ == sig;
            let (a, b) = choose|a: FunctionId, b: FunctionId| a != b && #[trigger] can_serve(ssa, sig, a) && #[trigger] can_serve(ssa, sig, b);
            let cs = vs[i].callees@;
            assert(callees_match(ssa, sig, cs));
            assert(cs.contains(a) && cs.contains(b));
            if cs.len() <= 1 {
                let ia = choose|k: int| 0 <= k < cs.len() && cs[k] == a;
                let ib = choose|k: int| 0 <= k < cs.len() && cs[k] == b;
            }
        }
    }
    assert(multi_dispatches(ssa) =~= multi_keys(vs));
}

/// `f` is an apply function that the pass added to `old`: it dispatches to
/// the callees of a dynamic signature of `old` that has more than one.
pub open spec fn added_apply(old: Ssa, f: Function) -> bool {
    &&& f.name@ == "apply"@
    &&& f.runtime == RuntimeType::Acir
    &&& exists|sig: (Seq<Type>, Seq<Type>), callees: Seq<FunctionId>|
        #[trigger] callees_match(old, sig, callees) && is_dispatch(old, sig) && callees.len() > 1 && apply_layout(f, callees)
}

/// After the pass, the reachable dynamic call `y` of function `i` calls a
/// literal function: the sole function that can serve its signature, with
/// the same arguments, or an apply function added by the pass, with the
/// call's own target value in front of the arguments.
pub open spec fn redirected(old: Ssa, new: Ssa, i: int, y: InstructionId) -> bool {
    let sig = dynamic_call_signature(old.functions@[i].dfg, y)->Some_0;
    let call = old.functions@[i].dfg.instructions@[y as int];
    let now = new.functions@[i].dfg.instructions@[y as int];
    exists|callees: Seq<FunctionId>|
        #[trigger] callees_match(old, sig, callees) && now is Call && new.functions@[i].dfg.values@[now->Call_func as int] is Function && {
            let target = new.functions@[i].dfg.values@[now->Call_func as int]->Function_0;
            &&& callees.len() == 1 ==> target == callees[0] && now->Call_arguments@ == call->Call_arguments@
            &&& callees.len() > 1 ==> {
                &&& old.functions.len() <= target < new.functions.len()
                &&& new.functions@[target as int].runtime == RuntimeType::Acir
                &&& new.functions@[target as int].name@ == "apply"@
                &&& apply_layout(new.functions@[target as int], callees)
                &&& now->Call_arguments@ == seq![call->Call_func] + call->Call_arguments@
            }
        }
}

} // verus!
