//! The SSA intermediate representation that the pass works on: values,
//! instructions, basic blocks, functions and the program that owns them.
//! Every entity is addressed by a small integer handle into an arena.

use vstd::prelude::*;
use vstd::set_lib::*;

verus! {

pub type ValueId = usize;

pub type InstructionId = usize;

pub type BasicBlockId = usize;

pub type FunctionId = usize;

#[derive(Debug, Clone, Copy, PartialEq, Eq, Structural)]
pub enum NumericType {
    Signed { bit_size: u32 },
    Unsigned { bit_size: u32 },
    NativeField,
}

#[derive(Debug, Clone, Copy, PartialEq, Eq, Structural)]
pub enum Type {
    Numeric(NumericType),
    Reference,
    Function,
}

/// A numeric type can be passed where a wider one of the same signedness,
/// or the native field, is expected.
pub open spec fn numeric_widens(a: NumericType, b: NumericType) -> bool {
    match (a, b) {
        (NumericType::Signed { bit_size: x }, NumericType::Signed { bit_size: y }) => x <= y,
        (NumericType::Unsigned { bit_size: x }, NumericType::Unsigned { bit_size: y }) => x <= y,
        (_, NumericType::NativeField) => true,
        _ => false,
    }
}

/// `a` can be passed where `b` is expected.
pub open spec fn widens(a: Type, b: Type) -> bool {
    a == b || match (a, b) {
        (Type::Numeric(x), Type::Numeric(y)) => numeric_widens(x, y),
        _ => false,
    }
}

pub open spec fn cast_result(a: Type, b: Type) -> Option<Type> {
    if widens(a, b) {
        Some(b)
    } else {
        None
    }
}

pub proof fn lemma_widens_transitive(a: Type, b: Type, c: Type)
    requires
        widens(a, b),
        widens(b, c),
    ensures
        widens(a, c),
{
}

impl Type {
    pub fn field() -> (r: Type)
        ensures
            r == Type::Numeric(NumericType::NativeField),
    {
        Type::Numeric(NumericType::NativeField)
    }

    /// Structural equality of two types.
    pub fn is(&self, other: &Type) -> (r: bool)
        ensures
            r == (*self == *other),
    {
        *self == *other
    }

    /// The type that both `self` and `other` can be passed as, when `other`
    /// is at least as wide as `self`.
    pub fn cast_to(&self, other: &Type) -> (r: Option<Type>)
        ensures
            r == cast_result(*self, *other),
    {
        let widens = match (self, other) {
            (Type::Numeric(x), Type::Numeric(y)) => match (x, y) {
                (NumericType::Signed { bit_size: p }, NumericType::Signed { bit_size: q }) => *p
                    <= *q,
                (NumericType::Unsigned { bit_size: p }, NumericType::Unsigned { bit_size: q }) => *p
                    <= *q,
                (_, NumericType::NativeField) => true,
                _ => false,
            },
            _ => *self == *other,
        };
        if widens {
            Some(*other)
        } else {
            None
        }
    }
}

#[derive(Debug, Clone, Copy, PartialEq, Eq, Structural)]
pub enum RuntimeType {
    Acir,
    Brillig,
}

/// A field element below 2^128, which is all this IR needs to hold.
pub type FieldElement = u128;

#[derive(Debug, Clone, Copy, PartialEq, Eq, Structural)]
pub enum Value {
    /// The result at `position` of an instruction.
    Instruction { instruction: InstructionId, position: usize, typ: Type },
    /// The parameter at `position` of a block.
    Param { block: BasicBlockId, position: usize, typ: Type },
    NumericConstant { constant: FieldElement, typ: Type },
    /// A literal reference to a function of the program.
    Function(FunctionId),
}

pub open spec fn value_type(v: Value) -> Type {
    match v {
        Value::Instruction { typ, .. } => typ,
        Value::Param { typ, .. } => typ,
        Value::NumericConstant { typ, .. } => typ,
        Value::Function(_) => Type::Function,
    }
}

/// A value whose contents are only known at run time.
pub open spec fn is_dynamic(v: Value) -> bool {
    v is Instruction || v is Param
}

impl Value {
    pub fn get_type(&self) -> (r: Type)
        ensures
            r == value_type(*self),
    {
        match self {
            Value::Instruction { typ, .. } => *typ,
            Value::Param { typ, .. } => *typ,
            Value::NumericConstant { typ, .. } => *typ,
            Value::Function(_) => Type::Function,
        }
    }
}

#[derive(Debug, Clone, Copy, PartialEq, Eq, Structural)]
pub enum BinaryOp {
    Add,
    Sub,
    Mul,
    Div,
    Eq,
    Lt,
}

#[derive(Debug)]
pub enum Instruction {
    Binary { lhs: ValueId, operator: BinaryOp, rhs: ValueId },
    Call { func: ValueId, arguments: Vec<ValueId> },
    /// Asserts that the value is true.
    Constrain(ValueId),
    Allocate,
    Load { address: ValueId },
    Store { address: ValueId, value: ValueId },
}

#[derive(Debug)]
pub enum Terminator {
    Jmp { destination: BasicBlockId, arguments: Vec<ValueId> },
    JmpIf { condition: ValueId, then_destination: BasicBlockId, else_destination: BasicBlockId },
    Return { return_values: Vec<ValueId> },
}

#[derive(Debug)]
pub struct BasicBlock {
    pub parameters: Vec<ValueId>,
    pub instructions: Vec<InstructionId>,
    pub terminator: Option<Terminator>,
}

/// The arena of one function: its values, its instructions with their result
/// values, and its blocks.
#[derive(Debug)]
pub struct DataFlowGraph {
    pub values: Vec<Value>,
    pub instructions: Vec<Instruction>,
    pub results: Vec<Vec<ValueId>>,
    pub blocks: Vec<BasicBlock>,
}

pub open spec fn ids_below(ids: Seq<usize>, n: int) -> bool {
    forall|i: int| 0 <= i < ids.len() ==> #[trigger] ids[i] < n
}

pub open spec fn instruction_wf(inst: Instruction, nv: int) -> bool {
    match inst {
        Instruction::Binary { lhs, rhs, .. } => lhs < nv && rhs < nv,
        Instruction::Call { func, arguments } => func < nv && ids_below(arguments@, nv),
        Instruction::Constrain(v) => v < nv,
        Instruction::Allocate => true,
        Instruction::Load { address } => address < nv,
        Instruction::Store { address, value } => address < nv && value < nv,
    }
}

pub open spec fn terminator_wf(t: Option<Terminator>, nv: int, nb: int) -> bool {
    match t {
        Some(Terminator::Jmp { destination, arguments }) => destination < nb && ids_below(
            arguments@,
            nv,
        ),
        Some(
            Terminator::JmpIf { condition, then_destination, else_destination },
        ) => condition < nv && then_destination < nb && else_destination < nb,
        Some(Terminator::Return { return_values }) => ids_below(return_values@, nv),
        None => true,
    }
}

pub open spec fn block_wf(b: BasicBlock, nv: int, ni: int, nb: int) -> bool {
    &&& ids_below(b.parameters@, nv)
    &&& ids_below(b.instructions@, ni)
    &&& terminator_wf(b.terminator, nv, nb)
}

/// The blocks that control can pass to from a terminator.
pub open spec fn successors_of(t: Option<Terminator>) -> Seq<BasicBlockId> {
    match t {
        Some(Terminator::Jmp { destination, .. }) => seq![destination],
        Some(Terminator::JmpIf { then_destination, else_destination, .. }) => seq![
            then_destination,
            else_destination,
        ],
        _ => Seq::empty(),
    }
}

pub open spec fn is_path(blocks: Seq<BasicBlock>, p: Seq<BasicBlockId>) -> bool {
    &&& p.len() > 0
    &&& forall|i: int|
        0 <= i < p.len() - 1 ==> successors_of(blocks[#[trigger] p[i] as int].terminator).contains(
            p[i + 1],
        )
}

/// Block `b` can be reached from block `entry` by following terminators.
pub open spec fn reachable(blocks: Seq<BasicBlock>, entry: BasicBlockId, b: BasicBlockId) -> bool {
    exists|p: Seq<BasicBlockId>| is_path(blocks, p) && p[0] == entry && p.last() == b
}

impl DataFlowGraph {
    pub open spec fn wf(&self) -> bool {
        let nv = self.values.len() as int;
        let ni = self.instructions.len() as int;
        let nb = self.blocks.len() as int;
        &&& self.results.len() == ni
        &&& forall|i: int| 0 <= i < ni ==> instruction_wf(#[trigger] self.instructions@[i], nv)
        &&& forall|i: int| 0 <= i < ni ==> ids_below(#[trigger] self.results@[i]@, nv)
        &&& forall|b: int| 0 <= b < nb ==> block_wf(#[trigger] self.blocks@[b], nv, ni, nb)
    }

    pub open spec fn type_of(&self, v: ValueId) -> Type {
        value_type(self.values@[v as int])
    }

    /// The types of a list of values.
    pub open spec fn types_of(&self, ids: Seq<ValueId>) -> Seq<Type> {
        Seq::new(ids.len(), |k: int| self.type_of(ids[k]))
    }

    pub fn type_of_value(&self, v: ValueId) -> (r: Type)
        requires
            v < self.values.len(),
        ensures
            r == self.type_of(v),
    {
        self.values[v].get_type()
    }

    pub fn types_of_values(&self, ids: &Vec<ValueId>) -> (r: Vec<Type>)
        requires
            ids_below(ids@, self.values.len() as int),
        ensures
            r@ == self.types_of(ids@),
    {
        let mut r: Vec<Type> = Vec::new();
        for k in 0..ids.len()
            invariant
                ids_below(ids@, self.values.len() as int),
                r@ == self.types_of(ids@.take(k as int)),
        {
            r.push(self.type_of_value(ids[k]));
            assert(r@ =~= self.types_of(ids@.take(k + 1)));
        }
        assert(ids@.take(ids.len() as int) =~= ids@);
        r
    }

    pub fn successors(&self, b: BasicBlockId) -> (r: Vec<BasicBlockId>)
        requires
            b < self.blocks.len(),
        ensures
            r@ == successors_of(self.blocks@[b as int].terminator),
    {
        match &self.blocks[b].terminator {
            Some(Terminator::Jmp { destination, .. }) => vec![*destination],
            Some(Terminator::JmpIf { then_destination, else_destination, .. }) => vec![
                *then_destination,
                *else_destination,
            ],
            _ => Vec::new(),
        }
    }
}

proof fn lemma_distinct_below(s: Seq<usize>, n: int)
    requires
        s.no_duplicates(),
        forall|i: int| 0 <= i < s.len() ==> s[i] < n,
        0 <= n,
    ensures
        s.len() <= n,
{
    let t = s.map_values(|x: usize| x as int);
    assert(t.no_duplicates()) by {
        assert forall|i: int, j: int| 0 <= i < t.len() && 0 <= j < t.len() && i != j implies t[i]
            != t[j] by {
            assert(s[i] != s[j]);
        }
    }
    t.unique_seq_to_set();
    lemma_int_range(0, n);
    assert(t.to_set().subset_of(set_int_range(0, n))) by {
        assert forall|x: int| t.to_set().contains(x) implies set_int_range(0, n).contains(x) by {
            let i = choose|i: int| 0 <= i < t.len() && t[i] == x;
            assert(s[i] < n);
        }
    }
    lemma_len_subset(t.to_set(), set_int_range(0, n));
}

/// Every block on a path that starts in a successor-closed set stays in it.
proof fn lemma_path_in_closed(blocks: Seq<BasicBlock>, p: Seq<BasicBlockId>, order: Seq<usize>)
    requires
        is_path(blocks, p),
        order.contains(p[0]),
        forall|j: int, s: BasicBlockId|
            0 <= j < order.len() && #[trigger] successors_of(blocks[order[j] as int].terminator).contains(s)
                ==> order.contains(s),
    ensures
        order.contains(p.last()),
    decreases p.len(),
{
    if p.len() > 1 {
        let q = p.drop_last();
        assert(is_path(blocks, q)) by {
            assert forall|i: int| 0 <= i < q.len() - 1 implies successors_of(
                blocks[#[trigger] q[i] as int].terminator,
            ).contains(q[i + 1]) by {
                assert(p[i] == q[i] && p[i + 1] == q[i + 1]);
            }
        }
        lemma_path_in_closed(blocks, q, order);
        let j = choose|j: int| 0 <= j < order.len() && order[j] == q.last();
        assert(p[p.len() - 2] == q.last());
        assert(successors_of(blocks[p[p.len() - 2] as int].terminator).contains(p.last()));
    }
}

pub proof fn lemma_path_extend(blocks: Seq<BasicBlock>, p: Seq<BasicBlockId>, s: BasicBlockId)
    requires
        is_path(blocks, p),
        successors_of(blocks[p.last() as int].terminator).contains(s),
    ensures
        is_path(blocks, p.push(s)),
        p.push(s)[0] == p[0],
        p.push(s).last() == s,
{
    let q = p.push(s);
    assert forall|i: int| 0 <= i < q.len() - 1 implies successors_of(
        blocks[#[trigger] q[i] as int].terminator,
    ).contains(q[i + 1]) by {
        if i < p.len() - 1 {
            assert(q[i] == p[i] && q[i + 1] == p[i + 1]);
        }
    }
}

#[derive(Debug)]
pub struct Function {
    pub name: String,
    pub id: FunctionId,
    pub entry_block: BasicBlockId,
    pub runtime: RuntimeType,
    pub dfg: DataFlowGraph,
}

impl Function {
    pub open spec fn wf(&self) -> bool {
        &&& self.dfg.wf()
        &&& self.entry_block < self.dfg.blocks.len()
    }

    pub open spec fn is_reachable(&self, b: BasicBlockId) -> bool {
        reachable(self.dfg.blocks@, self.entry_block, b)
    }

    /// The blocks reachable from the entry block, each once, the entry first.
    pub fn reachable_blocks(&self) -> (r: Vec<BasicBlockId>)
        requires
            self.wf(),
        ensures
            r@.no_duplicates(),
            r@.len() > 0,
            r@[0] == self.entry_block,
            forall|j: int| 0 <= j < r@.len() ==> #[trigger] r@[j] < self.dfg.blocks.len(),
            forall|b: BasicBlockId| #[trigger] r@.contains(b) <==> self.is_reachable(b),
    {
        let n = self.dfg.blocks.len();
        let ghost blocks = self.dfg.blocks@;
        let mut visited: Vec<bool> = Vec::new();
        for k in 0..n
            invariant
                visited.len() == k,
                forall|j: int| 0 <= j < k ==> !visited@[j],
        {
            visited.push(false);
        }
        let mut order: Vec<BasicBlockId> = Vec::new();
        order.push(self.entry_block);
        visited.set(self.entry_block, true);
        assert(reachable(blocks, self.entry_block, self.entry_block)) by {
            let p = seq![self.entry_block];
            assert(is_path(blocks, p) && p[0] == self.entry_block && p.last() == self.entry_block);
        }
        assert(order@[0] == self.entry_block);
        assert forall|b: int| 0 <= b < n && visited@[b] implies order@.contains(b as usize) by {
            assert(b == self.entry_block);
            assert(order@[0] == b as usize);
        }
        let mut i: usize = 0;
        while i < order.len()
            invariant
                self.wf(),
                blocks == self.dfg.blocks@,
                n == blocks.len(),
                visited.len() == n,
                order@.len() > 0,
                order@[0] == self.entry_block,
                i <= order.len() <= n,
                order@.no_duplicates(),
                forall|j: int| 0 <= j < order.len() ==> #[trigger] order@[j] < n,
                forall|j: int| 0 <= j < order.len() ==> visited@[#[trigger] order@[j] as int],
                forall|b: int| 0 <= b < n && visited@[b] ==> order@.contains(b as usize),
                forall|j: int|
                    0 <= j < order.len() ==> reachable(blocks, self.entry_block, #[trigger] order@[j]),
                forall|j: int, s: BasicBlockId|
                    0 <= j < i && #[trigger] successors_of(blocks[order@[j] as int].terminator).contains(s)
                        ==> order@.contains(s),
            decreases n - i,
        {
            let b = order[i];
            let succ = self.dfg.successors(b);
            assert(block_wf(blocks[b as int], self.dfg.values.len() as int, self.dfg.instructions.len() as int, n as int));
            let ghost before = order@;
            for k in 0..succ.len()
                invariant
                    self.wf(),
                    blocks == self.dfg.blocks@,
                    n == blocks.len(),
                    b == order@[i as int],
                    i < order.len() <= n,
                    before.len() <= order@.len(),
                    forall|j: int| 0 <= j < before.len() ==> order@[j] == before[j],
                    succ@ == successors_of(blocks[b as int].terminator),
                    forall|j: int| 0 <= j < succ.len() ==> #[trigger] succ@[j] < n,
                    visited.len() == n,
                    order@.len() > 0,
                    order@[0] == self.entry_block,
                    order@.no_duplicates(),
                    forall|j: int| 0 <= j < order.len() ==> #[trigger] order@[j] < n,
                    forall|j: int| 0 <= j < order.len() ==> visited@[#[trigger] order@[j] as int],
                    forall|c: int| 0 <= c < n && visited@[c] ==> order@.contains(c as usize),
                    forall|j: int|
                        0 <= j < order.len() ==> reachable(blocks, self.entry_block, #[trigger] order@[j]),
                    forall|j: int, s: BasicBlockId|
                        0 <= j < i && #[trigger] successors_of(blocks[order@[j] as int].terminator).contains(s)
                            ==> order@.contains(s),
                    forall|j: int| 0 <= j < k ==> order@.contains(#[trigger] succ@[j]),
            {
                let s = succ[k];
                if !visited[s] {
                    assert(!order@.contains(s));
                    assert(reachable(blocks, self.entry_block, s)) by {
                        let p = choose|p: Seq<BasicBlockId>|
                            is_path(blocks, p) && p[0] == self.entry_block && p.last() == b;
                        lemma_path_extend(blocks, p, s);
                    }
                    proof {
                        lemma_distinct_below(order@.push(s), n as int);
                    }
                    let ghost prev = order@;
                    order.push(s);
                    visited.set(s, true);
                    assert(order@.last() == s);
                    assert forall|x: usize| prev.contains(x) implies #[trigger] order@.contains(x) by {
                        let j = choose|j: int| 0 <= j < prev.len() && prev[j] == x;
                        assert(order@[j] == x);
                    }
                }
                assert(order@.contains(s));
            }
            assert forall|j: int, s: BasicBlockId|
                0 <= j < i + 1 && #[trigger] successors_of(blocks[order@[j] as int].terminator).contains(s)
                    implies order@.contains(s) by {
                if j == i {
                    let k = choose|k: int| 0 <= k < succ.len() && succ@[k] == s;
                    assert(order@.contains(succ@[k]));
                }
            }
            i = i + 1;
        }
        assert forall|c: BasicBlockId| #[trigger] order@.contains(c) <==> self.is_reachable(c) by {
            if self.is_reachable(c) {
                let p = choose|p: Seq<BasicBlockId>|
                    is_path(blocks, p) && p[0] == self.entry_block && p.last() == c;
                lemma_path_in_closed(blocks, p, order@);
            }
        }
        order
    }
}


/// The values returned by the first block, in index order from `i`, that ends
/// in a return.
pub open spec fn return_values_from(blocks: Seq<BasicBlock>, i: int) -> Seq<ValueId>
    decreases blocks.len() - i,
{
    if i < 0 || i >= blocks.len() {
        Seq::empty()
    } else {
        match blocks[i].terminator {
            Some(Terminator::Return { return_values }) => return_values@,
            _ => return_values_from(blocks, i + 1),
        }
    }
}

/// A function's declared parameter and return types.
pub open spec fn signature_of(f: Function) -> (Seq<Type>, Seq<Type>) {
    (
        f.dfg.types_of(f.dfg.blocks@[f.entry_block as int].parameters@),
        f.dfg.types_of(return_values_from(f.dfg.blocks@, 0)),
    )
}

#[derive(Debug)]
pub struct Signature {
    pub params: Vec<Type>,
    pub return_types: Vec<Type>,
}

impl View for Signature {
    type V = (Seq<Type>, Seq<Type>);

    open spec fn view(&self) -> (Seq<Type>, Seq<Type>) {
        (self.params@, self.return_types@)
    }
}

impl Signature {
    /// The signature of a function: the types of its entry block's parameters
    /// and of the values that it returns.
    pub fn of(f: &Function) -> (r: Signature)
        requires
            f.wf(),
        ensures
            r@ == signature_of(*f),
    {
        let blocks = &f.dfg.blocks;
        assert(block_wf(blocks@[f.entry_block as int], f.dfg.values.len() as int, f.dfg.instructions.len() as int, blocks.len() as int));
        let params = f.dfg.types_of_values(&blocks[f.entry_block].parameters);
        let mut i: usize = 0;
        let mut return_types: Vec<Type> = Vec::new();
        while i < blocks.len()
            invariant
                f.wf(),
                blocks == &f.dfg.blocks,
                i <= blocks.len(),
                return_values_from(blocks@, i as int) == return_values_from(blocks@, 0),
                params@ == signature_of(*f).0,
                return_types@.len() == 0,
            decreases blocks.len() - i,
        {
            match &blocks[i].terminator {
                Some(Terminator::Return { return_values }) => {
                    assert(block_wf(blocks@[i as int], f.dfg.values.len() as int, f.dfg.instructions.len() as int, blocks.len() as int));
                    return_types = f.dfg.types_of_values(return_values);
                    return Signature { params, return_types };
                },
                _ => {
                    assert(return_values_from(blocks@, i as int) == return_values_from(
                        blocks@,
                        i + 1,
                    ));
                },
            }
            i = i + 1;
        }
        assert(return_values_from(blocks@, i as int) == Seq::<ValueId>::empty());
        assert(return_types@ =~= f.dfg.types_of(return_values_from(blocks@, 0)));
        Signature { params, return_types }
    }
}

/// A whole program: its functions, indexed by their identifiers.
#[derive(Debug)]
pub struct Ssa {
    pub functions: Vec<Function>,
    pub main_id: FunctionId,
}

impl Ssa {
    pub open spec fn wf(&self) -> bool {
        &&& forall|i: int| 0 <= i < self.functions.len() ==> (#[trigger] self.functions@[i]).wf()
        &&& forall|i: int| 0 <= i < self.functions.len() ==> (#[trigger] self.functions@[i]).id == i
        &&& forall|i: int, v: int|
            0 <= i < self.functions.len() && 0 <= v < self.functions@[i].dfg.values.len() && (
            #[trigger] self.functions@[i].dfg.values@[v]) is Function
                ==> self.functions@[i].dfg.values@[v]->Function_0 < self.functions.len()
    }
}

impl DataFlowGraph {
    pub fn new() -> (r: DataFlowGraph)
        ensures
            r.wf(),
            r.values@.len() == 0,
            r.instructions@.len() == 0,
            r.blocks@.len() == 0,
    {
        DataFlowGraph {
            values: Vec::new(),
            instructions: Vec::new(),
            results: Vec::new(),
            blocks: Vec::new(),
        }
    }

    pub fn add_value(&mut self, v: Value) -> (r: ValueId)
        requires
            old(self).wf(),
        ensures
            final(self).wf(),
            r == old(self).values.len(),
            final(self).values@ == old(self).values@.push(v),
            final(self).instructions@ == old(self).instructions@,
            final(self).results@ == old(self).results@,
            final(self).blocks@ == old(self).blocks@,
    {
        let r = self.values.len();
        self.values.push(v);
        assert forall|i: int| 0 <= i < self.instructions.len() implies instruction_wf(
            #[trigger] self.instructions@[i],
            self.values.len() as int,
        ) by {
            assert(instruction_wf(old(self).instructions@[i], old(self).values.len() as int));
        }
        assert forall|b: int| 0 <= b < self.blocks.len() implies block_wf(
            #[trigger] self.blocks@[b],
            self.values.len() as int,
            self.instructions.len() as int,
            self.blocks.len() as int,
        ) by {
            assert(block_wf(old(self).blocks@[b], old(self).values.len() as int, self.instructions.len() as int, self.blocks.len() as int));
        }
        r
    }

    pub fn make_constant(&mut self, constant: FieldElement, typ: Type) -> (r: ValueId)
        requires
            old(self).wf(),
        ensures
            final(self).wf(),
            r == old(self).values.len(),
            final(self).values@ == old(self).values@.push(Value::NumericConstant { constant, typ }),
            final(self).instructions@ == old(self).instructions@,
            final(self).results@ == old(self).results@,
            final(self).blocks@ == old(self).blocks@,
    {
        self.add_value(Value::NumericConstant { constant, typ })
    }

    /// A fresh value that refers to the function `id`.
    pub fn import_function(&mut self, id: FunctionId) -> (r: ValueId)
        requires
            old(self).wf(),
        ensures
            final(self).wf(),
            r == old(self).values.len(),
            final(self).values@ == old(self).values@.push(Value::Function(id)),
            final(self).instructions@ == old(self).instructions@,
            final(self).results@ == old(self).results@,
            final(self).blocks@ == old(self).blocks@,
    {
        self.add_value(Value::Function(id))
    }

    pub fn insert_block(&mut self) -> (r: BasicBlockId)
        requires
            old(self).wf(),
        ensures
            final(self).wf(),
            r == old(self).blocks.len(),
            final(self).values@ == old(self).values@,
            final(self).instructions@ == old(self).instructions@,
            final(self).results@ == old(self).results@,
            final(self).blocks@.len() == old(self).blocks@.len() + 1,
            forall|b: int| 0 <= b < old(self).blocks.len() ==> #[trigger] final(self).blocks@[b] == old(self).blocks@[b],
            final(self).blocks@[r as int].parameters@.len() == 0,
            final(self).blocks@[r as int].instructions@.len() == 0,
            final(self).blocks@[r as int].terminator is None,
    {
        let r = self.blocks.len();
        self.blocks.push(BasicBlock { parameters: Vec::new(), instructions: Vec::new(), terminator: None });
        assert forall|b: int| 0 <= b < self.blocks.len() implies block_wf(
            #[trigger] self.blocks@[b],
            self.values.len() as int,
            self.instructions.len() as int,
            self.blocks.len() as int,
        ) by {
            if b < r {
                assert(block_wf(old(self).blocks@[b], self.values.len() as int, self.instructions.len() as int, old(self).blocks.len() as int));
                assert(self.blocks@[b] == old(self).blocks@[b]);
                match self.blocks@[b].terminator {
                    Some(Terminator::Jmp { .. }) => {},
                    _ => {},
                }
            }
        }
        r
    }
}


/// `new` has as many blocks as `old`, and all but block `b` are unchanged.
pub open spec fn others_kept(old: Seq<BasicBlock>, new: Seq<BasicBlock>, b: int) -> bool {
    &&& new.len() == old.len()
    &&& forall|c: int| 0 <= c < old.len() && c != b ==> #[trigger] new[c] == old[c]
}

impl DataFlowGraph {
    pub fn add_block_parameter(&mut self, b: BasicBlockId, typ: Type) -> (r: ValueId)
        requires
            old(self).wf(),
            b < old(self).blocks.len(),
        ensures
            final(self).wf(),
            r == old(self).values.len(),
            final(self).values@ == old(self).values@.push(
                Value::Param { block: b, position: old(self).blocks@[b as int].parameters.len(), typ },
            ),
            final(self).instructions@ == old(self).instructions@,
            final(self).results@ == old(self).results@,
            others_kept(old(self).blocks@, final(self).blocks@, b as int),
            final(self).blocks@[b as int].parameters@ == old(self).blocks@[b as int].parameters@.push(r),
            final(self).blocks@[b as int].instructions@ == old(self).blocks@[b as int].instructions@,
            final(self).blocks@[b as int].terminator == old(self).blocks@[b as int].terminator,
    {
        let position = self.blocks[b].parameters.len();
        let r = self.add_value(Value::Param { block: b, position, typ });
        let ghost mid = self.blocks@;
        assert(block_wf(mid[b as int], self.values.len() as int, self.instructions.len() as int, mid.len() as int));
        self.blocks[b].parameters.push(r);
        assert forall|c: int| 0 <= c < self.blocks.len() implies block_wf(
            #[trigger] self.blocks@[c],
            self.values.len() as int,
            self.instructions.len() as int,
            self.blocks.len() as int,
        ) by {
            assert(block_wf(mid[c], self.values.len() as int, self.instructions.len() as int, mid.len() as int));
        }
        r
    }

    pub fn terminate(&mut self, b: BasicBlockId, t: Terminator)
        requires
            old(self).wf(),
            b < old(self).blocks.len(),
            terminator_wf(Some(t), old(self).values.len() as int, old(self).blocks.len() as int),
        ensures
            final(self).wf(),
            final(self).values@ == old(self).values@,
            final(self).instructions@ == old(self).instructions@,
            final(self).results@ == old(self).results@,
            others_kept(old(self).blocks@, final(self).blocks@, b as int),
            final(self).blocks@[b as int].parameters@ == old(self).blocks@[b as int].parameters@,
            final(self).blocks@[b as int].instructions@ == old(self).blocks@[b as int].instructions@,
            final(self).blocks@[b as int].terminator == Some(t),
    {
        let ghost mid = self.blocks@;
        assert(block_wf(mid[b as int], self.values.len() as int, self.instructions.len() as int, mid.len() as int));
        self.blocks[b].terminator = Some(t);
        assert forall|c: int| 0 <= c < self.blocks.len() implies block_wf(
            #[trigger] self.blocks@[c],
            self.values.len() as int,
            self.instructions.len() as int,
            self.blocks.len() as int,
        ) by {
            assert(block_wf(mid[c], self.values.len() as int, self.instructions.len() as int, mid.len() as int));
        }
    }

    /// Appends an instruction to block `b`, with one fresh result value for
    /// each of `result_types`.
    pub fn insert_instruction(&mut self, b: BasicBlockId, inst: Instruction, result_types: &Vec<Type>) -> (r: InstructionId)
        requires
            old(self).wf(),
            b < old(self).blocks.len(),
            instruction_wf(inst, old(self).values.len() as int),
        ensures
            final(self).wf(),
            r == old(self).instructions.len(),
            final(self).values@.len() == old(self).values@.len() + result_types@.len(),
            forall|v: int| 0 <= v < old(self).values.len() ==> #[trigger] final(self).values@[v] == old(self).values@[v],
            forall|k: int| 0 <= k < result_types@.len() ==> #[trigger] final(self).values@[old(self).values.len() + k] == (Value::Instruction { instruction: r, position: k as usize, typ: result_types@[k] }),
            forall|v: int| old(self).values.len() <= v < final(self).values.len() ==> (#[trigger] final(self).values@[v]) is Instruction,
            final(self).instructions@ == old(self).instructions@.push(inst),
            final(self).results@.len() == old(self).results@.len() + 1,
            forall|i: int| 0 <= i < old(self).results.len() ==> #[trigger] final(self).results@[i] == old(self).results@[i],
            final(self).results@[r as int]@ == Seq::new(result_types@.len(), |k: int| (old(self).values.len() + k) as usize),
            others_kept(old(self).blocks@, final(self).blocks@, b as int),
            final(self).blocks@[b as int].parameters@ == old(self).blocks@[b as int].parameters@,
            final(self).blocks@[b as int].instructions@ == old(self).blocks@[b as int].instructions@.push(r),
            final(self).blocks@[b as int].terminator == old(self).blocks@[b as int].terminator,
    {
        let r = self.instructions.len();
        let nv = self.values.len();
        let mut results: Vec<ValueId> = Vec::new();
        for k in 0..result_types.len()
            invariant
                self.wf(),
                self.instructions@ == old(self).instructions@,
                self.results@ == old(self).results@,
                self.blocks@ == old(self).blocks@,
                nv == old(self).values.len(),
                r == old(self).instructions.len(),
                self.values@.len() == nv + k,
                forall|v: int| 0 <= v < nv ==> #[trigger] self.values@[v] == old(self).values@[v],
                forall|j: int| 0 <= j < k ==> #[trigger] self.values@[nv + j] == (Value::Instruction { instruction: r, position: j as usize, typ: result_types@[j] }),
                results@ == Seq::new(k as nat, |j: int| (nv + j) as usize),
                instruction_wf(inst, nv as int),
        {
            let v = self.add_value(Value::Instruction { instruction: r, position: k, typ: result_types[k] });
            results.push(v);
            assert(results@ =~= Seq::new((k + 1) as nat, |j: int| (nv + j) as usize));
        }
        assert forall|v: int| nv <= v < self.values.len() implies (#[trigger] self.values@[v]) is Instruction by {
            let j = v - nv;
            assert(self.values@[nv + j] == (Value::Instruction { instruction: r, position: j as usize, typ: result_types@[j] }));
        }
        let ghost nv2 = self.values.len();
        self.instructions.push(inst);
        self.results.push(results);
        let ghost mid = self.blocks@;
        assert(block_wf(mid[b as int], nv2 as int, r as int, mid.len() as int));
        self.blocks[b].instructions.push(r);
        assert forall|i: int| 0 <= i < self.instructions.len() implies instruction_wf(
            #[trigger] self.instructions@[i],
            self.values.len() as int,
        ) by {
            if i < r {
                assert(instruction_wf(old(self).instructions@[i], nv as int));
            }
            match self.instructions@[i] {
                Instruction::Call { .. } => {},
                _ => {},
            }
        }
        assert forall|i: int| 0 <= i < self.instructions.len() implies ids_below(
            #[trigger] self.results@[i]@,
            self.values.len() as int,
        ) by {
            if i < r {
                assert(ids_below(old(self).results@[i]@, nv as int));
            }
        }
        assert forall|c: int| 0 <= c < self.blocks.len() implies block_wf(
            #[trigger] self.blocks@[c],
            self.values.len() as int,
            self.instructions.len() as int,
            self.blocks.len() as int,
        ) by {
            assert(block_wf(mid[c], nv2 as int, r as int, mid.len() as int));
            match self.blocks@[c].terminator {
                Some(Terminator::Jmp { .. }) => {},
                _ => {},
            }
        }
        r
    }
}


impl DataFlowGraph {
    /// Replaces instruction `x` in place; its results and blocks stay.
    pub fn replace_instruction(&mut self, x: InstructionId, inst: Instruction)
        requires
            old(self).wf(),
            x < old(self).instructions.len(),
            instruction_wf(inst, old(self).values.len() as int),
        ensures
            final(self).wf(),
            final(self).values@ == old(self).values@,
            final(self).instructions@ == old(self).instructions@.update(x as int, inst),
            final(self).results@ == old(self).results@,
            final(self).blocks@ == old(self).blocks@,
    {
        self.instructions.set(x, inst);
        assert forall|i: int| 0 <= i < self.instructions.len() implies instruction_wf(
            #[trigger] self.instructions@[i],
            self.values.len() as int,
        ) by {
            if i != x {
                assert(instruction_wf(old(self).instructions@[i], self.values.len() as int));
            }
        }
    }

    /// Replaces value `v` in place, so that every use of `v` sees the new
    /// value.
    pub fn set_value(&mut self, v: ValueId, value: Value)
        requires
            old(self).wf(),
            v < old(self).values.len(),
        ensures
            final(self).wf(),
            final(self).values@ == old(self).values@.update(v as int, value),
            final(self).instructions@ == old(self).instructions@,
            final(self).results@ == old(self).results@,
            final(self).blocks@ == old(self).blocks@,
    {
        self.values.set(v, value);
        assert forall|i: int| 0 <= i < self.instructions.len() implies instruction_wf(
            #[trigger] self.instructions@[i],
            self.values.len() as int,
        ) by {
            assert(instruction_wf(old(self).instructions@[i], self.values.len() as int));
        }
        assert forall|b: int| 0 <= b < self.blocks.len() implies block_wf(
            #[trigger] self.blocks@[b],
            self.values.len() as int,
            self.instructions.len() as int,
            self.blocks.len() as int,
        ) by {
            assert(block_wf(old(self).blocks@[b], self.values.len() as int, self.instructions.len() as int, self.blocks.len() as int));
        }
    }
}

} // verus!
