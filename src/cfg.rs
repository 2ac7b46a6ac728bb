use vstd::prelude::*;

verus! {

/// How a basic block hands on control.
#[derive(Clone, Copy, Debug, PartialEq, Eq, Structural)]
pub enum Terminator {
    /// Falls through; never a resolved terminator.
    Normal,
    Ret,
    Abort,
    Branch { target: usize },
    IfElse { if_block: usize, else_block: usize },
    /// A structured loop: `inner_block` starts the body, `outer_block`
    /// follows the loop.
    While { inner_block: usize, outer_block: usize },
    Break { target: usize },
    Continue { target: usize },
}

/// Why structuring gave up on a function.
#[derive(Clone, Copy, Debug, PartialEq, Eq, Structural)]
pub enum StructureError {
    /// A cyclic region is entered from outside at more than one node.
    MultipleEntries,
    /// A cyclic region is never entered from outside.
    DeadBlock,
    /// A loop entry's condition jumps neither into the loop nor to its exit.
    MalformedLoopEntry,
    /// A block still falls through.
    UnsupportedTerminator,
    /// The ordering constraints form a cycle.
    ConstraintCycle,
}

/// The blocks that a terminator may hand control to.
pub open spec fn targets(t: Terminator) -> Seq<usize> {
    match t {
        Terminator::Normal | Terminator::Ret | Terminator::Abort => seq![],
        Terminator::Branch { target } => seq![target],
        Terminator::Break { target } => seq![target],
        Terminator::Continue { target } => seq![target],
        Terminator::IfElse { if_block, else_block } => seq![if_block, else_block],
        Terminator::While { inner_block, outer_block } => seq![inner_block, outer_block],
    }
}

impl Terminator {
    /// The blocks this terminator may hand control to.
    pub fn next_blocks(&self) -> (r: Vec<usize>)
        ensures
            r@ == targets(*self),
    {
        match *self {
            Terminator::Normal | Terminator::Ret | Terminator::Abort => Vec::new(),
            Terminator::Branch { target } => vec![target],
            Terminator::Break { target } => vec![target],
            Terminator::Continue { target } => vec![target],
            Terminator::IfElse { if_block, else_block } => vec![if_block, else_block],
            Terminator::While { inner_block, outer_block } => vec![inner_block, outer_block],
        }
    }
}

/// A block that structuring adds carries this offset.
pub const SYNTHETIC_OFFSET: usize = usize::MAX;

/// Marks, in `unconditional_loop_entry`, a loop that nothing leaves.
pub const NO_EXIT: usize = usize::MAX;

/// A node of the control-flow graph.
#[derive(Debug, Clone)]
pub struct BasicBlock {
    /// Position in the block array.
    pub idx: usize,
    /// Offset in the bytecode, or `SYNTHETIC_OFFSET`.
    pub offset: usize,
    pub next: Terminator,
    /// Sort priority; `None` derives it from the position.
    pub topo_priority: Option<usize>,
    /// Blocks that must be emitted after this one.
    pub topo_before: Vec<usize>,
    /// Blocks that must be emitted before this one.
    pub topo_after: Vec<usize>,
    /// For a loop entry that is no plain condition: the block after the
    /// loop, or `NO_EXIT`.
    pub unconditional_loop_entry: Option<usize>,
}

impl BasicBlock {
    /// A block at `idx` from bytecode `offset`, with no ordering constraints.
    pub fn new(idx: usize, offset: usize, next: Terminator) -> (r: BasicBlock)
        ensures
            r.idx == idx,
            r.offset == offset,
            r.next == next,
            r.topo_priority.is_none(),
            r.topo_before@.len() == 0,
            r.topo_after@.len() == 0,
            r.unconditional_loop_entry.is_none(),
    {
        BasicBlock {
            idx,
            offset,
            next,
            topo_priority: None,
            topo_before: Vec::new(),
            topo_after: Vec::new(),
            unconditional_loop_entry: None,
        }
    }
}

/// `a` and `b` hold the same values.
pub open spec fn same_block(a: BasicBlock, b: BasicBlock) -> bool {
    &&& a.idx == b.idx
    &&& a.offset == b.offset
    &&& a.next == b.next
    &&& a.topo_priority == b.topo_priority
    &&& a.topo_before@ == b.topo_before@
    &&& a.topo_after@ == b.topo_after@
    &&& a.unconditional_loop_entry == b.unconditional_loop_entry
}

fn copy_ids(v: &Vec<usize>) -> (r: Vec<usize>)
    ensures
        r@ == v@,
{
    let mut r: Vec<usize> = Vec::new();
    let mut i: usize = 0;
    while i < v.len()
        invariant
            i <= v@.len(),
            r@ == v@.subrange(0, i as int),
        decreases v@.len() - i,
    {
        r.push(v[i]);
        i = i + 1;
        assert(r@ =~= v@.subrange(0, i as int));
    }
    assert(v@.subrange(0, v@.len() as int) =~= v@);
    r
}

impl BasicBlock {
    /// A block with the same values as this one.
    pub fn duplicate(&self) -> (r: BasicBlock)
        ensures
            same_block(r, *self),
    {
        BasicBlock {
            idx: self.idx,
            offset: self.offset,
            next: self.next,
            topo_priority: self.topo_priority,
            topo_before: copy_ids(&self.topo_before),
            topo_after: copy_ids(&self.topo_after),
            unconditional_loop_entry: self.unconditional_loop_entry,
        }
    }
}

/// A copy of every block of `bbs`.
pub fn duplicate_all(bbs: &Vec<BasicBlock>) -> (r: Vec<BasicBlock>)
    ensures
        r@.len() == bbs@.len(),
        forall|i: int| 0 <= i < bbs@.len() ==> same_block(#[trigger] r@[i], bbs@[i]),
{
    let mut r: Vec<BasicBlock> = Vec::new();
    let mut i: usize = 0;
    while i < bbs.len()
        invariant
            i <= bbs@.len(),
            r@.len() == i,
            forall|j: int| 0 <= j < i ==> same_block(#[trigger] r@[j], bbs@[j]),
        decreases bbs@.len() - i,
    {
        r.push(bbs[i].duplicate());
        i = i + 1;
    }
    r
}

/// Every target of every block, and every ordering constraint, names a
/// block of `bbs`; each block's `idx` is its position.
pub open spec fn blocks_wf(bbs: Seq<BasicBlock>) -> bool {
    forall|i: int| 0 <= i < bbs.len() ==> block_wf(#[trigger] bbs[i], i, bbs.len() as int)
}

pub open spec fn block_wf(b: BasicBlock, i: int, n: int) -> bool {
    &&& b.idx == i
    &&& forall|k: int| 0 <= k < targets(b.next).len() ==> #[trigger] targets(b.next)[k] < n
    &&& forall|k: int| 0 <= k < b.topo_before@.len() ==> #[trigger] b.topo_before@[k] < n
    &&& forall|k: int| 0 <= k < b.topo_after@.len() ==> #[trigger] b.topo_after@[k] < n
    &&& b.unconditional_loop_entry matches Some(x) ==> x < n || x == NO_EXIT
}

} // verus!
