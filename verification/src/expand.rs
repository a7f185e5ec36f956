//! A pass that replaces each statement of a block by the statements an
//! extender function gives for it.
use vstd::prelude::*;

use crate::mir::{BasicBlock, BasicBlockData, Location, Mir, Statement};

verus! {

/// The statements of `outs`, one vector after the other.
pub open spec fn flatten(outs: Seq<Vec<Statement>>) -> Seq<Statement>
    decreases outs.len(),
{
    if outs.len() == 0 {
        Seq::empty()
    } else {
        flatten(outs.drop_last()) + outs.last()@
    }
}

/// `outs` holds, for each statement of `stmts` in block `block`, what a
/// call of `f` on the block, the statement and its location can return.
pub open spec fn extended<E: Fn(BasicBlock, Statement, Location) -> Vec<Statement>>(
    f: E,
    block: BasicBlock,
    stmts: Seq<Statement>,
    outs: Seq<Vec<Statement>>,
) -> bool {
    &&& outs.len() == stmts.len()
    &&& forall|i: int|
        0 <= i < stmts.len() ==> call_ensures(
            f,
            (block, stmts[i], Location { block, statement_index: i as usize }),
            #[trigger] outs[i],
        )
}

/// Block `new` is block `old` (number `block`) with each statement replaced
/// by what `f` gives for it, in order; its terminator stays.
pub open spec fn block_extended<E: Fn(BasicBlock, Statement, Location) -> Vec<Statement>>(
    f: E,
    block: BasicBlock,
    old: BasicBlockData,
    new: BasicBlockData,
) -> bool {
    &&& new.terminator == old.terminator
    &&& new.is_cleanup == old.is_cleanup
    &&& exists|outs: Seq<Vec<Statement>>|
        extended(f, block, old.statements@, outs) && new.statements@ == flatten(outs)
}

/// Replaces each statement of a block by the statements `extender` gives
/// for it.
pub struct ExtenderMirPass<E> {
    pub extender: E,
}

impl<E: Fn(BasicBlock, Statement, Location) -> Vec<Statement>> ExtenderMirPass<E> {
    pub fn new(extender: E) -> (r: ExtenderMirPass<E>)
        ensures
            r.extender == extender,
    {
        ExtenderMirPass { extender }
    }

    /// Block `block` with each statement replaced by what the extender
    /// gives for it, at its location.
    pub fn visit_basic_block_data(&self, block: BasicBlock, data: &mut BasicBlockData)
        requires
            forall|b: BasicBlock, s: Statement, l: Location| call_requires(self.extender, (b, s, l)),
        ensures
            block_extended(self.extender, block, *old(data), *final(data)),
    {
        let ghost stmts = data.statements@;
        let mut rest: Vec<Statement> = Vec::new();
        std::mem::swap(&mut rest, &mut data.statements);
        let n = rest.len();
        let mut new_statements: Vec<Statement> = Vec::new();
        let ghost mut outs: Seq<Vec<Statement>> = Seq::empty();
        let mut index: usize = 0;
        while index < n
            invariant
                n == stmts.len(),
                index <= n,
                rest@ == stmts.subrange(index as int, n as int),
                forall|b: BasicBlock, s: Statement, l: Location| call_requires(self.extender, (b, s, l)),
                outs.len() == index,
                forall|i: int|
                    0 <= i < index ==> call_ensures(
                        self.extender,
                        (block, stmts[i], Location { block, statement_index: i as usize }),
                        #[trigger] outs[i],
                    ),
                new_statements@ == flatten(outs),
            decreases n - index,
        {
            let statement = rest.remove(0);
            let location = Location { block, statement_index: index };
            let mut out = (self.extender)(block, statement, location);
            let ghost out_v = out;
            proof {
                assert(outs.push(out_v).drop_last() =~= outs);
            }
            new_statements.append(&mut out);
            proof {
                outs = outs.push(out_v);
            }
            index = index + 1;
        }
        proof {
            assert(extended(self.extender, block, stmts, outs));
        }
        data.statements = new_statements;
    }

    /// Every block of `mir` extended.
    pub fn visit_mir(&self, mir: &mut Mir)
        requires
            forall|b: BasicBlock, s: Statement, l: Location| call_requires(self.extender, (b, s, l)),
        ensures
            final(mir).local_decls == old(mir).local_decls,
            final(mir).arg_count == old(mir).arg_count,
            final(mir).return_ty == old(mir).return_ty,
            final(mir).basic_blocks@.len() == old(mir).basic_blocks@.len(),
            forall|b: int|
                0 <= b < old(mir).basic_blocks@.len() ==> block_extended(
                    self.extender,
                    b as usize,
                    old(mir).basic_blocks@[b],
                    #[trigger] final(mir).basic_blocks@[b],
                ),
    {
        let ghost blocks0 = mir.basic_blocks@;
        let nb = mir.basic_blocks.len();
        for b in 0..nb
            invariant
                nb == blocks0.len(),
                blocks0 == old(mir).basic_blocks@,
                forall|b: BasicBlock, s: Statement, l: Location| call_requires(self.extender, (b, s, l)),
                mir.local_decls == old(mir).local_decls,
                mir.arg_count == old(mir).arg_count,
                mir.return_ty == old(mir).return_ty,
                mir.basic_blocks@.len() == nb,
                forall|k: int| b <= k < nb ==> #[trigger] mir.basic_blocks@[k] == blocks0[k],
                forall|k: int|
                    0 <= k < b ==> block_extended(
                        self.extender,
                        k as usize,
                        blocks0[k],
                        #[trigger] mir.basic_blocks@[k],
                    ),
        {
            let ghost before = mir.basic_blocks@;
            let mut data = mir.basic_blocks.remove(b);
            proof {
                assert(data == blocks0[b as int]);
            }
            self.visit_basic_block_data(b, &mut data);
            mir.basic_blocks.insert(b, data);
            proof {
                assert forall|k: int| 0 <= k < nb && k != b implies #[trigger] mir.basic_blocks@[k]
                    == before[k] by {
                    if k < b {
                        assert(before.remove(b as int)[k] == before[k]);
                    } else {
                        assert(before.remove(b as int)[k - 1] == before[k]);
                    }
                }
            }
        }
    }
}

/// An extender that gives every statement back alone leaves the block's
/// statements as they were.
pub proof fn lemma_identity_extender<E: Fn(BasicBlock, Statement, Location) -> Vec<Statement>>(
    f: E,
    block: BasicBlock,
    stmts: Seq<Statement>,
    outs: Seq<Vec<Statement>>,
)
    requires
        forall|b: BasicBlock, s: Statement, l: Location, out: Vec<Statement>|
            call_ensures(f, (b, s, l), out) ==> out@ == seq![s],
        extended(f, block, stmts, outs),
    ensures
        flatten(outs) == stmts,
    decreases stmts.len(),
{
    if stmts.len() == 0 {
        assert(flatten(outs) =~= stmts);
    } else {
        let n = stmts.len() - 1;
        assert(extended(f, block, stmts.drop_last(), outs.drop_last())) by {
            assert forall|i: int| 0 <= i < n implies call_ensures(
                f,
                (block, stmts.drop_last()[i], Location { block, statement_index: i as usize }),
                #[trigger] outs.drop_last()[i],
            ) by {
                assert(stmts.drop_last()[i] == stmts[i]);
                assert(outs.drop_last()[i] == outs[i]);
            }
        }
        lemma_identity_extender(f, block, stmts.drop_last(), outs.drop_last());
        assert(call_ensures(f, (block, stmts[n], Location { block, statement_index: n as usize }), outs[n]));
        assert(flatten(outs) =~= stmts);
    }
}

} // verus!
