use vstd::prelude::*;

use crate::lexer::{BfTokenType, TokenPosition, Tokens};
use crate::vm::{VmIr, VmIrOperands};

verus! {

/// The two structural faults of a program.
#[derive(Debug, Clone, Copy, PartialEq, Eq, Structural)]
pub enum CompilerErrType {
    UnmatchedLoopStart,
    UnmatchedLoopEnd,
}

/// A structural fault and the position of the bracket that caused it.
#[derive(Debug, Clone, Copy, PartialEq, Eq, Structural)]
pub struct CompilerError {
    pub err: CompilerErrType,
    pub position: TokenPosition,
}

/// The compiler's state after a prefix of the tokens.
pub struct CompileModel {
    /// Instructions emitted so far.
    pub ir: Seq<VmIr>,
    /// Loops still open: the index of each one's `GotoIfZero` and of its token, oldest first.
    pub open_loops: Seq<(int, int)>,
    /// Unmatched loop ends found so far.
    pub errors: Seq<CompilerError>,
    /// Net pointer displacement of the moves seen so far.
    pub pointer: int,
}

pub open spec fn instr(operand: VmIrOperands, value: int) -> VmIr {
    VmIr { operand, operand_value: value as i64 }
}

/// The compiler's state after reading the token `kind` at `pos`, the `k`-th token.
pub open spec fn compile_step(m: CompileModel, kind: BfTokenType, pos: TokenPosition, k: int) -> CompileModel {
    match kind {
        BfTokenType::Add => CompileModel { ir: m.ir.push(instr(VmIrOperands::Add, 1)), ..m },
        BfTokenType::Dec => CompileModel { ir: m.ir.push(instr(VmIrOperands::Add, -1)), ..m },
        BfTokenType::IncrementPointer => CompileModel {
            ir: m.ir.push(instr(VmIrOperands::MoveMemoryPointer, m.pointer + 1)),
            pointer: m.pointer + 1,
            ..m
        },
        BfTokenType::DecrementPointer => CompileModel {
            ir: m.ir.push(instr(VmIrOperands::MoveMemoryPointer, m.pointer - 1)),
            pointer: m.pointer - 1,
            ..m
        },
        BfTokenType::Output => CompileModel { ir: m.ir.push(instr(VmIrOperands::WriteToConsole, 0)), ..m },
        BfTokenType::Input => CompileModel { ir: m.ir.push(instr(VmIrOperands::ReadFromConsole, 0)), ..m },
        BfTokenType::LoopStart => CompileModel {
            ir: m.ir.push(instr(VmIrOperands::GotoIfZero, 0)),
            open_loops: m.open_loops.push((m.ir.len() as int, k)),
            ..m
        },
        BfTokenType::LoopEnd => if m.open_loops.len() == 0 {
            CompileModel {
                errors: m.errors.push(
                    CompilerError { err: CompilerErrType::UnmatchedLoopEnd, position: pos },
                ),
                ..m
            }
        } else {
            let start = m.open_loops.last().0;
            CompileModel {
                ir: m.ir.update(start, instr(VmIrOperands::GotoIfZero, m.ir.len() + 1 as int)).push(
                    instr(VmIrOperands::GotoIfNonZero, start),
                ),
                open_loops: m.open_loops.drop_last(),
                ..m
            }
        },
    }
}

/// The compiler's state after the first `n` tokens.
pub open spec fn compile_upto(kinds: Seq<BfTokenType>, positions: Seq<TokenPosition>, n: int) -> CompileModel
    decreases n,
{
    if n <= 0 {
        CompileModel { ir: seq![], open_loops: seq![], errors: seq![], pointer: 0 }
    } else {
        compile_step(compile_upto(kinds, positions, n - 1), kinds[n - 1], positions[n - 1], n - 1)
    }
}

/// One `UnmatchedLoopStart` for each loop left open, in the order they were opened.
pub open spec fn unclosed_errors(open_loops: Seq<(int, int)>, positions: Seq<TokenPosition>) -> Seq<CompilerError> {
    Seq::new(
        open_loops.len(),
        |i: int|
            CompilerError { err: CompilerErrType::UnmatchedLoopStart, position: positions[open_loops[i].1] },
    )
}

/// Every structural error of a token sequence: unmatched ends in order, then unmatched starts.
pub open spec fn compile_errors(kinds: Seq<BfTokenType>, positions: Seq<TokenPosition>) -> Seq<CompilerError> {
    let m = compile_upto(kinds, positions, kinds.len() as int);
    m.errors + unclosed_errors(m.open_loops, positions)
}

/// What compiling a token sequence yields: the instructions, or all its structural errors.
pub open spec fn compiled(kinds: Seq<BfTokenType>, positions: Seq<TokenPosition>) -> Result<Seq<VmIr>, Seq<CompilerError>> {
    let errors = compile_errors(kinds, positions);
    if errors.len() == 0 {
        Ok(compile_upto(kinds, positions, kinds.len() as int).ir)
    } else {
        Err(errors)
    }
}

/// How many of the first `n` tokens are `t`.
pub open spec fn count_tokens(kinds: Seq<BfTokenType>, t: BfTokenType, n: int) -> int
    decreases n,
{
    if n <= 0 {
        0
    } else {
        count_tokens(kinds, t, n - 1) + if kinds[n - 1] == t {
            1int
        } else {
            0int
        }
    }
}

/// How many of the first `n` instructions have kind `op`.
pub open spec fn count_ops(ir: Seq<VmIr>, op: VmIrOperands, n: int) -> int
    decreases n,
{
    if n <= 0 {
        0
    } else {
        count_ops(ir, op, n - 1) + if ir[n - 1].operand == op {
            1int
        } else {
            0int
        }
    }
}

/// Loop starts minus loop ends among the first `n` tokens.
pub open spec fn bracket_balance(kinds: Seq<BfTokenType>, n: int) -> int {
    count_tokens(kinds, BfTokenType::LoopStart, n) - count_tokens(kinds, BfTokenType::LoopEnd, n)
}

/// Every loop end closes an earlier loop start, and every loop start is closed.
pub open spec fn balanced(kinds: Seq<BfTokenType>) -> bool {
    &&& forall|n: int| 0 <= n <= kinds.len() ==> bracket_balance(kinds, n) >= 0
    &&& bracket_balance(kinds, kinds.len() as int) == 0
}

/// The instruction kind that a token becomes.
pub open spec fn op_of(t: BfTokenType) -> VmIrOperands {
    match t {
        BfTokenType::Add | BfTokenType::Dec => VmIrOperands::Add,
        BfTokenType::IncrementPointer | BfTokenType::DecrementPointer => VmIrOperands::MoveMemoryPointer,
        BfTokenType::Output => VmIrOperands::WriteToConsole,
        BfTokenType::Input => VmIrOperands::ReadFromConsole,
        BfTokenType::LoopStart => VmIrOperands::GotoIfZero,
        BfTokenType::LoopEnd => VmIrOperands::GotoIfNonZero,
    }
}

/// A `GotoIfNonZero` at `i` jumps back to a `GotoIfZero` that jumps to just past `i`.
pub open spec fn closes_loop(ir: Seq<VmIr>, i: int) -> bool {
    let p = ir[i].operand_value as int;
    &&& 0 <= p < i
    &&& ir[p] == instr(VmIrOperands::GotoIfZero, i + 1)
}

/// A `GotoIfZero` at `i` jumps to just past a `GotoIfNonZero` that jumps back to `i`.
pub open spec fn opens_loop(ir: Seq<VmIr>, i: int) -> bool {
    let q = ir[i].operand_value as int;
    &&& i + 2 <= q <= ir.len()
    &&& ir[q - 1] == instr(VmIrOperands::GotoIfNonZero, i)
}

/// What holds of the compiler's state after `n` tokens of a prefix with no unmatched end.
pub open spec fn balanced_state(kinds: Seq<BfTokenType>, m: CompileModel, n: int) -> bool {
    &&& m.errors.len() == 0
    &&& m.ir.len() == n
    &&& m.open_loops.len() == bracket_balance(kinds, n)
    &&& forall|i: int| 0 <= i < n ==> (#[trigger] m.ir[i]).operand == op_of(kinds[i])
    &&& forall|x: int|
        0 <= x < m.open_loops.len() ==> 0 <= (#[trigger] m.open_loops[x]).0 < n && m.ir[m.open_loops[x].0]
            == instr(VmIrOperands::GotoIfZero, 0)
    &&& forall|x: int, y: int|
        0 <= x < y < m.open_loops.len() ==> (#[trigger] m.open_loops[x]).0 < (#[trigger] m.open_loops[y]).0
    &&& forall|x: int| 0 <= x < m.open_loops.len() ==> (#[trigger] m.open_loops[x]).0 == m.open_loops[x].1
    &&& forall|i: int|
        0 <= i < n && (#[trigger] m.ir[i]).operand == VmIrOperands::GotoIfZero ==> (m.ir[i].operand_value
            == 0 && exists|x: int| 0 <= x < m.open_loops.len() && (#[trigger] m.open_loops[x]).0 == i)
            || (m.ir[i].operand_value != 0 && opens_loop(m.ir, i))
    &&& forall|i: int|
        0 <= i < n && (#[trigger] m.ir[i]).operand == VmIrOperands::GotoIfNonZero ==> closes_loop(m.ir, i)
}

proof fn lemma_balanced_prefix(kinds: Seq<BfTokenType>, positions: Seq<TokenPosition>, n: int)
    requires
        kinds.len() == positions.len(),
        kinds.len() < i64::MAX,
        0 <= n <= kinds.len(),
        forall|i: int| 0 <= i <= n ==> bracket_balance(kinds, i) >= 0,
    ensures
        balanced_state(kinds, compile_upto(kinds, positions, n), n),
    decreases n,
{
    if n > 0 {
        lemma_balanced_prefix(kinds, positions, n - 1);
        let m = compile_upto(kinds, positions, n - 1);
        let m2 = compile_upto(kinds, positions, n);
        let k = n - 1;
        assert(m2 == compile_step(m, kinds[k], positions[k], k));
        assert(bracket_balance(kinds, n) >= 0);
        if kinds[k] == BfTokenType::LoopEnd {
            assert(m.open_loops.len() > 0);
            let start = m.open_loops.last().0;
            let x0 = m.open_loops.len() - 1;
            assert(m.open_loops[x0].0 == start);
            assert(m2.ir == m.ir.update(start, instr(VmIrOperands::GotoIfZero, n)).push(
                instr(VmIrOperands::GotoIfNonZero, start),
            ));
            assert(m2.open_loops == m.open_loops.drop_last());
            assert forall|i: int|
                0 <= i < n && (#[trigger] m2.ir[i]).operand == VmIrOperands::GotoIfZero implies (
                m2.ir[i].operand_value == 0 && exists|x: int|
                    0 <= x < m2.open_loops.len() && (#[trigger] m2.open_loops[x]).0 == i) || (
            m2.ir[i].operand_value != 0 && opens_loop(m2.ir, i)) by {
                if i == start {
                    assert(opens_loop(m2.ir, i));
                } else {
                    assert(m2.ir[i] == m.ir[i]);
                    if m.ir[i].operand_value == 0 {
                        let x = choose|x: int|
                            0 <= x < m.open_loops.len() && (#[trigger] m.open_loops[x]).0 == i;
                        assert(x != x0);
                        assert(m2.open_loops[x] == m.open_loops[x]);
                    } else {
                        let q = m.ir[i].operand_value as int;
                        assert(q - 1 != start);
                        assert(m2.ir[q - 1] == m.ir[q - 1]);
                    }
                }
            }
            assert forall|x: int| 0 <= x < m2.open_loops.len() implies (#[trigger] m2.open_loops[x]).0
                == m2.open_loops[x].1 by {
                assert(m2.open_loops[x] == m.open_loops[x]);
            }
            assert forall|i: int|
                0 <= i < n && (#[trigger] m2.ir[i]).operand == VmIrOperands::GotoIfNonZero implies closes_loop(
                m2.ir,
                i,
            ) by {
                if i < k {
                    assert(m2.ir[i] == m.ir[i]);
                    let p = m.ir[i].operand_value as int;
                    assert(p != start);
                    assert(m2.ir[p] == m.ir[p]);
                }
            }
            assert forall|x: int|
                0 <= x < m2.open_loops.len() implies 0 <= (#[trigger] m2.open_loops[x]).0 < n
                && m2.ir[m2.open_loops[x].0] == instr(VmIrOperands::GotoIfZero, 0) by {
                assert(m2.open_loops[x] == m.open_loops[x]);
                assert(m.open_loops[x].0 < start);
            }
            assert forall|i: int| 0 <= i < n implies (#[trigger] m2.ir[i]).operand == op_of(kinds[i]) by {
                if i < k && i != start {
                    assert(m2.ir[i] == m.ir[i]);
                }
            }
        } else if kinds[k] == BfTokenType::LoopStart {
            assert forall|i: int|
                0 <= i < n && (#[trigger] m2.ir[i]).operand == VmIrOperands::GotoIfZero implies (
                m2.ir[i].operand_value == 0 && exists|x: int|
                    0 <= x < m2.open_loops.len() && (#[trigger] m2.open_loops[x]).0 == i) || (
            m2.ir[i].operand_value != 0 && opens_loop(m2.ir, i)) by {
                if i == k {
                    assert(m2.open_loops[m.open_loops.len() as int].0 == i);
                } else {
                    assert(m2.ir[i] == m.ir[i]);
                    if m.ir[i].operand_value == 0 {
                        let x = choose|x: int|
                            0 <= x < m.open_loops.len() && (#[trigger] m.open_loops[x]).0 == i;
                        assert(m2.open_loops[x] == m.open_loops[x]);
                    } else {
                        let q = m.ir[i].operand_value as int;
                        assert(m2.ir[q - 1] == m.ir[q - 1]);
                    }
                }
            }
            assert forall|i: int|
                0 <= i < n && (#[trigger] m2.ir[i]).operand == VmIrOperands::GotoIfNonZero implies closes_loop(
                m2.ir,
                i,
            ) by {
                assert(m2.ir[i] == m.ir[i]);
                let p = m.ir[i].operand_value as int;
                assert(m2.ir[p] == m.ir[p]);
            }
        } else {
            assert forall|i: int|
                0 <= i < n && (#[trigger] m2.ir[i]).operand == VmIrOperands::GotoIfZero implies (
                m2.ir[i].operand_value == 0 && exists|x: int|
                    0 <= x < m2.open_loops.len() && (#[trigger] m2.open_loops[x]).0 == i) || (
            m2.ir[i].operand_value != 0 && opens_loop(m2.ir, i)) by {
                assert(m2.ir[i] == m.ir[i]);
                if m.ir[i].operand_value == 0 {
                    let x = choose|x: int|
                        0 <= x < m.open_loops.len() && (#[trigger] m.open_loops[x]).0 == i;
                    assert(m2.open_loops[x] == m.open_loops[x]);
                } else {
                    let q = m.ir[i].operand_value as int;
                    assert(m2.ir[q - 1] == m.ir[q - 1]);
                }
            }
            assert forall|i: int|
                0 <= i < n && (#[trigger] m2.ir[i]).operand == VmIrOperands::GotoIfNonZero implies closes_loop(
                m2.ir,
                i,
            ) by {
                assert(m2.ir[i] == m.ir[i]);
                let p = m.ir[i].operand_value as int;
                assert(m2.ir[p] == m.ir[p]);
            }
        }
    }
}

proof fn lemma_counts_follow_kinds(ir: Seq<VmIr>, kinds: Seq<BfTokenType>, n: int)
    requires
        0 <= n <= ir.len(),
        n <= kinds.len(),
        forall|i: int| 0 <= i < n ==> (#[trigger] ir[i]).operand == op_of(kinds[i]),
    ensures
        count_ops(ir, VmIrOperands::GotoIfZero, n) == count_tokens(kinds, BfTokenType::LoopStart, n),
        count_ops(ir, VmIrOperands::GotoIfNonZero, n) == count_tokens(kinds, BfTokenType::LoopEnd, n),
    decreases n,
{
    if n > 0 {
        lemma_counts_follow_kinds(ir, kinds, n - 1);
        assert(ir[n - 1].operand == op_of(kinds[n - 1]));
    }
}

/// A token sequence whose brackets all match compiles, one instruction per token. With `k`
/// loop starts there are exactly `k` `GotoIfZero` and `k` `GotoIfNonZero` instructions, each
/// `GotoIfNonZero` jumps back to a `GotoIfZero` whose target is just past it, and each
/// `GotoIfZero` targets the instruction just past a `GotoIfNonZero` that jumps back to it.
pub proof fn lemma_balanced_compiles(kinds: Seq<BfTokenType>, positions: Seq<TokenPosition>)
    requires
        kinds.len() == positions.len(),
        kinds.len() < i64::MAX,
        balanced(kinds),
    ensures
        compiled(kinds, positions) is Ok,
        ({
            let ir = compiled(kinds, positions)->Ok_0;
            &&& ir.len() == kinds.len()
            &&& count_ops(ir, VmIrOperands::GotoIfZero, ir.len() as int) == count_tokens(
                kinds,
                BfTokenType::LoopStart,
                kinds.len() as int,
            )
            &&& count_ops(ir, VmIrOperands::GotoIfNonZero, ir.len() as int) == count_tokens(
                kinds,
                BfTokenType::LoopStart,
                kinds.len() as int,
            )
            &&& forall|i: int|
                0 <= i < ir.len() && (#[trigger] ir[i]).operand == VmIrOperands::GotoIfNonZero
                    ==> closes_loop(ir, i)
            &&& forall|i: int|
                0 <= i < ir.len() && (#[trigger] ir[i]).operand == VmIrOperands::GotoIfZero
                    ==> opens_loop(ir, i)
        }),
{
    let n = kinds.len() as int;
    lemma_balanced_prefix(kinds, positions, n);
    let m = compile_upto(kinds, positions, n);
    assert(unclosed_errors(m.open_loops, positions).len() == 0);
    assert(compile_errors(kinds, positions) =~= Seq::<CompilerError>::empty());
    lemma_counts_follow_kinds(m.ir, kinds, n);
    assert forall|i: int|
        0 <= i < n && (#[trigger] m.ir[i]).operand == VmIrOperands::GotoIfZero implies opens_loop(
        m.ir,
        i,
    ) by {
        if m.ir[i].operand_value == 0 {
            let x = choose|x: int| 0 <= x < m.open_loops.len() && (#[trigger] m.open_loops[x]).0 == i;
        }
    }
}

/// The loop start at `s` and the loop end at `e` match: `e` is the first point after `s`
/// where the bracket balance comes back to its level before `s`.
pub open spec fn matching_pair(kinds: Seq<BfTokenType>, s: int, e: int) -> bool {
    &&& 0 <= s < e < kinds.len()
    &&& kinds[s] == BfTokenType::LoopStart
    &&& kinds[e] == BfTokenType::LoopEnd
    &&& bracket_balance(kinds, e + 1) == bracket_balance(kinds, s)
    &&& forall|i: int| s < i <= e ==> #[trigger] bracket_balance(kinds, i) > bracket_balance(kinds, s)
}

proof fn lemma_pair_stays(kinds: Seq<BfTokenType>, positions: Seq<TokenPosition>, s: int, e: int, n: int)
    requires
        kinds.len() == positions.len(),
        kinds.len() < i64::MAX,
        balanced(kinds),
        0 <= s < e,
        e + 1 <= n <= kinds.len(),
        compile_upto(kinds, positions, e + 1).ir[s] == instr(VmIrOperands::GotoIfZero, e + 1),
        compile_upto(kinds, positions, e + 1).ir[e] == instr(VmIrOperands::GotoIfNonZero, s),
    ensures
        compile_upto(kinds, positions, n).ir[s] == instr(VmIrOperands::GotoIfZero, e + 1),
        compile_upto(kinds, positions, n).ir[e] == instr(VmIrOperands::GotoIfNonZero, s),
    decreases n,
{
    if n > e + 1 {
        lemma_pair_stays(kinds, positions, s, e, n - 1);
        lemma_balanced_prefix(kinds, positions, n - 1);
        let k = n - 1;
        let m = compile_upto(kinds, positions, k);
        let m2 = compile_upto(kinds, positions, n);
        assert(m2 == compile_step(m, kinds[k], positions[k], k));
        if kinds[k] == BfTokenType::LoopEnd && m.open_loops.len() > 0 {
            let x0 = m.open_loops.len() - 1;
            let start = m.open_loops[x0].0;
            assert(m.ir[start] == instr(VmIrOperands::GotoIfZero, 0));
            assert(start != s);
            assert(m2.ir[s] == m.ir[s]);
            assert(m2.ir[e] == m.ir[e]);
        } else {
            assert(m2.ir[s] == m.ir[s]);
            assert(m2.ir[e] == m.ir[e]);
        }
    }
}

/// In a token sequence whose brackets all match, the instructions of a matching loop start
/// at `s` and loop end at `e` point at each other: the `GotoIfZero` at `s` targets `e + 1`,
/// just past the `GotoIfNonZero` at `e`, which jumps back to `s`.
pub proof fn lemma_matching_pair_compiles(
    kinds: Seq<BfTokenType>,
    positions: Seq<TokenPosition>,
    s: int,
    e: int,
)
    requires
        kinds.len() == positions.len(),
        kinds.len() < i64::MAX,
        balanced(kinds),
        matching_pair(kinds, s, e),
    ensures
        compiled(kinds, positions) is Ok,
        compiled(kinds, positions)->Ok_0[s] == instr(VmIrOperands::GotoIfZero, e + 1),
        compiled(kinds, positions)->Ok_0[e] == instr(VmIrOperands::GotoIfNonZero, s),
{
    lemma_balanced_compiles(kinds, positions);
    lemma_balanced_prefix(kinds, positions, e);
    lemma_error_state(kinds, positions, e);
    let m = compile_upto(kinds, positions, e);
    let m2 = compile_upto(kinds, positions, e + 1);
    assert(m2 == compile_step(m, kinds[e], positions[e], e));
    assert(unclosed_within(kinds, s, e));
    let x = choose|x: int| 0 <= x < m.open_loops.len() && (#[trigger] m.open_loops[x]).1 == s;
    let x0 = m.open_loops.len() - 1;
    let j0 = m.open_loops[x0].1;
    if x < x0 {
        assert(s < j0);
        assert(unclosed_within(kinds, j0, e));
        assert(bracket_balance(kinds, j0) > bracket_balance(kinds, s));
        assert(bracket_balance(kinds, e) > bracket_balance(kinds, j0));
        assert(false);
    }
    assert(m.open_loops[x0].0 == s);
    assert(m2.ir[s] == instr(VmIrOperands::GotoIfZero, e + 1));
    assert(m2.ir[e] == instr(VmIrOperands::GotoIfNonZero, s));
    lemma_pair_stays(kinds, positions, s, e, kinds.len() as int);
}

/// The loop end at `j` closes nothing: the balance after it is lower than at any earlier point.
pub open spec fn unmatched_end(kinds: Seq<BfTokenType>, j: int) -> bool {
    &&& kinds[j] == BfTokenType::LoopEnd
    &&& forall|i: int| 0 <= i <= j ==> bracket_balance(kinds, j + 1) < #[trigger] bracket_balance(kinds, i)
}

/// The loop start at `j` is still open after the first `n` tokens: the balance stays above
/// its level before `j` up to `n`.
pub open spec fn unclosed_within(kinds: Seq<BfTokenType>, j: int, n: int) -> bool {
    &&& kinds[j] == BfTokenType::LoopStart
    &&& forall|i: int| j < i <= n ==> #[trigger] bracket_balance(kinds, i) > bracket_balance(kinds, j)
}

/// The loop start at `j` is never closed.
pub open spec fn unmatched_start(kinds: Seq<BfTokenType>, j: int) -> bool {
    unclosed_within(kinds, j, kinds.len() as int)
}

/// An `UnmatchedLoopEnd` for each unmatched loop end among the first `n` tokens, in order.
pub open spec fn end_errors(kinds: Seq<BfTokenType>, positions: Seq<TokenPosition>, n: int) -> Seq<CompilerError>
    decreases n,
{
    if n <= 0 {
        seq![]
    } else {
        let prev = end_errors(kinds, positions, n - 1);
        if unmatched_end(kinds, n - 1) {
            prev.push(CompilerError { err: CompilerErrType::UnmatchedLoopEnd, position: positions[n - 1] })
        } else {
            prev
        }
    }
}

/// The indices of the unmatched loop starts among the first `n` tokens, in order.
pub open spec fn start_indices(kinds: Seq<BfTokenType>, n: int) -> Seq<int>
    decreases n,
{
    if n <= 0 {
        seq![]
    } else {
        let prev = start_indices(kinds, n - 1);
        if unmatched_start(kinds, n - 1) {
            prev.push(n - 1)
        } else {
            prev
        }
    }
}

/// An `UnmatchedLoopStart` for each unmatched loop start, in order.
pub open spec fn start_errors(kinds: Seq<BfTokenType>, positions: Seq<TokenPosition>) -> Seq<CompilerError> {
    start_indices(kinds, kinds.len() as int).map_values(
        |j: int| CompilerError { err: CompilerErrType::UnmatchedLoopStart, position: positions[j] },
    )
}

/// What holds of the compiler's errors and open loops after the first `n` tokens.
pub open spec fn error_state(kinds: Seq<BfTokenType>, positions: Seq<TokenPosition>, m: CompileModel, n: int) -> bool {
    &&& m.errors == end_errors(kinds, positions, n)
    &&& forall|x: int|
        0 <= x < m.open_loops.len() ==> 0 <= (#[trigger] m.open_loops[x]).1 < n && unclosed_within(
            kinds,
            m.open_loops[x].1,
            n,
        )
    &&& forall|x: int, y: int|
        0 <= x < y < m.open_loops.len() ==> (#[trigger] m.open_loops[x]).1 < (#[trigger] m.open_loops[y]).1
    &&& forall|j: int|
        0 <= j < n && #[trigger] unclosed_within(kinds, j, n) ==> exists|x: int|
            0 <= x < m.open_loops.len() && (#[trigger] m.open_loops[x]).1 == j
    &&& m.open_loops.len() == bracket_balance(kinds, n) + m.errors.len()
    &&& m.errors.len() == 0 ==> forall|i: int| 0 <= i <= n ==> #[trigger] bracket_balance(kinds, i) >= 0
}

/// Between a point `i` and a later point `k` with a higher balance, every level `v` in
/// between is left for good by a loop start at some `j`.
proof fn lemma_find_level(kinds: Seq<BfTokenType>, i: int, k: int, v: int)
    requires
        0 <= i < k <= kinds.len(),
        bracket_balance(kinds, i) <= v < bracket_balance(kinds, k),
    ensures
        exists|j: int|
            i <= j < k && bracket_balance(kinds, j) == v && #[trigger] unclosed_within(kinds, j, k),
    decreases k,
{
    let t = kinds[k - 1];
    if t == BfTokenType::LoopStart && v == bracket_balance(kinds, k - 1) {
        assert(unclosed_within(kinds, k - 1, k));
    } else {
        lemma_find_level(kinds, i, k - 1, v);
        let j = choose|j: int|
            i <= j < k - 1 && bracket_balance(kinds, j) == v && #[trigger] unclosed_within(kinds, j, k - 1);
        assert(unclosed_within(kinds, j, k));
    }
}

proof fn lemma_error_state(kinds: Seq<BfTokenType>, positions: Seq<TokenPosition>, n: int)
    requires
        kinds.len() == positions.len(),
        0 <= n <= kinds.len(),
    ensures
        error_state(kinds, positions, compile_upto(kinds, positions, n), n),
    decreases n,
{
    if n > 0 {
        lemma_error_state(kinds, positions, n - 1);
        let k = n - 1;
        let m = compile_upto(kinds, positions, k);
        let m2 = compile_upto(kinds, positions, n);
        assert(m2 == compile_step(m, kinds[k], positions[k], k));
        if kinds[k] == BfTokenType::LoopEnd {
            assert(bracket_balance(kinds, n) == bracket_balance(kinds, k) - 1);
            if m.open_loops.len() == 0 {
                assert forall|i: int| 0 <= i <= k implies bracket_balance(kinds, n) < #[trigger] bracket_balance(
                    kinds,
                    i,
                ) by {
                    if bracket_balance(kinds, i) <= bracket_balance(kinds, n) {
                        lemma_find_level(kinds, i, k, bracket_balance(kinds, n));
                        let j = choose|j: int|
                            i <= j < k && bracket_balance(kinds, j) == bracket_balance(kinds, n)
                                && #[trigger] unclosed_within(kinds, j, k);
                        assert(exists|x: int| 0 <= x < m.open_loops.len() && (#[trigger] m.open_loops[x]).1 == j);
                    }
                }
                assert(unmatched_end(kinds, k));
                assert forall|j: int| 0 <= j < n && #[trigger] unclosed_within(kinds, j, n) implies exists|x: int|
                    0 <= x < m2.open_loops.len() && (#[trigger] m2.open_loops[x]).1 == j by {
                    assert(unclosed_within(kinds, j, k));
                    assert(exists|x: int| 0 <= x < m.open_loops.len() && (#[trigger] m.open_loops[x]).1 == j);
                }
            } else {
                let x0 = m.open_loops.len() - 1;
                let j0 = m.open_loops[x0].1;
                assert(unclosed_within(kinds, j0, k));
                assert(bracket_balance(kinds, k) > bracket_balance(kinds, j0));
                if bracket_balance(kinds, k) > bracket_balance(kinds, j0) + 1 {
                    assert(bracket_balance(kinds, j0 + 1) == bracket_balance(kinds, j0) + 1);
                    lemma_find_level(kinds, j0 + 1, k, bracket_balance(kinds, k) - 1);
                    let j = choose|j: int|
                        j0 + 1 <= j < k && bracket_balance(kinds, j) == bracket_balance(kinds, k) - 1
                            && #[trigger] unclosed_within(kinds, j, k);
                    let x = choose|x: int| 0 <= x < m.open_loops.len() && (#[trigger] m.open_loops[x]).1 == j;
                    assert(x < x0);
                    assert(false);
                }
                assert(bracket_balance(kinds, n) == bracket_balance(kinds, j0));
                assert(!unmatched_end(kinds, k));
                assert(m2.open_loops == m.open_loops.drop_last());
                assert forall|x: int|
                    0 <= x < m2.open_loops.len() implies 0 <= (#[trigger] m2.open_loops[x]).1 < n
                    && unclosed_within(kinds, m2.open_loops[x].1, n) by {
                    assert(m2.open_loops[x] == m.open_loops[x]);
                    let j = m.open_loops[x].1;
                    assert(j < j0);
                    assert(unclosed_within(kinds, j, k));
                    assert(bracket_balance(kinds, j0) > bracket_balance(kinds, j));
                }
                assert forall|j: int| 0 <= j < n && #[trigger] unclosed_within(kinds, j, n) implies exists|x: int|
                    0 <= x < m2.open_loops.len() && (#[trigger] m2.open_loops[x]).1 == j by {
                    assert(unclosed_within(kinds, j, k));
                    let x = choose|x: int| 0 <= x < m.open_loops.len() && (#[trigger] m.open_loops[x]).1 == j;
                    assert(x != x0);
                    assert(m2.open_loops[x] == m.open_loops[x]);
                }
                assert forall|x: int, y: int|
                    0 <= x < y < m2.open_loops.len() implies (#[trigger] m2.open_loops[x]).1 < (
                    #[trigger] m2.open_loops[y]).1 by {
                    assert(m2.open_loops[x] == m.open_loops[x]);
                    assert(m2.open_loops[y] == m.open_loops[y]);
                }
            }
        } else if kinds[k] == BfTokenType::LoopStart {
            assert(bracket_balance(kinds, n) == bracket_balance(kinds, k) + 1);
            let x1 = m.open_loops.len() as int;
            assert(m2.open_loops == m.open_loops.push((m.ir.len() as int, k)));
            assert forall|x: int|
                0 <= x < m2.open_loops.len() implies 0 <= (#[trigger] m2.open_loops[x]).1 < n
                && unclosed_within(kinds, m2.open_loops[x].1, n) by {
                if x < x1 {
                    assert(m2.open_loops[x] == m.open_loops[x]);
                    let j = m.open_loops[x].1;
                    assert(unclosed_within(kinds, j, k));
                    assert(bracket_balance(kinds, k) >= bracket_balance(kinds, j));
                }
            }
            assert forall|j: int| 0 <= j < n && #[trigger] unclosed_within(kinds, j, n) implies exists|x: int|
                0 <= x < m2.open_loops.len() && (#[trigger] m2.open_loops[x]).1 == j by {
                if j == k {
                    assert(m2.open_loops[x1].1 == j);
                } else {
                    assert(unclosed_within(kinds, j, k));
                    let x = choose|x: int| 0 <= x < m.open_loops.len() && (#[trigger] m.open_loops[x]).1 == j;
                    assert(m2.open_loops[x] == m.open_loops[x]);
                }
            }
            assert forall|x: int, y: int|
                0 <= x < y < m2.open_loops.len() implies (#[trigger] m2.open_loops[x]).1 < (
                #[trigger] m2.open_loops[y]).1 by {
                assert(m2.open_loops[x] == m.open_loops[x]);
                if y < x1 {
                    assert(m2.open_loops[y] == m.open_loops[y]);
                }
            }
        } else {
            assert(bracket_balance(kinds, n) == bracket_balance(kinds, k));
            assert forall|x: int|
                0 <= x < m2.open_loops.len() implies 0 <= (#[trigger] m2.open_loops[x]).1 < n
                && unclosed_within(kinds, m2.open_loops[x].1, n) by {
                let j = m.open_loops[x].1;
                assert(unclosed_within(kinds, j, k));
                assert(bracket_balance(kinds, k) >= bracket_balance(kinds, j));
            }
            assert forall|j: int| 0 <= j < n && #[trigger] unclosed_within(kinds, j, n) implies exists|x: int|
                0 <= x < m2.open_loops.len() && (#[trigger] m2.open_loops[x]).1 == j by {
                assert(unclosed_within(kinds, j, k));
            }
        }
    }
}

proof fn lemma_start_indices(kinds: Seq<BfTokenType>, n: int)
    requires
        0 <= n <= kinds.len(),
    ensures
        forall|x: int| 0 <= x < start_indices(kinds, n).len() ==> 0 <= #[trigger] start_indices(kinds, n)[x] < n,
        forall|x: int, y: int|
            0 <= x < y < start_indices(kinds, n).len() ==> #[trigger] start_indices(kinds, n)[x]
                < #[trigger] start_indices(kinds, n)[y],
        forall|j: int|
            0 <= j < n && unmatched_start(kinds, j) ==> #[trigger] start_indices(kinds, n).contains(j),
    decreases n,
{
    if n > 0 {
        lemma_start_indices(kinds, n - 1);
        let prev = start_indices(kinds, n - 1);
        let cur = start_indices(kinds, n);
        assert forall|j: int| 0 <= j < n && unmatched_start(kinds, j) implies #[trigger] cur.contains(j) by {
            if j < n - 1 {
                assert(prev.contains(j));
                let x = choose|x: int| 0 <= x < prev.len() && prev[x] == j;
                assert(cur[x] == j);
            } else {
                assert(cur[cur.len() - 1] == j);
            }
        }
    }
}

/// Two strictly increasing sequences with the same elements are equal.
proof fn lemma_sorted_unique(a: Seq<int>, b: Seq<int>)
    requires
        forall|x: int, y: int| 0 <= x < y < a.len() ==> #[trigger] a[x] < #[trigger] a[y],
        forall|x: int, y: int| 0 <= x < y < b.len() ==> #[trigger] b[x] < #[trigger] b[y],
        forall|v: int| #![trigger a.contains(v)] #![trigger b.contains(v)] a.contains(v) <==> b.contains(v),
    ensures
        a == b,
    decreases a.len(),
{
    if a.len() == 0 {
        if b.len() > 0 {
            assert(b.contains(b[0]));
        }
        assert(a =~= b);
    } else {
        assert(a.contains(a.last()));
        if b.len() == 0 {
            assert(false);
        }
        assert(b.contains(b.last()));
        let xa = choose|x: int| 0 <= x < b.len() && b[x] == a.last();
        let xb = choose|x: int| 0 <= x < a.len() && a[x] == b.last();
        assert(a.last() == b.last());
        let a2 = a.drop_last();
        let b2 = b.drop_last();
        assert forall|v: int| #![trigger a2.contains(v)] #![trigger b2.contains(v)] a2.contains(v) <==> b2.contains(v) by {
            if a2.contains(v) {
                let x = choose|x: int| 0 <= x < a2.len() && a2[x] == v;
                assert(a.contains(v));
                let y = choose|y: int| 0 <= y < b.len() && b[y] == v;
                assert(y != b.len() - 1);
                assert(b2[y] == v);
            }
            if b2.contains(v) {
                let y = choose|y: int| 0 <= y < b2.len() && b2[y] == v;
                assert(b.contains(v));
                let x = choose|x: int| 0 <= x < a.len() && a[x] == v;
                assert(x != a.len() - 1);
                assert(a2[x] == v);
            }
        }
        lemma_sorted_unique(a2, b2);
        assert(a =~= a2.push(a.last()));
        assert(b =~= b2.push(b.last()));
    }
}

/// Compiling reports exactly the unmatched brackets: an `UnmatchedLoopEnd` for each loop end
/// that closes nothing, in source order, then an `UnmatchedLoopStart` for each loop start that
/// is never closed, in source order, each at its token's position. So the number of errors is
/// the number of unmatched brackets, and a token sequence whose brackets do not all match
/// fails to compile.
pub proof fn lemma_unmatched_reported(kinds: Seq<BfTokenType>, positions: Seq<TokenPosition>)
    requires
        kinds.len() == positions.len(),
    ensures
        compile_errors(kinds, positions) == end_errors(kinds, positions, kinds.len() as int) + start_errors(
            kinds,
            positions,
        ),
        !balanced(kinds) ==> compile_errors(kinds, positions).len() > 0 && compiled(kinds, positions)
            == Err::<Seq<VmIr>, Seq<CompilerError>>(compile_errors(kinds, positions)),
{
    let n = kinds.len() as int;
    lemma_error_state(kinds, positions, n);
    lemma_start_indices(kinds, n);
    let m = compile_upto(kinds, positions, n);
    let opened = m.open_loops.map_values(|e: (int, int)| e.1);
    let starts = start_indices(kinds, n);
    assert forall|v: int| #![trigger opened.contains(v)] #![trigger starts.contains(v)] opened.contains(v) <==> starts.contains(v) by {
        if opened.contains(v) {
            let x = choose|x: int| 0 <= x < opened.len() && opened[x] == v;
            assert(m.open_loops[x].1 == v);
        }
        if starts.contains(v) {
            let x = choose|x: int| 0 <= x < starts.len() && starts[x] == v;
            assert(unmatched_start(kinds, v)) by {
                lemma_start_member(kinds, n, v);
            }
            assert(exists|x: int| 0 <= x < m.open_loops.len() && (#[trigger] m.open_loops[x]).1 == v);
            let y = choose|y: int| 0 <= y < m.open_loops.len() && (#[trigger] m.open_loops[y]).1 == v;
            assert(opened[y] == v);
        }
    }
    assert forall|x: int, y: int| 0 <= x < y < opened.len() implies #[trigger] opened[x] < #[trigger] opened[y] by {
        assert(m.open_loops[x].1 < m.open_loops[y].1);
    }
    lemma_sorted_unique(opened, starts);
    assert(unclosed_errors(m.open_loops, positions) =~= start_errors(kinds, positions));
    if !balanced(kinds) && compile_errors(kinds, positions).len() == 0 {
        assert(m.errors.len() == 0);
        assert(m.open_loops.len() == 0);
        assert(bracket_balance(kinds, n) == 0);
        assert(false);
    }
}

proof fn lemma_start_member(kinds: Seq<BfTokenType>, n: int, v: int)
    requires
        0 <= n <= kinds.len(),
        start_indices(kinds, n).contains(v),
    ensures
        unmatched_start(kinds, v),
    decreases n,
{
    if n > 0 {
        let prev = start_indices(kinds, n - 1);
        if prev.contains(v) {
            lemma_start_member(kinds, n - 1, v);
        } else {
            let x = choose|x: int| 0 <= x < start_indices(kinds, n).len() && start_indices(kinds, n)[x] == v;
            if x < prev.len() {
                assert(prev[x] == v);
            }
        }
    }
}

/// Translates tokens into instructions, resolving each loop into absolute jump targets.
/// Fails with every unmatched bracket at once.
pub fn compile(tokens: &Tokens) -> (r: Result<Vec<VmIr>, Vec<CompilerError>>)
    requires
        tokens.wf(),
        tokens.token_types.len() < i64::MAX,
    ensures
        match r {
            Ok(ir) => compiled(tokens.token_types@, tokens.positions@) == Ok::<Seq<VmIr>, Seq<CompilerError>>(ir@),
            Err(e) => e@.len() > 0 && compiled(tokens.token_types@, tokens.positions@) == Err::<
                Seq<VmIr>,
                Seq<CompilerError>,
            >(e@),
        },
{
    let ghost kinds = tokens.token_types@;
    let ghost positions = tokens.positions@;
    let n = tokens.token_types.len();
    let mut ir: Vec<VmIr> = Vec::new();
    let mut stack: Vec<(usize, usize)> = Vec::new();
    let mut errors: Vec<CompilerError> = Vec::new();
    let mut pointer: i64 = 0;
    let mut index: usize = 0;
    assert(stack@.map_values(|p: (usize, usize)| (p.0 as int, p.1 as int)) =~= seq![]);
    assert(ir@ =~= seq![]);
    assert(errors@ =~= seq![]);
    while index < n
        invariant
            n == kinds.len(),
            n == positions.len(),
            n < i64::MAX,
            kinds == tokens.token_types@,
            positions == tokens.positions@,
            0 <= index <= n,
            ir.len() <= index,
            -(index as int) <= pointer <= index,
            forall|i: int| 0 <= i < stack.len() ==> stack@[i].0 < ir.len() && stack@[i].1 < index,
            compile_upto(kinds, positions, index as int) == (CompileModel {
                ir: ir@,
                open_loops: stack@.map_values(|p: (usize, usize)| (p.0 as int, p.1 as int)),
                errors: errors@,
                pointer: pointer as int,
            }),
        decreases n - index,
    {
        let position = tokens.positions[index];
        match tokens.token_types[index] {
            BfTokenType::Add => ir.push(VmIr { operand: VmIrOperands::Add, operand_value: 1 }),
            BfTokenType::Dec => ir.push(VmIr { operand: VmIrOperands::Add, operand_value: -1 }),
            BfTokenType::IncrementPointer => {
                pointer = pointer + 1;
                ir.push(VmIr { operand: VmIrOperands::MoveMemoryPointer, operand_value: pointer });
            },
            BfTokenType::DecrementPointer => {
                pointer = pointer - 1;
                ir.push(VmIr { operand: VmIrOperands::MoveMemoryPointer, operand_value: pointer });
            },
            BfTokenType::Output => ir.push(VmIr { operand: VmIrOperands::WriteToConsole, operand_value: 0 }),
            BfTokenType::Input => ir.push(VmIr { operand: VmIrOperands::ReadFromConsole, operand_value: 0 }),
            BfTokenType::LoopStart => {
                stack.push((ir.len(), index));
                ir.push(VmIr { operand: VmIrOperands::GotoIfZero, operand_value: 0 });
            },
            BfTokenType::LoopEnd => {
                match stack.pop() {
                    None => {
                        errors.push(CompilerError { err: CompilerErrType::UnmatchedLoopEnd, position });
                    },
                    Some((start, _)) => {
                        let target = ir.len() as i64 + 1;
                        ir.set(start, VmIr { operand: VmIrOperands::GotoIfZero, operand_value: target });
                        ir.push(VmIr { operand: VmIrOperands::GotoIfNonZero, operand_value: start as i64 });
                    },
                }
            },
        }
        index = index + 1;
        assert(stack@.map_values(|p: (usize, usize)| (p.0 as int, p.1 as int)) =~= compile_upto(kinds, positions, index as int).open_loops);
        assert(ir@ =~= compile_upto(kinds, positions, index as int).ir);
        assert(errors@ =~= compile_upto(kinds, positions, index as int).errors);
    }
    let ghost m = compile_upto(kinds, positions, n as int);
    let mut i: usize = 0;
    while i < stack.len()
        invariant
            0 <= i <= stack.len(),
            n == positions.len(),
            positions == tokens.positions@,
            forall|j: int| 0 <= j < stack.len() ==> stack@[j].1 < n,
            m.open_loops == stack@.map_values(|p: (usize, usize)| (p.0 as int, p.1 as int)),
            errors@ == m.errors + unclosed_errors(m.open_loops, positions).take(i as int),
        decreases stack.len() - i,
    {
        errors.push(CompilerError { err: CompilerErrType::UnmatchedLoopStart, position: tokens.positions[stack[i].1] });
        i = i + 1;
        assert(errors@ =~= m.errors + unclosed_errors(m.open_loops, positions).take(i as int));
    }
    assert(unclosed_errors(m.open_loops, positions).take(i as int) =~= unclosed_errors(m.open_loops, positions));
    if errors.len() > 0 {
        Err(errors)
    } else {
        Ok(ir)
    }
}

} // verus!
