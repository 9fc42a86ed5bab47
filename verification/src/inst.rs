//! Instructions, and the resolver that reads them from source text.

use vstd::prelude::*;
use crate::nesting::{
    balanced, depth, is_opcode, is_pair, is_unclosed_start, is_unmatched_end,
    lemma_close_unique, lemma_open_unique, lemma_three_outcomes, lemma_unclosed_start_unique,
    lemma_unmatched_end_unique, opcodes, partner,
};
use crate::order::{ascending, sort_by_position};
use crate::program::{lemma_resolve_gives_well_formed, well_formed};

verus! {

/// What an instruction does. The two loop kinds carry the index, in the program, at
/// which execution goes on when the jump is taken.
#[derive(Debug, Clone, Copy, PartialEq, Eq, Structural)]
pub enum Kind {
    /// `>`: move the data pointer one cell to the right.
    MoveRight,
    /// `<`: move the data pointer one cell to the left.
    MoveLeft,
    /// `+`: add one to the current cell, wrapping.
    Increment,
    /// `-`: subtract one from the current cell, wrapping.
    Decrement,
    /// `.`: emit the current cell as a character.
    Output,
    /// `,`: store the first byte of a line of input in the current cell.
    Input,
    /// `[`: where the current cell is zero, jump to `target`, the index just past the
    /// matching `]`.
    LoopStart { target: usize },
    /// `]`: where the current cell is not zero, jump to `target`, the index just past
    /// the matching `[`.
    LoopEnd { target: usize },
}

/// One instruction of a program.
#[derive(Debug, Clone, Copy, PartialEq, Eq, Structural)]
pub struct Inst {
    /// The index in the opcode stream at which the instruction was read. In a resolved
    /// program it is the instruction's own index.
    pub idx: usize,
    /// What the instruction does.
    pub kind: Kind,
}

/// Why a source text is not a program.
#[derive(Debug, Clone, Copy, PartialEq, Eq, Structural)]
pub enum StructuralError {
    /// A `]` closes a loop that was never opened. `position` is the index of the first
    /// such `]` in the opcode stream.
    UnmatchedEnd { position: usize },
    /// One or more `[` are never closed. `position` is the index of the first such `[`
    /// in the opcode stream.
    UnclosedStart { position: usize },
}

/// The instruction that the opcode at `i` stands for.
pub open spec fn kind_at(ops: Seq<char>, i: int) -> Kind {
    let c = ops[i];
    if c == '>' {
        Kind::MoveRight
    } else if c == '<' {
        Kind::MoveLeft
    } else if c == '+' {
        Kind::Increment
    } else if c == '-' {
        Kind::Decrement
    } else if c == '.' {
        Kind::Output
    } else if c == ',' {
        Kind::Input
    } else if c == '[' {
        Kind::LoopStart { target: (partner(ops, i) + 1) as usize }
    } else {
        Kind::LoopEnd { target: (partner(ops, i) + 1) as usize }
    }
}

/// What resolving `source` yields: the error for its first unmatched `]`, else the
/// error for its first unclosed `[`, else one instruction for each opcode, in order.
pub open spec fn resolve(source: Seq<char>) -> Result<Seq<Kind>, StructuralError> {
    let ops = opcodes(source);
    if exists|p: int| is_unmatched_end(ops, p) {
        Err(
            StructuralError::UnmatchedEnd {
                position: (choose|p: int| is_unmatched_end(ops, p)) as usize,
            },
        )
    } else if exists|p: int| is_unclosed_start(ops, p) {
        Err(
            StructuralError::UnclosedStart {
                position: (choose|p: int| is_unclosed_start(ops, p)) as usize,
            },
        )
    } else {
        Ok(Seq::new(ops.len(), |i: int| kind_at(ops, i)))
    }
}

/// The kinds of a program's instructions, in order.
pub open spec fn kinds(program: Seq<Inst>) -> Seq<Kind> {
    program.map_values(|inst: Inst| inst.kind)
}

/// Each instruction sits at the index that is its position in the opcode stream.
pub open spec fn in_order(program: Seq<Inst>) -> bool {
    forall|i: int| 0 <= i < program.len() ==> (#[trigger] program[i]).idx == i
}

impl Inst {
    /// Resolves `source` into a program: the instructions of its opcodes, in order,
    /// each loop delimiter with its jump target. Characters that are no opcodes are
    /// ignored. A text whose loop delimiters do not nest is rejected.
    pub fn from_str(source: &str) -> (result: Result<Vec<Inst>, StructuralError>)
        ensures
            result is Ok <==> balanced(opcodes(source@)),
            match result {
                Ok(program) => {
                    &&& resolve(source@) == Ok::<Seq<Kind>, StructuralError>(kinds(program@))
                    &&& program.len() == opcodes(source@).len()
                    &&& in_order(program@)
                    &&& well_formed(kinds(program@))
                },
                Err(error) => {
                    &&& resolve(source@) == Err::<Seq<Kind>, StructuralError>(error)
                    &&& match error {
                        StructuralError::UnmatchedEnd { position } => is_unmatched_end(
                            opcodes(source@),
                            position as int,
                        ),
                        StructuralError::UnclosedStart { position } => is_unclosed_start(
                            opcodes(source@),
                            position as int,
                        ),
                    }
                },
            },
    {
        // We only care about the opcodes.
        let ops = strip(source);
        proof {
            lemma_three_outcomes(ops@);
            assert forall|k: int| 0 <= k < ops.len() implies is_opcode(#[trigger] ops[k]) by {
                source@.lemma_filter_pred(|c: char| is_opcode(c), k);
            }
        }
        // Loop delimiters first: they are matched with a stack of the open ones.
        let mut instructions = match pair_loops(&ops) {
            Ok(loops) => loops,
            Err(error) => {
                proof {
                    match error {
                        StructuralError::UnmatchedEnd { position } => {
                            let p = choose|p: int| is_unmatched_end(ops@, p);
                            lemma_unmatched_end_unique(ops@, p, position as int);
                        },
                        StructuralError::UnclosedStart { position } => {
                            let p = choose|p: int| is_unclosed_start(ops@, p);
                            lemma_unclosed_start_unique(ops@, p, position as int);
                        },
                    }
                }
                return Err(error);
            },
        };
        add_linear(&ops, &mut instructions);
        // The loops were found out of order, so all instructions are put in order.
        let program = sort_by_position(instructions);
        proof {
            lemma_sorted_program(ops@, instructions@, program@);
            lemma_resolve_gives_well_formed(source@);
        }
        Ok(program)
    }
}

/// Whether `c` carries meaning, decided at run time.
fn carries_meaning(c: char) -> (b: bool)
    ensures
        b == is_opcode(c),
{
    c == '>' || c == '<' || c == '+' || c == '-' || c == '.' || c == ',' || c == '[' || c == ']'
}

/// Drops the commentary from `source`.
fn strip(source: &str) -> (ops: Vec<char>)
    ensures
        ops@ == opcodes(source@),
{
    let mut ops: Vec<char> = Vec::new();
    proof {
        reveal(Seq::filter);
    }
    for c in it: source.chars()
        invariant
            it.seq() == source@,
            ops@ == opcodes(source@.take(it.index())),
    {
        proof {
            let before = source@.take(it.index());
            assert(source@.take(it.index() + 1) == before.push(c));
            before.lemma_filter_push(c, |c: char| is_opcode(c));
        }
        if carries_meaning(c) {
            ops.push(c);
        }
    }
    assert(source@.take(source@.len() as int) == source@);
    ops
}

/// The number of loop delimiters among the first `n` opcodes.
spec fn delimiters(ops: Seq<char>, n: int) -> int
    decreases n,
{
    if n <= 0 {
        0
    } else {
        delimiters(ops, n - 1) + if is_delimiter(ops[n - 1]) {
            1int
        } else {
            0int
        }
    }
}

spec fn is_delimiter(c: char) -> bool {
    c == '[' || c == ']'
}

/// After `i` opcodes the `[` at `p` is open at nesting level `level`.
spec fn pending(ops: Seq<char>, p: int, level: int, i: int) -> bool {
    &&& 0 <= p < i
    &&& ops[p] == '['
    &&& depth(ops, p) == level
    &&& forall|k: int| p < k <= i ==> #[trigger] depth(ops, k) > level
}

/// `inst` is the instruction for the opcode at its position.
spec fn placed(ops: Seq<char>, inst: Inst) -> bool {
    &&& 0 <= inst.idx < ops.len()
    &&& inst.kind == kind_at(ops, inst.idx as int)
}

/// `inst` is the instruction for a delimiter of a loop that lies within the first `i`
/// opcodes.
spec fn paired(ops: Seq<char>, inst: Inst, i: int) -> bool {
    &&& placed(ops, inst)
    &&& inst.idx < i
    &&& is_delimiter(ops[inst.idx as int])
    &&& ops[inst.idx as int] == '[' ==> {
        &&& is_pair(ops, inst.idx as int, partner(ops, inst.idx as int))
        &&& partner(ops, inst.idx as int) < i
    }
}

/// No two instructions of `s` have the same position.
spec fn distinct(s: Seq<Inst>) -> bool {
    forall|a: int, b: int| 0 <= a < b < s.len() ==> s[a].idx != s[b].idx
}

/// The instructions that the two delimiters of a loop stand for.
proof fn lemma_kinds_of_pair(ops: Seq<char>, open: int, close: int)
    requires
        is_pair(ops, open, close),
        ops.len() <= usize::MAX,
    ensures
        partner(ops, open) == close,
        partner(ops, close) == open,
        kind_at(ops, open) == (Kind::LoopStart { target: (close + 1) as usize }),
        kind_at(ops, close) == (Kind::LoopEnd { target: (open + 1) as usize }),
{
    lemma_close_unique(ops, open, partner(ops, open), close);
    lemma_open_unique(ops, partner(ops, close), open, close);
}

/// First pass: matches the loop delimiters of `ops` and gives the two instructions of
/// each loop, in the order in which the loops close.
fn pair_loops(ops: &Vec<char>) -> (result: Result<Vec<Inst>, StructuralError>)
    ensures
        match result {
            Ok(loops) => {
                &&& balanced(ops@)
                &&& loops.len() == delimiters(ops@, ops.len() as int)
                &&& distinct(loops@)
                &&& forall|k: int|
                    0 <= k < loops.len() ==> paired(ops@, #[trigger] loops[k], ops.len() as int)
            },
            Err(StructuralError::UnmatchedEnd { position }) => is_unmatched_end(
                ops@,
                position as int,
            ),
            Err(StructuralError::UnclosedStart { position }) => is_unclosed_start(
                ops@,
                position as int,
            ),
        },
{
    let mut loops: Vec<Inst> = Vec::new();
    let mut stack: Vec<usize> = Vec::new();
    let mut i: usize = 0;
    while i < ops.len()
        invariant
            i <= ops.len(),
            forall|k: int| 0 <= k <= i ==> #[trigger] depth(ops@, k) >= 0,
            stack.len() == depth(ops@, i as int),
            forall|s: int|
                0 <= s < stack.len() ==> pending(ops@, #[trigger] stack[s] as int, s, i as int),
            loops.len() + stack.len() == delimiters(ops@, i as int),
            distinct(loops@),
            forall|k: int| 0 <= k < loops.len() ==> paired(ops@, #[trigger] loops[k], i as int),
        decreases ops.len() - i,
    {
        let c = ops[i];
        if c == '[' {
            stack.push(i);
        } else if c == ']' {
            match stack.pop() {
                None => {
                    return Err(StructuralError::UnmatchedEnd { position: i });
                },
                Some(open) => {
                    proof {
                        assert(pending(ops@, open as int, stack.len() as int, i as int));
                        assert(is_pair(ops@, open as int, i as int));
                        lemma_kinds_of_pair(ops@, open as int, i as int);
                        assert forall|k: int| 0 <= k < loops.len() implies loops[k].idx
                            != open by {
                            let earlier = loops[k];
                            assert(paired(ops@, earlier, i as int));
                            if earlier.idx == open {
                                assert(depth(ops@, partner(ops@, open as int) + 1) > stack.len());
                            }
                        }
                    }
                    loops.push(Inst { idx: open, kind: Kind::LoopStart { target: i + 1 } });
                    loops.push(Inst { idx: i, kind: Kind::LoopEnd { target: open + 1 } });
                },
            }
        }
        i += 1;
    }
    if stack.len() > 0 {
        proof {
            assert(pending(ops@, stack[0] as int, 0, ops.len() as int));
        }
        return Err(StructuralError::UnclosedStart { position: stack[0] });
    }
    Ok(loops)
}

/// Second pass: adds to `instructions` the instruction of every opcode of `ops` that
/// is no loop delimiter.
fn add_linear(ops: &Vec<char>, instructions: &mut Vec<Inst>)
    requires
        forall|k: int| 0 <= k < ops.len() ==> is_opcode(#[trigger] ops[k]),
        old(instructions).len() == delimiters(ops@, ops.len() as int),
        distinct(old(instructions)@),
        forall|k: int|
            0 <= k < old(instructions).len() ==> paired(
                ops@,
                #[trigger] old(instructions)[k],
                ops.len() as int,
            ),
    ensures
        final(instructions).len() == ops.len(),
        distinct(final(instructions)@),
        forall|k: int|
            0 <= k < final(instructions).len() ==> placed(ops@, #[trigger] final(instructions)[k]),
{
    let mut i: usize = 0;
    while i < ops.len()
        invariant
            i <= ops.len(),
            forall|k: int| 0 <= k < ops.len() ==> is_opcode(#[trigger] ops[k]),
            instructions.len() == delimiters(ops@, ops.len() as int) + i - delimiters(
                ops@,
                i as int,
            ),
            distinct(instructions@),
            forall|k: int|
                0 <= k < instructions.len() ==> {
                    &&& placed(ops@, #[trigger] instructions[k])
                    &&& is_delimiter(ops[instructions[k].idx as int]) || instructions[k].idx < i
                },
        decreases ops.len() - i,
    {
        let c = ops[i];
        proof {
            assert(delimiters(ops@, i + 1) == delimiters(ops@, i as int) + if is_delimiter(c) {
                1int
            } else {
                0int
            });
        }
        if c == '>' {
            instructions.push(Inst { idx: i, kind: Kind::MoveRight });
        } else if c == '<' {
            instructions.push(Inst { idx: i, kind: Kind::MoveLeft });
        } else if c == '+' {
            instructions.push(Inst { idx: i, kind: Kind::Increment });
        } else if c == '-' {
            instructions.push(Inst { idx: i, kind: Kind::Decrement });
        } else if c == '.' {
            instructions.push(Inst { idx: i, kind: Kind::Output });
        } else if c == ',' {
            instructions.push(Inst { idx: i, kind: Kind::Input });
        }
        i += 1;
    }
}

/// A sequence of `n` natural numbers below `n` that ascends strictly is `0, 1, ..`.
proof fn lemma_positions_are_indices(s: Seq<Inst>, i: int)
    requires
        0 <= i < s.len(),
        forall|k: int| 0 <= k < s.len() ==> (#[trigger] s[k]).idx < s.len(),
        forall|a: int, b: int| 0 <= a < b < s.len() ==> s[a].idx < s[b].idx,
    ensures
        s[i].idx == i,
{
    lemma_position_not_below(s, i);
    lemma_position_not_above(s, i);
}

proof fn lemma_position_not_below(s: Seq<Inst>, i: int)
    requires
        0 <= i < s.len(),
        forall|a: int, b: int| 0 <= a < b < s.len() ==> s[a].idx < s[b].idx,
    ensures
        s[i].idx >= i,
    decreases i,
{
    if i > 0 {
        lemma_position_not_below(s, i - 1);
    }
}

proof fn lemma_position_not_above(s: Seq<Inst>, i: int)
    requires
        0 <= i < s.len(),
        forall|k: int| 0 <= k < s.len() ==> (#[trigger] s[k]).idx < s.len(),
        forall|a: int, b: int| 0 <= a < b < s.len() ==> s[a].idx < s[b].idx,
    ensures
        s[i].idx <= i,
    decreases s.len() - i,
{
    if i + 1 < s.len() {
        lemma_position_not_above(s, i + 1);
    }
}

/// Sorting instructions that hold each position of `ops` once puts each at its position.
proof fn lemma_sorted_program(ops: Seq<char>, emitted: Seq<Inst>, sorted: Seq<Inst>)
    requires
        emitted.len() == ops.len(),
        distinct(emitted),
        forall|k: int| 0 <= k < emitted.len() ==> placed(ops, #[trigger] emitted[k]),
        ascending(sorted),
        sorted.to_multiset() == emitted.to_multiset(),
    ensures
        sorted.len() == ops.len(),
        in_order(sorted),
        kinds(sorted) == Seq::new(ops.len(), |i: int| kind_at(ops, i)),
{
    broadcast use vstd::seq_lib::group_to_multiset_ensures;

    assert(sorted.len() == emitted.len()) by {
        vstd::seq_lib::to_multiset_len(sorted);
        vstd::seq_lib::to_multiset_len(emitted);
    }
    assert forall|k: int| 0 <= k < sorted.len() implies placed(ops, #[trigger] sorted[k]) by {
        assert(sorted.contains(sorted[k]));
        assert(emitted.to_multiset().count(sorted[k]) > 0);
        assert(emitted.contains(sorted[k]));
    }
    assert(emitted.no_duplicates());
    emitted.lemma_multiset_has_no_duplicates();
    sorted.lemma_multiset_has_no_duplicates_conv();
    assert forall|a: int, b: int| 0 <= a < b < sorted.len() implies sorted[a].idx
        < sorted[b].idx by {
        if sorted[a].idx == sorted[b].idx {
            assert(placed(ops, sorted[a]) && placed(ops, sorted[b]));
            assert(sorted[a] == sorted[b]);
        }
    }
    assert forall|i: int| 0 <= i < sorted.len() implies (#[trigger] sorted[i]).idx == i by {
        lemma_positions_are_indices(sorted, i);
    }
    assert(kinds(sorted) =~= Seq::new(ops.len(), |i: int| kind_at(ops, i)));
}

} // verus!
