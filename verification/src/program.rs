//! Programs as mathematics: what makes a sequence of instructions well formed, and
//! what holds of the programs that the resolver yields.

use vstd::prelude::*;
use crate::inst::{kind_at, resolve, Kind, StructuralError};
use crate::nesting::{
    balanced, depth, is_opcode, is_pair, is_unclosed_start, is_unmatched_end,
    lemma_close_unique, lemma_loop_end_has_partner, lemma_loop_start_has_partner,
    lemma_open_unique, lemma_three_outcomes, lemma_unclosed_start_unique,
    lemma_unmatched_end_unique, opcodes, partner,
};

verus! {

/// The opcode that an instruction of this kind is written as.
pub open spec fn symbol(kind: Kind) -> char {
    match kind {
        Kind::MoveRight => '>',
        Kind::MoveLeft => '<',
        Kind::Increment => '+',
        Kind::Decrement => '-',
        Kind::Output => '.',
        Kind::Input => ',',
        Kind::LoopStart { .. } => '[',
        Kind::LoopEnd { .. } => ']',
    }
}

/// The program written out as opcodes.
pub open spec fn text(program: Seq<Kind>) -> Seq<char> {
    program.map_values(|kind: Kind| symbol(kind))
}

/// The loops of the program nest, and each delimiter's target is the index just past
/// its partner.
pub open spec fn well_formed(program: Seq<Kind>) -> bool {
    &&& balanced(text(program))
    &&& forall|i: int|
        0 <= i < program.len() ==> match #[trigger] program[i] {
            Kind::LoopStart { target } => is_pair(text(program), i, target - 1),
            Kind::LoopEnd { target } => is_pair(text(program), target - 1, i),
            _ => true,
        }
}

/// How many loop starts the program has.
pub open spec fn loop_starts(program: Seq<Kind>) -> nat {
    program.filter(|kind: Kind| kind is LoopStart).len()
}

/// How many loop ends the program has.
pub open spec fn loop_ends(program: Seq<Kind>) -> nat {
    program.filter(|kind: Kind| kind is LoopEnd).len()
}

/// If the instruction at `i` is a loop start, its target is past `i + 1` and within
/// the program's length, and the instruction before the target is the loop end that
/// pairs with it, whose target is `i + 1`.
pub open spec fn start_meets_its_end(program: Seq<Kind>, i: int) -> bool {
    program[i] matches Kind::LoopStart { target } ==> {
        &&& i + 2 <= target <= program.len()
        &&& is_pair(text(program), i, target - 1)
        &&& program[target - 1] == (Kind::LoopEnd { target: (i + 1) as usize })
    }
}

/// If the instruction at `j` is a loop end, its target is at least 1 and at most `j`,
/// and the instruction before the target is the loop start that pairs with it, whose
/// target is `j + 1`.
pub open spec fn end_meets_its_start(program: Seq<Kind>, j: int) -> bool {
    program[j] matches Kind::LoopEnd { target } ==> {
        &&& 1 <= target <= j
        &&& is_pair(text(program), target - 1, j)
        &&& program[target - 1] == (Kind::LoopStart { target: (j + 1) as usize })
    }
}

/// In a well-formed program there are as many loop starts as loop ends, every loop
/// start points past its loop end, and every loop end points past its loop start.
pub proof fn lemma_loops_match(program: Seq<Kind>)
    requires
        well_formed(program),
    ensures
        loop_starts(program) == loop_ends(program),
        forall|i: int| 0 <= i < program.len() ==> start_meets_its_end(program, i),
        forall|j: int| 0 <= j < program.len() ==> end_meets_its_start(program, j),
{
    let ops = text(program);
    lemma_depth_counts_loops(program, program.len() as int);
    assert(program.take(program.len() as int) == program);
    assert forall|i: int| 0 <= i < program.len() implies start_meets_its_end(program, i) by {
        if let Kind::LoopStart { target } = program[i] {
            let close = target - 1;
            assert(ops[close] == symbol(program[close]));
            match program[close] {
                Kind::LoopEnd { target: back } => {
                    lemma_open_unique(ops, back - 1, i, close);
                },
                _ => {},
            }
        }
    }
    assert forall|j: int| 0 <= j < program.len() implies end_meets_its_start(program, j) by {
        if let Kind::LoopEnd { target } = program[j] {
            let open = target - 1;
            assert(ops[open] == symbol(program[open]));
            match program[open] {
                Kind::LoopStart { target: forth } => {
                    lemma_close_unique(ops, open, forth - 1, j);
                },
                _ => {},
            }
        }
    }
}

/// The nesting depth after `n` instructions is the number of loop starts among them
/// minus the number of loop ends.
proof fn lemma_depth_counts_loops(program: Seq<Kind>, n: int)
    requires
        0 <= n <= program.len(),
    ensures
        depth(text(program), n) == loop_starts(program.take(n)) - loop_ends(program.take(n)),
    decreases n,
{
    reveal(Seq::filter);
    if n > 0 {
        lemma_depth_counts_loops(program, n - 1);
        let before = program.take(n - 1);
        let kind = program[n - 1];
        assert(program.take(n) == before.push(kind));
        before.lemma_filter_push(kind, |kind: Kind| kind is LoopStart);
        before.lemma_filter_push(kind, |kind: Kind| kind is LoopEnd);
        assert(text(program)[n - 1] == symbol(kind));
    }
}

/// A program that resolving a source yields is well formed, and written out it is the
/// source without its commentary.
pub proof fn lemma_resolve_gives_well_formed(source: Seq<char>)
    requires
        opcodes(source).len() <= usize::MAX,
    ensures
        resolve(source) matches Ok(program) ==> well_formed(program) && text(program) == opcodes(
            source,
        ),
{
    let ops = opcodes(source);
    if let Ok(program) = resolve(source) {
        lemma_three_outcomes(ops);
        assert forall|i: int| 0 <= i < ops.len() implies ops[i] == symbol(
            #[trigger] kind_at(ops, i),
        ) by {
            source.lemma_filter_pred(|c: char| is_opcode(c), i);
        }
        assert(text(program) =~= ops);
        assert forall|i: int| 0 <= i < program.len() implies match #[trigger] program[i] {
            Kind::LoopStart { target } => is_pair(ops, i, target - 1),
            Kind::LoopEnd { target } => is_pair(ops, target - 1, i),
            _ => true,
        } by {
            assert(program[i] == kind_at(ops, i));
            if ops[i] == '[' {
                lemma_loop_start_has_partner(ops, i);
            } else if ops[i] == ']' {
                lemma_loop_end_has_partner(ops, i);
            }
        }
    }
}

/// A sequence of opcodes has no commentary to drop.
proof fn lemma_opcodes_of_opcodes(ops: Seq<char>)
    requires
        forall|i: int| 0 <= i < ops.len() ==> is_opcode(#[trigger] ops[i]),
    ensures
        opcodes(ops) == ops,
    decreases ops.len(),
{
    reveal(Seq::filter);
    if ops.len() > 0 {
        lemma_opcodes_of_opcodes(ops.drop_last());
        assert(ops.drop_last().push(ops.last()) == ops);
    }
}

/// Commentary is ignored: a source resolves to what it resolves to once its
/// commentary is dropped, and two sources with the same opcodes resolve alike.
pub proof fn lemma_commentary_is_ignored(source: Seq<char>, other: Seq<char>)
    ensures
        resolve(opcodes(source)) == resolve(source),
        opcodes(other) == opcodes(source) ==> resolve(other) == resolve(source),
{
    let ops = opcodes(source);
    assert forall|i: int| 0 <= i < ops.len() implies is_opcode(#[trigger] ops[i]) by {
        source.lemma_filter_pred(|c: char| is_opcode(c), i);
    }
    lemma_opcodes_of_opcodes(ops);
}

/// When resolving succeeds and when it fails: a source resolves to a program if and
/// only if its opcodes are balanced, and to each error if and only if the position is
/// the one that the error names.
pub proof fn lemma_resolve_outcomes(source: Seq<char>, p: int)
    requires
        opcodes(source).len() <= usize::MAX,
    ensures
        resolve(source) is Ok <==> balanced(opcodes(source)),
        resolve(source) matches Ok(program) ==> program.len() == opcodes(source).len(),
        is_unmatched_end(opcodes(source), p) <==> 0 <= p <= usize::MAX && resolve(source) == Err::<
            Seq<Kind>,
            StructuralError,
        >(StructuralError::UnmatchedEnd { position: p as usize }),
        is_unclosed_start(opcodes(source), p) <==> 0 <= p <= usize::MAX && resolve(source) == Err::<
            Seq<Kind>,
            StructuralError,
        >(StructuralError::UnclosedStart { position: p as usize }),
{
    let ops = opcodes(source);
    lemma_three_outcomes(ops);
    if is_unmatched_end(ops, p) {
        lemma_unmatched_end_unique(ops, p, choose|q: int| is_unmatched_end(ops, q));
    }
    if is_unclosed_start(ops, p) {
        lemma_unclosed_start_unique(ops, p, choose|q: int| is_unclosed_start(ops, q));
    }
}

/// A well-formed program, written out, resolves to itself.
pub proof fn lemma_well_formed_resolves_to_itself(program: Seq<Kind>)
    requires
        well_formed(program),
    ensures
        resolve(text(program)) == Ok::<Seq<Kind>, StructuralError>(program),
{
    let ops = text(program);
    assert forall|i: int| 0 <= i < ops.len() implies is_opcode(#[trigger] ops[i]) by {
        assert(ops[i] == symbol(program[i]));
    }
    lemma_opcodes_of_opcodes(ops);
    lemma_three_outcomes(ops);
    assert forall|i: int| 0 <= i < program.len() implies program[i] == kind_at(ops, i) by {
        assert(ops[i] == symbol(program[i]));
        match program[i] {
            Kind::LoopStart { target } => {
                lemma_close_unique(ops, i, partner(ops, i), target - 1);
            },
            Kind::LoopEnd { target } => {
                lemma_open_unique(ops, partner(ops, i), target - 1, i);
            },
            _ => {},
        }
    }
    assert(program =~= Seq::new(ops.len(), |i: int| kind_at(ops, i)));
}

} // verus!
