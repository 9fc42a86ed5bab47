//! The execution engine: a tape of bytes, a data pointer, an instruction pointer.
//!
//! The engine does no input or output itself. It runs until the program needs the
//! outside world, says so with a [`Signal`], and is called again when that is done.

use vstd::prelude::*;
use crate::inst::{kinds, Inst, Kind};
use crate::program::{lemma_loops_match, well_formed};

verus! {

/// Why a run cannot go on.
#[derive(Debug, Clone, Copy, PartialEq, Eq, Structural)]
pub enum RuntimeFault {
    /// An instruction would have moved the data pointer off the tape, or needed a cell
    /// of a tape that has none. `pointer` is the data pointer at that moment.
    TapeBoundsExceeded { pointer: usize },
}

/// What the machine tells its caller when it hands control back.
#[derive(Debug, Clone, Copy, PartialEq, Eq, Structural)]
pub enum Signal {
    /// Nothing is needed: the machine can be run further.
    Running,
    /// An output instruction was executed: the character is to be written out.
    Output(char),
    /// An input instruction is next: it needs a line of input, and is executed when
    /// the machine is run with one.
    Input,
    /// The instruction pointer is at or past the end of the program.
    Halted,
    /// The next instruction cannot be executed. The machine is as it was before it.
    Fault(RuntimeFault),
}

/// The state of the machine, as mathematics.
pub struct Machine {
    /// The cells.
    pub tape: Seq<u8>,
    /// The index of the current cell.
    pub data_pointer: nat,
    /// The index, in the program, of the next instruction.
    pub instruction_pointer: nat,
}

impl Machine {
    /// The state before a run on a tape of `size` cells.
    pub open spec fn start(size: nat) -> Machine {
        Machine { tape: Seq::new(size, |i: int| 0u8), data_pointer: 0, instruction_pointer: 0 }
    }

    /// The data pointer addresses a cell of the tape.
    pub open spec fn in_bounds(self) -> bool {
        self.data_pointer < self.tape.len()
    }

    /// The value of the current cell.
    pub open spec fn cell(self) -> u8 {
        self.tape[self.data_pointer as int]
    }

    /// The state with `value` in the current cell.
    pub open spec fn store(self, value: u8) -> Machine {
        Machine { tape: self.tape.update(self.data_pointer as int, value), ..self }
    }

    /// The state with the data pointer at `pointer`.
    pub open spec fn point_at(self, pointer: nat) -> Machine {
        Machine { data_pointer: pointer, ..self }
    }

    /// The state with the instruction pointer at `target`.
    pub open spec fn jump(self, target: nat) -> Machine {
        Machine { instruction_pointer: target, ..self }
    }

    /// The state with the instruction pointer at the next instruction.
    pub open spec fn advance(self) -> Machine {
        self.jump(self.instruction_pointer + 1)
    }

    /// The fault of an instruction that the tape does not allow in this state.
    pub open spec fn fault(self) -> RuntimeFault {
        RuntimeFault::TapeBoundsExceeded { pointer: self.data_pointer as usize }
    }
}

/// The byte that an input instruction takes from a line: its first byte, or zero
/// where the line has none, as at the end of the input.
pub open spec fn first_byte(line: Seq<u8>) -> u8 {
    if line.len() == 0 {
        0
    } else {
        line[0]
    }
}

/// `value` plus one, in the arithmetic of a byte.
pub open spec fn increment(value: u8) -> u8 {
    ((value + 1) % 256) as u8
}

/// `value` minus one, in the arithmetic of a byte.
pub open spec fn decrement(value: u8) -> u8 {
    ((value + 255) % 256) as u8
}

/// Whether the tape allows an instruction of this kind in state `m`: a move must end
/// on the tape, every other instruction needs the current cell.
pub open spec fn permitted(m: Machine, kind: Kind) -> bool {
    match kind {
        Kind::MoveRight => m.data_pointer + 1 < m.tape.len(),
        Kind::MoveLeft => 0 < m.data_pointer <= m.tape.len(),
        _ => m.in_bounds(),
    }
}

/// What a permitted instruction of this kind does in state `m`. `line` is the line of
/// input at hand, if there is one.
pub open spec fn perform(m: Machine, kind: Kind, line: Option<Seq<u8>>) -> (Machine, Signal) {
    match kind {
        Kind::MoveRight => (m.point_at(m.data_pointer + 1).advance(), Signal::Running),
        Kind::MoveLeft => (m.point_at((m.data_pointer - 1) as nat).advance(), Signal::Running),
        Kind::Increment => (m.store(increment(m.cell())).advance(), Signal::Running),
        Kind::Decrement => (m.store(decrement(m.cell())).advance(), Signal::Running),
        Kind::Output => (m.advance(), Signal::Output(m.cell() as char)),
        Kind::Input => match line {
            Some(bytes) => (m.store(first_byte(bytes)).advance(), Signal::Running),
            None => (m, Signal::Input),
        },
        Kind::LoopStart { target } => if m.cell() == 0 {
            (m.jump(target as nat), Signal::Running)
        } else {
            (m.advance(), Signal::Running)
        },
        Kind::LoopEnd { target } => if m.cell() != 0 {
            (m.jump(target as nat), Signal::Running)
        } else {
            (m.advance(), Signal::Running)
        },
    }
}

/// One cycle of the machine: fetch the instruction at the instruction pointer and
/// execute it.
pub open spec fn step(m: Machine, program: Seq<Kind>, line: Option<Seq<u8>>) -> (Machine, Signal) {
    if m.instruction_pointer >= program.len() {
        (m, Signal::Halted)
    } else if !permitted(m, program[m.instruction_pointer as int]) {
        (m, Signal::Fault(m.fault()))
    } else {
        perform(m, program[m.instruction_pointer as int], line)
    }
}

/// At most `budget` cycles of the machine, up to the first that gives another signal
/// than [`Signal::Running`]. Only the first cycle has the line of input at hand.
pub open spec fn run(m: Machine, program: Seq<Kind>, line: Option<Seq<u8>>, budget: nat) -> (
    Machine,
    Signal,
)
    decreases budget,
{
    if budget == 0 {
        (m, Signal::Running)
    } else {
        let (next, signal) = step(m, program, line);
        if signal is Running {
            run(next, program, None, (budget - 1) as nat)
        } else {
            (next, signal)
        }
    }
}

/// The bytes of the line of input at hand, if there is one.
pub open spec fn bytes_of(line: Option<&[u8]>) -> Option<Seq<u8>> {
    match line {
        Some(bytes) => Some(bytes@),
        None => None,
    }
}

/// The machine: a tape of cells, the index of the current cell, and the index of the
/// next instruction.
#[derive(Debug)]
pub struct Computer {
    data_ptr: usize,
    inst_ptr: usize,
    memory: Vec<u8>,
}

impl View for Computer {
    type V = Machine;

    closed spec fn view(&self) -> Machine {
        Machine {
            tape: self.memory@,
            data_pointer: self.data_ptr as nat,
            instruction_pointer: self.inst_ptr as nat,
        }
    }
}

impl Computer {
    /// A machine with a tape of `num_bytes` cells, all zero, and both pointers at zero.
    /// On a tape without cells every instruction faults.
    pub fn new(num_bytes: usize) -> (computer: Self)
        ensures
            computer@ == Machine::start(num_bytes as nat),
    {
        let computer = Self { data_ptr: 0, inst_ptr: 0, memory: vec![0; num_bytes] };
        assert(computer.memory@ =~= Seq::new(num_bytes as nat, |i: int| 0u8));
        computer
    }

    /// The index of the current cell.
    pub fn data_pointer(&self) -> (pointer: usize)
        ensures
            pointer == self@.data_pointer,
    {
        self.data_ptr
    }

    /// The index of the next instruction.
    pub fn instruction_pointer(&self) -> (pointer: usize)
        ensures
            pointer == self@.instruction_pointer,
    {
        self.inst_ptr
    }

    /// The cells of the tape.
    pub fn memory(&self) -> (cells: &[u8])
        ensures
            cells@ == self@.tape,
    {
        self.memory.as_slice()
    }

    /// The value of the current cell, if the data pointer addresses one.
    pub fn read_memory(&self) -> (result: Result<u8, RuntimeFault>)
        ensures
            result == if self@.in_bounds() {
                Ok::<u8, RuntimeFault>(self@.cell())
            } else {
                Err::<u8, RuntimeFault>(self@.fault())
            },
    {
        if self.data_ptr < self.memory.len() {
            Ok(self.memory[self.data_ptr])
        } else {
            Err(RuntimeFault::TapeBoundsExceeded { pointer: self.data_ptr })
        }
    }

    /// Puts `value` in the current cell, if the data pointer addresses one.
    fn write_memory(&mut self, value: u8) -> (result: Result<(), RuntimeFault>)
        ensures
            result == if old(self)@.in_bounds() {
                Ok::<(), RuntimeFault>(())
            } else {
                Err::<(), RuntimeFault>(old(self)@.fault())
            },
            final(self)@ == if old(self)@.in_bounds() {
                old(self)@.store(value)
            } else {
                old(self)@
            },
    {
        if self.data_ptr < self.memory.len() {
            self.memory[self.data_ptr] = value;
            Ok(())
        } else {
            Err(RuntimeFault::TapeBoundsExceeded { pointer: self.data_ptr })
        }
    }

    /// Executes one instruction of kind `kind`, which the instruction pointer addresses.
    fn cycle(&mut self, kind: Kind, line: Option<&[u8]>) -> (result: Result<Signal, RuntimeFault>)
        requires
            old(self)@.instruction_pointer < usize::MAX,
        ensures
            match result {
                Ok(signal) => permitted(old(self)@, kind) && (final(self)@, signal) == perform(
                    old(self)@,
                    kind,
                    bytes_of(line),
                ),
                Err(fault) => !permitted(old(self)@, kind) && final(self)@ == old(self)@ && fault
                    == old(self)@.fault(),
            },
    {
        match kind {
            Kind::MoveRight => {
                if self.data_ptr >= self.memory.len() || self.memory.len() - self.data_ptr <= 1 {
                    return Err(RuntimeFault::TapeBoundsExceeded { pointer: self.data_ptr });
                }
                self.data_ptr += 1;
            },
            Kind::MoveLeft => {
                if self.data_ptr == 0 || self.data_ptr > self.memory.len() {
                    return Err(RuntimeFault::TapeBoundsExceeded { pointer: self.data_ptr });
                }
                self.data_ptr -= 1;
            },
            Kind::Increment => {
                let value = self.read_memory()?;
                self.write_memory(value.wrapping_add(1))?;
            },
            Kind::Decrement => {
                let value = self.read_memory()?;
                self.write_memory(value.wrapping_sub(1))?;
            },
            Kind::Output => {
                let value = self.read_memory()?;
                self.inst_ptr += 1;
                return Ok(Signal::Output(value as char));
            },
            Kind::Input => {
                self.read_memory()?;
                let Some(bytes) = line else {
                    return Ok(Signal::Input);
                };
                let value = match bytes.first() {
                    Some(byte) => *byte,
                    None => 0,
                };
                self.write_memory(value)?;
            },
            Kind::LoopStart { target } => {
                if self.read_memory()? == 0 {
                    self.inst_ptr = target;
                    return Ok(Signal::Running);
                }
            },
            Kind::LoopEnd { target } => {
                if self.read_memory()? != 0 {
                    self.inst_ptr = target;
                    return Ok(Signal::Running);
                }
            },
        }
        // Prime the next instruction.
        self.inst_ptr += 1;
        Ok(Signal::Running)
    }

    /// Runs one cycle: executes the instruction that the instruction pointer addresses,
    /// if there is one and the tape allows it. `line` is the line of input at hand; only
    /// an input instruction looks at it.
    pub fn step(&mut self, program: &[Inst], line: Option<&[u8]>) -> (signal: Signal)
        ensures
            (final(self)@, signal) == step(old(self)@, kinds(program@), bytes_of(line)),
            final(self)@.tape.len() == old(self)@.tape.len(),
            old(self)@.in_bounds() ==> final(self)@.in_bounds(),
    {
        let kind = match program.get(self.inst_ptr) {
            Some(inst) => inst.kind,
            None => {
                return Signal::Halted;
            },
        };
        match self.cycle(kind, line) {
            Ok(signal) => signal,
            Err(fault) => Signal::Fault(fault),
        }
    }

    /// Runs the machine on `program` for at most `budget` cycles, up to the first that
    /// gives another signal than [`Signal::Running`]. `line` is the line of input at
    /// hand; it is there for the first cycle only.
    pub fn execute(&mut self, program: &[Inst], line: Option<&[u8]>, budget: usize) -> (signal:
        Signal)
        ensures
            (final(self)@, signal) == run(
                old(self)@,
                kinds(program@),
                bytes_of(line),
                budget as nat,
            ),
            final(self)@.tape.len() == old(self)@.tape.len(),
            old(self)@.in_bounds() ==> final(self)@.in_bounds(),
    {
        let mut at_hand = line;
        let mut left = budget;
        while left > 0
            invariant
                run(old(self)@, kinds(program@), bytes_of(line), budget as nat) == run(
                    self@,
                    kinds(program@),
                    bytes_of(at_hand),
                    left as nat,
                ),
                self@.tape.len() == old(self)@.tape.len(),
                old(self)@.in_bounds() ==> self@.in_bounds(),
            decreases left,
        {
            let ghost before = self@;
            let signal = self.step(program, at_hand);
            assert(run(before, kinds(program@), bytes_of(at_hand), left as nat) == if signal
                is Running {
                run(self@, kinds(program@), None, (left - 1) as nat)
            } else {
                (self@, signal)
            });
            match signal {
                Signal::Running => {},
                _ => {
                    return signal;
                },
            }
            at_hand = None;
            left -= 1;
        }
        Signal::Running
    }
}

/// The arithmetic of a cell wraps: one more than 255 is 0, one less than 0 is 255.
/// Everywhere else the two are the usual successor and predecessor, and each undoes
/// the other.
pub proof fn lemma_cells_wrap(value: u8)
    ensures
        increment(255) == 0,
        decrement(0) == 255,
        value < 255 ==> increment(value) == value + 1,
        value > 0 ==> decrement(value) == value - 1,
        decrement(increment(value)) == value,
        increment(decrement(value)) == value,
{
}

/// A cycle never resizes the tape, and where the data pointer addresses a cell before
/// it, it addresses one after it.
pub proof fn lemma_step_keeps_the_tape(m: Machine, program: Seq<Kind>, line: Option<Seq<u8>>)
    ensures
        step(m, program, line).0.tape.len() == m.tape.len(),
        m.in_bounds() ==> step(m, program, line).0.in_bounds(),
{
}

/// A run never resizes the tape, and where the data pointer addresses a cell before
/// it, it addresses one after it.
pub proof fn lemma_run_keeps_the_tape(
    m: Machine,
    program: Seq<Kind>,
    line: Option<Seq<u8>>,
    budget: nat,
)
    ensures
        run(m, program, line, budget).0.tape.len() == m.tape.len(),
        m.in_bounds() ==> run(m, program, line, budget).0.in_bounds(),
    decreases budget,
{
    if budget > 0 {
        let (next, signal) = step(m, program, line);
        lemma_step_keeps_the_tape(m, program, line);
        if signal is Running {
            lemma_run_keeps_the_tape(next, program, None, (budget - 1) as nat);
        }
    }
}

/// On a well-formed program the instruction pointer never passes the end: a cycle that
/// starts at or before the end of the program ends at or before it.
pub proof fn lemma_step_stays_in_program(m: Machine, program: Seq<Kind>, line: Option<Seq<u8>>)
    requires
        well_formed(program),
        m.instruction_pointer <= program.len(),
    ensures
        step(m, program, line).0.instruction_pointer <= program.len(),
{
    lemma_loops_match(program);
}

/// On a well-formed program the instruction pointer never passes the end: a run that
/// starts at or before the end of the program ends at or before it.
pub proof fn lemma_run_stays_in_program(
    m: Machine,
    program: Seq<Kind>,
    line: Option<Seq<u8>>,
    budget: nat,
)
    requires
        well_formed(program),
        m.instruction_pointer <= program.len(),
    ensures
        run(m, program, line, budget).0.instruction_pointer <= program.len(),
    decreases budget,
{
    if budget > 0 {
        let (next, signal) = step(m, program, line);
        lemma_step_stays_in_program(m, program, line);
        if signal is Running {
            lemma_run_stays_in_program(next, program, None, (budget - 1) as nat);
        }
    }
}

/// Where the data pointer addresses a cell, the only instructions that fault are the
/// moves off the tape: to the left from the first cell, to the right from the last.
/// Such a move changes nothing, and the fault names the cell it started from.
pub proof fn lemma_faults_are_moves_off_the_tape(
    m: Machine,
    program: Seq<Kind>,
    line: Option<Seq<u8>>,
)
    requires
        m.in_bounds(),
        m.instruction_pointer < program.len(),
    ensures
        step(m, program, line).1 is Fault <==> {
            ||| program[m.instruction_pointer as int] is MoveLeft && m.data_pointer == 0
            ||| program[m.instruction_pointer as int] is MoveRight && m.data_pointer + 1
                == m.tape.len()
        },
        step(m, program, line).1 is Fault ==> step(m, program, line) == (
            m,
            Signal::Fault(RuntimeFault::TapeBoundsExceeded { pointer: m.data_pointer as usize }),
        ),
{
}

/// A fault has no effect and is final: the run ends in the state before the
/// instruction that the tape does not allow, the fault names the data pointer of that
/// state, and every further cycle, with a line of input or without, gives the same
/// fault and changes nothing.
pub proof fn lemma_fault_is_final(
    m: Machine,
    program: Seq<Kind>,
    line: Option<Seq<u8>>,
    budget: nat,
    again: Option<Seq<u8>>,
)
    ensures
        run(m, program, line, budget).1 matches Signal::Fault(fault) ==> {
            let end = run(m, program, line, budget).0;
            &&& end.instruction_pointer < program.len()
            &&& !permitted(end, program[end.instruction_pointer as int])
            &&& fault == end.fault()
            &&& step(end, program, again) == (end, Signal::Fault(fault))
        },
    decreases budget,
{
    if budget > 0 {
        let (next, signal) = step(m, program, line);
        if signal is Running {
            lemma_fault_is_final(next, program, None, (budget - 1) as nat, again);
        }
    }
}

/// A halt is final: the run ends with the instruction pointer at or past the end of
/// the program, and every further cycle halts again and changes nothing.
pub proof fn lemma_halt_is_final(
    m: Machine,
    program: Seq<Kind>,
    line: Option<Seq<u8>>,
    budget: nat,
    again: Option<Seq<u8>>,
)
    ensures
        run(m, program, line, budget).1 is Halted ==> {
            let end = run(m, program, line, budget).0;
            &&& end.instruction_pointer >= program.len()
            &&& step(end, program, again) == (end, Signal::Halted)
        },
    decreases budget,
{
    if budget > 0 {
        let (next, signal) = step(m, program, line);
        if signal is Running {
            lemma_halt_is_final(next, program, None, (budget - 1) as nat, again);
        }
    }
}

/// A run that asks for input ends before an input instruction that the tape allows. A
/// further cycle without a line asks again and changes nothing; one with a line stores
/// the line's first byte in the current cell and goes on to the next instruction.
pub proof fn lemma_input_is_served(
    m: Machine,
    program: Seq<Kind>,
    line: Option<Seq<u8>>,
    budget: nat,
    bytes: Seq<u8>,
)
    ensures
        run(m, program, line, budget).1 is Input ==> {
            let end = run(m, program, line, budget).0;
            &&& end.instruction_pointer < program.len()
            &&& program[end.instruction_pointer as int] is Input
            &&& end.in_bounds()
            &&& step(end, program, None) == (end, Signal::Input)
            &&& step(end, program, Some(bytes)) == (
                end.store(first_byte(bytes)).advance(),
                Signal::Running,
            )
        },
    decreases budget,
{
    if budget > 0 {
        let (next, signal) = step(m, program, line);
        if signal is Running {
            lemma_input_is_served(next, program, None, (budget - 1) as nat, bytes);
        }
    }
}

/// Running in two installments is running once: a run of `first + second` cycles is a
/// run of `first` cycles and, where that still gives [`Signal::Running`], a run of
/// `second` cycles from where it ended.
pub proof fn lemma_run_in_installments(
    m: Machine,
    program: Seq<Kind>,
    line: Option<Seq<u8>>,
    first: nat,
    second: nat,
)
    requires
        first > 0,
    ensures
        run(m, program, line, first + second) == ({
            let (middle, signal) = run(m, program, line, first);
            if signal is Running {
                run(middle, program, None, second)
            } else {
                (middle, signal)
            }
        }),
    decreases first,
{
    let (next, signal) = step(m, program, line);
    if signal is Running {
        if first > 1 {
            lemma_run_in_installments(next, program, None, (first - 1) as nat, second);
        } else {
            assert(run(next, program, None, 0) == (next, Signal::Running));
        }
    }
}

} // verus!
