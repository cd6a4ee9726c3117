use vstd::prelude::*;

verus! {

/// The instruction kinds of the machine.
#[derive(Debug, Clone, Copy, PartialEq, Eq, Structural)]
pub enum VmIrOperands {
    Add,
    MoveMemoryPointer,
    ReadFromConsole,
    WriteToConsole,
    GotoIfZero,
    GotoIfNonZero,
}

/// One instruction: a kind and its operand (a delta, a tape index or an instruction index).
#[derive(Debug, Clone, Copy, PartialEq, Eq, Structural)]
pub struct VmIr {
    pub operand: VmIrOperands,
    pub operand_value: i64,
}

/// Why the machine stopped early.
#[derive(Debug, Clone, Copy, PartialEq, Eq, Structural)]
pub enum VmErrorType {
    Overflow,
    AccessViolation,
}

/// A runtime fault: its kind, the instruction that caused it and that instruction's index.
#[derive(Debug, Clone, Copy, PartialEq, Eq, Structural)]
pub struct VmError {
    pub err: VmErrorType,
    pub ir: VmIr,
    pub position: usize,
}

} // verus!

verus! {

/// Number of cells on the tape.
pub const TAPE_LEN: usize = 30000;

/// The machine as mathematics: the tape, the pointer and the program counter.
pub struct MachineModel {
    pub tape: Seq<i8>,
    pub pointer: int,
    pub pc: int,
}

/// What a step asks of whoever drives the machine.
#[derive(Debug, Clone, Copy, PartialEq, Eq, Structural)]
pub enum StepEvent {
    /// An instruction ran; nothing to do.
    Continue,
    /// A `WriteToConsole` ran: emit this byte.
    Output(u8),
    /// The instruction under the program counter is `ReadFromConsole`: hand a value to
    /// `VmState::read_input`. The machine has not moved.
    AwaitInput,
    /// The program counter has reached the end of the program.
    Halted,
}

/// The machine's state for one run.
pub struct VmState {
    pub memory: Vec<i8>,
    pub pointer: usize,
    pub program_counter: usize,
}

/// Eight-bit addition that wraps around.
pub open spec fn wrap_add(x: i8, d: i8) -> i8 {
    if x + d > 127 {
        (x + d - 256) as i8
    } else if x + d < -128 {
        (x + d + 256) as i8
    } else {
        (x + d) as i8
    }
}

/// A cell's bits read as an unsigned byte.
pub open spec fn byte_of(cell: i8) -> u8 {
    if cell < 0 {
        (cell + 256) as u8
    } else {
        cell as u8
    }
}

pub open spec fn fault(err: VmErrorType, m: MachineModel, ir: VmIr) -> VmError {
    VmError { err, ir, position: m.pc as usize }
}

/// The effect of one instruction. `ReadFromConsole` leaves the machine as it is and asks
/// for input; `VmState::read_input` finishes it.
/// A branch may target any instruction or the end of the program, where the run ends normally.
pub open spec fn step_spec(m: MachineModel, program: Seq<VmIr>) -> Result<(MachineModel, StepEvent), VmError> {
    if m.pc < 0 || m.pc >= program.len() {
        Ok((m, StepEvent::Halted))
    } else {
        let ir = program[m.pc];
        let v = ir.operand_value as int;
        let cell = m.tape[m.pointer];
        match ir.operand {
            VmIrOperands::Add => if -128 <= v <= 127 {
                Ok((
                    MachineModel { tape: m.tape.update(m.pointer, wrap_add(cell, v as i8)), pc: m.pc + 1, ..m },
                    StepEvent::Continue,
                ))
            } else {
                Err(fault(VmErrorType::Overflow, m, ir))
            },
            VmIrOperands::MoveMemoryPointer => if 0 <= v < TAPE_LEN {
                Ok((MachineModel { pointer: v, pc: m.pc + 1, ..m }, StepEvent::Continue))
            } else {
                Err(fault(VmErrorType::AccessViolation, m, ir))
            },
            VmIrOperands::ReadFromConsole => Ok((m, StepEvent::AwaitInput)),
            VmIrOperands::WriteToConsole => Ok(
                (MachineModel { pc: m.pc + 1, ..m }, StepEvent::Output(byte_of(cell))),
            ),
            VmIrOperands::GotoIfZero => if 0 <= v <= program.len() {
                Ok((MachineModel { pc: if cell == 0 { v } else { m.pc + 1 }, ..m }, StepEvent::Continue))
            } else {
                Err(fault(VmErrorType::AccessViolation, m, ir))
            },
            VmIrOperands::GotoIfNonZero => if 0 <= v <= program.len() {
                Ok((MachineModel { pc: if cell != 0 { v } else { m.pc + 1 }, ..m }, StepEvent::Continue))
            } else {
                Err(fault(VmErrorType::AccessViolation, m, ir))
            },
        }
    }
}

/// The machine after a `ReadFromConsole` has stored `value`.
pub open spec fn read_into(m: MachineModel, value: i8) -> MachineModel {
    MachineModel { tape: m.tape.update(m.pointer, value), pc: m.pc + 1, ..m }
}

/// A fresh machine: all cells zero, pointer and program counter at zero.
pub open spec fn initial_machine() -> MachineModel {
    MachineModel { tape: Seq::new(TAPE_LEN as nat, |i: int| 0i8), pointer: 0, pc: 0 }
}

impl VmState {
    pub open spec fn wf(&self) -> bool {
        &&& self.memory.len() == TAPE_LEN
        &&& self.pointer < TAPE_LEN
    }

    pub open spec fn view(&self) -> MachineModel {
        MachineModel {
            tape: self.memory@,
            pointer: self.pointer as int,
            pc: self.program_counter as int,
        }
    }

    /// A fresh machine.
    pub fn new() -> (r: VmState)
        ensures
            r.wf(),
            r@ == initial_machine(),
    {
        let mut memory: Vec<i8> = Vec::new();
        let mut i: usize = 0;
        while i < TAPE_LEN
            invariant
                i <= TAPE_LEN,
                memory@ == Seq::new(i as nat, |k: int| 0i8),
            decreases TAPE_LEN - i,
        {
            memory.push(0);
            i = i + 1;
            assert(memory@ =~= Seq::new(i as nat, |k: int| 0i8));
        }
        VmState { memory, pointer: 0, program_counter: 0 }
    }

    /// Runs the instruction under the program counter, or reports why it cannot.
    /// On a fault nothing changes.
    pub fn step(&mut self, program: &Vec<VmIr>) -> (r: Result<StepEvent, VmError>)
        requires
            old(self).wf(),
        ensures
            final(self).wf(),
            match step_spec(old(self)@, program@) {
                Ok((m, e)) => r == Ok::<StepEvent, VmError>(e) && final(self)@ == m,
                Err(err) => r == Err::<StepEvent, VmError>(err) && final(self)@ == old(self)@,
            },
    {
        let pc = self.program_counter;
        if pc >= program.len() {
            return Ok(StepEvent::Halted);
        }
        let ir = program[pc];
        let v = ir.operand_value;
        let cell = self.memory[self.pointer];
        match ir.operand {
            VmIrOperands::Add => {
                if v < -128 || v > 127 {
                    return Err(VmError { err: VmErrorType::Overflow, ir, position: pc });
                }
                let sum: i16 = cell as i16 + v as i16;
                let next: i8 = if sum > 127 {
                    (sum - 256) as i8
                } else if sum < -128 {
                    (sum + 256) as i8
                } else {
                    sum as i8
                };
                self.memory.set(self.pointer, next);
                self.program_counter = pc + 1;
                Ok(StepEvent::Continue)
            },
            VmIrOperands::MoveMemoryPointer => {
                if v < 0 || v >= TAPE_LEN as i64 {
                    return Err(VmError { err: VmErrorType::AccessViolation, ir, position: pc });
                }
                self.pointer = v as usize;
                self.program_counter = pc + 1;
                Ok(StepEvent::Continue)
            },
            VmIrOperands::ReadFromConsole => Ok(StepEvent::AwaitInput),
            VmIrOperands::WriteToConsole => {
                self.program_counter = pc + 1;
                let byte: u8 = if cell < 0 {
                    (cell as i16 + 256) as u8
                } else {
                    cell as u8
                };
                Ok(StepEvent::Output(byte))
            },
            VmIrOperands::GotoIfZero | VmIrOperands::GotoIfNonZero => {
                if v < 0 || v as u64 > program.len() as u64 {
                    return Err(VmError { err: VmErrorType::AccessViolation, ir, position: pc });
                }
                let taken = if ir.operand == VmIrOperands::GotoIfZero {
                    cell == 0
                } else {
                    cell != 0
                };
                self.program_counter = if taken {
                    v as usize
                } else {
                    pc + 1
                };
                Ok(StepEvent::Continue)
            },
        }
    }

    /// Finishes a `ReadFromConsole`: stores `value` in the current cell and moves on.
    pub fn read_input(&mut self, value: i8)
        requires
            old(self).wf(),
            old(self).program_counter < usize::MAX,
        ensures
            final(self).wf(),
            final(self)@ == read_into(old(self)@, value),
    {
        self.memory.set(self.pointer, value);
        self.program_counter = self.program_counter + 1;
    }
}

} // verus!

verus! {

/// How a bounded run ended.
#[derive(Debug, Clone, Copy, PartialEq, Eq, Structural)]
pub enum RunStatus {
    /// The program counter reached the end of the program.
    Finished,
    /// An instruction faulted; the machine stopped there.
    Faulted(VmError),
    /// A `ReadFromConsole` found no input left.
    InputExhausted,
    /// The step budget ran out first.
    OutOfSteps,
}

/// The end of a bounded run: how it ended, the bytes written, and the machine as it stopped.
pub struct RunOutcome {
    pub status: RunStatus,
    pub output: Vec<u8>,
    pub machine: VmState,
}

/// Runs from `m` for at most `fuel` steps, feeding `input` to `ReadFromConsole` in order:
/// the way it ends, the bytes written, and the machine at the end.
pub open spec fn run_spec(m: MachineModel, program: Seq<VmIr>, input: Seq<i8>, fuel: nat) -> (
    RunStatus,
    Seq<u8>,
    MachineModel,
)
    decreases fuel,
{
    if !(0 <= m.pc < program.len()) {
        (RunStatus::Finished, seq![], m)
    } else if fuel == 0 {
        (RunStatus::OutOfSteps, seq![], m)
    } else {
        match step_spec(m, program) {
            Err(e) => (RunStatus::Faulted(e), seq![], m),
            Ok((next, StepEvent::Output(b))) => {
                let rest = run_spec(next, program, input, (fuel - 1) as nat);
                (rest.0, seq![b] + rest.1, rest.2)
            },
            Ok((next, StepEvent::AwaitInput)) => if input.len() == 0 {
                (RunStatus::InputExhausted, seq![], m)
            } else {
                run_spec(read_into(m, input[0]), program, input.drop_first(), (fuel - 1) as nat)
            },
            Ok((next, _)) => run_spec(next, program, input, (fuel - 1) as nat),
        }
    }
}

/// Runs `program` on a fresh machine for at most `max_steps` instructions, taking each value
/// that `ReadFromConsole` stores from `input` in order, and collecting what it writes.
pub fn run(program: &Vec<VmIr>, input: &Vec<i8>, max_steps: usize) -> (r: RunOutcome)
    ensures
        r.machine.wf(),
        (r.status, r.output@, r.machine@) == run_spec(initial_machine(), program@, input@, max_steps as nat),
{
    let mut vm = VmState::new();
    let mut output: Vec<u8> = Vec::new();
    let mut next_input: usize = 0;
    let mut fuel: usize = max_steps;
    let ghost goal = run_spec(initial_machine(), program@, input@, max_steps as nat);
    assert(input@.skip(0) =~= input@);
    assert(output@ + goal.1 =~= goal.1);
    loop
        invariant
            goal == run_spec(initial_machine(), program@, input@, max_steps as nat),
            vm.wf(),
            next_input <= input.len(),
            goal.0 == run_spec(vm@, program@, input@.skip(next_input as int), fuel as nat).0,
            goal.1 == output@ + run_spec(vm@, program@, input@.skip(next_input as int), fuel as nat).1,
            goal.2 == run_spec(vm@, program@, input@.skip(next_input as int), fuel as nat).2,
        decreases fuel,
    {
        let ghost rest = input@.skip(next_input as int);
        let ghost out_before = output@;
        if vm.program_counter >= program.len() {
            assert(output@ =~= output@ + Seq::<u8>::empty());
            return RunOutcome { status: RunStatus::Finished, output, machine: vm };
        }
        if fuel == 0 {
            assert(output@ =~= output@ + Seq::<u8>::empty());
            return RunOutcome { status: RunStatus::OutOfSteps, output, machine: vm };
        }
        match vm.step(program) {
            Err(e) => {
                assert(output@ =~= output@ + Seq::<u8>::empty());
                return RunOutcome { status: RunStatus::Faulted(e), output, machine: vm };
            },
            Ok(StepEvent::Output(b)) => {
                output.push(b);
                assert(out_before + (seq![b] + run_spec(vm@, program@, rest, (fuel - 1) as nat).1)
                    =~= output@ + run_spec(vm@, program@, rest, (fuel - 1) as nat).1);
            },
            Ok(StepEvent::AwaitInput) => {
                if next_input >= input.len() {
                    assert(output@ =~= output@ + Seq::<u8>::empty());
                    return RunOutcome { status: RunStatus::InputExhausted, output, machine: vm };
                }
                vm.read_input(input[next_input]);
                assert(rest.drop_first() =~= input@.skip(next_input + 1));
                next_input = next_input + 1;
            },
            Ok(_) => {},
        }
        fuel = fuel - 1;
    }
}

} // verus!
