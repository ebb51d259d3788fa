use vstd::prelude::*;

use crate::shared::Error;
use crate::shared::Instruction;
use crate::tape::wrap_dec;
use crate::tape::wrap_inc;
use crate::tape::Tape;
use crate::tape::TapeView;

verus! {

/// What the caller has to do after one instruction has run.
#[derive(Clone, Copy, Debug, PartialEq, Eq, Structural)]
pub enum Step {
    /// Nothing: go on with the next instruction.
    Next,
    /// Write this byte to the output stream.
    Output(u8),
    /// Read one byte and hand it to `feed`; the `Input` instruction is
    /// still current.
    Input,
}

/// The effect of running the instruction at `ip` of `prog` on the tape `t`:
/// the new tape, the new instruction pointer and what the caller has to do.
pub open spec fn next(prog: Seq<Instruction>, t: TapeView, ip: int) -> Result<
    (TapeView, int, Step),
    Error,
> {
    match prog[ip] {
        Instruction::Right => Ok((t.right(), ip + 1, Step::Next)),
        Instruction::Left => Ok((t.left(), ip + 1, Step::Next)),
        Instruction::Increment => Ok((t.store(wrap_inc(t.current())), ip + 1, Step::Next)),
        Instruction::Decrement => Ok((t.store(wrap_dec(t.current())), ip + 1, Step::Next)),
        Instruction::Output => Ok((t, ip + 1, Step::Output(t.current()))),
        Instruction::Input => Ok((t, ip, Step::Input)),
        Instruction::Jump(None) => Err(Error::UnresolvedBranchTarget),
        Instruction::Back(None) => Err(Error::UnresolvedBranchTarget),
        Instruction::Jump(Some(j)) => if t.current() == 0 {
            Ok((t, j as int, Step::Next))
        } else {
            Ok((t, ip + 1, Step::Next))
        },
        Instruction::Back(Some(j)) => if t.current() != 0 {
            Ok((t, j as int, Step::Next))
        } else {
            Ok((t, ip + 1, Step::Next))
        },
    }
}

/// The machine that runs a program: its memory, the program, and the index
/// of the instruction to run next. It has finished once `ip` has left the
/// program.
pub struct VM {
    pub memory: Tape,
    pub program: Vec<Instruction>,
    pub ip: usize,
}

impl VM {
    pub open spec fn wf(&self) -> bool {
        self.memory.wf()
    }

    /// The program has run to its end.
    pub open spec fn halted(&self) -> bool {
        self.ip >= self.program.len()
    }

    /// A machine with an empty program.
    pub fn new() -> (r: Self)
        ensures
            r.wf(),
            r.memory@ == TapeView::fresh(),
            r.memory.cells.len() == 1,
            r.program@ == Seq::<Instruction>::empty(),
            r.ip == 0,
    {
        VM { memory: Tape::new(), program: Vec::new(), ip: 0 }
    }

    /// A machine at the start of `program`, with a fresh tape.
    pub fn init(program: Vec<Instruction>) -> (r: Self)
        ensures
            r.wf(),
            r.memory@ == TapeView::fresh(),
            r.memory.cells.len() == 1,
            r.program == program,
            r.ip == 0,
    {
        VM { memory: Tape::new(), program, ip: 0 }
    }

    /// Whether the program has run to its end.
    pub fn is_halted(&self) -> (r: bool)
        ensures
            r == self.halted(),
    {
        self.ip >= self.program.len()
    }

    /// Runs the current instruction. A `Jump` on a zero cell goes to its
    /// `Back`, a `Back` on a non-zero cell to its `Jump`, which then runs
    /// again. An `Input` changes nothing here: the caller reads the byte and
    /// calls `feed`. Fails, changing nothing, on a bracket without a target.
    pub fn exec(&mut self) -> (r: Result<Step, Error>)
        requires
            old(self).wf(),
            !old(self).halted(),
            old(self).memory.cells.len() < usize::MAX,
        ensures
            final(self).wf(),
            final(self).program == old(self).program,
            final(self).memory.cells.len() <= old(self).memory.cells.len() + 1,
            match next(old(self).program@, old(self).memory@, old(self).ip as int) {
                Ok((t, ip, s)) => {
                    &&& r == Ok::<Step, Error>(s)
                    &&& final(self).memory@ == t
                    &&& final(self).ip == ip
                },
                Err(e) => {
                    &&& r == Err::<Step, Error>(e)
                    &&& final(self).memory@ == old(self).memory@
                    &&& final(self).ip == old(self).ip
                },
            },
    {
        let mut step = Step::Next;
        match self.program[self.ip] {
            Instruction::Right => self.memory.right(),
            Instruction::Left => self.memory.left(),
            Instruction::Increment => self.memory.increment(),
            Instruction::Decrement => self.memory.decrement(),
            Instruction::Output => {
                step = Step::Output(self.memory.output());
            },
            Instruction::Input => {
                return Ok(Step::Input);
            },
            Instruction::Jump(target) => {
                return self.jump(target, true);
            },
            Instruction::Back(target) => {
                return self.jump(target, false);
            },
        }
        self.ip += 1;
        Ok(step)
    }

    /// Branches to `target` when the current cell is zero (`on_zero`) or
    /// non-zero (`!on_zero`), else moves on to the next instruction.
    fn jump(&mut self, target: Option<usize>, on_zero: bool) -> (r: Result<Step, Error>)
        requires
            old(self).wf(),
            !old(self).halted(),
        ensures
            final(self).wf(),
            final(self).program == old(self).program,
            final(self).memory == old(self).memory,
            match target {
                Some(j) => {
                    &&& r == Ok::<Step, Error>(Step::Next)
                    &&& final(self).ip == if (old(self).memory@.current() == 0) == on_zero {
                        j as int
                    } else {
                        old(self).ip + 1
                    }
                },
                None => {
                    &&& r == Err::<Step, Error>(Error::UnresolvedBranchTarget)
                    &&& final(self).ip == old(self).ip
                },
            },
    {
        match target {
            Some(location) => {
                if self.memory.current_cell_is_zero() == on_zero {
                    self.ip = location;
                } else {
                    self.ip += 1;
                }
                Ok(Step::Next)
            },
            None => Err(Error::UnresolvedBranchTarget),
        }
    }

    /// Completes an `Input` instruction with the byte that was read, or
    /// fails when the input stream had none left.
    pub fn feed(&mut self, byte: Option<u8>) -> (r: Result<(), Error>)
        requires
            old(self).wf(),
            !old(self).halted(),
            old(self).program@[old(self).ip as int] == Instruction::Input,
        ensures
            final(self).wf(),
            final(self).program == old(self).program,
            match byte {
                Some(b) => {
                    &&& r == Ok::<(), Error>(())
                    &&& final(self).memory@ == old(self).memory@.store(b)
                    &&& final(self).ip == old(self).ip + 1
                },
                None => {
                    &&& r == Err::<(), Error>(Error::InputStreamExhausted)
                    &&& final(self).memory@ == old(self).memory@
                    &&& final(self).ip == old(self).ip
                },
            },
    {
        match byte {
            Some(b) => {
                self.memory.input(b);
                self.ip += 1;
                Ok(())
            },
            None => Err(Error::InputStreamExhausted),
        }
    }
}

} // verus!
