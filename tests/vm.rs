use brainf::Error;
use brainf::Instruction;
use brainf::Instruction::{Back, Decrement, Increment, Input, Jump, Left, Output, Right};
use brainf::Preprocessor;
use brainf::Step;
use brainf::VM;

/// Runs `vm` to its end, reading from `input` and collecting what it writes.
fn run(vm: &mut VM, input: &[u8]) -> Result<Vec<u8>, Error> {
    let mut out = Vec::new();
    let mut pos = 0;
    while !vm.is_halted() {
        match vm.exec()? {
            Step::Next => {}
            Step::Output(b) => out.push(b),
            Step::Input => {
                let byte = input.get(pos).copied();
                pos += 1;
                vm.feed(byte)?;
            }
        }
    }
    Ok(out)
}

fn program(source: &[u8]) -> Vec<Instruction> {
    let mut pre = Preprocessor::with_bytes(source.to_vec());
    pre.process().expect("source is well formed");
    pre.instructions
}

#[test]
fn output() -> Result<(), Error> {
    let source = vec![Output];
    let mut vm = VM::init(source);
    for _ in 0..100 {
        vm.memory.increment();
    }
    let out = run(&mut vm, &[])?;
    assert!(!vm.memory.current_cell_is_zero());
    assert_eq!(vec![100u8], out);
    Ok(())
}

#[test]
fn input() -> Result<(), Error> {
    let source = vec![Input];
    let mut vm = VM::init(source);
    run(&mut vm, b"q")?;
    assert_eq!(b'q', vm.memory.output());
    Ok(())
}

#[test]
fn jump() -> Result<(), Error> {
    let mut source = vec![Increment; 33];
    source.push(Right);
    source.extend(vec![Increment; 3]);
    source.extend(vec![Jump(Some(107)), Left, Output, Right, Decrement, Back(Some(105))]);
    let mut vm = VM::init(source);
    let out = run(&mut vm, &[])?;
    assert_eq!(vec![33u8], out);
    Ok(())
}

#[test]
fn hello_world() {
    let source = b"++++++++[>++++[>++>+++>+++>+<<<<-]>+>+>->>+[<]<-]>>.>---.+++++++..+++.>>.<-.<.+++.------.--------.>>+.>++.";
    let mut vm = VM::init(program(source));
    assert_eq!(Ok(b"Hello World!\n".to_vec()), run(&mut vm, &[]));
    assert!(vm.is_halted());
}

#[test]
fn input_on_empty_stream_fails() {
    let mut vm = VM::init(program(b","));
    assert_eq!(Err(Error::InputStreamExhausted), run(&mut vm, &[]));
    assert_eq!(0, vm.ip);
}

#[test]
fn input_waits_for_feed() {
    let mut vm = VM::init(vec![Input]);
    assert_eq!(Ok(Step::Input), vm.exec());
    assert_eq!(0, vm.ip);
    assert_eq!(Ok(()), vm.feed(Some(7)));
    assert_eq!(1, vm.ip);
    assert_eq!(7, vm.memory.output());
}

#[test]
fn echo_copies_input() {
    let mut vm = VM::init(program(b",[.,]"));
    let out = run(&mut vm, b"abc");
    assert_eq!(Err(Error::InputStreamExhausted), out);
    let mut vm = VM::init(program(b",.,.,."));
    assert_eq!(Ok(b"abc".to_vec()), run(&mut vm, b"abc"));
}

#[test]
fn jump_on_zero_lands_on_back() {
    let mut vm = VM::init(program(b"[+]"));
    assert_eq!(Ok(Step::Next), vm.exec());
    assert_eq!(2, vm.ip);
    assert_eq!(Ok(Step::Next), vm.exec());
    assert_eq!(3, vm.ip);
    assert!(vm.is_halted());
}

#[test]
fn back_on_nonzero_lands_on_jump() {
    let mut vm = VM::init(program(b"+[-]"));
    vm.exec().unwrap();
    vm.exec().unwrap();
    assert_eq!(2, vm.ip);
    vm.memory.increment();
    vm.exec().unwrap();
    assert_eq!(3, vm.ip);
    assert_eq!(Ok(Step::Next), vm.exec());
    assert_eq!(1, vm.ip);
    assert_eq!(Ok(Step::Next), vm.exec());
    assert_eq!(2, vm.ip);
}

#[test]
fn unresolved_target_fails() {
    let mut vm = VM::init(vec![Jump(None)]);
    assert_eq!(Err(Error::UnresolvedBranchTarget), vm.exec());
    assert_eq!(0, vm.ip);
    let mut vm = VM::init(vec![Increment, Back(None)]);
    assert_eq!(Err(Error::UnresolvedBranchTarget), run(&mut vm, &[]));
    assert_eq!(1, vm.ip);
}

#[test]
fn empty_program_is_halted() {
    let vm = VM::new();
    assert!(vm.is_halted());
    assert!(vm.memory.current_cell_is_zero());
}

#[test]
fn comments_inside_loops_do_not_change_output() {
    let mut plain = VM::init(program(b"++++++[>++++++++<-]>+."));
    let mut commented = VM::init(program(b"six ++++++ [ move > add eight ++++++++ back < dec - ] > + print ."));
    assert_eq!(run(&mut plain, &[]), run(&mut commented, &[]));
    let mut again = VM::init(program(b"++++++[>++++++++<-]>+."));
    assert_eq!(Ok(vec![49u8]), run(&mut again, &[]));
}
