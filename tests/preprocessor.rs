use brainf::Error;
use brainf::Instruction::{Back, Decrement, Increment, Input, Jump, Left, Output, Right};
use brainf::Preprocessor;

#[test]
fn preprocess_good_code() -> Result<(), Error> {
    let source: Vec<u8> = "+ [ > + [ . ] ]".as_bytes().to_vec();

    let expect = vec![
        Increment,
        Jump(Some(7)),
        Right,
        Increment,
        Jump(Some(6)),
        Output,
        Back(Some(4)),
        Back(Some(1)),
    ];

    let mut pre = Preprocessor::with_bytes(source);
    pre.process()?;
    assert_eq!(expect, pre.instructions);

    Ok(())
}

#[test]
fn preprocess_code_with_mismatched_brackets() -> Result<(), Error> {
    let source: Vec<u8> = "+ [ > + [ . [ ] ]".as_bytes().to_vec();

    let mut pre = Preprocessor::with_bytes(source);
    assert!(pre.process().is_err(), "expected Err");

    let source: Vec<u8> = "+ > [ . ] [ + ] ]".as_bytes().to_vec();

    let mut pre = Preprocessor::with_bytes(source);
    assert!(pre.process().is_err(), "expected Err");
    Ok(())
}

#[test]
fn preprocess_code_with_comments() -> Result<(), Error> {
    let source = "\
        [(0)                                                                           (1)   (2)
            An area like this can be used at the top to write some text that uses commas, dots,
            and other Brainf command symbols.(3) They'll be ignored here since the first command
            is a JUMP down to the end of this text.(4) However,(5) (6)[brackets have to be
            balanced here](7),(8) since otherwise,(9) preprocessor is going to invalidate the
            program.(10)
        ](11)

        12 13 14 15 16 17 18 19
        +  [  >  +  [  .  ]  ]  \

        This example simply demonstrates that any text is ignored except for the Brainf command
        symbols which we aren't going to use down here :)\
        ".as_bytes().to_vec();

    let expect = vec![
        Jump(Some(11)),
        Input,
        Input,
        Output,
        Output,
        Input,
        Jump(Some(7)),
        Back(Some(6)),
        Input,
        Input,
        Output,
        Back(Some(0)),
        Increment,
        Jump(Some(19)),
        Right,
        Increment,
        Jump(Some(18)),
        Output,
        Back(Some(16)),
        Back(Some(13)),
    ];

    let mut pre = Preprocessor::with_bytes(source);
    pre.process()?;
    assert_eq!(expect, pre.instructions);

    Ok(())
}

#[test]
fn end_to_end_nested_loops() {
    let mut pre = Preprocessor::with_bytes(b"+[>+[.]]".to_vec());
    assert_eq!(Ok(()), pre.process());
    assert_eq!(
        vec![
            Increment,
            Jump(Some(7)),
            Right,
            Increment,
            Jump(Some(6)),
            Output,
            Back(Some(4)),
            Back(Some(1)),
        ],
        pre.instructions
    );
}

#[test]
fn every_command_decodes() {
    let mut pre = Preprocessor::with_bytes(b"><+-.,[]".to_vec());
    assert_eq!(Ok(()), pre.process());
    assert_eq!(
        vec![Right, Left, Increment, Decrement, Output, Input, Jump(Some(7)), Back(Some(6))],
        pre.instructions
    );
}

#[test]
fn empty_source_gives_empty_program() {
    let mut pre = Preprocessor::with_bytes(Vec::new());
    assert_eq!(Ok(()), pre.process());
    assert!(pre.instructions.is_empty());

    let mut pre = Preprocessor::new();
    assert_eq!(Ok(()), pre.process());
    assert!(pre.instructions.is_empty());
}

#[test]
fn source_without_commands_gives_empty_program() {
    let mut pre = Preprocessor::with_bytes(b"just some prose 123\n".to_vec());
    assert_eq!(Ok(()), pre.process());
    assert!(pre.instructions.is_empty());
}

#[test]
fn sibling_loops_resolve_independently() {
    let mut pre = Preprocessor::with_bytes(b"[-][+]".to_vec());
    assert_eq!(Ok(()), pre.process());
    assert_eq!(
        vec![Jump(Some(2)), Decrement, Back(Some(0)), Jump(Some(5)), Increment, Back(Some(3))],
        pre.instructions
    );
}

#[test]
fn unmatched_open_reports_innermost_position() {
    let mut pre = Preprocessor::with_bytes(b"+ [ > + [ . [ ] ]".to_vec());
    assert_eq!(Err(Error::UnmatchedOpenBracket(1)), pre.process());

    let mut pre = Preprocessor::with_bytes(b"[[[]".to_vec());
    assert_eq!(Err(Error::UnmatchedOpenBracket(1)), pre.process());

    let mut pre = Preprocessor::with_bytes(b"x[".to_vec());
    assert_eq!(Err(Error::UnmatchedOpenBracket(0)), pre.process());
}

#[test]
fn unmatched_close_is_refused() {
    let mut pre = Preprocessor::with_bytes(b"+ > [ . ] [ + ] ]".to_vec());
    assert_eq!(Err(Error::UnmatchedCloseBracket), pre.process());

    let mut pre = Preprocessor::with_bytes(b"][".to_vec());
    assert_eq!(Err(Error::UnmatchedCloseBracket), pre.process());
}

#[test]
fn comments_do_not_change_program() {
    let mut plain = Preprocessor::with_bytes(b"+[>+[.]]".to_vec());
    assert_eq!(Ok(()), plain.process());
    let mut commented = Preprocessor::with_bytes(b"a+ b[ > c+[ hi .]x] z".to_vec());
    assert_eq!(Ok(()), commented.process());
    assert_eq!(plain.instructions, commented.instructions);
}
