use regular_expression::simple::codegen::{get_code, CodeGenError, Generator, Instruction};
use regular_expression::simple::parser::AST;

#[test]
fn codegen_test_increment_p_counter_success() {
    let count: usize = 10;
    let mut generator: Generator = Generator {
        p_counter: count,
        instructions : Vec::new()
    };

    generator.increment_p_counter().unwrap();
    let actual: usize = generator.p_counter;
    assert_eq!(actual, count+1);
}

#[test]
fn codegen_test_increment_p_counter_failure() {
    let count: usize = 18446744073709551615;
    let mut generator: Generator = Generator {
        p_counter: count,
        instructions : Vec::new()
    };

    let actual = generator.increment_p_counter();
    assert_eq!(actual, Err(CodeGenError::PCOverFlow));
}

#[test]
fn codegen_test_gen_char_success() {
    let expect: Vec<Instruction> = vec![Instruction::Char('a')];
    let mut generator: Generator = Generator {
        p_counter: 0,
        instructions : Vec::new()
    };

    let _ = generator.gen_char('a');
    let actual: Vec<Instruction> = generator.instructions;
    assert_eq!(actual, expect);
}

#[test]
fn codegen_test_gen_char_failure() {
    let expect = Err(CodeGenError::PCOverFlow);
    let mut generator: Generator = Generator {
        p_counter: 18446744073709551615,
        instructions : Vec::new()
    };

    let actual = generator.gen_char('a');
    assert_eq!(actual, expect);
}

#[test]
fn codegen_test_gen_star_success() {
    // a* が入力されたケース
    let expect: Vec<Instruction> = vec![
        Instruction::Split(1, 3),
        Instruction::Char('a'),
        Instruction::Jump(0),
    ];

    let mut generator: Generator = Generator {
        p_counter: 0,
        instructions : Vec::new()
    };

    let ast: Box<AST> = Box::new(AST::Char('a'));

    let _ = generator.gen_star(&ast);
    let actual: Vec<Instruction> = generator.instructions;
    assert_eq!(actual, expect);
}

#[test]
fn codegen_test_gen_plus_success() {
    // a+ が入力されたケース
    let expect: Vec<Instruction> = vec![
        Instruction::Char('a'),
        Instruction::Split(0, 2),
    ];

    let mut generator: Generator = Generator {
        p_counter: 0,
        instructions : Vec::new()
    };

    let ast: Box<AST> = Box::new(AST::Char('a'));

    let _ = generator.gen_plus(&ast);
    let actual: Vec<Instruction> = generator.instructions;
    assert_eq!(actual, expect);
}

#[test]
fn codegen_test_gen_question_success() {
    // a+ が入力されたケース
    let expect: Vec<Instruction> = vec![
        Instruction::Split(1, 2),
        Instruction::Char('a'),
    ];

    let mut generator: Generator = Generator {
        p_counter: 0,
        instructions : Vec::new()
    };

    let ast: Box<AST> = Box::new(AST::Char('a'));

    let _ = generator.gen_question(&ast);
    let actual: Vec<Instruction> = generator.instructions;
    assert_eq!(actual, expect);
}

#[test]
fn codegen_test_gen_or_success() {
    // a|b が入力されたケース
    let expect: Vec<Instruction> = vec![
        Instruction::Split(1, 3),
        Instruction::Char('a'),
        Instruction::Jump(4),
        Instruction::Char('b'),
    ];

    let mut generator: Generator = Generator {
        p_counter: 0,
        instructions : Vec::new()
    };
 
    let e1: Box<AST> = Box::new(AST::Sequence(vec![AST::Char('a')]));
    let e2: Box<AST> = Box::new(AST::Sequence(vec![AST::Char('b')]));

    let _ = generator.gen_or(&e1, &e2);
    let actual: Vec<Instruction> = generator.instructions;
    assert_eq!(actual, expect);
}

#[test]
fn codegen_test_gen_seq_success() {
    let expect: Vec<Instruction> = vec![
        Instruction::Char('a'),
        Instruction::Char('b'),
        Instruction::Char('c'),
    ];

    let v: Vec<AST> = vec![AST::Char('a'), AST::Char('b'), AST::Char('c')];

    let mut generator: Generator = Generator {
        p_counter: 0,
        instructions : Vec::new()
    };

    let _ = generator.gen_seq(&v);
    let actual: Vec<Instruction> = generator.instructions;
    assert_eq!(actual, expect);
}

#[test]
fn test_gen_code_success() {
    // a|b が入力されたケース
    let expect: Vec<Instruction> = vec![
        Instruction::Split(1, 3),
        Instruction::Char('a'),
        Instruction::Jump(4),
        Instruction::Char('b'),
        Instruction::Match
    ];

    let mut generator: Generator = Generator {
        p_counter: 0,
        instructions : Vec::new()
    };
 
    let e1: Box<AST> = Box::new(AST::Sequence(vec![AST::Char('a')]));
    let e2: Box<AST> = Box::new(AST::Sequence(vec![AST::Char('b')]));
    let or = AST::Or(e1, e2);

    let _ = generator.gen_code(&or);
    let actual: Vec<Instruction> = generator.instructions;
    assert_eq!(actual, expect);
}

#[test]
fn test_get_code_success() {
    let expect: Vec<Instruction> = vec![
        Instruction::Split(1, 3),
        Instruction::Char('a'),
        Instruction::Jump(4),
        Instruction::Char('b'),
        Instruction::Match
    ];

    let e1: Box<AST> = Box::new(AST::Sequence(vec![AST::Char('a')]));
    let e2: Box<AST> = Box::new(AST::Sequence(vec![AST::Char('b')]));
    let or = AST::Or(e1, e2);

    let actual = get_code(&or).unwrap();
    assert_eq!(actual, expect);
}
