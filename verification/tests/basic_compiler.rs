use regular_expression::basic::compiler::{compile, Compiler};
use regular_expression::basic::error::CompileError;
use regular_expression::basic::instruction::{Char, Instruction};
use regular_expression::basic::parser::Ast;

#[test]
fn compiler_test_increment_p_counter_success() {
    let count: usize = 10;
    let mut compiler: Compiler = Compiler {
        p_counter: count,
        instructions: Vec::new(),
    };

    compiler.increment_p_counter().unwrap();
    let actual: usize = compiler.p_counter;
    assert_eq!(actual, count + 1);
}

#[test]
fn compiler_test_increment_p_counter_failure() {
    let count: usize = usize::MAX;
    let mut compiler: Compiler = Compiler {
        p_counter: count,
        instructions: Vec::new(),
    };

    let actual = compiler.increment_p_counter();
    assert_eq!(actual, Err(CompileError::PCOverFlow));
}

#[test]
fn test_insert_split_placeholder_success() {
    // 初期状態: p_counter = 0, instructions は空
    let mut compiler = Compiler {
        p_counter: 0,
        instructions: Vec::new(),
    };

    // 仮の Split 命令を挿入する
    let result = compiler.insert_split_placeholder();
    // 戻り値は初期の p_counter (0) であることを確認
    assert_eq!(result, Ok(0));

    // p_counter はインクリメントされ、1 になっているはず
    assert_eq!(compiler.p_counter, 1);

    // instructions に Split 命令が 1 つ挿入され、左側アドレスが p_counter (1)、
    // 右側は仮値 (0) となっていることを確認
    assert_eq!(compiler.instructions.len(), 1);
    match &compiler.instructions[0] {
        Instruction::Split(left, right) => {
            assert_eq!(*left, 1);
            assert_eq!(*right, 0);
        }
        _ => unreachable!(),
    }
}

#[test]
fn test_insert_split_placeholder_failure() {
    // p_counter が usize::MAX の場合、increment_p_counter が失敗するのでエラーが返るはず
    let mut compiler = Compiler {
        p_counter: usize::MAX,
        instructions: Vec::new(),
    };

    let result = compiler.insert_split_placeholder();
    // エラーとして CompileError::PCOverFlow が返ることを確認
    assert_eq!(result, Err(CompileError::PCOverFlow));
    // instructions は更新されず、空のままであることを確認
    assert!(compiler.instructions.is_empty());
}

#[test]
fn test_update_instruction_address_success() {
    // Compiler を初期化。p_counter は 42 とする
    let mut compiler = Compiler {
        p_counter: 42,
        instructions: vec![
            Instruction::Split(10, 0), // 左側は任意の値、右側は仮値 0
            Instruction::Jump(0),      // 仮値 0
        ],
    };

    // インデックス 0 の Split 命令の右側アドレスを更新する
    let result = compiler.update_instruction_address(0, CompileError::FailOr);
    assert!(result.is_ok());
    if let Some(Instruction::Split(_, right)) = compiler.instructions.get(0) {
        assert_eq!(*right, 42);
    }

    // インデックス 1 の Jump 命令のアドレスを更新する
    let result = compiler.update_instruction_address(1, CompileError::FailOr);
    assert!(result.is_ok());
    if let Some(Instruction::Jump(addr)) = compiler.instructions.get(1) {
        assert_eq!(*addr, 42);
    }
}

#[test]
fn test_update_instruction_address_failure_invalid_index() {
    let mut compiler = Compiler {
        p_counter: 99,
        instructions: vec![], // 空の命令リスト
    };

    let result = compiler.update_instruction_address(0, CompileError::FailOr);
    assert!(result.is_err());
    assert_eq!(result.unwrap_err(), CompileError::FailOr);
}

#[test]
fn test_update_instruction_address_failure_invalid_instruction() {
    let mut compiler = Compiler {
        p_counter: 99,
        instructions: vec![Instruction::Char(Char::Literal('a')), Instruction::Match],
    };

    // インデックス 0 の命令は Char なのでエラーになる
    let result = compiler.update_instruction_address(0, CompileError::FailOr);
    assert!(result.is_err());
    assert_eq!(result.unwrap_err(), CompileError::FailOr);

    // インデックス 1 の命令は Match なのでエラーになる
    let result = compiler.update_instruction_address(1, CompileError::FailOr);
    assert!(result.is_err());
    assert_eq!(result.unwrap_err(), CompileError::FailOr);
}

#[test]
fn compiler_test_gen_char_success() {
    let expect: Vec<Instruction> = vec![Instruction::Char(Char::Literal('a'))];
    let mut compiler: Compiler = Compiler {
        p_counter: 0,
        instructions: Vec::new(),
    };

    let _ = compiler.gen_char('a');
    let actual: Vec<Instruction> = compiler.instructions;
    assert_eq!(actual, expect);
}

#[test]
fn compiler_test_gen_char_failure() {
    let expect = Err(CompileError::PCOverFlow);
    let mut compiler: Compiler = Compiler {
        p_counter: usize::MAX,
        instructions: Vec::new(),
    };

    let actual = compiler.gen_char('a');
    assert_eq!(actual, expect);
}

#[test]
fn test_gen_anychar() {
    let expect: Vec<Instruction> = vec![Instruction::Char(Char::Any)];

    let mut compiler: Compiler = Compiler {
        p_counter: 0,
        instructions: Vec::new(),
    };
    let _ = compiler.gen_anychar();
    assert_eq!(compiler.instructions, expect)
}

#[test]
fn compiler_test_gen_star_success() {
    // a* が入力されたケース
    let expect: Vec<Instruction> = vec![
        Instruction::Split(1, 3),
        Instruction::Char(Char::Literal('a')),
        Instruction::Jump(0),
    ];

    let mut compiler: Compiler = Compiler {
        p_counter: 0,
        instructions: Vec::new(),
    };

    let ast: Box<Ast> = Box::new(Ast::Char('a'));

    let _ = compiler.gen_star(&ast);
    let actual: Vec<Instruction> = compiler.instructions;
    assert_eq!(actual, expect);
}

#[test]
fn test_gen_star_failure() {
    // a* が入力されたケース
    let expect: Result<(), CompileError> = Err(CompileError::FailStar);

    let mut compiler: Compiler = Compiler {
        p_counter: 100,
        instructions: Vec::new(),
    };

    let ast: Box<Ast> = Box::new(Ast::Char('a'));

    let actual: Result<(), CompileError> = compiler.gen_star(&ast);
    assert_eq!(actual, expect);
}

#[test]
fn compiler_test_gen_plus_success() {
    // a+ が入力されたケース
    let expect: Vec<Instruction> = vec![
        Instruction::Char(Char::Literal('a')),
        Instruction::Split(0, 2),
    ];

    let mut compiler: Compiler = Compiler {
        p_counter: 0,
        instructions: Vec::new(),
    };

    let ast: Box<Ast> = Box::new(Ast::Char('a'));

    let _ = compiler.gen_plus(&ast);
    let actual: Vec<Instruction> = compiler.instructions;
    assert_eq!(actual, expect);
}

#[test]
fn compiler_test_gen_question_success() {
    // a? が入力されたケース
    let expect: Vec<Instruction> = vec![
        Instruction::Split(1, 2),
        Instruction::Char(Char::Literal('a')),
    ];

    let mut compiler: Compiler = Compiler {
        p_counter: 0,
        instructions: Vec::new(),
    };

    let ast: Box<Ast> = Box::new(Ast::Char('a'));

    let _ = compiler.gen_question(&ast);
    let actual: Vec<Instruction> = compiler.instructions;
    assert_eq!(actual, expect);
}

#[test]
fn test_gen_question_failure() {
    let expect: Result<(), CompileError> = Err(CompileError::FailQuestion);

    let mut compiler: Compiler = Compiler {
        p_counter: 100,
        instructions: Vec::new(),
    };
    let ast: Box<Ast> = Box::new(Ast::Char('a'));

    let actual: Result<(), CompileError> = compiler.gen_question(&ast);
    assert_eq!(actual, expect);
}

#[test]
fn compiler_test_gen_or_success() {
    // a|b が入力されたケース
    let expect: Vec<Instruction> = vec![
        Instruction::Split(1, 3),
        Instruction::Char(Char::Literal('a')),
        Instruction::Jump(4),
        Instruction::Char(Char::Literal('b')),
    ];

    let mut compiler: Compiler = Compiler {
        p_counter: 0,
        instructions: Vec::new(),
    };

    let e1: Box<Ast> = Box::new(Ast::Sequence(vec![Ast::Char('a')]));
    let e2: Box<Ast> = Box::new(Ast::Sequence(vec![Ast::Char('b')]));

    let _ = compiler.gen_or(&e1, &e2);
    let actual: Vec<Instruction> = compiler.instructions;
    assert_eq!(actual, expect);
}

#[test]
fn test_gen_or_failure() {
    let expect: Result<(), CompileError> = Err(CompileError::FailOr);

    let mut compiler: Compiler = Compiler {
        p_counter: 100,
        instructions: Vec::new(),
    };

    let e1: Box<Ast> = Box::new(Ast::Sequence(vec![Ast::Char('a')]));
    let e2: Box<Ast> = Box::new(Ast::Sequence(vec![Ast::Char('b')]));

    let actual: Result<(), CompileError> = compiler.gen_or(&e1, &e2);
    assert_eq!(actual, expect);
}

#[test]
fn compiler_test_gen_seq_success() {
    let expect: Vec<Instruction> = vec![
        Instruction::Char(Char::Literal('a')),
        Instruction::Char(Char::Literal('b')),
        Instruction::Char(Char::Literal('c')),
    ];

    let v: Vec<Ast> = vec![Ast::Char('a'), Ast::Char('b'), Ast::Char('c')];

    let mut compiler: Compiler = Compiler {
        p_counter: 0,
        instructions: Vec::new(),
    };

    let _ = compiler.gen_seq(&v);
    let actual: Vec<Instruction> = compiler.instructions;
    assert_eq!(actual, expect);
}

#[test]
fn test_gen_code_containe_or() {
    // a|b が入力されたケース
    let expect: Vec<Instruction> = vec![
        Instruction::Split(1, 3),
        Instruction::Char(Char::Literal('a')),
        Instruction::Jump(4),
        Instruction::Char(Char::Literal('b')),
        Instruction::Match,
    ];

    let mut compiler: Compiler = Compiler {
        p_counter: 0,
        instructions: Vec::new(),
    };

    let e1: Box<Ast> = Box::new(Ast::Sequence(vec![Ast::Char('a')]));
    let e2: Box<Ast> = Box::new(Ast::Sequence(vec![Ast::Char('b')]));
    let or = Ast::Or(e1, e2);

    let _ = compiler.gen_code(&or);
    let actual: Vec<Instruction> = compiler.instructions;
    assert_eq!(actual, expect);
}

#[test]
fn test_gen_code_contain_any() {
    // a.b が入力されたケース
    let expect: Vec<Instruction> = vec![
        Instruction::Char(Char::Literal('a')),
        Instruction::Char(Char::Any),
        Instruction::Char(Char::Literal('b')),
        Instruction::Match,
    ];
    let mut compiler: Compiler = Compiler {
        p_counter: 0,
        instructions: Vec::new(),
    };
    let ast: Box<Ast> = Box::new(Ast::Sequence(vec![Ast::Char('a'), Ast::AnyChar, Ast::Char('b')]));
    let _ = compiler.gen_code(&ast);
    let actual: Vec<Instruction> = compiler.instructions;
    assert_eq!(actual, expect);
}

#[test]
fn test_gen_code_contain_star() {
    // a*b が入力されたケース
    let expect: Vec<Instruction> = vec![
        Instruction::Split(1, 3),
        Instruction::Char(Char::Literal('a')),
        Instruction::Jump(0),
        Instruction::Match,
    ];
    let mut compiler: Compiler = Compiler {
        p_counter: 0,
        instructions: Vec::new(),
    };
    let ast: Box<Ast> = Box::new(Ast::Star(Box::new(Ast::Char('a'))));
    let _ = compiler.gen_code(&ast);
    let actual: Vec<Instruction> = compiler.instructions;
    assert_eq!(actual, expect);
}

#[test]
fn test_gen_code_contain_plus() {
    // a+b が入力されたケース
    let expect: Vec<Instruction> = vec![
        Instruction::Char(Char::Literal('a')),
        Instruction::Split(0, 2),
        Instruction::Match,
    ];
    let mut compiler: Compiler = Compiler {
        p_counter: 0,
        instructions: Vec::new(),
    };
    let ast: Box<Ast> = Box::new(Ast::Plus(Box::new(Ast::Char('a'))));
    let _ = compiler.gen_code(&ast);
    let actual: Vec<Instruction> = compiler.instructions;
    assert_eq!(actual, expect);
}

#[test]
fn test_gen_code_contain_question() {
    // a?b が入力されたケース
    let expect: Vec<Instruction> = vec![
        Instruction::Split(1, 2),
        Instruction::Char(Char::Literal('a')),
        Instruction::Char(Char::Literal('b')),
        Instruction::Match,
    ];
    let mut compiler: Compiler = Compiler {
        p_counter: 0,
        instructions: Vec::new(),
    };
    let ast: Box<Ast> = Box::new(Ast::Sequence(vec![
        Ast::Question(Box::new(Ast::Char('a'))),
        Ast::Char('b'),
    ]));
    let _ = compiler.gen_code(&ast);
    let actual: Vec<Instruction> = compiler.instructions;
    assert_eq!(actual, expect);
}

#[test]
fn test_compile_success() {
    let expect: Vec<Instruction> = vec![
        Instruction::Split(1, 3),
        Instruction::Char(Char::Literal('a')),
        Instruction::Jump(4),
        Instruction::Char(Char::Literal('b')),
        Instruction::Match,
    ];

    let e1: Box<Ast> = Box::new(Ast::Sequence(vec![Ast::Char('a')]));
    let e2: Box<Ast> = Box::new(Ast::Sequence(vec![Ast::Char('b')]));
    let or = Ast::Or(e1, e2);

    let actual = compile(&or).unwrap();
    assert_eq!(actual, expect);
}
