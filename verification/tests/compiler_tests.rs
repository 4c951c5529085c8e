use bfc::compiler::BFCompiler;
use bfc::lexer::{BFLexer, BFToken};

fn lex(input: &str) -> Vec<BFToken> {
    let mut lexer = BFLexer::new(input.chars().collect());
    lexer.tokenize()
}

fn compile(source: &str, target: &str) -> String {
    BFCompiler::new(lex(source), 90000, target, true).compile()
}

#[test]
fn test_increment_pointer() {
    let compiler = BFCompiler::new(vec![BFToken::IncrementPointer(3)], 90000, "unix", true);
    let asm_text = compiler.compile();
    assert!(asm_text.contains("add rsi, 3"));
}

#[test]
fn test_decrement_value_and_output() {
    let compiler = BFCompiler::new(
        vec![BFToken::DecrementValue(2), BFToken::OutputValue(1)],
        90000,
        "unix",
        true,
    );
    let asm_text = compiler.compile();
    assert!(asm_text.contains("sub byte [rsi], 2"));
    assert!(asm_text.contains("sys_write"));
}

#[test]
fn test_loop_generation() {
    let compiler = BFCompiler::new(
        vec![
            BFToken::LoopStart,
            BFToken::IncrementValue(1),
            BFToken::LoopEnd,
        ],
        90000,
        "unix",
        true,
    );
    let asm_text = compiler.compile();
    assert!(asm_text.contains("loop_start_0:"));
    assert!(asm_text.contains("loop_end_0:"));
    assert!(asm_text.contains("add byte [rsi], 1"));
}

#[test]
fn test_input_and_exit() {
    let compiler = BFCompiler::new(vec![BFToken::InputValue(1)], 90000, "unix", true);
    let asm_text = compiler.compile();
    assert!(asm_text.contains("sys_read"));
    assert!(asm_text.contains("sys_exit"));
}

#[test]
fn test_empty_program_is_prologue_and_epilogue() {
    // empty input: empty token sequence, accepted, and the assembly is
    // exactly the prologue followed by the epilogue
    let tokens = lex("");
    assert!(BFLexer::check_syntax(&tokens).is_ok());
    let asm_text = BFCompiler::new(tokens, 30000, "unix", false).compile();
    let prologue = "sys_read equ 0\nsys_write equ 1\nsys_exit equ 60\n\nsection .bss\ntape: resb 30000\n\nsection .text\nglobal _start\n\n_start:\nmov rsi, tape\n";
    let epilogue = "mov rax, sys_exit\nmov rdi, 0\nsyscall\n";
    assert_eq!(asm_text, format!("{}{}", prologue, epilogue));
}

#[test]
fn test_output_scenario_unix() {
    let asm_text = compile("+++.", "unix");
    assert!(asm_text.contains("add byte [rsi], 3"));
    assert!(asm_text.contains("mov rax, sys_write"));
}

#[test]
fn test_explicit_count_scenario_unix() {
    let asm_text = compile("+60.", "unix");
    assert!(asm_text.contains("add byte [rsi], 60"));
    assert!(asm_text.contains("mov rax, sys_write"));
}

#[test]
fn test_pointer_runs_scenario() {
    let tokens = lex(">>><<");
    assert_eq!(
        tokens,
        vec![BFToken::IncrementPointer(3), BFToken::DecrementPointer(2)]
    );
    let asm_text = BFCompiler::new(tokens, 90000, "unix", true).compile();
    assert!(asm_text.contains("add rsi, 3"));
    assert!(asm_text.contains("sub rsi, 2"));
}

#[test]
fn test_loop_scenario_labels_and_body() {
    let asm_text = compile("[+]", "unix");
    let start = asm_text.find("loop_start_0:").unwrap();
    let end = asm_text.find("loop_end_0:").unwrap();
    let body = asm_text.find("add byte [rsi], 1").unwrap();
    assert!(start < body);
    assert!(body < end);
}

#[test]
fn test_nested_loops_get_distinct_ids() {
    let asm_text = compile("[[]]", "unix");
    assert!(asm_text.contains("loop_start_0:"));
    assert!(asm_text.contains("loop_start_1:"));
    assert!(asm_text.contains("loop_end_1:"));
    assert!(asm_text.contains("loop_end_0:"));
    // the inner loop opens after the outer and closes before it
    let s0 = asm_text.find("loop_start_0:").unwrap();
    let s1 = asm_text.find("loop_start_1:").unwrap();
    let e1 = asm_text.find("loop_end_1:").unwrap();
    let e0 = asm_text.find("loop_end_0:").unwrap();
    assert!(s0 < s1 && s1 < e1 && e1 < e0);
}

#[test]
fn test_cell_wraps_at_256() {
    // a run of 256 increments leaves the byte cell unchanged: the
    // emitted immediate is taken mod 256
    let source = "+".repeat(256);
    let asm_text = compile(&source, "unix");
    assert!(asm_text.contains("add byte [rsi], 0"));
}

#[test]
fn test_win64_calls_c_runtime() {
    let asm_text = compile("+., ", "win64");
    assert!(asm_text.contains("EXTERN putchar"));
    assert!(asm_text.contains("call putchar"));
    assert!(asm_text.contains("call getchar"));
    assert!(asm_text.contains("call ExitProcess"));
    assert!(asm_text.contains("global main"));
    assert!(!asm_text.contains("syscall"));
}

#[test]
fn test_targets_differ() {
    let unix_text = compile("+.", "unix");
    let win_text = compile("+.", "win64");
    assert_ne!(unix_text, win_text);
    assert!(unix_text.contains("_start"));
    assert!(win_text.contains("main"));
}

#[test]
fn test_io_loops_get_distinct_labels() {
    let asm_text = compile(".2,3.", "unix");
    assert!(asm_text.contains("write_loop_0:"));
    assert!(asm_text.contains("read_loop_1:"));
    assert!(asm_text.contains("write_loop_2:"));
    assert!(asm_text.contains("mov rbx, 2"));
    assert!(asm_text.contains("mov rbx, 3"));
}

#[test]
fn test_hello_a_program_tokens_and_labels() {
    // the classic program that writes the byte 'A' (0x41): eight
    // increments, a loop multiplying into the next cell, one more
    // increment, one output
    let tokens = lex("++++++++[>++++++++<-]>+.");
    assert_eq!(
        tokens,
        vec![
            BFToken::IncrementValue(8),
            BFToken::LoopStart,
            BFToken::IncrementPointer(1),
            BFToken::IncrementValue(8),
            BFToken::DecrementPointer(1),
            BFToken::DecrementValue(1),
            BFToken::LoopEnd,
            BFToken::IncrementPointer(1),
            BFToken::IncrementValue(1),
            BFToken::OutputValue(1),
        ]
    );
    assert!(BFLexer::check_syntax(&tokens).is_ok());
    let asm_text = BFCompiler::new(tokens, 90000, "unix", false).compile();
    assert!(asm_text.contains("add byte [rsi], 8"));
    assert!(asm_text.contains("loop_start_0:"));
    assert!(asm_text.contains("loop_end_0:"));
    assert!(asm_text.contains("mov rax, sys_write"));
}

#[test]
fn test_echo_program_reads_then_writes() {
    // ",." copies one byte from standard input to standard output: the
    // read is emitted before the write
    let asm_text = compile(",.", "unix");
    let read_at = asm_text.find("mov rax, sys_read").unwrap();
    let write_at = asm_text.find("mov rax, sys_write").unwrap();
    assert!(read_at < write_at);
}
