use bfc::lexer::{BFLexer, BFToken};

fn lex(input: &str) -> Vec<BFToken> {
    let mut lexer = BFLexer::new(input.chars().collect());
    lexer.tokenize()
}

#[test]
fn test_combine_repeated_chars() {
    let tokens = lex("++++<<>>--");
    assert_eq!(
        tokens,
        vec![
            BFToken::IncrementValue(4),
            BFToken::DecrementPointer(2),
            BFToken::IncrementPointer(2),
            BFToken::DecrementValue(2),
        ]
    );
}

#[test]
fn test_number_after_char() {
    let tokens = lex("+60 .2");
    assert_eq!(
        tokens,
        vec![BFToken::IncrementValue(60), BFToken::OutputValue(2)]
    );
}

#[test]
fn test_loops_and_ignore_non_commands() {
    let tokens = lex("[abc+2]--");
    assert_eq!(
        tokens,
        vec![
            BFToken::LoopStart,
            BFToken::IncrementValue(2),
            BFToken::LoopEnd,
            BFToken::DecrementValue(2),
        ]
    );
}

#[test]
fn test_mixed() {
    let tokens = lex(">>+3[--.]<,1");
    assert_eq!(
        tokens,
        vec![
            BFToken::IncrementPointer(2),
            BFToken::IncrementValue(3),
            BFToken::LoopStart,
            BFToken::DecrementValue(2),
            BFToken::OutputValue(1),
            BFToken::LoopEnd,
            BFToken::DecrementPointer(1),
            BFToken::InputValue(1),
        ]
    );
}

#[test]
fn test_check_syntax() {
    let tokens = lex("[--+.]");
    assert!(BFLexer::check_syntax(&tokens).is_ok());
    let tokens = lex("++[-->+++<]");
    assert!(BFLexer::check_syntax(&tokens).is_ok());
    let tokens = lex("[");
    assert!(BFLexer::check_syntax(&tokens).is_err());
    let tokens = lex("]");
    assert!(BFLexer::check_syntax(&tokens).is_err());
    let tokens = lex("[[[]]");
    assert!(BFLexer::check_syntax(&tokens).is_err());
}

#[test]
fn test_counts_at_least_one() {
    // every produced token carries a repeat count of at least one
    let tokens = lex("comment > text < with , stray . digits 77 and +++ runs --");
    for t in tokens {
        let count = match t {
            BFToken::IncrementPointer(n) => n,
            BFToken::DecrementPointer(n) => n,
            BFToken::IncrementValue(n) => n,
            BFToken::DecrementValue(n) => n,
            BFToken::OutputValue(n) => n,
            BFToken::InputValue(n) => n,
            BFToken::LoopStart | BFToken::LoopEnd => 1,
        };
        assert!(count >= 1);
    }
}

#[test]
fn test_numeral_overflow_falls_back_to_run_length() {
    // 99999999999999999999 does not fit a u32, so the run length wins
    let tokens = lex("++99999999999999999999.");
    assert_eq!(
        tokens,
        vec![BFToken::IncrementValue(2), BFToken::OutputValue(1)]
    );
}

#[test]
fn test_relex_canonical_forms() {
    // re-lexing the concatenated canonical forms gives the tokens back
    let tokens = lex(">>+3[--.]<,1");
    let mut canonical = String::new();
    for t in &tokens {
        match t {
            BFToken::IncrementPointer(n) => canonical.push_str(&format!(">{}", n)),
            BFToken::DecrementPointer(n) => canonical.push_str(&format!("<{}", n)),
            BFToken::IncrementValue(n) => canonical.push_str(&format!("+{}", n)),
            BFToken::DecrementValue(n) => canonical.push_str(&format!("-{}", n)),
            BFToken::OutputValue(n) => canonical.push_str(&format!(".{}", n)),
            BFToken::InputValue(n) => canonical.push_str(&format!(",{}", n)),
            BFToken::LoopStart => canonical.push('['),
            BFToken::LoopEnd => canonical.push(']'),
        }
    }
    assert_eq!(canonical, ">2+3[-2.1]<1,1");
    assert_eq!(lex(&canonical), tokens);
}

#[test]
fn test_accepted_sequences_have_equal_bracket_counts() {
    // on accepted sequences loop-starts and loop-ends are equally many,
    // and no prefix closes more than it opens
    let tokens = lex("[[]][+[-]]");
    assert!(BFLexer::check_syntax(&tokens).is_ok());
    let mut starts = 0i64;
    let mut ends = 0i64;
    for t in &tokens {
        match t {
            BFToken::LoopStart => starts += 1,
            BFToken::LoopEnd => ends += 1,
            _ => {}
        }
        assert!(starts >= ends);
    }
    assert_eq!(starts, ends);
}

#[test]
fn test_unmatched_open_rejected_at_index_zero() {
    let tokens = lex("[");
    let err = BFLexer::check_syntax(&tokens).unwrap_err();
    assert_eq!(err, "Unmatched LoopStart ([) at token 0");
}

#[test]
fn test_unmatched_close_rejected_at_index_zero() {
    let tokens = lex("]");
    let err = BFLexer::check_syntax(&tokens).unwrap_err();
    assert_eq!(err, "Unmatched LoopEnd (]) at token 0");
}

#[test]
fn test_empty_input_empty_tokens() {
    let tokens = lex("");
    assert!(tokens.is_empty());
    assert!(BFLexer::check_syntax(&tokens).is_ok());
}
