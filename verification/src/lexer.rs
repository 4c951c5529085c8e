//! Lexer for the tape-machine source language.
//!
//! The lexer compresses raw source into run-length-encoded command
//! tokens: a run of a repeatable command character, optionally followed
//! by a decimal repeat count, becomes a single token.  Every character
//! that is not a command character (and not a digit attached to a
//! command run) is silently discarded.

use vstd::prelude::*;

use crate::brackets::{balanced, lemma_prefix_step, opens, sdepth};
use crate::decimal::{
    dec_digits, digits_val, is_digit, lemma_dec_digits, lemma_digits_val_nonneg,
    lemma_digits_val_push, push_dec,
};

verus! {

/// One token of the source language.  The six repeatable commands carry
/// a repeat count; the two loop brackets are nullary.
#[derive(Debug, PartialEq, Eq, Clone, Copy, Structural)]
pub enum BFToken {
    IncrementPointer(u32),
    DecrementPointer(u32),
    IncrementValue(u32),
    DecrementValue(u32),
    OutputValue(u32),
    InputValue(u32),
    LoopStart,
    LoopEnd,
}

/// The six command characters that form run-length-encoded tokens.
pub open spec fn is_repeatable(c: char) -> bool {
    c == '>' || c == '<' || c == '+' || c == '-' || c == '.' || c == ','
}

/// Length of the leading run of the character `c` in `s`.
pub open spec fn run_len(s: Seq<char>, c: char) -> nat
    decreases s.len(),
{
    if s.len() > 0 && s[0] == c {
        1 + run_len(s.skip(1), c)
    } else {
        0
    }
}

/// Length of the leading run of ASCII digits in `s`.
pub open spec fn digit_run_len(s: Seq<char>) -> nat
    decreases s.len(),
{
    if s.len() > 0 && is_digit(s[0]) {
        1 + digit_run_len(s.skip(1))
    } else {
        0
    }
}

/// The token emitted for the repeatable command `c` at the head of `s`.
pub open spec fn make_token(c: char, n: u32) -> BFToken {
    if c == '>' {
        BFToken::IncrementPointer(n)
    } else if c == '<' {
        BFToken::DecrementPointer(n)
    } else if c == '+' {
        BFToken::IncrementValue(n)
    } else if c == '-' {
        BFToken::DecrementValue(n)
    } else if c == '.' {
        BFToken::OutputValue(n)
    } else {
        BFToken::InputValue(n)
    }
}

/// The repeat count scanned for a leading run of `c` in `s`: the value
/// of the attached decimal numeral if one is present and fits in a
/// `u32`, and otherwise the length of the run itself.
pub open spec fn token_count(s: Seq<char>, c: char) -> int {
    let k = run_len(s, c) as int;
    let d = digit_run_len(s.skip(k)) as int;
    let digits = s.subrange(k, k + d);
    if d > 0 && digits_val(digits) <= u32::MAX {
        digits_val(digits)
    } else {
        k
    }
}

/// The token sequence of a source text: the mathematical model of the
/// lexer.  A leading repeatable command consumes its run and any
/// attached digits; brackets consume one character; everything else is
/// discarded.
pub open spec fn lex(s: Seq<char>) -> Seq<BFToken>
    decreases s.len(),
    via lex_decreases
{
    if s.len() == 0 {
        Seq::empty()
    } else {
        let c = s[0];
        if is_repeatable(c) {
            let k = run_len(s, c) as int;
            let d = digit_run_len(s.skip(k)) as int;
            seq![make_token(c, token_count(s, c) as u32)] + lex(s.skip(k + d))
        } else if c == '[' {
            seq![BFToken::LoopStart] + lex(s.skip(1))
        } else if c == ']' {
            seq![BFToken::LoopEnd] + lex(s.skip(1))
        } else {
            lex(s.skip(1))
        }
    }
}

#[via_fn]
proof fn lex_decreases(s: Seq<char>) {
    if s.len() > 0 && is_repeatable(s[0]) {
        lemma_run_len_le(s, s[0]);
        let k = run_len(s, s[0]) as int;
        lemma_digit_run_len_le(s.skip(k));
    }
}

/// The leading run is no longer than the sequence.
pub proof fn lemma_run_len_le(s: Seq<char>, c: char)
    ensures
        run_len(s, c) <= s.len(),
    decreases s.len(),
{
    if s.len() > 0 && s[0] == c {
        lemma_run_len_le(s.skip(1), c);
    }
}

/// The leading digit run is no longer than the sequence.
pub proof fn lemma_digit_run_len_le(s: Seq<char>)
    ensures
        digit_run_len(s) <= s.len(),
    decreases s.len(),
{
    if s.len() > 0 && is_digit(s[0]) {
        lemma_digit_run_len_le(s.skip(1));
    }
}

/// `run_len` is exactly the `k` observed by a scan: `k` characters
/// equal to `c` followed by the end or a different character.
proof fn lemma_run_len_is(s: Seq<char>, c: char, k: int)
    requires
        0 <= k <= s.len(),
        forall|m: int| 0 <= m < k ==> s[m] == c,
        k == s.len() || s[k] != c,
    ensures
        run_len(s, c) == k,
    decreases s.len(),
{
    if k == 0 {
        if s.len() > 0 {
            assert(s[0] != c);
        }
    } else {
        assert(s[0] == c);
        let t = s.skip(1);
        assert forall|m: int| 0 <= m < k - 1 implies t[m] == c by {
            assert(t[m] == s[m + 1]);
        }
        if k - 1 < t.len() {
            assert(t[k - 1] == s[k]);
        }
        lemma_run_len_is(t, c, k - 1);
    }
}

/// `digit_run_len` is exactly the `d` observed by a scan: `d` digits
/// followed by the end or a non-digit.
proof fn lemma_digit_run_len_is(s: Seq<char>, d: int)
    requires
        0 <= d <= s.len(),
        forall|m: int| 0 <= m < d ==> is_digit(s[m]),
        d == s.len() || !is_digit(s[d]),
    ensures
        digit_run_len(s) == d,
    decreases s.len(),
{
    if d == 0 {
        if s.len() > 0 {
            assert(!is_digit(s[0]));
        }
    } else {
        assert(is_digit(s[0]));
        let t = s.skip(1);
        assert forall|m: int| 0 <= m < d - 1 implies is_digit(t[m]) by {
            assert(t[m] == s[m + 1]);
        }
        if d - 1 < t.len() {
            assert(t[d - 1] == s[d]);
        }
        lemma_digit_run_len_is(t, d - 1);
    }
}

/// A stateful cursor over an input character sequence, producing the
/// token sequence `lex` describes.
pub struct BFLexer {
    pub input: Vec<char>,
    pub pos: usize,
}

impl BFLexer {
    /// The cursor sits inside the input, and the input is short enough
    /// that no run can overflow a `u32` repeat count.
    pub open spec fn wf(&self) -> bool {
        self.pos <= self.input@.len() && self.input@.len() <= u32::MAX
    }

    /// The input not yet consumed.
    pub open spec fn rest(&self) -> Seq<char> {
        self.input@.skip(self.pos as int)
    }

    pub fn new(input: Vec<char>) -> (r: Self)
        requires
            input@.len() <= u32::MAX,
        ensures
            r.wf(),
            r.input == input,
            r.pos == 0,
    {
        BFLexer { pos: 0, input }
    }

    /// Scan the next token, skipping discarded characters; `None` means
    /// the rest of the input holds no token.
    pub fn next_token(&mut self) -> (r: Option<BFToken>)
        requires
            old(self).wf(),
        ensures
            final(self).wf(),
            final(self).input == old(self).input,
            old(self).pos <= final(self).pos,
            match r {
                Some(t) => old(self).pos < final(self).pos && lex(old(self).rest()) == seq![t]
                    + lex(final(self).rest()),
                None => final(self).pos == final(self).input@.len() && lex(old(self).rest())
                    == Seq::<BFToken>::empty(),
            },
    {
        while self.pos < self.input.len()
            invariant
                self.wf(),
                self.input == old(self).input,
                old(self).pos <= self.pos,
                lex(old(self).rest()) == lex(self.rest()),
            decreases self.input@.len() - self.pos,
        {
            let c = self.input[self.pos];
            let ghost s = self.rest();
            assert(s[0] == c);
            if is_repeatable_char(c) {
                let start: usize = self.pos;
                self.pos = self.pos + 1;
                let mut count: u32 = 1;
                while self.pos < self.input.len() && self.input[self.pos] == c
                    invariant
                        self.input == old(self).input,
                        start + count == self.pos,
                        start < self.pos <= self.input@.len(),
                        self.input@.len() <= u32::MAX,
                        forall|m: int| start <= m < self.pos ==> self.input@[m] == c,
                    decreases self.input@.len() - self.pos,
                {
                    self.pos = self.pos + 1;
                    count = count + 1;
                }
                proof {
                    assert forall|m: int| 0 <= m < count implies s[m] == c by {
                        assert(s[m] == self.input@[start + m]);
                    }
                    if count < s.len() {
                        assert(s[count as int] == self.input@[start + count]);
                    }
                    lemma_run_len_is(s, c, count as int);
                }
                // Scan an attached decimal numeral, tracking overflow of
                // the `u32` repeat count.
                let dstart: usize = self.pos;
                let mut acc: u64 = 0;
                let mut overflow: bool = false;
                while self.pos < self.input.len() && is_digit_char(self.input[self.pos])
                    invariant
                        self.input == old(self).input,
                        dstart <= self.pos <= self.input@.len(),
                        self.input@.len() <= u32::MAX,
                        forall|m: int| dstart <= m < self.pos ==> is_digit(self.input@[m]),
                        !overflow ==> acc == digits_val(
                            self.input@.subrange(dstart as int, self.pos as int),
                        ) && acc <= u32::MAX,
                        overflow ==> digits_val(self.input@.subrange(dstart as int, self.pos as int))
                            > u32::MAX,
                    decreases self.input@.len() - self.pos,
                {
                    let dc = self.input[self.pos];
                    let d: u64 = (dc as u64) - 48;
                    let ghost pre = self.input@.subrange(dstart as int, self.pos as int);
                    proof {
                        assert(self.input@.subrange(dstart as int, self.pos as int + 1) =~= pre.push(dc));
                        lemma_digits_val_push(pre, dc);
                        if overflow {
                            lemma_digits_val_nonneg(pre);
                        }
                    }
                    if !overflow {
                        let next: u64 = acc * 10 + d;
                        if next > u32::MAX as u64 {
                            overflow = true;
                            acc = 0;
                        } else {
                            acc = next;
                        }
                    }
                    self.pos = self.pos + 1;
                }
                let ghost digits = self.input@.subrange(dstart as int, self.pos as int);
                let dlen: u32 = (self.pos - dstart) as u32;
                proof {
                    let t = s.skip(count as int);
                    assert(t =~= self.input@.skip(dstart as int));
                    assert(forall|m: int|
                        0 <= m < dlen ==> t[m] == self.input@[dstart + m]);
                    if dlen < t.len() {
                        assert(t[dlen as int] == self.input@[dstart + dlen]);
                    }
                    lemma_digit_run_len_is(t, dlen as int);
                    assert(s.subrange(count as int, count as int + dlen) =~= digits);
                }
                let num: u32 = if dlen > 0 {
                    if !overflow {
                        acc as u32
                    } else {
                        count
                    }
                } else {
                    count
                };
                proof {
                    assert(token_count(s, c) == num as int);
                    assert(s.skip(count + dlen as int) =~= self.rest());
                }
                let token = match c {
                    '>' => BFToken::IncrementPointer(num),
                    '<' => BFToken::DecrementPointer(num),
                    '+' => BFToken::IncrementValue(num),
                    '-' => BFToken::DecrementValue(num),
                    '.' => BFToken::OutputValue(num),
                    _ => BFToken::InputValue(num),
                };
                proof {
                    assert(token == make_token(c, num));
                    assert(lex(s) == seq![token] + lex(self.rest()));
                }
                return Some(token);
            } else if c == '[' {
                self.pos = self.pos + 1;
                proof {
                    assert(s.skip(1) =~= self.rest());
                }
                return Some(BFToken::LoopStart);
            } else if c == ']' {
                self.pos = self.pos + 1;
                proof {
                    assert(s.skip(1) =~= self.rest());
                }
                return Some(BFToken::LoopEnd);
            } else {
                self.pos = self.pos + 1;
                proof {
                    assert(s.skip(1) =~= self.rest());
                }
            }
        }
        proof {
            assert(self.rest() =~= Seq::<char>::empty());
        }
        None
    }

    /// Scan the whole input into a token sequence.
    pub fn tokenize(&mut self) -> (r: Vec<BFToken>)
        requires
            old(self).wf(),
        ensures
            final(self).wf(),
            r@ == lex(old(self).rest()),
    {
        let mut tokens: Vec<BFToken> = Vec::new();
        while self.pos < self.input.len()
            invariant
                self.wf(),
                tokens@ + lex(self.rest()) == lex(old(self).rest()),
            decreases self.input@.len() - self.pos,
        {
            let ghost pre = tokens@;
            if let Some(t) = self.next_token() {
                tokens.push(t);
                proof {
                    assert(tokens@ + lex(self.rest()) =~= pre + (seq![t] + lex(self.rest())));
                }
            }
        }
        proof {
            assert(self.rest() =~= Seq::<char>::empty());
            assert(tokens@ + lex(self.rest()) =~= tokens@);
        }
        tokens
    }
}

/// Index of the first loop-end token at or after `m` that closes no
/// open loop, or `-1` when there is none.
pub open spec fn first_bad_close_from(s: Seq<BFToken>, m: int) -> int
    recommends
        0 <= m <= s.len(),
    decreases s.len() - m when 0 <= m <= s.len()
{
    if m >= s.len() {
        -1
    } else if s[m] is LoopEnd && opens(s.take(m)).len() == 0 {
        m
    } else {
        first_bad_close_from(s, m + 1)
    }
}

/// Index of the first loop-end token that closes no open loop, or `-1`.
pub open spec fn first_bad_close(s: Seq<BFToken>) -> int {
    first_bad_close_from(s, 0)
}

/// The diagnostic the validator reports for an unbalanced sequence: a
/// loop-end with no open loop is blamed first, at the first such index;
/// otherwise the last loop-start still open is blamed.
pub open spec fn syntax_err_text(s: Seq<BFToken>) -> Seq<char> {
    if first_bad_close(s) >= 0 {
        "Unmatched LoopEnd (]) at token "@ + dec_digits(first_bad_close(s))
    } else {
        "Unmatched LoopStart ([) at token "@ + dec_digits(opens(s).last())
    }
}

impl BFLexer {
    /// Decide whether the token sequence is bracket-balanced; on
    /// failure, name the kind of mismatch and the offending token index.
    pub fn check_syntax(tokens: &[BFToken]) -> (r: Result<(), String>)
        ensures
            match r {
                Ok(()) => balanced(tokens@),
                Err(m) => !balanced(tokens@) && m@ == syntax_err_text(tokens@),
            },
    {
        let ghost s = tokens@;
        let mut stack: Vec<usize> = Vec::new();
        let n = tokens.len();
        let mut i: usize = 0;
        while i < n
            invariant
                s == tokens@,
                n == s.len(),
                i <= n,
                stack@.len() == opens(s.take(i as int)).len(),
                forall|k: int|
                    0 <= k < stack@.len() ==> stack@[k] as int == opens(s.take(i as int))[k],
                forall|m: int| 0 <= m <= i ==> sdepth(#[trigger] s.take(m)) == opens(s.take(m)).len(),
                first_bad_close(s) == first_bad_close_from(s, i as int),
            decreases n - i,
        {
            proof {
                lemma_prefix_step(s, i as int);
            }
            match tokens[i] {
                BFToken::LoopStart => {
                    stack.push(i);
                },
                BFToken::LoopEnd => {
                    if stack.pop().is_none() {
                        proof {
                            assert(first_bad_close_from(s, i as int) == i);
                            assert(sdepth(s.take(i as int + 1)) < 0);
                            assert(!balanced(s));
                        }
                        let mut msg = "Unmatched LoopEnd (]) at token ".to_owned();
                        push_dec(&mut msg, i as u64);
                        return Err(msg);
                    }
                },
                _ => {},
            }
            i = i + 1;
        }
        proof {
            assert(s.take(n as int) =~= s);
        }
        match stack.pop() {
            Some(p) => {
                proof {
                    assert(opens(s).last() == p as int);
                    assert(sdepth(s) == opens(s).len() > 0);
                    assert(!balanced(s));
                    assert(first_bad_close_from(s, n as int) == -1);
                }
                let mut msg = "Unmatched LoopStart ([) at token ".to_owned();
                push_dec(&mut msg, p as u64);
                Err(msg)
            },
            None => {
                proof {
                    assert(forall|m: int| 0 <= m <= s.len() ==> sdepth(#[trigger] s.take(m)) >= 0);
                }
                Ok(())
            },
        }
    }
}

/// The characters of the leading digit run are digits.
proof fn lemma_digit_run_chars(s: Seq<char>)
    ensures
        forall|m: int| 0 <= m < digit_run_len(s) ==> is_digit(s[m]),
    decreases s.len(),
{
    lemma_digit_run_len_le(s);
    if s.len() > 0 && is_digit(s[0]) {
        lemma_digit_run_chars(s.skip(1));
        lemma_digit_run_len_le(s.skip(1));
        assert forall|m: int| 0 <= m < digit_run_len(s) implies is_digit(s[m]) by {
            if m > 0 {
                assert(s.skip(1)[m - 1] == s[m]);
            }
        }
    }
}

/// Whether the scan ever reads an explicit numeral of value zero: the
/// one way a produced token's repeat count can fall below one.
pub open spec fn has_zero_numeral(s: Seq<char>) -> bool
    decreases s.len(),
    via has_zero_numeral_decreases
{
    if s.len() == 0 {
        false
    } else {
        let c = s[0];
        if is_repeatable(c) {
            let k = run_len(s, c) as int;
            let d = digit_run_len(s.skip(k)) as int;
            (d > 0 && digits_val(s.subrange(k, k + d)) == 0) || has_zero_numeral(s.skip(k + d))
        } else {
            has_zero_numeral(s.skip(1))
        }
    }
}

#[via_fn]
proof fn has_zero_numeral_decreases(s: Seq<char>) {
    if s.len() > 0 && is_repeatable(s[0]) {
        lemma_run_len_le(s, s[0]);
        let k = run_len(s, s[0]) as int;
        lemma_digit_run_len_le(s.skip(k));
    }
}

/// A repeat count of at least one; the nullary loop tokens carry none.
pub open spec fn count_ge_one(t: BFToken) -> bool {
    match t {
        BFToken::IncrementPointer(n) => n >= 1,
        BFToken::DecrementPointer(n) => n >= 1,
        BFToken::IncrementValue(n) => n >= 1,
        BFToken::DecrementValue(n) => n >= 1,
        BFToken::OutputValue(n) => n >= 1,
        BFToken::InputValue(n) => n >= 1,
        BFToken::LoopStart => true,
        BFToken::LoopEnd => true,
    }
}

/// LAW: every token the lexer produces carries a repeat count of at
/// least one.  The one exception in the language is an explicit
/// numeral of value zero, which the scan takes as it stands; sources
/// with such a numeral are excluded here.
pub proof fn lemma_lex_counts_ge_one(s: Seq<char>)
    requires
        s.len() <= u32::MAX,
        !has_zero_numeral(s),
    ensures
        forall|i: int| 0 <= i < lex(s).len() ==> count_ge_one(#[trigger] lex(s)[i]),
    decreases s.len(),
{
    if s.len() == 0 {
    } else {
        let c = s[0];
        if is_repeatable(c) {
            lemma_run_len_le(s, c);
            let k = run_len(s, c) as int;
            lemma_digit_run_len_le(s.skip(k));
            let d = digit_run_len(s.skip(k)) as int;
            lemma_lex_counts_ge_one(s.skip(k + d));
            let digits = s.subrange(k, k + d);
            if d > 0 {
                lemma_digit_run_chars(s.skip(k));
                assert forall|m: int| 0 <= m < digits.len() implies is_digit(digits[m]) by {
                    assert(digits[m] == s.skip(k)[m]);
                }
                lemma_digits_val_nonneg(digits);
            }
            assert(count_ge_one(make_token(c, token_count(s, c) as u32)));
            assert forall|i: int| 0 <= i < lex(s).len() implies count_ge_one(
                #[trigger] lex(s)[i],
            ) by {
                if i > 0 {
                    assert(lex(s)[i] == lex(s.skip(k + d))[i - 1]);
                }
            }
        } else {
            lemma_lex_counts_ge_one(s.skip(1));
            if c == '[' || c == ']' {
                assert forall|i: int| 0 <= i < lex(s).len() implies count_ge_one(
                    #[trigger] lex(s)[i],
                ) by {
                    if i > 0 {
                        assert(lex(s)[i] == lex(s.skip(1))[i - 1]);
                    }
                }
            }
        }
    }
}

/// The canonical string form of a token: its command character, with
/// the repeat count written as an explicit numeral.
pub open spec fn token_text(t: BFToken) -> Seq<char> {
    match t {
        BFToken::IncrementPointer(n) => seq!['>'] + dec_digits(n as int),
        BFToken::DecrementPointer(n) => seq!['<'] + dec_digits(n as int),
        BFToken::IncrementValue(n) => seq!['+'] + dec_digits(n as int),
        BFToken::DecrementValue(n) => seq!['-'] + dec_digits(n as int),
        BFToken::OutputValue(n) => seq!['.'] + dec_digits(n as int),
        BFToken::InputValue(n) => seq![','] + dec_digits(n as int),
        BFToken::LoopStart => seq!['['],
        BFToken::LoopEnd => seq![']'],
    }
}

/// The concatenated canonical forms of a token sequence.
pub open spec fn tokens_text(ts: Seq<BFToken>) -> Seq<char>
    decreases ts.len(),
{
    if ts.len() == 0 {
        Seq::empty()
    } else {
        token_text(ts[0]) + tokens_text(ts.skip(1))
    }
}

/// A canonical form starts with a command character, never a digit.
proof fn lemma_tokens_text_head(ts: Seq<BFToken>)
    requires
        ts.len() > 0,
    ensures
        tokens_text(ts).len() > 0,
        !is_digit(tokens_text(ts)[0]),
        tokens_text(ts)[0] == token_text(ts[0])[0],
{
    let t = ts[0];
    if t is LoopStart || t is LoopEnd {
    } else {
        assert(token_text(t).len() >= 1);
        assert(token_text(t)[0] == seq!['>'][0] || token_text(t)[0] == seq!['<'][0]
            || token_text(t)[0] == seq!['+'][0] || token_text(t)[0] == seq!['-'][0]
            || token_text(t)[0] == seq!['.'][0] || token_text(t)[0] == seq![','][0]);
    }
}

/// LAW: re-lexing the concatenation of the canonical string forms of a
/// token sequence yields that token sequence again.
pub proof fn lemma_relex_round_trip(ts: Seq<BFToken>)
    ensures
        lex(tokens_text(ts)) == ts,
    decreases ts.len(),
{
    if ts.len() == 0 {
        assert(tokens_text(ts).len() == 0);
    } else {
        let t = ts[0];
        let rest = tokens_text(ts.skip(1));
        let s = tokens_text(ts);
        lemma_relex_round_trip(ts.skip(1));
        if t is LoopStart || t is LoopEnd {
            assert(s[0] == token_text(t)[0]);
            assert(!is_repeatable(s[0]));
            assert(s.skip(1) =~= rest);
            assert(lex(s) =~= seq![t] + ts.skip(1));
            assert(seq![t] + ts.skip(1) =~= ts);
        } else {
            let c = token_text(t)[0];
            let n = match t {
                BFToken::IncrementPointer(n) => n,
                BFToken::DecrementPointer(n) => n,
                BFToken::IncrementValue(n) => n,
                BFToken::DecrementValue(n) => n,
                BFToken::OutputValue(n) => n,
                BFToken::InputValue(n) => n,
                BFToken::LoopStart => 0u32,
                BFToken::LoopEnd => 0u32,
            };
            lemma_dec_digits(n as int);
            let dd = dec_digits(n as int);
            assert(s =~= seq![c] + dd + rest);
            assert(s[0] == c);
            assert(is_repeatable(c));
            assert(!is_digit(c));
            // the run of `c` stops at the first digit of the numeral
            assert(s[1] == dd[0]);
            assert(is_digit(s[1]));
            lemma_run_len_is(s, c, 1);
            // the digit run is exactly the numeral
            let tail = s.skip(1);
            assert(tail =~= dd + rest);
            if ts.skip(1).len() > 0 {
                lemma_tokens_text_head(ts.skip(1));
            }
            assert forall|m: int| 0 <= m < dd.len() implies is_digit(tail[m]) by {
                assert(tail[m] == dd[m]);
            }
            if dd.len() < tail.len() {
                assert(tail[dd.len() as int] == rest[0]);
                assert(!is_digit(tail[dd.len() as int]));
            }
            lemma_digit_run_len_is(tail, dd.len() as int);
            assert(s.subrange(1, 1 + dd.len() as int) =~= dd);
            assert(token_count(s, c) == n as int);
            assert(make_token(c, n) == t);
            assert(s.skip(1 + dd.len() as int) =~= rest);
            assert(lex(s) =~= seq![t] + ts.skip(1));
            assert(seq![t] + ts.skip(1) =~= ts);
        }
    }
}

/// LAW: re-lexing the concatenation of the canonical string forms of
/// the tokens produced for a source yields the same token sequence.
pub proof fn lemma_relex_of_lexed(s: Seq<char>)
    ensures
        lex(tokens_text(lex(s))) == lex(s),
{
    lemma_relex_round_trip(lex(s));
}

/// Executable test for the six repeatable command characters.
pub fn is_repeatable_char(c: char) -> (r: bool)
    ensures
        r == is_repeatable(c),
{
    c == '>' || c == '<' || c == '+' || c == '-' || c == '.' || c == ','
}

/// Executable test for ASCII decimal digits.
pub fn is_digit_char(c: char) -> (r: bool)
    ensures
        r == is_digit(c),
{
    let u = c as u32;
    48 <= u && u <= 57
}

} // verus!
