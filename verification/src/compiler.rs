//! Compiler driver: walks the token sequence, threads the loop-id
//! counter and the stack of open-loop ids, and dispatches each token to
//! the emitter between its prologue and epilogue.

use vstd::prelude::*;

use crate::brackets::{
    lemma_counts_bounds, lemma_matched_opens, lemma_prefix_step, lemma_start_ids_distinct,
    matched_pair, opens, start_count,
};
use crate::emitter::{
    dec_pointer_text, dec_value_text, footer_text, header_text, inc_pointer_text, inc_value_text,
    input_text, loop_end_text, loop_start_text, output_text, with_pretty, Assembler, Target,
};
use crate::lexer::BFToken;

verus! {

/// Number of output and input tokens in `s`; they number the I/O loop
/// labels the emitter writes.
pub open spec fn io_count(s: Seq<BFToken>) -> int
    decreases s.len(),
{
    if s.len() == 0 {
        0
    } else {
        io_count(s.drop_last()) + (if s.last() is OutputValue || s.last() is InputValue {
            1int
        } else {
            0int
        })
    }
}

pub proof fn lemma_io_count_bounds(s: Seq<BFToken>)
    ensures
        0 <= io_count(s) <= s.len(),
    decreases s.len(),
{
    if s.len() > 0 {
        lemma_io_count_bounds(s.drop_last());
    }
}

/// The id the generator assigns to the loop opened at position `i`:
/// loops are numbered 0, 1, 2, … in order of appearance of their
/// loop-start tokens.
pub open spec fn loop_id_at(s: Seq<BFToken>, i: int) -> int {
    start_count(s.take(i))
}

/// The text emitted for token `i` of `s`; the tokens before `i` decide
/// the loop id or I/O label number.  A loop-end with no open loop to
/// match emits nothing.
pub open spec fn tok_text(s: Seq<BFToken>, i: int, t: Target, p: bool) -> Seq<char> {
    match s[i] {
        BFToken::IncrementPointer(n) => with_pretty(p, inc_pointer_text(n)),
        BFToken::DecrementPointer(n) => with_pretty(p, dec_pointer_text(n)),
        BFToken::IncrementValue(n) => with_pretty(p, inc_value_text(n)),
        BFToken::DecrementValue(n) => with_pretty(p, dec_value_text(n)),
        BFToken::OutputValue(n) => with_pretty(p, output_text(t, n, io_count(s.take(i)))),
        BFToken::InputValue(n) => with_pretty(p, input_text(t, n, io_count(s.take(i)))),
        BFToken::LoopStart => with_pretty(p, loop_start_text(loop_id_at(s, i))),
        BFToken::LoopEnd => if opens(s.take(i)).len() > 0 {
            with_pretty(p, loop_end_text(loop_id_at(s, opens(s.take(i)).last())))
        } else {
            Seq::empty()
        },
    }
}

/// The text emitted for the first `i` tokens of `s`.
pub open spec fn body_text(s: Seq<BFToken>, i: int, t: Target, p: bool) -> Seq<char>
    recommends
        0 <= i <= s.len(),
    decreases i,
{
    if i <= 0 {
        Seq::empty()
    } else {
        body_text(s, i - 1, t, p) + tok_text(s, i - 1, t, p)
    }
}

/// The whole compilation: prologue, one fragment per token, epilogue.
pub open spec fn compile_text(s: Seq<BFToken>, t: Target, tape_size: int, p: bool) -> Seq<char> {
    header_text(t, tape_size) + body_text(s, s.len() as int, t, p) + footer_text(t)
}

/// The two accepted target names.
pub open spec fn valid_target(s: Seq<char>) -> bool {
    s == "unix"@ || s == "win64"@
}

/// The target a name denotes.
pub open spec fn target_of(s: Seq<char>) -> Target {
    if s == "unix"@ {
        Target::Unix
    } else {
        Target::Win64
    }
}

/// Relies on `str`'s `PartialEq`: slices are equal iff their character
/// sequences are.
#[verifier::external_body]
fn str_eq(a: &str, b: &str) -> (r: bool)
    ensures
        r == (a@ == b@),
{
    a == b
}

/// A compilation job: the token sequence and the configuration the
/// emitted assembly is built from.
pub struct BFCompiler {
    pub tokens: Vec<BFToken>,
    pub tape_size: usize,
    pub target_arch: String,
    pub pretty: bool,
}

impl BFCompiler {
    pub fn new(tokens: Vec<BFToken>, tape_size: usize, target_arch: &str, pretty: bool) -> (r:
        Self)
        ensures
            r.tokens == tokens,
            r.tape_size == tape_size,
            r.target_arch@ == target_arch@,
            r.pretty == pretty,
    {
        BFCompiler { tokens, tape_size, target_arch: target_arch.to_owned(), pretty }
    }

    /// Compile the token sequence to one assembly text.  Loop ids are
    /// assigned in order of appearance of loop-start tokens; a loop-end
    /// with no open loop is skipped (accepted input never has one).
    pub fn compile(&self) -> (r: String)
        requires
            valid_target(self.target_arch@),
        ensures
            r@ == compile_text(
                self.tokens@,
                target_of(self.target_arch@),
                self.tape_size as int,
                self.pretty,
            ),
    {
        let t: Target = if str_eq(self.target_arch.as_str(), "unix") {
            Target::Unix
        } else {
            Target::Win64
        };
        let ghost s = self.tokens@;
        let mut a = Assembler::new(t, self.pretty, self.tape_size).header();
        let mut loop_stack: Vec<usize> = Vec::new();
        let mut loop_id: usize = 0;
        let n = self.tokens.len();
        let mut i: usize = 0;
        while i < n
            invariant
                s == self.tokens@,
                n == s.len(),
                i <= n,
                a.target == t,
                a.tape_size == self.tape_size,
                a.pretty == self.pretty,
                a.buf@ == header_text(t, self.tape_size as int) + body_text(
                    s,
                    i as int,
                    t,
                    self.pretty,
                ),
                loop_id as int == start_count(s.take(i as int)),
                a.io_count as int == io_count(s.take(i as int)),
                loop_stack@.len() == opens(s.take(i as int)).len(),
                forall|k: int|
                    0 <= k < loop_stack@.len() ==> loop_stack@[k] as int == loop_id_at(
                        s,
                        opens(s.take(i as int))[k],
                    ),
            decreases n - i,
        {
            proof {
                lemma_prefix_step(s, i as int);
                lemma_counts_bounds(s.take(i as int));
                lemma_io_count_bounds(s.take(i as int));
                assert(s.take(i as int).len() == i);
                assert(s.take(i as int + 1).drop_last() =~= s.take(i as int));
                assert(s.take(i as int + 1).last() == s[i as int]);
            }
            let ghost pre = a.buf@;
            let tok = self.tokens[i];
            match tok {
                BFToken::IncrementPointer(nn) => {
                    a = a.inc_pointer(nn);
                },
                BFToken::DecrementPointer(nn) => {
                    a = a.dec_pointer(nn);
                },
                BFToken::IncrementValue(nn) => {
                    a = a.inc_value(nn);
                },
                BFToken::DecrementValue(nn) => {
                    a = a.dec_value(nn);
                },
                BFToken::OutputValue(nn) => {
                    a = a.output_value(nn);
                },
                BFToken::InputValue(nn) => {
                    a = a.input_value(nn);
                },
                BFToken::LoopStart => {
                    a = a.loop_start(loop_id);
                    loop_stack.push(loop_id);
                    loop_id = loop_id + 1;
                },
                BFToken::LoopEnd => {
                    match loop_stack.pop() {
                        Some(id) => {
                            proof {
                                assert(id as int == loop_id_at(
                                    s,
                                    opens(s.take(i as int)).last(),
                                ));
                            }
                            a = a.loop_end(id);
                        },
                        None => {
                        },
                    }
                },
            }
            proof {
                assert(body_text(s, i as int + 1, t, self.pretty) == body_text(
                    s,
                    i as int,
                    t,
                    self.pretty,
                ) + tok_text(s, i as int, t, self.pretty));
                assert(a.buf@ =~= pre + tok_text(s, i as int, t, self.pretty));
                assert(a.buf@ =~= header_text(t, self.tape_size as int) + body_text(
                    s,
                    i as int + 1,
                    t,
                    self.pretty,
                ));
            }
            i = i + 1;
        }
        proof {
            assert(s.take(n as int) =~= s);
        }
        let a2 = a.footer();
        proof {
            assert(a2.buf@ =~= compile_text(s, t, self.tape_size as int, self.pretty));
        }
        a2.build()
    }
}


/// LAW: an empty token sequence compiles to the prologue followed
/// immediately by the epilogue.
pub proof fn lemma_empty_program_text(t: Target, tape_size: int, p: bool)
    ensures
        compile_text(Seq::empty(), t, tape_size, p) == header_text(t, tape_size) + footer_text(t),
{
    assert(body_text(Seq::empty(), 0, t, p) == Seq::<char>::empty());
    assert((header_text(t, tape_size) + Seq::<char>::empty()) + footer_text(t) =~= header_text(
        t,
        tape_size,
    ) + footer_text(t));
}

/// The fragment of token `i` stands verbatim in the emitted body, at
/// the offset where the fragments of the earlier tokens end.
pub proof fn lemma_tok_text_emitted(s: Seq<BFToken>, i: int, j: int, t: Target, p: bool)
    requires
        0 <= i < j <= s.len(),
    ensures
        body_text(s, i, t, p).len() + tok_text(s, i, t, p).len() <= body_text(s, j, t, p).len(),
        body_text(s, j, t, p).subrange(
            body_text(s, i, t, p).len() as int,
            body_text(s, i, t, p).len() as int + tok_text(s, i, t, p).len() as int,
        ) == tok_text(s, i, t, p),
    decreases j - i,
{
    let a = body_text(s, i, t, p).len() as int;
    let b = a + tok_text(s, i, t, p).len() as int;
    if j == i + 1 {
        assert(body_text(s, j, t, p) == body_text(s, i, t, p) + tok_text(s, i, t, p));
        assert(body_text(s, j, t, p).subrange(a, b) =~= tok_text(s, i, t, p));
    } else {
        lemma_tok_text_emitted(s, i, j - 1, t, p);
        assert(body_text(s, j, t, p) == body_text(s, j - 1, t, p) + tok_text(s, j - 1, t, p));
        assert(body_text(s, j, t, p).subrange(a, b) =~= body_text(s, j - 1, t, p).subrange(a, b));
    }
}

/// LAW: at a matching loop-start/loop-end pair the generator emits the
/// loop-entry and loop-exit fragments of one and the same loop id, the
/// number of loops opened before the pair's loop-start; those fragments
/// carry the labels `loop_start_<id>:` and `loop_end_<id>:`.
pub proof fn lemma_matched_pair_labels(s: Seq<BFToken>, i: int, j: int, t: Target, p: bool)
    requires
        matched_pair(s, i, j),
    ensures
        tok_text(s, i, t, p) == with_pretty(p, loop_start_text(loop_id_at(s, i))),
        tok_text(s, j, t, p) == with_pretty(p, loop_end_text(loop_id_at(s, i))),
        0 <= loop_id_at(s, i) < start_count(s),
{
    lemma_matched_opens(s, i, j);
    lemma_counts_bounds(s.take(i));
    lemma_start_ids_distinct(s, i, s.len() as int);
    assert(s.take(s.len() as int) =~= s);
}

/// LAW: distinct loops get distinct ids.
pub proof fn lemma_loop_ids_unique(s: Seq<BFToken>, i1: int, i2: int)
    requires
        0 <= i1 < s.len(),
        0 <= i2 < s.len(),
        i1 != i2,
        s[i1] is LoopStart,
        s[i2] is LoopStart,
    ensures
        loop_id_at(s, i1) != loop_id_at(s, i2),
{
    if i1 < i2 {
        lemma_start_ids_distinct(s, i1, i2);
    } else {
        lemma_start_ids_distinct(s, i2, i1);
    }
}

/// LAW: in the emitted body the loop-entry fragment of a matched pair
/// stands verbatim before its loop-exit fragment, both with the same
/// loop id.  Together with `compile`, which returns exactly the
/// prologue, this body, and the epilogue, this places the labels
/// `loop_start_<id>:` and `loop_end_<id>:` in the assembly text.
pub proof fn lemma_compile_emits_matched_labels(
    s: Seq<BFToken>,
    i: int,
    j: int,
    t: Target,
    p: bool,
)
    requires
        matched_pair(s, i, j),
    ensures
        ({
            let id = loop_id_at(s, i);
            let body = body_text(s, s.len() as int, t, p);
            let entry = with_pretty(p, loop_start_text(id));
            let exit = with_pretty(p, loop_end_text(id));
            let a1 = body_text(s, i, t, p).len() as int;
            let a2 = body_text(s, j, t, p).len() as int;
            &&& a1 + entry.len() <= a2
            &&& a2 + exit.len() <= body.len()
            &&& body.subrange(a1, a1 + entry.len() as int) == entry
            &&& body.subrange(a2, a2 + exit.len() as int) == exit
        }),
{
    lemma_matched_pair_labels(s, i, j, t, p);
    lemma_tok_text_emitted(s, i, j, t, p);
    lemma_tok_text_emitted(s, i, s.len() as int, t, p);
    lemma_tok_text_emitted(s, j, s.len() as int, t, p);
}

} // verus!
