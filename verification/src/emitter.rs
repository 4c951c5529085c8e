//! Assembler emitter: accumulates NASM-syntax x86-64 assembly text for
//! one of the two targets.  The data pointer lives in `rsi`; the tape
//! is a zero-initialized buffer in `.bss`.
//!
//! Unix emits direct SysV syscalls (`sys_read`, `sys_write`,
//! `sys_exit`, defined as `equ` constants so the names appear at their
//! use sites); Win64 calls the C runtime (`putchar`, `getchar`,
//! `ExitProcess`) under the Microsoft x64 convention, with `rsp`
//! aligned by the prologue and the argument passed in `rcx`.

use vstd::prelude::*;

use vstd::string::StringExecFns;

use crate::decimal::{dec_digits, push_char, push_dec};

verus! {

/// The two supported ABI/OS combinations.
#[derive(Debug, PartialEq, Eq, Clone, Copy, Structural)]
pub enum Target {
    Unix,
    Win64,
}

/// Prologue: syscall names (unix) or C-runtime imports (win64), the
/// tape buffer of `tape_size` bytes, the entry symbol, and the data
/// pointer set to the tape base.
pub open spec fn header_text(t: Target, tape_size: int) -> Seq<char> {
    match t {
        Target::Unix => "sys_read equ 0\nsys_write equ 1\nsys_exit equ 60\n\nsection .bss\ntape: resb "@
            + dec_digits(tape_size) + "\n\nsection .text\nglobal _start\n\n_start:\nmov rsi, tape\n"@,
        Target::Win64 => "EXTERN putchar\nEXTERN getchar\nEXTERN ExitProcess\n\nsection .bss\ntape: resb "@
            + dec_digits(tape_size)
            + "\n\nsection .text\nglobal main\n\nmain:\nsub rsp, 40\nmov rsi, tape\n"@,
    }
}

/// Advance the data pointer by `n` bytes.
pub open spec fn inc_pointer_text(n: u32) -> Seq<char> {
    "add rsi, "@ + dec_digits(n as int) + "\n"@
}

/// Retreat the data pointer by `n` bytes.
pub open spec fn dec_pointer_text(n: u32) -> Seq<char> {
    "sub rsi, "@ + dec_digits(n as int) + "\n"@
}

/// Add `n` to the current cell; a byte cell works mod 256.
pub open spec fn inc_value_text(n: u32) -> Seq<char> {
    "add byte [rsi], "@ + dec_digits((n % 256) as int) + "\n"@
}

/// Subtract `n` from the current cell, mod 256.
pub open spec fn dec_value_text(n: u32) -> Seq<char> {
    "sub byte [rsi], "@ + dec_digits((n % 256) as int) + "\n"@
}

/// Write the current cell to standard output `n` times; `j` numbers
/// the emission so that its loop label is unique.
pub open spec fn output_text(t: Target, n: u32, j: int) -> Seq<char> {
    match t {
        Target::Unix => "mov rbx, "@ + dec_digits(n as int) + "\nwrite_loop_"@ + dec_digits(j)
            + ":\nmov rax, sys_write\nmov rdi, 1\nmov rdx, 1\nsyscall\ndec rbx\njnz write_loop_"@
            + dec_digits(j) + "\n"@,
        Target::Win64 => "mov rbx, "@ + dec_digits(n as int) + "\nwrite_loop_"@ + dec_digits(j)
            + ":\nmovzx rcx, byte [rsi]\ncall putchar\ndec rbx\njnz write_loop_"@ + dec_digits(j)
            + "\n"@,
    }
}

/// Read `n` bytes from standard input into the current cell, keeping
/// the last one read; `j` numbers the emission as for `output_text`.
pub open spec fn input_text(t: Target, n: u32, j: int) -> Seq<char> {
    match t {
        Target::Unix => "mov rbx, "@ + dec_digits(n as int) + "\nread_loop_"@ + dec_digits(j)
            + ":\nmov rax, sys_read\nmov rdi, 0\nmov rdx, 1\nsyscall\ndec rbx\njnz read_loop_"@
            + dec_digits(j) + "\n"@,
        Target::Win64 => "mov rbx, "@ + dec_digits(n as int) + "\nread_loop_"@ + dec_digits(j)
            + ":\ncall getchar\nmov byte [rsi], al\ndec rbx\njnz read_loop_"@ + dec_digits(j)
            + "\n"@,
    }
}

/// The entry of the loop with id `id`: its label, and the forward
/// branch taken when the current cell is zero.
pub open spec fn loop_start_text(id: int) -> Seq<char> {
    "loop_start_"@ + dec_digits(id) + ":\ncmp byte [rsi], 0\nje loop_end_"@ + dec_digits(id)
        + "\n"@
}

/// The exit of the loop with id `id`: the backward branch taken while
/// the current cell is nonzero, then its label.
pub open spec fn loop_end_text(id: int) -> Seq<char> {
    "cmp byte [rsi], 0\njne loop_start_"@ + dec_digits(id) + "\nloop_end_"@ + dec_digits(id)
        + ":\n"@
}

/// Epilogue: exit the process with code zero.
pub open spec fn footer_text(t: Target) -> Seq<char> {
    match t {
        Target::Unix => "mov rax, sys_exit\nmov rdi, 0\nsyscall\n"@,
        Target::Win64 => "mov rcx, 0\ncall ExitProcess\n"@,
    }
}

/// The pretty flag separates emitted chunks by a blank line; it never
/// changes the instructions themselves.
pub open spec fn with_pretty(p: bool, s: Seq<char>) -> Seq<char> {
    if p {
        seq!['\n'] + s
    } else {
        s
    }
}

/// A builder that accumulates target-specific assembly text.
pub struct Assembler {
    pub buf: String,
    pub target: Target,
    pub tape_size: usize,
    pub pretty: bool,
    pub io_count: usize,
}

impl Assembler {
    /// The construction-time configuration, unchanged by every method.
    pub open spec fn cfg(self) -> (Target, usize, bool) {
        (self.target, self.tape_size, self.pretty)
    }

    pub fn new(target: Target, pretty: bool, tape_size: usize) -> (r: Self)
        ensures
            r.buf@ == Seq::<char>::empty(),
            r.target == target,
            r.tape_size == tape_size,
            r.pretty == pretty,
            r.io_count == 0,
    {
        Assembler { buf: String::new(), target, tape_size, pretty, io_count: 0 }
    }

    /// Append the blank-line separator when the pretty flag is set.
    fn sep(&mut self)
        ensures
            final(self).buf@ == old(self).buf@ + with_pretty(old(self).pretty, Seq::empty()),
            final(self).cfg() == old(self).cfg(),
            final(self).io_count == old(self).io_count,
    {
        if self.pretty {
            push_char(&mut self.buf, '\n');
            proof {
                assert(self.buf@ =~= old(self).buf@ + with_pretty(old(self).pretty, Seq::empty()));
            }
        } else {
            proof {
                assert(self.buf@ =~= old(self).buf@ + with_pretty(old(self).pretty, Seq::empty()));
            }
        }
    }

    pub fn header(self) -> (r: Self)
        ensures
            r.buf@ == self.buf@ + header_text(self.target, self.tape_size as int),
            r.cfg() == self.cfg(),
            r.io_count == self.io_count,
    {
        let ghost orig = self.buf@;
        let mut a = self;
        match a.target {
            Target::Unix => {
                a.buf.append(
                    "sys_read equ 0\nsys_write equ 1\nsys_exit equ 60\n\nsection .bss\ntape: resb ",
                );
                push_dec(&mut a.buf, a.tape_size as u64);
                a.buf.append("\n\nsection .text\nglobal _start\n\n_start:\nmov rsi, tape\n");
            },
            Target::Win64 => {
                a.buf.append(
                    "EXTERN putchar\nEXTERN getchar\nEXTERN ExitProcess\n\nsection .bss\ntape: resb ",
                );
                push_dec(&mut a.buf, a.tape_size as u64);
                a.buf.append("\n\nsection .text\nglobal main\n\nmain:\nsub rsp, 40\nmov rsi, tape\n");
            },
        }
        proof {
            assert(a.buf@ =~= orig + header_text(a.target, a.tape_size as int));
        }
        a
    }

    pub fn inc_pointer(self, n: u32) -> (r: Self)
        ensures
            r.buf@ == self.buf@ + with_pretty(self.pretty, inc_pointer_text(n)),
            r.cfg() == self.cfg(),
            r.io_count == self.io_count,
    {
        let ghost orig = self.buf@;
        let mut a = self;
        a.sep();
        a.buf.append("add rsi, ");
        push_dec(&mut a.buf, n as u64);
        a.buf.append("\n");
        proof {
            assert(a.buf@ =~= orig + with_pretty(a.pretty, inc_pointer_text(n)));
        }
        a
    }

    pub fn dec_pointer(self, n: u32) -> (r: Self)
        ensures
            r.buf@ == self.buf@ + with_pretty(self.pretty, dec_pointer_text(n)),
            r.cfg() == self.cfg(),
            r.io_count == self.io_count,
    {
        let ghost orig = self.buf@;
        let mut a = self;
        a.sep();
        a.buf.append("sub rsi, ");
        push_dec(&mut a.buf, n as u64);
        a.buf.append("\n");
        proof {
            assert(a.buf@ =~= orig + with_pretty(a.pretty, dec_pointer_text(n)));
        }
        a
    }

    pub fn inc_value(self, n: u32) -> (r: Self)
        ensures
            r.buf@ == self.buf@ + with_pretty(self.pretty, inc_value_text(n)),
            r.cfg() == self.cfg(),
            r.io_count == self.io_count,
    {
        let ghost orig = self.buf@;
        let mut a = self;
        a.sep();
        a.buf.append("add byte [rsi], ");
        push_dec(&mut a.buf, (n % 256) as u64);
        a.buf.append("\n");
        proof {
            assert(a.buf@ =~= orig + with_pretty(a.pretty, inc_value_text(n)));
        }
        a
    }

    pub fn dec_value(self, n: u32) -> (r: Self)
        ensures
            r.buf@ == self.buf@ + with_pretty(self.pretty, dec_value_text(n)),
            r.cfg() == self.cfg(),
            r.io_count == self.io_count,
    {
        let ghost orig = self.buf@;
        let mut a = self;
        a.sep();
        a.buf.append("sub byte [rsi], ");
        push_dec(&mut a.buf, (n % 256) as u64);
        a.buf.append("\n");
        proof {
            assert(a.buf@ =~= orig + with_pretty(a.pretty, dec_value_text(n)));
        }
        a
    }

    pub fn output_value(self, n: u32) -> (r: Self)
        requires
            self.io_count < usize::MAX,
        ensures
            r.buf@ == self.buf@ + with_pretty(
                self.pretty,
                output_text(self.target, n, self.io_count as int),
            ),
            r.cfg() == self.cfg(),
            r.io_count == self.io_count + 1,
    {
        let ghost orig = self.buf@;
        let mut a = self;
        a.sep();
        a.buf.append("mov rbx, ");
        push_dec(&mut a.buf, n as u64);
        a.buf.append("\nwrite_loop_");
        push_dec(&mut a.buf, a.io_count as u64);
        match a.target {
            Target::Unix => {
                a.buf.append(
                    ":\nmov rax, sys_write\nmov rdi, 1\nmov rdx, 1\nsyscall\ndec rbx\njnz write_loop_",
                );
            },
            Target::Win64 => {
                a.buf.append(":\nmovzx rcx, byte [rsi]\ncall putchar\ndec rbx\njnz write_loop_");
            },
        }
        push_dec(&mut a.buf, a.io_count as u64);
        a.buf.append("\n");
        a.io_count = a.io_count + 1;
        proof {
            assert(a.buf@ =~= orig + with_pretty(
                a.pretty,
                output_text(a.target, n, (a.io_count - 1) as int),
            ));
        }
        a
    }

    pub fn input_value(self, n: u32) -> (r: Self)
        requires
            self.io_count < usize::MAX,
        ensures
            r.buf@ == self.buf@ + with_pretty(
                self.pretty,
                input_text(self.target, n, self.io_count as int),
            ),
            r.cfg() == self.cfg(),
            r.io_count == self.io_count + 1,
    {
        let ghost orig = self.buf@;
        let mut a = self;
        a.sep();
        a.buf.append("mov rbx, ");
        push_dec(&mut a.buf, n as u64);
        a.buf.append("\nread_loop_");
        push_dec(&mut a.buf, a.io_count as u64);
        match a.target {
            Target::Unix => {
                a.buf.append(
                    ":\nmov rax, sys_read\nmov rdi, 0\nmov rdx, 1\nsyscall\ndec rbx\njnz read_loop_",
                );
            },
            Target::Win64 => {
                a.buf.append(":\ncall getchar\nmov byte [rsi], al\ndec rbx\njnz read_loop_");
            },
        }
        push_dec(&mut a.buf, a.io_count as u64);
        a.buf.append("\n");
        a.io_count = a.io_count + 1;
        proof {
            assert(a.buf@ =~= orig + with_pretty(
                a.pretty,
                input_text(a.target, n, (a.io_count - 1) as int),
            ));
        }
        a
    }

    pub fn loop_start(self, id: usize) -> (r: Self)
        ensures
            r.buf@ == self.buf@ + with_pretty(self.pretty, loop_start_text(id as int)),
            r.cfg() == self.cfg(),
            r.io_count == self.io_count,
    {
        let ghost orig = self.buf@;
        let mut a = self;
        a.sep();
        a.buf.append("loop_start_");
        push_dec(&mut a.buf, id as u64);
        a.buf.append(":\ncmp byte [rsi], 0\nje loop_end_");
        push_dec(&mut a.buf, id as u64);
        a.buf.append("\n");
        proof {
            assert(a.buf@ =~= orig + with_pretty(a.pretty, loop_start_text(id as int)));
        }
        a
    }

    pub fn loop_end(self, id: usize) -> (r: Self)
        ensures
            r.buf@ == self.buf@ + with_pretty(self.pretty, loop_end_text(id as int)),
            r.cfg() == self.cfg(),
            r.io_count == self.io_count,
    {
        let ghost orig = self.buf@;
        let mut a = self;
        a.sep();
        a.buf.append("cmp byte [rsi], 0\njne loop_start_");
        push_dec(&mut a.buf, id as u64);
        a.buf.append("\nloop_end_");
        push_dec(&mut a.buf, id as u64);
        a.buf.append(":\n");
        proof {
            assert(a.buf@ =~= orig + with_pretty(a.pretty, loop_end_text(id as int)));
        }
        a
    }

    pub fn footer(self) -> (r: Self)
        ensures
            r.buf@ == self.buf@ + footer_text(self.target),
            r.cfg() == self.cfg(),
            r.io_count == self.io_count,
    {
        let ghost orig = self.buf@;
        let mut a = self;
        match a.target {
            Target::Unix => {
                a.buf.append("mov rax, sys_exit\nmov rdi, 0\nsyscall\n");
            },
            Target::Win64 => {
                a.buf.append("mov rcx, 0\ncall ExitProcess\n");
            },
        }
        proof {
            assert(a.buf@ =~= orig + footer_text(a.target));
        }
        a
    }

    /// Return the accumulated assembly text.
    pub fn build(self) -> (r: String)
        ensures
            r@ == self.buf@,
    {
        self.buf
    }
}

} // verus!
