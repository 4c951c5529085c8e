//! Source formatter: rewrites raw source into a canonical layout.
//! Runs of one command character stay on one line; `[` opens an
//! indented block closed by `]` at the original indentation; digits
//! stay attached to the preceding command; everything else is dropped.
//!
//! The layout is advisory; the contract-bound part is that formatting
//! keeps exactly the command characters and digits, in order.

use vstd::prelude::*;

use vstd::string::StrSliceExecFns;

use crate::decimal::{is_digit, push_char};
use crate::lexer::is_digit_char;

verus! {

/// The eight command characters of the language.
pub open spec fn is_command(c: char) -> bool {
    c == '>' || c == '<' || c == '+' || c == '-' || c == '.' || c == ',' || c == '[' || c == ']'
}

/// Characters the formatter keeps: commands and digits.
pub open spec fn is_retained(c: char) -> bool {
    is_command(c) || is_digit(c)
}

/// Executable test for the eight command characters.
pub fn is_command_char(c: char) -> (r: bool)
    ensures
        r == is_command(c),
{
    c == '>' || c == '<' || c == '+' || c == '-' || c == '.' || c == ',' || c == '[' || c == ']'
}

/// Formatter state carried from character to character.
pub struct FmtState {
    pub tabs: int,
    pub last: Option<char>,
    pub first_bracket: bool,
    pub need_tab: bool,
}

/// The state before any character is seen.
pub open spec fn fmt_init() -> FmtState {
    FmtState { tabs: 0, last: None, first_bracket: true, need_tab: false }
}

/// Tab characters for the current indentation (none when it is not
/// positive).
pub open spec fn tabs_text(n: int) -> Seq<char>
    decreases n,
{
    if n <= 0 {
        Seq::empty()
    } else {
        tabs_text(n - 1) + seq!['\t']
    }
}

/// One formatter step: the state after the character `c` and the text
/// it appends.
pub open spec fn fmt_step(st: FmtState, c: char) -> (FmtState, Seq<char>) {
    if c == '\n' || c == '\r' || !is_retained(c) {
        (st, Seq::empty())
    } else if is_command(c) {
        let nl = match st.last {
            Some(l) => l != c,
            None => false,
        };
        let pre: Seq<char> = if nl {
            seq!['\n']
        } else {
            Seq::empty()
        };
        let nt = if nl {
            true
        } else {
            st.need_tab
        };
        if c == '[' {
            if st.first_bracket {
                (
                    FmtState {
                        tabs: st.tabs + 1,
                        last: Some(c),
                        first_bracket: false,
                        need_tab: true,
                    },
                    pre + seq!['[', '\n'],
                )
            } else {
                let ind: Seq<char> = if nt {
                    tabs_text(st.tabs)
                } else {
                    Seq::empty()
                };
                (
                    FmtState {
                        tabs: st.tabs + 1,
                        last: Some(c),
                        first_bracket: st.first_bracket,
                        need_tab: true,
                    },
                    pre + ind + seq!['[', '\n'],
                )
            }
        } else if c == ']' {
            (
                FmtState {
                    tabs: st.tabs - 1,
                    last: Some(c),
                    first_bracket: st.first_bracket,
                    need_tab: false,
                },
                pre + seq!['\n'] + tabs_text(st.tabs - 1) + seq![']'],
            )
        } else {
            let ind: Seq<char> = if nt {
                tabs_text(st.tabs)
            } else {
                Seq::empty()
            };
            (
                FmtState {
                    tabs: st.tabs,
                    last: Some(c),
                    first_bracket: st.first_bracket,
                    need_tab: false,
                },
                pre + ind + seq![c],
            )
        }
    } else {
        (st, seq![c])
    }
}

/// The formatter state after the whole of `s`.
pub open spec fn fmt_state(s: Seq<char>) -> FmtState
    decreases s.len(),
{
    if s.len() == 0 {
        fmt_init()
    } else {
        fmt_step(fmt_state(s.drop_last()), s.last()).0
    }
}

/// The formatted text of `s`: the mathematical model of `format_code`.
pub open spec fn fmt_text(s: Seq<char>) -> Seq<char>
    decreases s.len(),
{
    if s.len() == 0 {
        Seq::empty()
    } else {
        fmt_text(s.drop_last()) + fmt_step(fmt_state(s.drop_last()), s.last()).1
    }
}

/// Append the indentation for the current depth.
fn push_tabs(out: &mut String, tabs: i128)
    ensures
        final(out)@ == old(out)@ + tabs_text(tabs as int),
{
    let mut j: i128 = 0;
    if tabs <= 0 {
        proof {
            assert(out@ =~= old(out)@ + tabs_text(tabs as int));
        }
        return ;
    }
    while j < tabs
        invariant
            0 <= j <= tabs,
            out@ == old(out)@ + tabs_text(j as int),
        decreases tabs - j,
    {
        push_char(out, '\t');
        j = j + 1;
        proof {
            assert(tabs_text(j as int) == tabs_text(j - 1) + seq!['\t']);
            assert(out@ =~= old(out)@ + tabs_text(j as int));
        }
    }
}

/// Rewrite raw source into the canonical layout `fmt_text` describes.
pub fn format_code(source: &str) -> (r: String)
    ensures
        r@ == fmt_text(source@),
{
    let ghost s = source@;
    let n: usize = source.unicode_len();
    let mut out = String::new();
    let mut tabs: i128 = 0;
    let mut last: Option<char> = None;
    let mut first_bracket: bool = true;
    let mut need_tab: bool = false;
    let mut i: usize = 0;
    while i < n
        invariant
            s == source@,
            n == s.len(),
            i <= n,
            -(i as int) <= tabs as int <= i as int,
            out@ == fmt_text(s.take(i as int)),
            fmt_state(s.take(i as int)) == (FmtState {
                tabs: tabs as int,
                last: last,
                first_bracket: first_bracket,
                need_tab: need_tab,
            }),
        decreases n - i,
    {
        let c = source.get_char(i);
        let ghost st = fmt_state(s.take(i as int));
        proof {
            assert(s.take(i as int + 1).drop_last() =~= s.take(i as int));
            assert(s.take(i as int + 1).last() == s[i as int]);
        }
        if c == '\n' || c == '\r' || !(is_command_char(c) || is_digit_char(c)) {
            proof {
                assert(out@ =~= fmt_text(s.take(i as int + 1)));
            }
        } else if is_command_char(c) {
            let nl = match last {
                Some(l) => l != c,
                None => false,
            };
            if nl {
                push_char(&mut out, '\n');
                need_tab = true;
            }
            if c == '[' {
                if first_bracket {
                    push_char(&mut out, '[');
                    push_char(&mut out, '\n');
                    tabs = tabs + 1;
                    first_bracket = false;
                    need_tab = true;
                } else {
                    if need_tab {
                        push_tabs(&mut out, tabs);
                    }
                    push_char(&mut out, '[');
                    push_char(&mut out, '\n');
                    tabs = tabs + 1;
                    need_tab = true;
                }
            } else if c == ']' {
                tabs = tabs - 1;
                push_char(&mut out, '\n');
                push_tabs(&mut out, tabs);
                push_char(&mut out, ']');
                need_tab = false;
            } else {
                if need_tab {
                    push_tabs(&mut out, tabs);
                    need_tab = false;
                }
                push_char(&mut out, c);
            }
            last = Some(c);
            proof {
                assert(out@ =~= fmt_text(s.take(i as int)) + fmt_step(st, c).1);
                assert(out@ =~= fmt_text(s.take(i as int + 1)));
            }
        } else {
            push_char(&mut out, c);
            proof {
                assert(out@ =~= fmt_text(s.take(i as int)) + fmt_step(st, c).1);
                assert(out@ =~= fmt_text(s.take(i as int + 1)));
            }
        }
        i = i + 1;
    }
    proof {
        assert(s.take(n as int) =~= s);
    }
    out
}

/// The predicate of the retained-character filter.
pub open spec fn retained_pred() -> spec_fn(char) -> bool {
    |c: char| is_retained(c)
}

/// The command characters and digits of `s`, in order.
pub open spec fn retained(s: Seq<char>) -> Seq<char> {
    s.filter(retained_pred())
}

proof fn lemma_filter_empty()
    ensures
        retained(Seq::<char>::empty()) == Seq::<char>::empty(),
{
    reveal(Seq::filter);
}

proof fn lemma_filter_singleton(c: char)
    ensures
        retained(seq![c]) == if is_retained(c) {
            seq![c]
        } else {
            Seq::<char>::empty()
        },
{
    lemma_filter_empty();
    assert(seq![c].drop_last() =~= Seq::<char>::empty());
    assert(seq![c].last() == c);
    assert(retained_pred()(c) == is_retained(c));
    reveal(Seq::filter);
    if is_retained(c) {
        assert(Seq::<char>::empty().push(c) =~= seq![c]);
        assert(retained(seq![c]) == seq![c]);
    } else {
        assert(retained(seq![c]) == Seq::<char>::empty());
    }
}

proof fn lemma_retained_concat(a: Seq<char>, b: Seq<char>)
    ensures
        retained(a + b) == retained(a) + retained(b),
{
    Seq::filter_distributes_over_add(a, b, retained_pred());
}

proof fn lemma_tabs_not_retained(n: int)
    ensures
        retained(tabs_text(n)) == Seq::<char>::empty(),
    decreases n,
{
    if n <= 0 {
        lemma_filter_empty();
    } else {
        lemma_tabs_not_retained(n - 1);
        lemma_retained_concat(tabs_text(n - 1), seq!['\t']);
        lemma_filter_singleton('\t');
        assert(!is_retained('\t'));
        assert(retained(tabs_text(n)) =~= Seq::<char>::empty());
    }
}

/// What one step appends keeps exactly the character itself, when it
/// is retained at all.
proof fn lemma_step_retained(st: FmtState, c: char)
    ensures
        retained(fmt_step(st, c).1) == if is_retained(c) && c != '\n' && c != '\r' {
            seq![c]
        } else {
            Seq::<char>::empty()
        },
{
    lemma_filter_empty();
    lemma_filter_singleton(c);
    lemma_filter_singleton('\n');
    lemma_filter_singleton('[');
    lemma_filter_singleton(']');
    assert(!is_retained('\n'));
    assert(is_retained('['));
    assert(is_retained(']'));
    let txt = fmt_step(st, c).1;
    if c == '\n' || c == '\r' || !is_retained(c) {
    } else if is_command(c) {
        let nl = match st.last {
            Some(l) => l != c,
            None => false,
        };
        let pre: Seq<char> = if nl {
            seq!['\n']
        } else {
            Seq::empty()
        };
        let nt = if nl {
            true
        } else {
            st.need_tab
        };
        assert(retained(pre) == Seq::<char>::empty());
        if c == '[' {
            let two = seq!['[', '\n'];
            assert(two =~= seq!['['] + seq!['\n']);
            lemma_retained_concat(seq!['['], seq!['\n']);
            assert(retained(two) =~= seq!['[']);
            if st.first_bracket {
                lemma_retained_concat(pre, two);
                assert(retained(txt) =~= seq![c]);
            } else {
                let ind: Seq<char> = if nt {
                    tabs_text(st.tabs)
                } else {
                    Seq::empty()
                };
                lemma_tabs_not_retained(st.tabs);
                assert(retained(ind) == Seq::<char>::empty());
                lemma_retained_concat(pre, ind);
                lemma_retained_concat(pre + ind, two);
                assert(retained(txt) =~= seq![c]);
            }
        } else if c == ']' {
            lemma_tabs_not_retained(st.tabs - 1);
            lemma_retained_concat(pre, seq!['\n']);
            lemma_retained_concat(pre + seq!['\n'], tabs_text(st.tabs - 1));
            lemma_retained_concat((pre + seq!['\n']) + tabs_text(st.tabs - 1), seq![']']);
            assert(retained(txt) =~= seq![c]);
        } else {
            let ind: Seq<char> = if nt {
                tabs_text(st.tabs)
            } else {
                Seq::empty()
            };
            lemma_tabs_not_retained(st.tabs);
            assert(retained(ind) == Seq::<char>::empty());
            lemma_retained_concat(pre, ind);
            lemma_retained_concat(pre + ind, seq![c]);
            assert(retained(txt) =~= seq![c]);
        }
    } else {
    }
}

/// LAW: formatting keeps exactly the command characters and digits of
/// the source, in order.
pub proof fn lemma_format_retains(s: Seq<char>)
    ensures
        retained(fmt_text(s)) == retained(s),
    decreases s.len(),
{
    if s.len() == 0 {
        lemma_filter_empty();
        assert(s =~= Seq::<char>::empty());
        assert(fmt_text(s) =~= Seq::<char>::empty());
    } else {
        let pre = s.drop_last();
        let c = s.last();
        lemma_format_retains(pre);
        lemma_step_retained(fmt_state(pre), c);
        lemma_retained_concat(fmt_text(pre), fmt_step(fmt_state(pre), c).1);
        lemma_retained_concat(pre, seq![c]);
        lemma_filter_singleton(c);
        assert(s =~= pre + seq![c]);
        assert(!is_retained('\n') && !is_retained('\r'));
        if is_retained(c) {
            assert(retained(fmt_text(s)) =~= retained(pre) + seq![c]);
            assert(retained(s) =~= retained(pre) + seq![c]);
        } else {
            assert(retained(fmt_text(s)) =~= retained(pre));
            assert(retained(s) =~= retained(pre));
        }
    }
}

/// LAW: re-formatting already-formatted source is a no-op on the
/// retained command characters and digits, in order.
pub proof fn lemma_format_idempotent_retained(s: Seq<char>)
    ensures
        retained(fmt_text(fmt_text(s))) == retained(fmt_text(s)),
{
    lemma_format_retains(fmt_text(s));
}

} // verus!
