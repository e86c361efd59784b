//! The shape of emitted Brainfuck: the alphabet, bracket nesting, and
//! balance.  The code generator's output is proved balanced with these
//! definitions.

use vstd::prelude::*;

verus! {

/// A character the generator may emit (`,` is never emitted).
pub open spec fn is_bf_char(c: char) -> bool {
    c == '+' || c == '-' || c == '<' || c == '>' || c == '[' || c == ']' || c == '.'
}

/// Every character of `s` is a Brainfuck instruction.
pub open spec fn all_bf(s: Seq<char>) -> bool {
    forall|i: int| 0 <= i < s.len() ==> is_bf_char(#[trigger] s[i])
}

/// The contribution of one character to the bracket nesting depth.
pub open spec fn bracket_weight(c: char) -> int {
    if c == '[' {
        1
    } else if c == ']' {
        -1
    } else {
        0
    }
}

/// The net bracket nesting over the whole of `s`: opens minus closes.
pub open spec fn nesting(s: Seq<char>) -> int
    decreases s.len(),
{
    if s.len() == 0 {
        0
    } else {
        nesting(s.drop_last()) + bracket_weight(s.last())
    }
}

/// The lowest net nesting reached over the prefixes of `s` (the empty
/// prefix included, so the low point is never positive).
pub open spec fn low_point(s: Seq<char>) -> int
    decreases s.len(),
{
    if s.len() == 0 {
        0
    } else {
        let rest = low_point(s.drop_last());
        let here = nesting(s);
        if rest <= here {
            rest
        } else {
            here
        }
    }
}

/// Brackets in `s` are balanced: every prefix has at least as many `[` as
/// `]`, and the whole has equally many.
pub open spec fn balanced(s: Seq<char>) -> bool {
    nesting(s) == 0 && low_point(s) == 0
}

/// `n` copies of the character `c`.
pub open spec fn rep(c: char, n: nat) -> Seq<char> {
    Seq::new(n, |i: int| c)
}

/// Nesting and low point compose over concatenation.
pub proof fn lemma_nesting_concat(a: Seq<char>, b: Seq<char>)
    ensures
        nesting(a + b) == nesting(a) + nesting(b),
        low_point(a + b) == if low_point(a) <= nesting(a) + low_point(b) {
            low_point(a)
        } else {
            nesting(a) + low_point(b)
        },
    decreases b.len(),
{
    if b.len() == 0 {
        assert(a + b =~= a);
    } else {
        assert((a + b).drop_last() =~= a + b.drop_last());
        lemma_nesting_concat(a, b.drop_last());
    }
}

/// Balanced fragments concatenate to a balanced fragment.
pub proof fn lemma_balanced_concat(a: Seq<char>, b: Seq<char>)
    requires
        balanced(a),
        balanced(b),
    ensures
        balanced(a + b),
{
    lemma_nesting_concat(a, b);
}

/// A balanced fragment wrapped in one bracket pair stays balanced.
pub proof fn lemma_balanced_wrap(s: Seq<char>)
    requires
        balanced(s),
    ensures
        balanced(seq!['['] + s + seq![']']),
{
    let open_b = seq!['['];
    let close_b = seq![']'];
    lemma_nesting_single('[');
    lemma_nesting_single(']');
    lemma_nesting_concat(open_b, s);
    lemma_nesting_concat(open_b + s, close_b);
}

/// The nesting and low point of a single character.
pub proof fn lemma_nesting_single(c: char)
    ensures
        nesting(seq![c]) == bracket_weight(c),
        low_point(seq![c]) == (if bracket_weight(c) <= 0 {
            bracket_weight(c)
        } else {
            0
        }),
{
    let s = seq![c];
    assert(s.drop_last() =~= Seq::<char>::empty());
    assert(nesting(Seq::<char>::empty()) == 0);
    assert(low_point(Seq::<char>::empty()) == 0);
    assert(s.last() == c);
}

/// A run of one non-bracket instruction is balanced, and a run of any
/// Brainfuck instruction stays within the alphabet.
pub proof fn lemma_rep_balanced(c: char, n: nat)
    requires
        c != '[',
        c != ']',
    ensures
        balanced(rep(c, n)),
        is_bf_char(c) ==> all_bf(rep(c, n)),
    decreases n,
{
    if n == 0 {
        assert(rep(c, 0) =~= Seq::<char>::empty());
    } else {
        assert(rep(c, n).drop_last() =~= rep(c, (n - 1) as nat));
        lemma_rep_balanced(c, (n - 1) as nat);
        assert(rep(c, n).last() == c);
    }
}

/// Fragments over the alphabet concatenate within the alphabet.
pub proof fn lemma_all_bf_concat(a: Seq<char>, b: Seq<char>)
    requires
        all_bf(a),
        all_bf(b),
    ensures
        all_bf(a + b),
{
    assert forall|i: int| 0 <= i < (a + b).len() implies is_bf_char(#[trigger] (a + b)[i]) by {
        if i < a.len() {
            assert(is_bf_char(a[i]));
        } else {
            assert(is_bf_char(b[i - a.len()]));
        }
    }
}

// ----------------------------------------------------------------------
// A semantics for the emitted Brainfuck, over its bracket structure.
//
// `Code` is an instruction stream with its loops nested; `flatten` spells
// it out as text, and the brackets written around each `Loop` make
// flattening unambiguous.  `run` executes it on a canonical machine:
// 8-bit wrapping cells on a tape unbounded to the right, `.` collecting
// output bytes, and a fuel bound on loop repetitions.
// ----------------------------------------------------------------------

/// Structured Brainfuck code: the end, one instruction followed by the
/// rest, or a bracketed loop followed by the rest.
pub enum Code {
    Done,
    Op(char, Box<Code>),
    Loop(Box<Code>, Box<Code>),
}

/// The text of a structured program.
pub open spec fn flatten(c: Code) -> Seq<char>
    decreases c,
{
    match c {
        Code::Done => Seq::empty(),
        Code::Op(ch, k) => seq![ch] + flatten(*k),
        Code::Loop(b, k) => seq!['['] + flatten(*b) + seq![']'] + flatten(*k),
    }
}

/// A machine state: the tape (absent cells read zero), the head, and the
/// output bytes written so far.
#[verifier::ext_equal]
pub ghost struct BfState {
    pub tape: Map<nat, u8>,
    pub head: nat,
    pub out: Seq<u8>,
}

/// The value of cell `i`; cells never written read zero.
pub open spec fn read_cell(st: BfState, i: nat) -> u8 {
    if st.tape.dom().contains(i) {
        st.tape[i]
    } else {
        0
    }
}

/// The state with cell `i` set to `v`.
pub open spec fn write_cell(st: BfState, i: nat, v: u8) -> BfState {
    BfState { tape: st.tape.insert(i, v), ..st }
}

/// Executes structured code.  `fuel` bounds how often any loop may
/// repeat; `None` when fuel runs out, the head would move left of cell
/// zero, or a character is not an emitted instruction.
pub open spec fn run(c: Code, st: BfState, fuel: nat) -> Option<BfState>
    decreases fuel, c,
{
    match c {
        Code::Done => Some(st),
        Code::Op(ch, k) => {
            if ch == '+' {
                let v = ((read_cell(st, st.head) as nat + 1) % 256) as u8;
                run(*k, write_cell(st, st.head, v), fuel)
            } else if ch == '-' {
                let v = ((read_cell(st, st.head) as nat + 255) % 256) as u8;
                run(*k, write_cell(st, st.head, v), fuel)
            } else if ch == '>' {
                run(*k, BfState { head: st.head + 1, ..st }, fuel)
            } else if ch == '<' {
                if st.head == 0 {
                    None
                } else {
                    run(*k, BfState { head: (st.head - 1) as nat, ..st }, fuel)
                }
            } else if ch == '.' {
                run(*k, BfState { out: st.out.push(read_cell(st, st.head)), ..st }, fuel)
            } else {
                None
            }
        },
        Code::Loop(b, k) => {
            if read_cell(st, st.head) == 0 {
                run(*k, st, fuel)
            } else if fuel == 0 {
                None
            } else {
                match run(*b, st, fuel) {
                    None => None,
                    Some(st1) => run(Code::Loop(b, k), st1, (fuel - 1) as nat),
                }
            }
        },
    }
}

/// Concatenation of structured programs.
pub open spec fn seq_code(a: Code, b: Code) -> Code
    decreases a,
{
    match a {
        Code::Done => b,
        Code::Op(ch, k) => Code::Op(ch, Box::new(seq_code(*k, b))),
        Code::Loop(bd, k) => Code::Loop(bd, Box::new(seq_code(*k, b))),
    }
}

/// Flattening turns concatenation into text concatenation.
pub proof fn lemma_flatten_seq(a: Code, b: Code)
    ensures
        flatten(seq_code(a, b)) == flatten(a) + flatten(b),
    decreases a,
{
    match a {
        Code::Done => {
            assert(Seq::<char>::empty() + flatten(b) =~= flatten(b));
        },
        Code::Op(ch, k) => {
            lemma_flatten_seq(*k, b);
            assert(seq![ch] + (flatten(*k) + flatten(b)) =~= (seq![ch] + flatten(*k)) + flatten(
                b,
            ));
        },
        Code::Loop(bd, k) => {
            lemma_flatten_seq(*k, b);
            assert(seq!['['] + flatten(*bd) + seq![']'] + (flatten(*k) + flatten(b)) =~= (seq![
                '[',
            ] + flatten(*bd) + seq![']'] + flatten(*k)) + flatten(b));
        },
    }
}

/// More fuel never changes a result that exists.
pub proof fn lemma_run_mono(c: Code, st: BfState, f1: nat, f2: nat)
    requires
        run(c, st, f1) is Some,
        f1 <= f2,
    ensures
        run(c, st, f2) == run(c, st, f1),
    decreases f1, c,
{
    match c {
        Code::Done => {},
        Code::Op(ch, k) => {
            if ch == '+' {
                let v = ((read_cell(st, st.head) as nat + 1) % 256) as u8;
                lemma_run_mono(*k, write_cell(st, st.head, v), f1, f2);
            } else if ch == '-' {
                let v = ((read_cell(st, st.head) as nat + 255) % 256) as u8;
                lemma_run_mono(*k, write_cell(st, st.head, v), f1, f2);
            } else if ch == '>' {
                lemma_run_mono(*k, BfState { head: st.head + 1, ..st }, f1, f2);
            } else if ch == '<' {
                lemma_run_mono(*k, BfState { head: (st.head - 1) as nat, ..st }, f1, f2);
            } else if ch == '.' {
                lemma_run_mono(*k, BfState { out: st.out.push(read_cell(st, st.head)), ..st }, f1, f2);
            }
        },
        Code::Loop(b, k) => {
            if read_cell(st, st.head) == 0 {
                lemma_run_mono(*k, st, f1, f2);
            } else {
                let st1 = run(*b, st, f1)->Some_0;
                lemma_run_mono(*b, st, f1, f2);
                lemma_run_mono(Code::Loop(b, k), st1, (f1 - 1) as nat, (f2 - 1) as nat);
            }
        },
    }
}

/// Running a concatenation runs the parts in order; the fuels add.
pub proof fn lemma_run_seq(a: Code, b: Code, st: BfState, fa: nat, fb: nat)
    requires
        run(a, st, fa) is Some,
        run(b, run(a, st, fa)->Some_0, fb) is Some,
    ensures
        run(seq_code(a, b), st, fa + fb) == run(b, run(a, st, fa)->Some_0, fb),
    decreases fa, a,
{
    match a {
        Code::Done => {
            lemma_run_mono(b, st, fb, fa + fb);
        },
        Code::Op(ch, k) => {
            if ch == '+' {
                let v = ((read_cell(st, st.head) as nat + 1) % 256) as u8;
                lemma_run_seq(*k, b, write_cell(st, st.head, v), fa, fb);
            } else if ch == '-' {
                let v = ((read_cell(st, st.head) as nat + 255) % 256) as u8;
                lemma_run_seq(*k, b, write_cell(st, st.head, v), fa, fb);
            } else if ch == '>' {
                lemma_run_seq(*k, b, BfState { head: st.head + 1, ..st }, fa, fb);
            } else if ch == '<' {
                lemma_run_seq(*k, b, BfState { head: (st.head - 1) as nat, ..st }, fa, fb);
            } else if ch == '.' {
                lemma_run_seq(*k, b, BfState { out: st.out.push(read_cell(st, st.head)), ..st }, fa, fb);
            }
        },
        Code::Loop(bd, k) => {
            if read_cell(st, st.head) == 0 {
                lemma_run_seq(*k, b, st, fa, fb);
            } else {
                let st1 = run(*bd, st, fa)->Some_0;
                lemma_run_mono(*bd, st, fa, fa + fb);
                lemma_run_seq(Code::Loop(bd, k), b, st1, (fa - 1) as nat, fb);
            }
        },
    }
}

/// A run of `n` copies of one instruction, as structured code.
pub open spec fn op_run(c: char, n: nat) -> Code
    decreases n,
{
    if n == 0 {
        Code::Done
    } else {
        Code::Op(c, Box::new(op_run(c, (n - 1) as nat)))
    }
}

/// The text of an instruction run.
pub proof fn lemma_flatten_op_run(c: char, n: nat)
    ensures
        flatten(op_run(c, n)) == rep(c, n),
    decreases n,
{
    if n == 0 {
        assert(rep(c, 0) =~= Seq::<char>::empty());
    } else {
        lemma_flatten_op_run(c, (n - 1) as nat);
        assert(seq![c] + rep(c, (n - 1) as nat) =~= rep(c, n));
    }
}

/// A run of `+` adds `n` to the cell under the head, modulo 256.
pub proof fn lemma_run_plus(n: nat, st: BfState, f: nat)
    ensures
        run(op_run('+', n), st, f) matches Some(st1) && st1.head == st.head && st1.out == st.out
            && forall|i: nat|
            read_cell(st1, i) == if i == st.head {
                ((read_cell(st, st.head) as nat + n) % 256) as u8
            } else {
                read_cell(st, i)
            },
    decreases n,
{
    if n == 0 {
        assert(read_cell(st, st.head) as nat % 256 == read_cell(st, st.head) as nat);
    } else {
        let v = ((read_cell(st, st.head) as nat + 1) % 256) as u8;
        let st_mid = write_cell(st, st.head, v);
        lemma_run_plus((n - 1) as nat, st_mid, f);
        lemma_mod_add_left(read_cell(st, st.head) as int + 1, (n - 1) as int);
    }
}

/// A run of `>` moves the head `n` cells right and touches nothing else.
pub proof fn lemma_run_right(n: nat, st: BfState, f: nat)
    ensures
        run(op_run('>', n), st, f) matches Some(st1) && st1.head == st.head + n && st1.out
            == st.out && st1.tape == st.tape,
    decreases n,
{
    if n > 0 {
        lemma_run_right((n - 1) as nat, BfState { head: st.head + 1, ..st }, f);
    }
}

/// A run of `<` moves the head `n` cells left and touches nothing else.
pub proof fn lemma_run_left(n: nat, st: BfState, f: nat)
    requires
        st.head >= n,
    ensures
        run(op_run('<', n), st, f) matches Some(st1) && st1.head == st.head - n && st1.out
            == st.out && st1.tape == st.tape,
    decreases n,
{
    if n > 0 {
        lemma_run_left((n - 1) as nat, BfState { head: (st.head - 1) as nat, ..st }, f);
    }
}

/// The head movement from `from` to `to`, as structured code.
pub open spec fn moves_struct(from: nat, to: nat) -> Code {
    if to >= from {
        op_run('>', (to - from) as nat)
    } else {
        op_run('<', (from - to) as nat)
    }
}

/// A movement brings the head to its target and touches nothing else.
pub proof fn lemma_run_moves(from: nat, to: nat, st: BfState, f: nat)
    requires
        st.head == from,
    ensures
        run(moves_struct(from, to), st, f) matches Some(st1) && st1.head == to && st1.out == st.out
            && st1.tape == st.tape,
{
    if to >= from {
        lemma_run_right((to - from) as nat, st, f);
    } else {
        lemma_run_left((from - to) as nat, st, f);
    }
}

/// The clear loop `[-]`, as structured code.
pub open spec fn clear_struct() -> Code {
    Code::Loop(Box::new(Code::Op('-', Box::new(Code::Done))), Box::new(Code::Done))
}

/// `[-]` zeroes the cell under the head; its fuel is the cell's value.
pub proof fn lemma_run_clear(st: BfState, f: nat)
    requires
        f >= read_cell(st, st.head),
    ensures
        run(clear_struct(), st, f) matches Some(st1) && st1.head == st.head && st1.out == st.out
            && forall|i: nat|
            read_cell(st1, i) == if i == st.head {
                0u8
            } else {
                read_cell(st, i)
            },
    decreases read_cell(st, st.head),
{
    let c = read_cell(st, st.head);
    if c != 0 {
        let v = ((c as nat + 255) % 256) as u8;
        assert(v == (c - 1) as u8);
        let st_mid = write_cell(st, st.head, v);
        assert(run(Code::Done, st_mid, f) == Some(st_mid));
        assert(run(Code::Op('-', Box::new(Code::Done)), st, f) == Some(st_mid));
        lemma_run_clear(st_mid, (f - 1) as nat);
        assert(run(clear_struct(), st, f) == run(clear_struct(), st_mid, (f - 1) as nat));
        let st1 = run(clear_struct(), st_mid, (f - 1) as nat)->Some_0;
        assert forall|i: nat|
            read_cell(st1, i) == (if i == st.head {
                0u8
            } else {
                read_cell(st, i)
            }) by {
            assert(read_cell(st1, i) == if i == st_mid.head {
                0u8
            } else {
                read_cell(st_mid, i)
            });
        }
    } else {
        assert(run(Code::Done, st, f) == Some(st));
        assert(run(clear_struct(), st, f) == Some(st));
        assert forall|i: nat|
            read_cell(st, i) == (if i == st.head {
                0u8
            } else {
                read_cell(st, i)
            }) by {
            assert(read_cell(st, st.head) == 0);
        }
    }
}

/// Adding to a reduced value and reducing again is one reduction.
proof fn lemma_mod_add_left(x: int, y: int)
    requires
        x >= 0,
        y >= 0,
    ensures
        ((x % 256) + y) % 256 == (x + y) % 256,
{
    vstd::arithmetic::div_mod::lemma_add_mod_noop(x, y, 256);
    vstd::arithmetic::div_mod::lemma_add_mod_noop(x % 256, y, 256);
    vstd::arithmetic::div_mod::lemma_small_mod((x % 256) as nat, 256);
}

/// A run of `-` adds `255 * n` to the cell under the head, modulo 256:
/// each step subtracts one with wraparound.
pub proof fn lemma_run_minus(n: nat, st: BfState, f: nat)
    ensures
        run(op_run('-', n), st, f) matches Some(st1) && st1.head == st.head && st1.out == st.out
            && forall|i: nat|
            read_cell(st1, i) == if i == st.head {
                ((read_cell(st, st.head) as nat + 255 * n) % 256) as u8
            } else {
                read_cell(st, i)
            },
    decreases n,
{
    if n == 0 {
        assert(read_cell(st, st.head) as nat % 256 == read_cell(st, st.head) as nat);
        assert(255 * 0 == 0);
    } else {
        let v = ((read_cell(st, st.head) as nat + 255) % 256) as u8;
        let st_mid = write_cell(st, st.head, v);
        lemma_run_minus((n - 1) as nat, st_mid, f);
        assert(255 * n == 255 + 255 * (n - 1));
        lemma_mod_add_left(read_cell(st, st.head) as int + 255, 255 * ((n - 1) as int));
    }
}

/// The body of the multiply loop: step to `dst`, add `q`, step back,
/// decrement the counter.
pub open spec fn mul_body(src: nat, dst: nat, q: nat) -> Code {
    seq_code(
        moves_struct(src, dst),
        seq_code(op_run('+', q), seq_code(moves_struct(dst, src), op_run('-', 1))),
    )
}

/// The multiply loop of the square decomposition: with a counter `c` at
/// `src`, it adds `q * c` into `dst` and leaves the counter at zero.
pub open spec fn mul_loop(src: nat, dst: nat, q: nat) -> Code {
    Code::Loop(Box::new(mul_body(src, dst, q)), Box::new(Code::Done))
}

/// One pass of the multiply-loop body.
proof fn lemma_run_mul_body(src: nat, dst: nat, q: nat, st: BfState, f: nat)
    requires
        st.head == src,
        src != dst,
    ensures
        run(mul_body(src, dst, q), st, f) matches Some(std) && std.head == src && std.out == st.out
            && forall|i: nat|
            read_cell(std, i) == if i == src {
                ((read_cell(st, src) as nat + 255) % 256) as u8
            } else if i == dst {
                ((read_cell(st, dst) as nat + q) % 256) as u8
            } else {
                read_cell(st, i)
            },
{
    lemma_run_moves(src, dst, st, 0);
    let st_a = run(moves_struct(src, dst), st, 0)->Some_0;
    lemma_run_plus(q, st_a, 0);
    let st_b = run(op_run('+', q), st_a, 0)->Some_0;
    lemma_run_moves(dst, src, st_b, 0);
    let st_c = run(moves_struct(dst, src), st_b, 0)->Some_0;
    lemma_run_minus(1, st_c, f);
    let st_d = run(op_run('-', 1), st_c, f)->Some_0;
    lemma_run_seq(moves_struct(dst, src), op_run('-', 1), st_b, 0, f);
    lemma_run_seq(op_run('+', q), seq_code(moves_struct(dst, src), op_run('-', 1)), st_a, 0, f);
    lemma_run_seq(
        moves_struct(src, dst),
        seq_code(op_run('+', q), seq_code(moves_struct(dst, src), op_run('-', 1))),
        st,
        0,
        f,
    );
    assert(255 * 1nat == 255);
    let std = run(mul_body(src, dst, q), st, f)->Some_0;
    assert forall|i: nat|
        read_cell(std, i) == (if i == src {
            ((read_cell(st, src) as nat + 255) % 256) as u8
        } else if i == dst {
            ((read_cell(st, dst) as nat + q) % 256) as u8
        } else {
            read_cell(st, i)
        }) by {
        assert(read_cell(st_a, i) == read_cell(st, i));
        assert(read_cell(st_c, i) == read_cell(st_b, i));
        let x1 = read_cell(st_b, i);
        let x2 = read_cell(st_d, i);
    }
}

/// The multiply loop adds `q` times the counter into `dst`, modulo 256,
/// zeroing the counter; its fuel is the counter's value.
pub proof fn lemma_run_mul_loop(src: nat, dst: nat, q: nat, st: BfState, f: nat)
    requires
        st.head == src,
        src != dst,
        f >= read_cell(st, src),
    ensures
        run(mul_loop(src, dst, q), st, f) matches Some(st1) && st1.head == src && st1.out == st.out
            && forall|i: nat|
            read_cell(st1, i) == if i == src {
                0u8
            } else if i == dst {
                ((read_cell(st, dst) as nat + q * read_cell(st, src)) % 256) as u8
            } else {
                read_cell(st, i)
            },
    decreases read_cell(st, src),
{
    let c = read_cell(st, src);
    if c == 0 {
        assert(run(Code::Done, st, f) == Some(st));
        assert(run(mul_loop(src, dst, q), st, f) == Some(st));
        assert(q * 0 == 0) by (nonlinear_arith);
        assert(read_cell(st, dst) as nat % 256 == read_cell(st, dst) as nat);
    } else {
        lemma_run_mul_body(src, dst, q, st, f);
        let std = run(mul_body(src, dst, q), st, f)->Some_0;
        assert(read_cell(std, src) == (c - 1) as u8);
        lemma_run_mul_loop(src, dst, q, std, (f - 1) as nat);
        assert(run(mul_loop(src, dst, q), st, f) == run(mul_loop(src, dst, q), std, (f - 1) as nat));
        let st1 = run(mul_loop(src, dst, q), std, (f - 1) as nat)->Some_0;
        assert(q * c == q + q * ((c - 1) as nat)) by (nonlinear_arith)
            requires
                c >= 1,
        ;
        assert(q * ((c - 1) as int) >= 0) by (nonlinear_arith)
            requires
                c >= 1,
        ;
        lemma_mod_add_left(read_cell(st, dst) as int + q, q * ((c - 1) as int));
        assert forall|i: nat|
            read_cell(st1, i) == (if i == src {
                0u8
            } else if i == dst {
                ((read_cell(st, dst) as nat + q * read_cell(st, src)) % 256) as u8
            } else {
                read_cell(st, i)
            }) by {
            assert(read_cell(st1, i) == if i == src {
                0u8
            } else if i == dst {
                ((read_cell(std, dst) as nat + q * read_cell(std, src)) % 256) as u8
            } else {
                read_cell(std, i)
            });
        }
    }
}

/// The body of a drain loop: decrement here, step to `dst`, apply the
/// sign once, step back.
pub open spec fn drain_body(src: nat, dst: nat, sign: char) -> Code {
    seq_code(
        op_run('-', 1),
        seq_code(moves_struct(src, dst), seq_code(op_run(sign, 1), moves_struct(dst, src))),
    )
}

/// A drain loop: `[- … sign … ]` at `src`, adding (or subtracting) the
/// source's value into `dst`.
pub open spec fn drain_loop(src: nat, dst: nat, sign: char) -> Code {
    Code::Loop(Box::new(drain_body(src, dst, sign)), Box::new(Code::Done))
}

/// The per-step change a sign instruction makes, modulo 256.
pub open spec fn sign_delta(sign: char) -> nat {
    if sign == '+' {
        1
    } else {
        255
    }
}

/// One pass of the drain-loop body.
proof fn lemma_run_drain_body(src: nat, dst: nat, sign: char, st: BfState, f: nat)
    requires
        st.head == src,
        src != dst,
        sign == '+' || sign == '-',
    ensures
        run(drain_body(src, dst, sign), st, f) matches Some(std) && std.head == src && std.out
            == st.out && forall|i: nat|
            read_cell(std, i) == if i == src {
                ((read_cell(st, src) as nat + 255) % 256) as u8
            } else if i == dst {
                ((read_cell(st, dst) as nat + sign_delta(sign)) % 256) as u8
            } else {
                read_cell(st, i)
            },
{
    lemma_run_minus(1, st, 0);
    let st_a = run(op_run('-', 1), st, 0)->Some_0;
    lemma_run_moves(src, dst, st_a, 0);
    let st_b = run(moves_struct(src, dst), st_a, 0)->Some_0;
    if sign == '+' {
        lemma_run_plus(1, st_b, 0);
    } else {
        lemma_run_minus(1, st_b, 0);
    }
    let st_c = run(op_run(sign, 1), st_b, 0)->Some_0;
    lemma_run_moves(dst, src, st_c, f);
    lemma_run_seq(op_run(sign, 1), moves_struct(dst, src), st_b, 0, f);
    lemma_run_seq(
        moves_struct(src, dst),
        seq_code(op_run(sign, 1), moves_struct(dst, src)),
        st_a,
        0,
        f,
    );
    lemma_run_seq(
        op_run('-', 1),
        seq_code(moves_struct(src, dst), seq_code(op_run(sign, 1), moves_struct(dst, src))),
        st,
        0,
        f,
    );
    assert(255 * 1nat == 255);
    let std = run(drain_body(src, dst, sign), st, f)->Some_0;
    let st_z = run(moves_struct(dst, src), st_c, f)->Some_0;
    assert forall|i: nat|
        read_cell(std, i) == (if i == src {
            ((read_cell(st, src) as nat + 255) % 256) as u8
        } else if i == dst {
            ((read_cell(st, dst) as nat + sign_delta(sign)) % 256) as u8
        } else {
            read_cell(st, i)
        }) by {
        assert(read_cell(st_b, i) == read_cell(st_a, i));
        assert(read_cell(st_z, i) == read_cell(st_c, i));
        let x1 = read_cell(st_a, i);
        let x2 = read_cell(st_c, i);
    }
}

/// A drain loop moves the source value into `dst` (adding for `+`,
/// subtracting for `-`, both modulo 256) and zeroes the source; its fuel
/// is the source's value.
pub proof fn lemma_run_drain_loop(src: nat, dst: nat, sign: char, st: BfState, f: nat)
    requires
        st.head == src,
        src != dst,
        sign == '+' || sign == '-',
        f >= read_cell(st, src),
    ensures
        run(drain_loop(src, dst, sign), st, f) matches Some(st1) && st1.head == src && st1.out
            == st.out && forall|i: nat|
            read_cell(st1, i) == if i == src {
                0u8
            } else if i == dst {
                ((read_cell(st, dst) as nat + sign_delta(sign) * read_cell(st, src)) % 256) as u8
            } else {
                read_cell(st, i)
            },
    decreases read_cell(st, src),
{
    let c = read_cell(st, src);
    let d = sign_delta(sign);
    if c == 0 {
        assert(run(Code::Done, st, f) == Some(st));
        assert(run(drain_loop(src, dst, sign), st, f) == Some(st));
        assert(d * 0 == 0) by (nonlinear_arith);
        assert(read_cell(st, dst) as nat % 256 == read_cell(st, dst) as nat);
    } else {
        lemma_run_drain_body(src, dst, sign, st, f);
        let std = run(drain_body(src, dst, sign), st, f)->Some_0;
        assert(read_cell(std, src) == (c - 1) as u8);
        lemma_run_drain_loop(src, dst, sign, std, (f - 1) as nat);
        assert(run(drain_loop(src, dst, sign), st, f) == run(
            drain_loop(src, dst, sign),
            std,
            (f - 1) as nat,
        ));
        let st1 = run(drain_loop(src, dst, sign), std, (f - 1) as nat)->Some_0;
        assert(d * c == d + d * ((c - 1) as nat)) by (nonlinear_arith)
            requires
                c >= 1,
        ;
        assert(d * ((c - 1) as int) >= 0) by (nonlinear_arith)
            requires
                c >= 1,
        ;
        lemma_mod_add_left(read_cell(st, dst) as int + d, d * ((c - 1) as int));
        assert forall|i: nat|
            read_cell(st1, i) == (if i == src {
                0u8
            } else if i == dst {
                ((read_cell(st, dst) as nat + d * read_cell(st, src)) % 256) as u8
            } else {
                read_cell(st, i)
            }) by {
            assert(read_cell(st1, i) == if i == src {
                0u8
            } else if i == dst {
                ((read_cell(std, dst) as nat + d * read_cell(std, src)) % 256) as u8
            } else {
                read_cell(std, i)
            });
        }
    }
}

/// The body of the copy loop: decrement the source, add one to the
/// destination, add one to the temporary, return to the source.
pub open spec fn copy_body(from: nat, to: nat, temp: nat) -> Code {
    seq_code(
        op_run('-', 1),
        seq_code(
            moves_struct(from, to),
            seq_code(
                op_run('+', 1),
                seq_code(moves_struct(to, temp), seq_code(op_run('+', 1), moves_struct(temp, from))),
            ),
        ),
    )
}

/// The copy loop: drains the source into the destination and the
/// temporary at once.
pub open spec fn copy_loop(from: nat, to: nat, temp: nat) -> Code {
    Code::Loop(Box::new(copy_body(from, to, temp)), Box::new(Code::Done))
}

/// One pass of the copy-loop body.
proof fn lemma_run_copy_body(from: nat, to: nat, temp: nat, st: BfState, f: nat)
    requires
        st.head == from,
        from != to,
        from != temp,
        to != temp,
    ensures
        run(copy_body(from, to, temp), st, f) matches Some(std) && std.head == from && std.out
            == st.out && forall|i: nat|
            read_cell(std, i) == if i == from {
                ((read_cell(st, from) as nat + 255) % 256) as u8
            } else if i == to {
                ((read_cell(st, to) as nat + 1) % 256) as u8
            } else if i == temp {
                ((read_cell(st, temp) as nat + 1) % 256) as u8
            } else {
                read_cell(st, i)
            },
{
    lemma_run_minus(1, st, 0);
    let st_a = run(op_run('-', 1), st, 0)->Some_0;
    lemma_run_moves(from, to, st_a, 0);
    let st_b = run(moves_struct(from, to), st_a, 0)->Some_0;
    lemma_run_plus(1, st_b, 0);
    let st_c = run(op_run('+', 1), st_b, 0)->Some_0;
    lemma_run_moves(to, temp, st_c, 0);
    let st_d = run(moves_struct(to, temp), st_c, 0)->Some_0;
    lemma_run_plus(1, st_d, 0);
    let st_e = run(op_run('+', 1), st_d, 0)->Some_0;
    lemma_run_moves(temp, from, st_e, f);
    lemma_run_seq(op_run('+', 1), moves_struct(temp, from), st_d, 0, f);
    lemma_run_seq(
        moves_struct(to, temp),
        seq_code(op_run('+', 1), moves_struct(temp, from)),
        st_c,
        0,
        f,
    );
    lemma_run_seq(
        op_run('+', 1),
        seq_code(moves_struct(to, temp), seq_code(op_run('+', 1), moves_struct(temp, from))),
        st_b,
        0,
        f,
    );
    lemma_run_seq(
        moves_struct(from, to),
        seq_code(
            op_run('+', 1),
            seq_code(moves_struct(to, temp), seq_code(op_run('+', 1), moves_struct(temp, from))),
        ),
        st_a,
        0,
        f,
    );
    lemma_run_seq(
        op_run('-', 1),
        seq_code(
            moves_struct(from, to),
            seq_code(
                op_run('+', 1),
                seq_code(moves_struct(to, temp), seq_code(op_run('+', 1), moves_struct(temp, from))),
            ),
        ),
        st,
        0,
        f,
    );
    assert(255 * 1nat == 255);
    let std = run(copy_body(from, to, temp), st, f)->Some_0;
    let st_z = run(moves_struct(temp, from), st_e, f)->Some_0;
    assert forall|i: nat|
        read_cell(std, i) == (if i == from {
            ((read_cell(st, from) as nat + 255) % 256) as u8
        } else if i == to {
            ((read_cell(st, to) as nat + 1) % 256) as u8
        } else if i == temp {
            ((read_cell(st, temp) as nat + 1) % 256) as u8
        } else {
            read_cell(st, i)
        }) by {
        assert(read_cell(st_b, i) == read_cell(st_a, i));
        assert(read_cell(st_d, i) == read_cell(st_c, i));
        assert(read_cell(st_z, i) == read_cell(st_e, i));
        let x1 = read_cell(st_a, i);
        let x2 = read_cell(st_c, i);
        let x3 = read_cell(st_e, i);
    }
}

/// The copy loop drains the source into both targets, modulo 256, and
/// zeroes the source; its fuel is the source's value.
pub proof fn lemma_run_copy_loop(from: nat, to: nat, temp: nat, st: BfState, f: nat)
    requires
        st.head == from,
        from != to,
        from != temp,
        to != temp,
        f >= read_cell(st, from),
    ensures
        run(copy_loop(from, to, temp), st, f) matches Some(st1) && st1.head == from && st1.out
            == st.out && forall|i: nat|
            read_cell(st1, i) == if i == from {
                0u8
            } else if i == to {
                ((read_cell(st, to) as nat + read_cell(st, from) as nat) % 256) as u8
            } else if i == temp {
                ((read_cell(st, temp) as nat + read_cell(st, from) as nat) % 256) as u8
            } else {
                read_cell(st, i)
            },
    decreases read_cell(st, from),
{
    let c = read_cell(st, from);
    if c == 0 {
        assert(run(Code::Done, st, f) == Some(st));
        assert(run(copy_loop(from, to, temp), st, f) == Some(st));
        assert(read_cell(st, to) as nat % 256 == read_cell(st, to) as nat);
        assert(read_cell(st, temp) as nat % 256 == read_cell(st, temp) as nat);
    } else {
        lemma_run_copy_body(from, to, temp, st, f);
        let std = run(copy_body(from, to, temp), st, f)->Some_0;
        assert(read_cell(std, from) == (c - 1) as u8);
        lemma_run_copy_loop(from, to, temp, std, (f - 1) as nat);
        assert(run(copy_loop(from, to, temp), st, f) == run(
            copy_loop(from, to, temp),
            std,
            (f - 1) as nat,
        ));
        let st1 = run(copy_loop(from, to, temp), std, (f - 1) as nat)->Some_0;
        lemma_mod_add_left(read_cell(st, to) as int + 1, (c - 1) as int);
        lemma_mod_add_left(read_cell(st, temp) as int + 1, (c - 1) as int);
        assert forall|i: nat|
            read_cell(st1, i) == (if i == from {
                0u8
            } else if i == to {
                ((read_cell(st, to) as nat + read_cell(st, from) as nat) % 256) as u8
            } else if i == temp {
                ((read_cell(st, temp) as nat + read_cell(st, from) as nat) % 256) as u8
            } else {
                read_cell(st, i)
            }) by {
            assert(read_cell(st1, i) == if i == from {
                0u8
            } else if i == to {
                ((read_cell(std, to) as nat + read_cell(std, from) as nat) % 256) as u8
            } else if i == temp {
                ((read_cell(std, temp) as nat + read_cell(std, from) as nat) % 256) as u8
            } else {
                read_cell(std, i)
            });
        }
    }
}

/// The text of a head movement.
pub proof fn lemma_flatten_moves(a: nat, b: nat)
    ensures
        flatten(moves_struct(a, b)) == moves_code_text(a, b),
{
    if b >= a {
        lemma_flatten_op_run('>', (b - a) as nat);
    } else {
        lemma_flatten_op_run('<', (a - b) as nat);
    }
}

/// The movement fragment as text (the `>` or `<` run).
pub open spec fn moves_code_text(a: nat, b: nat) -> Seq<char> {
    if b >= a {
        rep('>', (b - a) as nat)
    } else {
        rep('<', (a - b) as nat)
    }
}

/// The text of the clear loop.
pub proof fn lemma_flatten_clear()
    ensures
        flatten(clear_struct()) == seq!['[', '-', ']'],
{
    assert(flatten(Code::Done) =~= Seq::<char>::empty());
    assert(flatten(Code::Op('-', Box::new(Code::Done))) =~= seq!['-']);
    assert(flatten(clear_struct()) =~= seq!['[', '-', ']']);
}

/// The text of the drain loop.
pub proof fn lemma_flatten_drain_loop(src: nat, dst: nat, sign: char)
    ensures
        flatten(drain_loop(src, dst, sign)) == seq!['['] + (seq!['-'] + moves_code_text(src, dst)
            + seq![sign] + moves_code_text(dst, src)) + seq![']'],
{
    lemma_flatten_moves(src, dst);
    lemma_flatten_moves(dst, src);
    lemma_flatten_op_run('-', 1);
    lemma_flatten_op_run(sign, 1);
    assert(rep('-', 1) =~= seq!['-']);
    assert(rep(sign, 1) =~= seq![sign]);
    lemma_flatten_seq(op_run(sign, 1), moves_struct(dst, src));
    lemma_flatten_seq(moves_struct(src, dst), seq_code(op_run(sign, 1), moves_struct(dst, src)));
    lemma_flatten_seq(
        op_run('-', 1),
        seq_code(moves_struct(src, dst), seq_code(op_run(sign, 1), moves_struct(dst, src))),
    );
    assert(flatten(drain_body(src, dst, sign)) =~= seq!['-'] + moves_code_text(src, dst)
        + seq![sign] + moves_code_text(dst, src));
    assert(flatten(Code::Done) =~= Seq::<char>::empty());
    assert(flatten(drain_loop(src, dst, sign)) =~= seq!['['] + (seq!['-'] + moves_code_text(
        src,
        dst,
    ) + seq![sign] + moves_code_text(dst, src)) + seq![']']);
}

/// The text of the copy loop.
pub proof fn lemma_flatten_copy_loop(from: nat, to: nat, temp: nat)
    ensures
        flatten(copy_loop(from, to, temp)) == seq!['['] + (seq!['-'] + moves_code_text(from, to)
            + seq!['+'] + moves_code_text(to, temp) + seq!['+'] + moves_code_text(temp, from))
            + seq![']'],
{
    lemma_flatten_moves(from, to);
    lemma_flatten_moves(to, temp);
    lemma_flatten_moves(temp, from);
    lemma_flatten_op_run('-', 1);
    lemma_flatten_op_run('+', 1);
    assert(rep('-', 1) =~= seq!['-']);
    assert(rep('+', 1) =~= seq!['+']);
    lemma_flatten_seq(op_run('+', 1), moves_struct(temp, from));
    lemma_flatten_seq(moves_struct(to, temp), seq_code(op_run('+', 1), moves_struct(temp, from)));
    lemma_flatten_seq(
        op_run('+', 1),
        seq_code(moves_struct(to, temp), seq_code(op_run('+', 1), moves_struct(temp, from))),
    );
    lemma_flatten_seq(
        moves_struct(from, to),
        seq_code(
            op_run('+', 1),
            seq_code(moves_struct(to, temp), seq_code(op_run('+', 1), moves_struct(temp, from))),
        ),
    );
    lemma_flatten_seq(
        op_run('-', 1),
        seq_code(
            moves_struct(from, to),
            seq_code(
                op_run('+', 1),
                seq_code(moves_struct(to, temp), seq_code(op_run('+', 1), moves_struct(temp, from))),
            ),
        ),
    );
    assert(flatten(copy_body(from, to, temp)) =~= seq!['-'] + moves_code_text(from, to)
        + seq!['+'] + moves_code_text(to, temp) + seq!['+'] + moves_code_text(temp, from));
    assert(flatten(Code::Done) =~= Seq::<char>::empty());
    assert(flatten(copy_loop(from, to, temp)) =~= seq!['['] + (seq!['-'] + moves_code_text(
        from,
        to,
    ) + seq!['+'] + moves_code_text(to, temp) + seq!['+'] + moves_code_text(temp, from))
        + seq![']']);
}

/// The body of the conditional clear: step to the flag, decrement it,
/// step back, zero this cell.
pub open spec fn cond_clear_body(src: nat, flag: nat) -> Code {
    seq_code(
        moves_struct(src, flag),
        seq_code(op_run('-', 1), seq_code(moves_struct(flag, src), clear_struct())),
    )
}

/// The conditional clear `[ … - … [-] ]` at `src`: when the cell at
/// `src` is nonzero, decrement the flag at `flag` once and zero `src`;
/// when it is zero, do nothing.
pub open spec fn cond_clear(src: nat, flag: nat) -> Code {
    Code::Loop(Box::new(cond_clear_body(src, flag)), Box::new(Code::Done))
}

/// The text of the conditional clear.
pub proof fn lemma_flatten_cond_clear(src: nat, flag: nat)
    ensures
        flatten(cond_clear(src, flag)) == seq!['['] + (moves_code_text(src, flag) + seq!['-']
            + moves_code_text(flag, src) + seq!['[', '-', ']']) + seq![']'],
{
    lemma_flatten_moves(src, flag);
    lemma_flatten_moves(flag, src);
    lemma_flatten_op_run('-', 1);
    assert(rep('-', 1) =~= seq!['-']);
    lemma_flatten_clear();
    lemma_flatten_seq(moves_struct(flag, src), clear_struct());
    lemma_flatten_seq(op_run('-', 1), seq_code(moves_struct(flag, src), clear_struct()));
    lemma_flatten_seq(
        moves_struct(src, flag),
        seq_code(op_run('-', 1), seq_code(moves_struct(flag, src), clear_struct())),
    );
    assert(flatten(cond_clear_body(src, flag)) =~= moves_code_text(src, flag) + seq!['-']
        + moves_code_text(flag, src) + seq!['[', '-', ']']);
    assert(flatten(Code::Done) =~= Seq::<char>::empty());
    assert(flatten(cond_clear(src, flag)) =~= seq!['['] + (moves_code_text(src, flag) + seq!['-']
        + moves_code_text(flag, src) + seq!['[', '-', ']']) + seq![']']);
}

/// The conditional clear zeroes the cell at `src` and, when that cell
/// was nonzero, decrements the flag once, modulo 256.
pub proof fn lemma_run_cond_clear(src: nat, flag: nat, st: BfState, f: nat)
    requires
        st.head == src,
        src != flag,
        f >= 256,
    ensures
        run(cond_clear(src, flag), st, f) matches Some(st1) && st1.head == src && st1.out == st.out
            && forall|i: nat|
            read_cell(st1, i) == if i == src {
                0u8
            } else if i == flag && read_cell(st, src) != 0 {
                ((read_cell(st, flag) as nat + 255) % 256) as u8
            } else {
                read_cell(st, i)
            },
{
    let c = read_cell(st, src);
    if c == 0 {
        assert(run(Code::Done, st, f) == Some(st));
        assert(run(cond_clear(src, flag), st, f) == Some(st));
    } else {
        lemma_run_moves(src, flag, st, 0);
        let st_a = run(moves_struct(src, flag), st, 0)->Some_0;
        lemma_run_minus(1, st_a, 0);
        let st_b = run(op_run('-', 1), st_a, 0)->Some_0;
        lemma_run_moves(flag, src, st_b, 0);
        let st_c = run(moves_struct(flag, src), st_b, 0)->Some_0;
        lemma_run_clear(st_c, f);
        let st_d = run(clear_struct(), st_c, f)->Some_0;
        lemma_run_seq(moves_struct(flag, src), clear_struct(), st_b, 0, f);
        lemma_run_seq(
            op_run('-', 1),
            seq_code(moves_struct(flag, src), clear_struct()),
            st_a,
            0,
            f,
        );
        lemma_run_seq(
            moves_struct(src, flag),
            seq_code(op_run('-', 1), seq_code(moves_struct(flag, src), clear_struct())),
            st,
            0,
            f,
        );
        assert(run(cond_clear_body(src, flag), st, f) == Some(st_d));
        assert(read_cell(st_d, src) == 0);
        assert(run(Code::Done, st_d, (f - 1) as nat) == Some(st_d));
        assert(run(cond_clear(src, flag), st_d, (f - 1) as nat) == Some(st_d));
        assert(run(cond_clear(src, flag), st, f) == Some(st_d));
        assert(255 * 1nat == 255);
        assert forall|i: nat|
            read_cell(st_d, i) == (if i == src {
                0u8
            } else if i == flag && read_cell(st, src) != 0 {
                ((read_cell(st, flag) as nat + 255) % 256) as u8
            } else {
                read_cell(st, i)
            }) by {
            assert(read_cell(st_a, i) == read_cell(st, i));
            let x1 = read_cell(st_b, i);
            assert(read_cell(st_c, i) == read_cell(st_b, i));
            let x2 = read_cell(st_d, i);
        }
    }
}

} // verus!
