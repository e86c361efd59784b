//! Code generation: an abstract syntax tree to a Brainfuck string.
//!
//! The generator keeps a compile-time model of the Brainfuck tape: a map
//! from variable names to cells, a bump allocator for named cells, a
//! disjoint bump allocator for temporaries, and the head position the
//! emitted program has reached.  Its meaning is the spec-level mirror
//! ([`visit_stmt_m`] and friends): every method is proved to transform the
//! model exactly as the mirror says, so the emitted text is pinned
//! character for character.
//!
//! Code generation can fail in two ways the language itself never
//! exercises: the named region filling up (past `TEMP_BASE` variables)
//! and the temporary allocator reaching the end of the address space.
//! These code-generation diagnostics are routed through the shared
//! [`TranspilerError`] channel, as lexical and parse errors are.

use vstd::prelude::*;
use vstd::string::*;
use crate::ast::{BinaryOp, Expr, Program, Stmt, Visitor};
use crate::bf::{
    all_bf, balanced, bracket_weight, clear_struct, cond_clear, copy_loop, drain_loop, flatten,
    lemma_all_bf_concat, lemma_flatten_op_run, lemma_flatten_seq, lemma_nesting_concat,
    lemma_nesting_single, lemma_rep_balanced, lemma_run_clear, lemma_run_copy_loop,
    lemma_run_cond_clear, lemma_run_drain_loop, lemma_run_moves, lemma_run_mono,
    lemma_run_mul_loop, lemma_run_plus,
    lemma_run_seq, low_point, moves_struct, mul_loop, nesting, op_run, read_cell, rep, run,
    seq_code, BfState, Code,
};
use crate::error::{TranspilerError, TranspilerResult};
use crate::lexer::str_eq;

verus! {

/// The first temporary cell: named variables live below this address, so
/// the two regions cannot collide.
pub const TEMP_BASE: usize = 100;

/// The compile-time model of the generator: variable bindings in
/// declaration order, the two bump allocators, the modelled head
/// position, and the emitted output.
#[verifier::ext_equal]
pub ghost struct GenModel {
    pub vars: Seq<(Seq<char>, nat)>,
    pub memory_ptr: nat,
    pub head: nat,
    pub next_temp: nat,
    pub output: Seq<char>,
}

/// The model of a fresh generator.
pub open spec fn init_model() -> GenModel {
    GenModel {
        vars: Seq::empty(),
        memory_ptr: 0,
        head: 0,
        next_temp: TEMP_BASE as nat,
        output: Seq::empty(),
    }
}

/// The generator's tape-model invariant: named cells stay below the
/// temporary region, temporaries are allocated from `TEMP_BASE` up, and
/// every bound name has its own cell.
pub open spec fn gen_wf(m: GenModel) -> bool {
    &&& m.memory_ptr <= TEMP_BASE as nat
    &&& TEMP_BASE as nat <= m.next_temp
    &&& forall|i: int| 0 <= i < m.vars.len() ==> (#[trigger] m.vars[i]).1 < m.memory_ptr
    &&& forall|i: int, j: int|
        0 <= i < j < m.vars.len() ==> m.vars[i].1 != m.vars[j].1
}

/// Appends a fragment to the output.
pub open spec fn emit_m(m: GenModel, s: Seq<char>) -> GenModel {
    GenModel { output: m.output + s, ..m }
}

/// The head-movement fragment from `from` to `to`.
pub open spec fn moves_code(from: nat, to: nat) -> Seq<char> {
    if to >= from {
        rep('>', (to - from) as nat)
    } else {
        rep('<', (from - to) as nat)
    }
}

/// Moves the model head, emitting the movement fragment.
pub open spec fn move_to_m(m: GenModel, target: nat) -> GenModel {
    GenModel { head: target, output: m.output + moves_code(m.head, target), ..m }
}

/// The clear-current-cell fragment.
pub open spec fn clear_code() -> Seq<char> {
    seq!['[', '-', ']']
}

/// Emits `[-]` at the current head.
pub open spec fn clear_m(m: GenModel) -> GenModel {
    emit_m(m, clear_code())
}

/// The integer square root: the largest `q` with `q * q <= v`.
pub open spec fn isqrt_s(v: int) -> nat
    decreases v,
{
    if v <= 0 {
        0
    } else {
        let r = isqrt_s(v - 1);
        if (r + 1) * (r + 1) <= v {
            r + 1
        } else {
            r
        }
    }
}

/// `isqrt_s` brackets its argument between consecutive squares.
pub proof fn lemma_isqrt_bounds(v: int)
    requires
        v >= 0,
    ensures
        isqrt_s(v) * isqrt_s(v) <= v,
        (isqrt_s(v) + 1) * (isqrt_s(v) + 1) > v,
    decreases v,
{
    if v == 0 {
        let s = isqrt_s(0) as int;
        assert(s == 0);
        assert(s * s <= 0 && (s + 1) * (s + 1) > 0) by (nonlinear_arith)
            requires
                s == 0,
        ;
    } else {
        lemma_isqrt_bounds(v - 1);
        let r = isqrt_s(v - 1) as int;
        let s = isqrt_s(v) as int;
        if (r + 1) * (r + 1) <= v {
            assert(s == r + 1);
            assert((r + 2) * (r + 2) > v) by (nonlinear_arith)
                requires
                    (r + 1) * (r + 1) > v - 1,
                    r >= 0,
            ;
            assert(s * s <= v) by (nonlinear_arith)
                requires
                    s == r + 1,
                    (r + 1) * (r + 1) <= v,
            ;
            assert((s + 1) * (s + 1) > v) by (nonlinear_arith)
                requires
                    s == r + 1,
                    (r + 2) * (r + 2) > v,
            ;
        } else {
            assert(s == r);
            assert(s * s <= v) by (nonlinear_arith)
                requires
                    s == r,
                    r * r <= v - 1,
            ;
            assert((s + 1) * (s + 1) > v) by (nonlinear_arith)
                requires
                    s == r,
                    !((r + 1) * (r + 1) <= v),
            ;
        }
    }
}

/// Only one natural number is bracketed between consecutive squares.
pub proof fn lemma_isqrt_unique(v: int, q: int)
    requires
        v >= 0,
        q >= 0,
        q * q <= v,
        (q + 1) * (q + 1) > v,
    ensures
        q == isqrt_s(v),
{
    lemma_isqrt_bounds(v);
    let s = isqrt_s(v) as int;
    if q < s {
        assert((q + 1) * (q + 1) <= s * s) by (nonlinear_arith)
            requires
                0 <= q + 1 <= s,
        ;
    }
    if q > s {
        assert((s + 1) * (s + 1) <= q * q) by (nonlinear_arith)
            requires
                0 <= s + 1 <= q,
        ;
    }
}

/// Materializes `v` into the cell at `addr`: move there, clear, then
/// build the value.  Small positive values are runs of `+`; values of ten
/// or more go through a square decomposition `v = q*q + r` using
/// `addr + 1` as scratch; negative values are runs of `-` and wrap.
pub open spec fn set_value_m(m: GenModel, addr: nat, v: int) -> GenModel {
    let m1 = clear_m(move_to_m(m, addr));
    if v >= 10 {
        let q = isqrt_s(v);
        let r = (v - q * q) as nat;
        let m2 = emit_m(m1, rep('+', q));
        let m3 = emit_m(m2, seq!['[']);
        let m4 = emit_m(move_to_m(m3, addr + 1), rep('+', q));
        let m5 = emit_m(move_to_m(m4, addr), seq!['-', ']']);
        let m6 = emit_m(move_to_m(m5, addr + 1), seq!['[', '-']);
        let m7 = emit_m(move_to_m(m6, addr), seq!['+']);
        let m8 = emit_m(move_to_m(m7, addr + 1), seq![']']);
        emit_m(move_to_m(m8, addr), rep('+', r))
    } else if v > 0 {
        emit_m(m1, rep('+', v as nat))
    } else if v < 0 {
        emit_m(m1, rep('-', (-v) as nat))
    } else {
        m1
    }
}

/// Copies the cell at `from` into the cell at `to` without destroying the
/// source, through one fresh temporary: drain the source into both, then
/// drain the temporary back.  `None` when the temporary allocator is
/// exhausted.
pub open spec fn copy_value_m(m: GenModel, from: nat, to: nat) -> Option<GenModel> {
    if m.next_temp >= usize::MAX as nat {
        None
    } else {
        let temp = m.next_temp;
        let m0 = GenModel { next_temp: m.next_temp + 1, ..m };
        let m1 = clear_m(move_to_m(m0, to));
        let m2 = clear_m(move_to_m(m1, temp));
        let m3 = emit_m(move_to_m(m2, from), seq!['[', '-']);
        let m4 = emit_m(move_to_m(m3, to), seq!['+']);
        let m5 = emit_m(move_to_m(m4, temp), seq!['+']);
        let m6 = emit_m(move_to_m(m5, from), seq![']']);
        let m7 = emit_m(move_to_m(m6, temp), seq!['[', '-']);
        let m8 = emit_m(move_to_m(m7, from), seq!['+']);
        Some(emit_m(move_to_m(m8, temp), seq![']']))
    }
}

/// Puts `left + right` into `result_addr`: copy the left operand there,
/// then drain a copy of the right operand into it, incrementing.
pub open spec fn add_values_m(m: GenModel, result_addr: nat, left_addr: nat, right_addr: nat) -> Option<
    GenModel,
> {
    match copy_value_m(m, left_addr, result_addr) {
        None => None,
        Some(m1) => {
            if m1.next_temp >= usize::MAX as nat {
                None
            } else {
                let temp = m1.next_temp;
                let m2 = GenModel { next_temp: m1.next_temp + 1, ..m1 };
                match copy_value_m(m2, right_addr, temp) {
                    None => None,
                    Some(m3) => {
                        let m4 = emit_m(move_to_m(m3, temp), seq!['[', '-']);
                        let m5 = emit_m(move_to_m(m4, result_addr), seq!['+']);
                        Some(emit_m(move_to_m(m5, temp), seq![']']))
                    },
                }
            }
        },
    }
}

/// Puts `left - right` into `result_addr` (modulo the cell width): as
/// addition, but the drain decrements.
pub open spec fn sub_values_m(m: GenModel, result_addr: nat, left_addr: nat, right_addr: nat) -> Option<
    GenModel,
> {
    match copy_value_m(m, left_addr, result_addr) {
        None => None,
        Some(m1) => {
            if m1.next_temp >= usize::MAX as nat {
                None
            } else {
                let temp = m1.next_temp;
                let m2 = GenModel { next_temp: m1.next_temp + 1, ..m1 };
                match copy_value_m(m2, right_addr, temp) {
                    None => None,
                    Some(m3) => {
                        let m4 = emit_m(move_to_m(m3, temp), seq!['[', '-']);
                        let m5 = emit_m(move_to_m(m4, result_addr), seq!['-']);
                        Some(emit_m(move_to_m(m5, temp), seq![']']))
                    },
                }
            }
        },
    }
}

/// Puts `1` into `result_addr` when the cells at `left_addr` and
/// `right_addr` hold the same value, else `0`: copy both into
/// temporaries, subtract one from the other, and clear the flag when a
/// nonzero residue remains.
pub open spec fn compare_equal_m(m: GenModel, result_addr: nat, left_addr: nat, right_addr: nat) -> Option<
    GenModel,
> {
    if m.next_temp + 1 >= usize::MAX as nat {
        None
    } else {
        let temp1 = m.next_temp;
        let temp2 = m.next_temp + 1;
        let m0 = GenModel { next_temp: m.next_temp + 2, ..m };
        match copy_value_m(m0, left_addr, temp1) {
            None => None,
            Some(m1) => match copy_value_m(m1, right_addr, temp2) {
                None => None,
                Some(m2) => {
                    let m3 = emit_m(clear_m(move_to_m(m2, result_addr)), seq!['+']);
                    let m4 = emit_m(move_to_m(m3, temp2), seq!['[', '-']);
                    let m5 = emit_m(move_to_m(m4, temp1), seq!['-']);
                    let m6 = emit_m(move_to_m(m5, temp2), seq![']']);
                    let m7 = emit_m(move_to_m(m6, temp1), seq!['[']);
                    let m8 = emit_m(move_to_m(m7, result_addr), seq!['-']);
                    Some(emit_m(move_to_m(m8, temp1), seq!['[', '-', ']', ']']))
                },
            },
        }
    }
}

/// Looks a name up among the bindings, newest first, so a redeclared
/// name shadows the older cell.
pub open spec fn lookup_var(vars: Seq<(Seq<char>, nat)>, name: Seq<char>) -> Option<nat>
    decreases vars.len(),
{
    if vars.len() == 0 {
        None
    } else if vars.last().0 == name {
        Some(vars.last().1)
    } else {
        lookup_var(vars.drop_last(), name)
    }
}

/// Binds a fresh named cell, or fails when the named region would reach
/// the temporary region.
pub open spec fn alloc_var_m(m: GenModel, name: Seq<char>) -> Option<(GenModel, nat)> {
    if m.memory_ptr >= TEMP_BASE as nat {
        None
    } else {
        Some(
            (
                GenModel {
                    vars: m.vars.push((name, m.memory_ptr)),
                    memory_ptr: m.memory_ptr + 1,
                    ..m
                },
                m.memory_ptr,
            ),
        )
    }
}

/// The bit-flip fragment for `!=`: turns a `0`/`1` flag at `result_addr`
/// into its complement through the fresh temporary `temp`.
pub open spec fn flip_m(m: GenModel, result_addr: nat, temp: nat) -> GenModel {
    let m1 = emit_m(move_to_m(m, temp), seq!['+']);
    let m2 = emit_m(move_to_m(m1, result_addr), seq!['[', '-']);
    let m3 = emit_m(move_to_m(m2, temp), seq!['-']);
    let m4 = emit_m(move_to_m(m3, result_addr), seq![']']);
    let m5 = emit_m(move_to_m(m4, temp), seq!['[', '-']);
    let m6 = emit_m(move_to_m(m5, result_addr), seq!['+']);
    emit_m(move_to_m(m6, temp), seq![']'])
}

/// Evaluates an expression into a cell and hands the cell back.
/// Numbers are materialized into fresh temporaries; an unbound variable
/// reads as a fresh zero cell; binary operations evaluate both sides,
/// then dispatch.  `<`, `>`, `*` and `/` fall through to a copy of the
/// left operand.  `None` only when an allocator is exhausted.
pub open spec fn eval_expr_m(m: GenModel, e: Expr) -> Option<(GenModel, nat)>
    decreases e,
{
    match e {
        Expr::Number(n) => {
            if m.next_temp >= usize::MAX as nat {
                None
            } else {
                let a = m.next_temp;
                let m0 = GenModel { next_temp: m.next_temp + 1, ..m };
                Some((set_value_m(m0, a, n as int), a))
            }
        },
        Expr::Variable(name) => {
            match lookup_var(m.vars, name@) {
                Some(a) => Some((m, a)),
                None => {
                    if m.next_temp >= usize::MAX as nat {
                        None
                    } else {
                        let a = m.next_temp;
                        let m0 = GenModel { next_temp: m.next_temp + 1, ..m };
                        Some((set_value_m(m0, a, 0), a))
                    }
                },
            }
        },
        Expr::Binary { left, operator, right } => {
            match eval_expr_m(m, *left) {
                None => None,
                Some((ml, la)) => match eval_expr_m(ml, *right) {
                    None => None,
                    Some((mr, ra)) => {
                        if mr.next_temp >= usize::MAX as nat {
                            None
                        } else {
                            let res = mr.next_temp;
                            let m0 = GenModel { next_temp: mr.next_temp + 1, ..mr };
                            match operator {
                                BinaryOp::Add => match add_values_m(m0, res, la, ra) {
                                    None => None,
                                    Some(m1) => Some((m1, res)),
                                },
                                BinaryOp::Sub => match sub_values_m(m0, res, la, ra) {
                                    None => None,
                                    Some(m1) => Some((m1, res)),
                                },
                                BinaryOp::Equal => match compare_equal_m(m0, res, la, ra) {
                                    None => None,
                                    Some(m1) => Some((m1, res)),
                                },
                                BinaryOp::NotEqual => match compare_equal_m(m0, res, la, ra) {
                                    None => None,
                                    Some(m1) => {
                                        if m1.next_temp >= usize::MAX as nat {
                                            None
                                        } else {
                                            let temp = m1.next_temp;
                                            let m2 = GenModel {
                                                next_temp: m1.next_temp + 1,
                                                ..m1
                                            };
                                            Some((flip_m(m2, res, temp), res))
                                        }
                                    },
                                },
                                BinaryOp::Less => match copy_value_m(m0, la, res) {
                                    None => None,
                                    Some(m1) => Some((m1, res)),
                                },
                                BinaryOp::Greater => match copy_value_m(m0, la, res) {
                                    None => None,
                                    Some(m1) => Some((m1, res)),
                                },
                                BinaryOp::Mul => match copy_value_m(m0, la, res) {
                                    None => None,
                                    Some(m1) => Some((m1, res)),
                                },
                                BinaryOp::Div => match copy_value_m(m0, la, res) {
                                    None => None,
                                    Some(m1) => Some((m1, res)),
                                },
                            }
                        }
                    },
                },
            }
        },
    }
}

/// Evaluates a condition: a top-level `==` goes straight to the equality
/// primitive, a top-level `>` evaluates its left side only, and anything
/// else is an ordinary expression.
pub open spec fn eval_cond_m(m: GenModel, e: Expr) -> Option<(GenModel, nat)>
    decreases e,
{
    match e {
        Expr::Binary { left, operator, right } => {
            if operator == BinaryOp::Equal {
                match eval_expr_m(m, *left) {
                    None => None,
                    Some((ml, la)) => match eval_expr_m(ml, *right) {
                        None => None,
                        Some((mr, ra)) => {
                            if mr.next_temp >= usize::MAX as nat {
                                None
                            } else {
                                let res = mr.next_temp;
                                let m0 = GenModel { next_temp: mr.next_temp + 1, ..mr };
                                match compare_equal_m(m0, res, la, ra) {
                                    None => None,
                                    Some(m1) => Some((m1, res)),
                                }
                            }
                        },
                    },
                }
            } else if operator == BinaryOp::Greater {
                eval_expr_m(m, *left)
            } else {
                eval_expr_m(m, Expr::Binary { left, operator, right })
            }
        },
        _ => eval_expr_m(m, e),
    }
}

/// Lowers one statement, transforming the model.
#[verifier::rlimit(100)]
pub open spec fn visit_stmt_m(m: GenModel, s: Stmt) -> Option<GenModel>
    decreases s,
{
    match s {
        Stmt::Let { name, mutable, value } => {
            match alloc_var_m(m, name@) {
                None => None,
                Some((m1, addr)) => match eval_expr_m(m1, value) {
                    None => None,
                    Some((m2, va)) => copy_value_m(m2, va, addr),
                },
            }
        },
        Stmt::Assign { name, value } => {
            match lookup_var(m.vars, name@) {
                None => Some(m),
                Some(addr) => match eval_expr_m(m, value) {
                    None => None,
                    Some((m1, va)) => copy_value_m(m1, va, addr),
                },
            }
        },
        Stmt::Print(value) => {
            match eval_expr_m(m, value) {
                None => None,
                Some((m1, a)) => Some(emit_m(move_to_m(m1, a), seq!['.'])),
            }
        },
        Stmt::If { condition, body } => {
            match eval_cond_m(m, condition) {
                None => None,
                Some((m1, c)) => {
                    let m2 = emit_m(move_to_m(m1, c), seq!['[']);
                    match visit_stmts_m(m2, body@) {
                        None => None,
                        Some(m3) => Some(emit_m(clear_m(move_to_m(m3, c)), seq![']'])),
                    }
                },
            }
        },
        Stmt::While { condition, body } => {
            match eval_cond_m(m, condition) {
                None => None,
                Some((m1, c)) => {
                    let m2 = emit_m(move_to_m(m1, c), seq!['[']);
                    match visit_stmts_m(m2, body@) {
                        None => None,
                        Some(m3) => match eval_cond_m(m3, condition) {
                            None => None,
                            Some((m4, c2)) => match copy_value_m(m4, c2, c) {
                                None => None,
                                Some(m5) => Some(emit_m(move_to_m(m5, c), seq![']'])),
                            },
                        },
                    }
                },
            }
        },
    }
}

/// Lowers a statement sequence in order.
pub open spec fn visit_stmts_m(m: GenModel, ss: Seq<Stmt>) -> Option<GenModel>
    decreases ss,
{
    if ss.len() == 0 {
        Some(m)
    } else {
        match visit_stmt_m(m, ss[0]) {
            None => None,
            Some(m1) => visit_stmts_m(m1, ss.drop_first()),
        }
    }
}

/// Lowers a whole program.
pub open spec fn visit_program_m(m: GenModel, ss: Seq<Stmt>) -> Option<GenModel> {
    visit_stmts_m(m, ss)
}


/// The model of the executable variable table.
pub open spec fn vars_model(vs: Seq<(String, usize)>) -> Seq<(Seq<char>, nat)> {
    vs.map_values(|p: (String, usize)| (p.0@, p.1 as nat))
}

/// The Brainfuck code generator.  Its state is modelled by [`GenModel`];
/// every method is proved to transform the model exactly as the
/// spec-level mirror functions say.
pub struct BrainfuckGenerator {
    variables: Vec<(String, usize)>,
    memory_ptr: usize,
    head: usize,
    output: String,
    next_temp_addr: usize,
}

impl View for BrainfuckGenerator {
    type V = GenModel;

    closed spec fn view(&self) -> GenModel {
        GenModel {
            vars: vars_model(self.variables@),
            memory_ptr: self.memory_ptr as nat,
            head: self.head as nat,
            next_temp: self.next_temp_addr as nat,
            output: self.output@,
        }
    }
}

impl BrainfuckGenerator {
    /// A fresh generator: no variables, head at cell zero, temporaries
    /// from `TEMP_BASE`, empty output.
    pub fn new() -> (g: BrainfuckGenerator)
        ensures
            g@ == init_model(),
    {
        let g = BrainfuckGenerator {
            variables: Vec::new(),
            memory_ptr: 0,
            head: 0,
            output: String::new(),
            next_temp_addr: TEMP_BASE,
        };
        proof {
            assert(g@ =~= init_model());
        }
        g
    }

    /// Appends a literal fragment to the output.
    fn emit_str(&mut self, s: &str)
        ensures
            final(self)@ == emit_m(old(self)@, s@),
    {
        self.output.append(s);
        proof {
            assert(self@ =~= emit_m(old(self)@, s@));
        }
    }

    /// Appends `n` copies of one movement or arithmetic instruction.
    fn emit_repeat(&mut self, c: char, n: usize)
        requires
            c == '>' || c == '<' || c == '+' || c == '-',
        ensures
            final(self)@ == emit_m(old(self)@, rep(c, n as nat)),
    {
        let s: &str = if c == '>' {
            ">"
        } else if c == '<' {
            "<"
        } else if c == '+' {
            "+"
        } else {
            "-"
        };
        proof {
            reveal_strlit(">");
            reveal_strlit("<");
            reveal_strlit("+");
            reveal_strlit("-");
            assert(s@ =~= seq![c]);
        }
        let mut i: usize = 0;
        proof {
            assert(rep(c, 0) =~= Seq::<char>::empty());
            assert(self@ =~= emit_m(old(self)@, rep(c, 0)));
        }
        while i < n
            invariant
                i <= n,
                s@ == seq![c],
                self@ == emit_m(old(self)@, rep(c, i as nat)),
            decreases n - i,
        {
            self.emit_str(s);
            i = i + 1;
            proof {
                assert(rep(c, i as nat) =~= rep(c, (i - 1) as nat) + seq![c]);
                assert(self@ =~= emit_m(old(self)@, rep(c, i as nat)));
            }
        }
    }

    /// Emits the `>` or `<` run that brings the head to `target`, and
    /// updates the modelled head position.  This is the only way the
    /// model head changes.
    pub fn move_to(&mut self, target: usize)
        ensures
            final(self)@ == move_to_m(old(self)@, target as nat),
    {
        if target > self.head {
            let n = target - self.head;
            self.emit_repeat('>', n);
        } else if target < self.head {
            let n = self.head - target;
            self.emit_repeat('<', n);
        } else {
            proof {
                assert(rep('>', 0) =~= Seq::<char>::empty());
            }
        }
        self.head = target;
        proof {
            assert(self@ =~= move_to_m(old(self)@, target as nat));
        }
    }

    /// Emits `[-]`: clears the cell under the head.
    pub fn clear_cell(&mut self)
        ensures
            final(self)@ == clear_m(old(self)@),
    {
        self.emit_str("[-]");
        proof {
            reveal_strlit("[-]");
            assert("[-]"@ =~= clear_code());
            assert(self@ =~= clear_m(old(self)@));
        }
    }

    /// Hands out a fresh temporary cell, or fails when the temporary
    /// region is exhausted.
    fn get_temp_addr(&mut self) -> (r: TranspilerResult<usize>)
        ensures
            match r {
                Ok(a) => ({
                    &&& old(self)@.next_temp < usize::MAX as nat
                    &&& a as nat == old(self)@.next_temp
                    &&& final(self)@ == (GenModel {
                        next_temp: old(self)@.next_temp + 1,
                        ..old(self)@
                    })
                }),
                Err(_) => ({
                    &&& old(self)@.next_temp >= usize::MAX as nat
                    &&& final(self)@ == old(self)@
                }),
            },
    {
        if self.next_temp_addr == usize::MAX {
            return Err(TranspilerError::new("out of temporary cells".to_owned()));
        }
        let addr = self.next_temp_addr;
        self.next_temp_addr = self.next_temp_addr + 1;
        proof {
            assert(self@ =~= (GenModel { next_temp: old(self)@.next_temp + 1, ..old(self)@ }));
        }
        Ok(addr)
    }

    /// Binds a fresh named cell for `name`, or fails when the named
    /// region would reach the temporary region.
    fn allocate_variable(&mut self, name: &str) -> (r: TranspilerResult<usize>)
        ensures
            match r {
                Ok(a) => alloc_var_m(old(self)@, name@) == Some((final(self)@, a as nat)),
                Err(_) => ({
                    &&& alloc_var_m(old(self)@, name@) is None
                    &&& final(self)@ == old(self)@
                }),
            },
    {
        if self.memory_ptr >= TEMP_BASE {
            return Err(TranspilerError::new("too many variables".to_owned()));
        }
        let addr = self.memory_ptr;
        self.variables.push((name.to_owned(), addr));
        self.memory_ptr = self.memory_ptr + 1;
        proof {
            assert(vars_model(self.variables@) =~= vars_model(old(self).variables@).push(
                (name@, addr as nat),
            ));
            assert(self@ =~= (GenModel {
                vars: old(self)@.vars.push((name@, addr as nat)),
                memory_ptr: old(self)@.memory_ptr + 1,
                ..old(self)@
            }));
        }
        Ok(addr)
    }

    /// Looks a name up among the bindings, newest first.
    fn get_variable(&self, name: &str) -> (r: Option<usize>)
        ensures
            match r {
                Some(a) => lookup_var(self@.vars, name@) == Some(a as nat),
                None => lookup_var(self@.vars, name@) is None,
            },
    {
        let ghost vm = vars_model(self.variables@);
        let mut i: usize = self.variables.len();
        proof {
            assert(vm.take(i as int) =~= vm);
        }
        while i > 0
            invariant
                i <= self.variables@.len(),
                vm == vars_model(self.variables@),
                vm.len() == self.variables@.len(),
                lookup_var(self@.vars, name@) == lookup_var(vm.take(i as int), name@),
            decreases i,
        {
            i = i - 1;
            proof {
                assert(vm.take(i as int + 1).last() == vm[i as int]);
                assert(vm.take(i as int + 1).drop_last() =~= vm.take(i as int));
            }
            if str_eq(&self.variables[i].0, name) {
                return Some(self.variables[i].1);
            }
        }
        proof {
            assert(vm.take(0) =~= Seq::<(Seq<char>, nat)>::empty());
        }
        None
    }

    /// The integer square root of a nonnegative value.
    fn isqrt(v: i32) -> (q: i32)
        requires
            v >= 0,
        ensures
            0 <= q <= 46340,
            (q as int) * (q as int) <= v as int,
            q as int == isqrt_s(v as int),
    {
        let mut q: i32 = 0;
        loop
            invariant
                0 <= q <= 46340,
                (q as int) * (q as int) <= v as int,
                q as int <= v as int,
            ensures
                0 <= q <= 46340,
                (q as int) * (q as int) <= v as int,
                (q as int + 1) * (q as int + 1) > v as int,
            decreases v as int - q as int,
        {
            let q1: i64 = (q as i64) + 1;
            proof {
                assert(q1 * q1 <= 46341 * 46341) by (nonlinear_arith)
                    requires
                        1 <= q1 <= 46341,
                ;
            }
            if q1 * q1 <= v as i64 {
                proof {
                    assert(q1 <= 46340) by (nonlinear_arith)
                        requires
                            q1 * q1 <= 0x7fff_ffff,
                            1 <= q1,
                    ;
                    assert(q1 <= v as int) by (nonlinear_arith)
                        requires
                            1 <= q1,
                            q1 * q1 <= v as int,
                    ;
                }
                q = q + 1;
            } else {
                break;
            }
        }
        proof {
            lemma_isqrt_unique(v as int, q as int);
        }
        q
    }

    /// Materializes `value` into the cell at `addr`: move, clear, build.
    /// Values of ten or more go through the square decomposition using
    /// `addr + 1` as scratch, so `addr + 1` must be an idle cell.
    pub fn set_value(&mut self, addr: usize, value: i32)
        requires
            addr < usize::MAX,
        ensures
            final(self)@ == set_value_m(old(self)@, addr as nat, value as int),
    {
        self.move_to(addr);
        self.clear_cell();
        if value >= 10 {
            let q = Self::isqrt(value);
            proof {
                assert((q as int) * (q as int) >= 0) by (nonlinear_arith)
                    requires
                        0 <= q as int,
                ;
                assert((q as int) * (q as int) <= 46340 * 46340) by (nonlinear_arith)
                    requires
                        0 <= q as int <= 46340,
                ;
            }
            let remainder = value - q * q;
            self.emit_repeat('+', q as usize);
            self.emit_str("[");
            self.move_to(addr + 1);
            self.emit_repeat('+', q as usize);
            self.move_to(addr);
            self.emit_str("-]");
            self.move_to(addr + 1);
            self.emit_str("[-");
            self.move_to(addr);
            self.emit_str("+");
            self.move_to(addr + 1);
            self.emit_str("]");
            self.move_to(addr);
            self.emit_repeat('+', remainder as usize);
            proof {
                reveal_strlit("[");
                reveal_strlit("-]");
                reveal_strlit("[-");
                reveal_strlit("+");
                reveal_strlit("]");
                assert("["@ =~= seq!['[']);
                assert("-]"@ =~= seq!['-', ']']);
                assert("[-"@ =~= seq!['[', '-']);
                assert("+"@ =~= seq!['+']);
                assert("]"@ =~= seq![']']);
                assert(self@ == set_value_m(old(self)@, addr as nat, value as int));
            }
        } else if value > 0 {
            self.emit_repeat('+', value as usize);
        } else if value < 0 {
            let mag: i64 = -(value as i64);
            self.emit_repeat('-', mag as usize);
        }
    }

    /// Copies the cell at `from` into the cell at `to`, preserving the
    /// source through one fresh temporary.
    pub fn copy_value(&mut self, from: usize, to: usize) -> (r: TranspilerResult<()>)
        ensures
            match r {
                Ok(_) => copy_value_m(old(self)@, from as nat, to as nat) == Some(final(self)@),
                Err(_) => copy_value_m(old(self)@, from as nat, to as nat) is None,
            },
    {
        let temp = self.get_temp_addr()?;
        self.move_to(to);
        self.clear_cell();
        self.move_to(temp);
        self.clear_cell();
        self.move_to(from);
        self.emit_str("[-");
        self.move_to(to);
        self.emit_str("+");
        self.move_to(temp);
        self.emit_str("+");
        self.move_to(from);
        self.emit_str("]");
        self.move_to(temp);
        self.emit_str("[-");
        self.move_to(from);
        self.emit_str("+");
        self.move_to(temp);
        self.emit_str("]");
        proof {
            reveal_strlit("[-");
            reveal_strlit("+");
            reveal_strlit("]");
            assert("[-"@ =~= seq!['[', '-']);
            assert("+"@ =~= seq!['+']);
            assert("]"@ =~= seq![']']);
            assert(copy_value_m(old(self)@, from as nat, to as nat) == Some(self@));
        }
        Ok(())
    }

    /// Puts the sum of the cells at `left_addr` and `right_addr` into
    /// `result_addr`, preserving both operands.
    pub fn add_values(&mut self, result_addr: usize, left_addr: usize, right_addr: usize) -> (r:
        TranspilerResult<()>)
        ensures
            match r {
                Ok(_) => add_values_m(
                    old(self)@,
                    result_addr as nat,
                    left_addr as nat,
                    right_addr as nat,
                ) == Some(final(self)@),
                Err(_) => add_values_m(
                    old(self)@,
                    result_addr as nat,
                    left_addr as nat,
                    right_addr as nat,
                ) is None,
            },
    {
        self.copy_value(left_addr, result_addr)?;
        let temp = self.get_temp_addr()?;
        self.copy_value(right_addr, temp)?;
        self.move_to(temp);
        self.emit_str("[-");
        self.move_to(result_addr);
        self.emit_str("+");
        self.move_to(temp);
        self.emit_str("]");
        proof {
            reveal_strlit("[-");
            reveal_strlit("+");
            reveal_strlit("]");
            assert("[-"@ =~= seq!['[', '-']);
            assert("+"@ =~= seq!['+']);
            assert("]"@ =~= seq![']']);
        }
        Ok(())
    }

    /// Puts the difference of the cells at `left_addr` and `right_addr`
    /// into `result_addr` (modulo the cell width), preserving both.
    pub fn sub_values(&mut self, result_addr: usize, left_addr: usize, right_addr: usize) -> (r:
        TranspilerResult<()>)
        ensures
            match r {
                Ok(_) => sub_values_m(
                    old(self)@,
                    result_addr as nat,
                    left_addr as nat,
                    right_addr as nat,
                ) == Some(final(self)@),
                Err(_) => sub_values_m(
                    old(self)@,
                    result_addr as nat,
                    left_addr as nat,
                    right_addr as nat,
                ) is None,
            },
    {
        self.copy_value(left_addr, result_addr)?;
        let temp = self.get_temp_addr()?;
        self.copy_value(right_addr, temp)?;
        self.move_to(temp);
        self.emit_str("[-");
        self.move_to(result_addr);
        self.emit_str("-");
        self.move_to(temp);
        self.emit_str("]");
        proof {
            reveal_strlit("[-");
            reveal_strlit("-");
            reveal_strlit("]");
            assert("[-"@ =~= seq!['[', '-']);
            assert("-"@ =~= seq!['-']);
            assert("]"@ =~= seq![']']);
        }
        Ok(())
    }

    /// Puts `1` into `result_addr` when the cells at `left_addr` and
    /// `right_addr` are equal, else `0`, preserving both operands.
    pub fn compare_equal(&mut self, result_addr: usize, left_addr: usize, right_addr: usize) -> (r:
        TranspilerResult<()>)
        ensures
            match r {
                Ok(_) => compare_equal_m(
                    old(self)@,
                    result_addr as nat,
                    left_addr as nat,
                    right_addr as nat,
                ) == Some(final(self)@),
                Err(_) => compare_equal_m(
                    old(self)@,
                    result_addr as nat,
                    left_addr as nat,
                    right_addr as nat,
                ) is None,
            },
    {
        let temp1 = self.get_temp_addr()?;
        let temp2 = self.get_temp_addr()?;
        self.copy_value(left_addr, temp1)?;
        self.copy_value(right_addr, temp2)?;
        self.move_to(result_addr);
        self.clear_cell();
        self.emit_str("+");
        self.move_to(temp2);
        self.emit_str("[-");
        self.move_to(temp1);
        self.emit_str("-");
        self.move_to(temp2);
        self.emit_str("]");
        self.move_to(temp1);
        self.emit_str("[");
        self.move_to(result_addr);
        self.emit_str("-");
        self.move_to(temp1);
        self.emit_str("[-]]");
        proof {
            reveal_strlit("+");
            reveal_strlit("[-");
            reveal_strlit("-");
            reveal_strlit("]");
            reveal_strlit("[");
            reveal_strlit("[-]]");
            assert("+"@ =~= seq!['+']);
            assert("[-"@ =~= seq!['[', '-']);
            assert("-"@ =~= seq!['-']);
            assert("]"@ =~= seq![']']);
            assert("["@ =~= seq!['[']);
            assert("[-]]"@ =~= seq!['[', '-', ']', ']']);
            assert(compare_equal_m(
                old(self)@,
                result_addr as nat,
                left_addr as nat,
                right_addr as nat,
            ) == Some(self@));
        }
        Ok(())
    }

    /// Evaluates an expression into a cell and returns its address.
    #[verifier::rlimit(100)]
    fn evaluate_expression(&mut self, expr: &Expr) -> (r: TranspilerResult<usize>)
        ensures
            match r {
                Ok(a) => eval_expr_m(old(self)@, *expr) == Some((final(self)@, a as nat)),
                Err(_) => eval_expr_m(old(self)@, *expr) is None,
            },
        decreases *expr, 0int,
    {
        match expr {
            Expr::Number(n) => {
                let addr = self.get_temp_addr()?;
                self.set_value(addr, *n);
                Ok(addr)
            }
            Expr::Variable(name) => {
                match self.get_variable(name.as_str()) {
                    Some(addr) => Ok(addr),
                    None => {
                        let addr = self.get_temp_addr()?;
                        self.set_value(addr, 0);
                        Ok(addr)
                    }
                }
            }
            Expr::Binary { left, operator, right } => {
                let left_addr = self.evaluate_expression(&**left)?;
                let right_addr = self.evaluate_expression(&**right)?;
                let result_addr = self.get_temp_addr()?;
                match operator {
                    BinaryOp::Add => {
                        self.add_values(result_addr, left_addr, right_addr)?;
                    }
                    BinaryOp::Sub => {
                        self.sub_values(result_addr, left_addr, right_addr)?;
                    }
                    BinaryOp::Equal => {
                        self.compare_equal(result_addr, left_addr, right_addr)?;
                    }
                    BinaryOp::NotEqual => {
                        self.compare_equal(result_addr, left_addr, right_addr)?;
                        let temp = self.get_temp_addr()?;
                        self.move_to(temp);
                        self.emit_str("+");
                        self.move_to(result_addr);
                        self.emit_str("[-");
                        self.move_to(temp);
                        self.emit_str("-");
                        self.move_to(result_addr);
                        self.emit_str("]");
                        self.move_to(temp);
                        self.emit_str("[-");
                        self.move_to(result_addr);
                        self.emit_str("+");
                        self.move_to(temp);
                        self.emit_str("]");
                        proof {
                            reveal_strlit("+");
                            reveal_strlit("[-");
                            reveal_strlit("-");
                            reveal_strlit("]");
                            assert("+"@ =~= seq!['+']);
                            assert("[-"@ =~= seq!['[', '-']);
                            assert("-"@ =~= seq!['-']);
                            assert("]"@ =~= seq![']']);
                        }
                    }
                    BinaryOp::Less => {
                        self.copy_value(left_addr, result_addr)?;
                    }
                    BinaryOp::Greater => {
                        self.copy_value(left_addr, result_addr)?;
                    }
                    BinaryOp::Mul => {
                        self.copy_value(left_addr, result_addr)?;
                    }
                    BinaryOp::Div => {
                        self.copy_value(left_addr, result_addr)?;
                    }
                }
                Ok(result_addr)
            }
        }
    }

    /// Evaluates a condition: a top-level `==` goes straight to the
    /// equality primitive; a top-level `>` evaluates its left side only.
    fn evaluate_condition(&mut self, condition: &Expr) -> (r: TranspilerResult<usize>)
        ensures
            match r {
                Ok(a) => eval_cond_m(old(self)@, *condition) == Some((final(self)@, a as nat)),
                Err(_) => eval_cond_m(old(self)@, *condition) is None,
            },
        decreases *condition, 1int,
    {
        match condition {
            Expr::Binary { left, operator, right } => {
                if *operator == BinaryOp::Equal {
                    let left_addr = self.evaluate_expression(&**left)?;
                    let right_addr = self.evaluate_expression(&**right)?;
                    let result_addr = self.get_temp_addr()?;
                    self.compare_equal(result_addr, left_addr, right_addr)?;
                    Ok(result_addr)
                } else if *operator == BinaryOp::Greater {
                    self.evaluate_expression(&**left)
                } else {
                    self.evaluate_expression(condition)
                }
            }
            _ => self.evaluate_expression(condition),
        }
    }

    /// Lowers one statement.
    #[verifier::rlimit(100)]
    fn lower_stmt(&mut self, stmt: &Stmt) -> (r: TranspilerResult<()>)
        ensures
            match r {
                Ok(_) => visit_stmt_m(old(self)@, *stmt) == Some(final(self)@),
                Err(_) => visit_stmt_m(old(self)@, *stmt) is None,
            },
        decreases *stmt,
    {
        match stmt {
            Stmt::Let { name, mutable, value } => {
                let addr = self.allocate_variable(name.as_str())?;
                let value_addr = self.evaluate_expression(value)?;
                self.copy_value(value_addr, addr)?;
                Ok(())
            }
            Stmt::Assign { name, value } => {
                match self.get_variable(name.as_str()) {
                    Some(addr) => {
                        let value_addr = self.evaluate_expression(value)?;
                        self.copy_value(value_addr, addr)?;
                        Ok(())
                    }
                    None => Ok(()),
                }
            }
            Stmt::Print(value) => {
                let addr = self.evaluate_expression(value)?;
                self.move_to(addr);
                self.emit_str(".");
                proof {
                    reveal_strlit(".");
                    assert("."@ =~= seq!['.']);
                }
                Ok(())
            }
            Stmt::If { condition, body } => {
                proof {
                    reveal_strlit("[");
                    reveal_strlit("]");
                    assert("["@ =~= seq!['[']);
                    assert("]"@ =~= seq![']']);
                }
                let condition_addr = self.evaluate_condition(condition)?;
                self.move_to(condition_addr);
                self.emit_str("[");
                self.lower_stmts(body)?;
                self.move_to(condition_addr);
                self.clear_cell();
                self.emit_str("]");
                Ok(())
            }
            Stmt::While { condition, body } => {
                proof {
                    reveal_strlit("[");
                    reveal_strlit("]");
                    assert("["@ =~= seq!['[']);
                    assert("]"@ =~= seq![']']);
                }
                let condition_addr = self.evaluate_condition(condition)?;
                self.move_to(condition_addr);
                self.emit_str("[");
                self.lower_stmts(body)?;
                let new_condition_addr = self.evaluate_condition(condition)?;
                self.copy_value(new_condition_addr, condition_addr)?;
                self.move_to(condition_addr);
                self.emit_str("]");
                Ok(())
            }
        }
    }

    /// Lowers a statement sequence in order.
    fn lower_stmts(&mut self, stmts: &Vec<Stmt>) -> (r: TranspilerResult<()>)
        ensures
            match r {
                Ok(_) => visit_stmts_m(old(self)@, stmts@) == Some(final(self)@),
                Err(_) => visit_stmts_m(old(self)@, stmts@) is None,
            },
        decreases *stmts,
    {
        let mut i: usize = 0;
        proof {
            assert(stmts@.skip(0) =~= stmts@);
        }
        while i < stmts.len()
            invariant
                i <= stmts@.len(),
                visit_stmts_m(old(self)@, stmts@) == visit_stmts_m(self@, stmts@.skip(i as int)),
            decreases stmts@.len() - i,
        {
            proof {
                assert(stmts@.skip(i as int)[0] == stmts@[i as int]);
                assert(stmts@.skip(i as int).drop_first() =~= stmts@.skip(i as int + 1));
            }
            match self.lower_stmt(&stmts[i]) {
                Ok(_) => {}
                Err(e) => {
                    return Err(e);
                }
            }
            i = i + 1;
        }
        proof {
            assert(stmts@.skip(stmts@.len() as int) =~= Seq::<Stmt>::empty());
        }
        Ok(())
    }

    /// Lowers a whole program and hands back the emitted Brainfuck.  The
    /// result is exactly the output of the spec-level mirror; it fails
    /// only when a cell allocator is exhausted.
    pub fn generate(&mut self, program: &Program) -> (r: TranspilerResult<String>)
        requires
            true,
        ensures
            match r {
                Ok(code) => ({
                    &&& visit_program_m(old(self)@, program@) == Some(final(self)@)
                    &&& code@ == final(self)@.output
                }),
                Err(_) => visit_program_m(old(self)@, program@) is None,
            },
    {
        match self.lower_stmts(program) {
            Ok(_) => Ok(self.output.clone()),
            Err(e) => Err(e),
        }
    }
}

impl Visitor<()> for BrainfuckGenerator {
    fn visit_program(&mut self, program: &Program) -> () {
        let _ = self.lower_stmts(program);
    }

    fn visit_stmt(&mut self, stmt: &Stmt) -> () {
        let _ = self.lower_stmt(stmt);
    }

    fn visit_expr(&mut self, expr: &Expr) -> () {
        let _ = self.evaluate_expression(expr);
    }
}


// ----------------------------------------------------------------------
// Bracket balance of the emitted program.
//
// Every mirror function keeps the bracket shape of the output: the net
// nesting and the low point are unchanged, and the output stays within
// the Brainfuck alphabet.  From an empty output this gives balance.
// ----------------------------------------------------------------------

/// One emission step preserves the bracket shape of the output when the
/// emitted fragment is itself balanced and within the alphabet.
pub open spec fn keeps_shape(m0: GenModel, m1: GenModel) -> bool {
    &&& nesting(m1.output) == nesting(m0.output)
    &&& low_point(m1.output) == low_point(m0.output)
    &&& (all_bf(m0.output) ==> all_bf(m1.output))
}

/// The low point of a sequence is never positive and never above the
/// final nesting.
pub proof fn lemma_low_le_nesting(s: Seq<char>)
    ensures
        low_point(s) <= nesting(s),
        low_point(s) <= 0,
    decreases s.len(),
{
    if s.len() > 0 {
        lemma_low_le_nesting(s.drop_last());
    }
}

/// How one emission changes the nesting, the low point and the alphabet
/// of the whole output.
proof fn lemma_emit_concat(m: GenModel, s: Seq<char>)
    ensures
        nesting(emit_m(m, s).output) == nesting(m.output) + nesting(s),
        low_point(emit_m(m, s).output) == if low_point(m.output) <= nesting(m.output)
            + low_point(s) {
            low_point(m.output)
        } else {
            nesting(m.output) + low_point(s)
        },
        all_bf(m.output) && all_bf(s) ==> all_bf(emit_m(m, s).output),
{
    lemma_nesting_concat(m.output, s);
    if all_bf(m.output) && all_bf(s) {
        lemma_all_bf_concat(m.output, s);
    }
}

/// An emission of a balanced fragment over the alphabet keeps the shape.
proof fn lemma_emit_keeps(m: GenModel, s: Seq<char>)
    requires
        balanced(s),
        all_bf(s),
    ensures
        keeps_shape(m, emit_m(m, s)),
{
    lemma_emit_concat(m, s);
    lemma_low_le_nesting(m.output);
}

/// The shape of a two-character fragment.
proof fn lemma_pair_shape(c1: char, c2: char)
    ensures
        nesting(seq![c1, c2]) == bracket_weight(c1) + bracket_weight(c2),
        low_point(seq![c1, c2]) == {
            let w1 = if bracket_weight(c1) <= 0 { bracket_weight(c1) } else { 0 };
            let w12 = bracket_weight(c1) + bracket_weight(c2);
            if w1 <= w12 { w1 } else { w12 }
        },
{
    lemma_nesting_single(c1);
    lemma_nesting_single(c2);
    assert(seq![c1, c2] =~= seq![c1] + seq![c2]);
    lemma_nesting_concat(seq![c1], seq![c2]);
}

/// A singleton or pair over the alphabet is within the alphabet.
proof fn lemma_small_all_bf(c1: char, c2: char)
    requires
        crate::bf::is_bf_char(c1),
        crate::bf::is_bf_char(c2),
    ensures
        all_bf(seq![c1]),
        all_bf(seq![c1, c2]),
{
}

/// The shape of the clear fragment: balanced and within the alphabet.
proof fn lemma_clear_shape()
    ensures
        balanced(clear_code()),
        all_bf(clear_code()),
{
    lemma_pair_shape('[', '-');
    lemma_nesting_single(']');
    assert(clear_code() =~= seq!['[', '-'] + seq![']']);
    lemma_nesting_concat(seq!['[', '-'], seq![']']);
    lemma_small_all_bf('[', '-');
    lemma_small_all_bf(']', ']');
    lemma_all_bf_concat(seq!['[', '-'], seq![']']);
}

/// A head move keeps the shape.
proof fn lemma_move_keeps(m: GenModel, t: nat)
    ensures
        keeps_shape(m, move_to_m(m, t)),
        move_to_m(m, t).output == emit_m(m, moves_code(m.head, t)).output,
{
    lemma_rep_balanced('>', (t - m.head) as nat);
    lemma_rep_balanced('<', (m.head - t) as nat);
    lemma_emit_keeps(m, moves_code(m.head, t));
}

/// Clearing a cell keeps the shape.
proof fn lemma_clear_keeps(m: GenModel)
    ensures
        keeps_shape(m, clear_m(m)),
{
    lemma_clear_shape();
    lemma_emit_keeps(m, clear_code());
}

/// Shape preservation is transitive.
proof fn lemma_keeps_trans(m0: GenModel, m1: GenModel, m2: GenModel)
    requires
        keeps_shape(m0, m1),
        keeps_shape(m1, m2),
    ensures
        keeps_shape(m0, m2),
{
}

/// The square-decomposition fragment of `set_value_m` keeps the shape:
/// its one bracket pair for the multiply loop and one for the drain are
/// each closed.
proof fn lemma_set_value_keeps(m: GenModel, addr: nat, v: int)
    ensures
        keeps_shape(m, set_value_m(m, addr, v)),
{
    let m1 = clear_m(move_to_m(m, addr));
    lemma_move_keeps(m, addr);
    lemma_clear_keeps(move_to_m(m, addr));
    lemma_low_le_nesting(m1.output);
    if v >= 10 {
        let q = isqrt_s(v);
        let r = (v - q * q) as nat;
        lemma_rep_balanced('+', q);
        lemma_rep_balanced('+', r);
        lemma_rep_balanced('-', 0);
        lemma_nesting_single('[');
        lemma_nesting_single('+');
        lemma_nesting_single(']');
        lemma_pair_shape('-', ']');
        lemma_pair_shape('[', '-');
        lemma_small_all_bf('[', '-');
        lemma_small_all_bf('-', ']');
        lemma_small_all_bf('+', '+');
        lemma_small_all_bf(']', ']');
        let m2 = emit_m(m1, rep('+', q));
        lemma_emit_keeps(m1, rep('+', q));
        let m3 = emit_m(m2, seq!['[']);
        lemma_emit_concat(m2, seq!['[']);
        let m4 = emit_m(move_to_m(m3, addr + 1), rep('+', q));
        lemma_move_keeps(m3, addr + 1);
        lemma_emit_keeps(move_to_m(m3, addr + 1), rep('+', q));
        let m5 = emit_m(move_to_m(m4, addr), seq!['-', ']']);
        lemma_move_keeps(m4, addr);
        lemma_emit_concat(move_to_m(m4, addr), seq!['-', ']']);
        let m6 = emit_m(move_to_m(m5, addr + 1), seq!['[', '-']);
        lemma_move_keeps(m5, addr + 1);
        lemma_emit_concat(move_to_m(m5, addr + 1), seq!['[', '-']);
        let m7 = emit_m(move_to_m(m6, addr), seq!['+']);
        lemma_move_keeps(m6, addr);
        lemma_emit_keeps(move_to_m(m6, addr), seq!['+']);
        let m8 = emit_m(move_to_m(m7, addr + 1), seq![']']);
        lemma_move_keeps(m7, addr + 1);
        lemma_emit_concat(move_to_m(m7, addr + 1), seq![']']);
        lemma_move_keeps(m8, addr);
        lemma_emit_keeps(move_to_m(m8, addr), rep('+', r));
        lemma_low_le_nesting(m.output);
    } else if v > 0 {
        lemma_rep_balanced('+', v as nat);
        lemma_emit_keeps(m1, rep('+', v as nat));
    } else if v < 0 {
        lemma_rep_balanced('-', (-v) as nat);
        lemma_emit_keeps(m1, rep('-', (-v) as nat));
    }
}

/// The copy fragment keeps the shape: both of its loops close.
proof fn lemma_copy_keeps(m: GenModel, from: nat, to: nat)
    ensures
        copy_value_m(m, from, to) matches Some(m9) ==> keeps_shape(m, m9),
    decreases 0int,
{
    if m.next_temp < usize::MAX as nat {
        let temp = m.next_temp;
        let m0 = GenModel { next_temp: m.next_temp + 1, ..m };
        lemma_pair_shape('[', '-');
        lemma_nesting_single('+');
        lemma_nesting_single(']');
        lemma_small_all_bf('[', '-');
        lemma_small_all_bf('+', '+');
        lemma_small_all_bf(']', ']');
        let m1 = clear_m(move_to_m(m0, to));
        lemma_move_keeps(m0, to);
        lemma_clear_keeps(move_to_m(m0, to));
        let m2 = clear_m(move_to_m(m1, temp));
        lemma_move_keeps(m1, temp);
        lemma_clear_keeps(move_to_m(m1, temp));
        let m3 = emit_m(move_to_m(m2, from), seq!['[', '-']);
        lemma_move_keeps(m2, from);
        lemma_emit_concat(move_to_m(m2, from), seq!['[', '-']);
        let m4 = emit_m(move_to_m(m3, to), seq!['+']);
        lemma_move_keeps(m3, to);
        lemma_emit_keeps(move_to_m(m3, to), seq!['+']);
        let m5 = emit_m(move_to_m(m4, temp), seq!['+']);
        lemma_move_keeps(m4, temp);
        lemma_emit_keeps(move_to_m(m4, temp), seq!['+']);
        let m6 = emit_m(move_to_m(m5, from), seq![']']);
        lemma_move_keeps(m5, from);
        lemma_emit_concat(move_to_m(m5, from), seq![']']);
        let m7 = emit_m(move_to_m(m6, temp), seq!['[', '-']);
        lemma_move_keeps(m6, temp);
        lemma_emit_concat(move_to_m(m6, temp), seq!['[', '-']);
        let m8 = emit_m(move_to_m(m7, from), seq!['+']);
        lemma_move_keeps(m7, from);
        lemma_emit_keeps(move_to_m(m7, from), seq!['+']);
        lemma_move_keeps(m8, temp);
        lemma_emit_concat(move_to_m(m8, temp), seq![']']);
        lemma_low_le_nesting(m.output);
    }
}

/// The drain loop shared by addition and subtraction keeps the shape.
proof fn lemma_drain_keeps(m: GenModel, temp: nat, result_addr: nat, c: char)
    requires
        c == '+' || c == '-',
    ensures
        keeps_shape(
            m,
            emit_m(
                move_to_m(emit_m(move_to_m(emit_m(move_to_m(m, temp), seq!['[', '-']), result_addr), seq![c]), temp),
                seq![']'],
            ),
        ),
{
    lemma_pair_shape('[', '-');
    lemma_nesting_single(c);
    lemma_nesting_single(']');
    lemma_small_all_bf('[', '-');
    lemma_small_all_bf(c, c);
    lemma_small_all_bf(']', ']');
    let m3 = emit_m(move_to_m(m, temp), seq!['[', '-']);
    lemma_move_keeps(m, temp);
    lemma_emit_concat(move_to_m(m, temp), seq!['[', '-']);
    let m4 = emit_m(move_to_m(m3, result_addr), seq![c]);
    lemma_move_keeps(m3, result_addr);
    lemma_emit_concat(move_to_m(m3, result_addr), seq![c]);
    lemma_move_keeps(m4, temp);
    lemma_emit_concat(move_to_m(m4, temp), seq![']']);
    lemma_low_le_nesting(m.output);
}

/// Addition keeps the shape.
proof fn lemma_add_keeps(m: GenModel, result_addr: nat, left_addr: nat, right_addr: nat)
    ensures
        add_values_m(m, result_addr, left_addr, right_addr) matches Some(mz) ==> keeps_shape(
            m,
            mz,
        ),
{
    lemma_copy_keeps(m, left_addr, result_addr);
    if let Some(m1) = copy_value_m(m, left_addr, result_addr) {
        if m1.next_temp < usize::MAX as nat {
            let temp = m1.next_temp;
            let m2 = GenModel { next_temp: m1.next_temp + 1, ..m1 };
            lemma_copy_keeps(m2, right_addr, temp);
            if let Some(m3) = copy_value_m(m2, right_addr, temp) {
                lemma_drain_keeps(m3, temp, result_addr, '+');
            }
        }
    }
}

/// Subtraction keeps the shape.
proof fn lemma_sub_keeps(m: GenModel, result_addr: nat, left_addr: nat, right_addr: nat)
    ensures
        sub_values_m(m, result_addr, left_addr, right_addr) matches Some(mz) ==> keeps_shape(
            m,
            mz,
        ),
{
    lemma_copy_keeps(m, left_addr, result_addr);
    if let Some(m1) = copy_value_m(m, left_addr, result_addr) {
        if m1.next_temp < usize::MAX as nat {
            let temp = m1.next_temp;
            let m2 = GenModel { next_temp: m1.next_temp + 1, ..m1 };
            lemma_copy_keeps(m2, right_addr, temp);
            if let Some(m3) = copy_value_m(m2, right_addr, temp) {
                lemma_drain_keeps(m3, temp, result_addr, '-');
            }
        }
    }
}

/// The equality comparison keeps the shape: the subtraction loop and the
/// conditional clear both close their brackets.
#[verifier::rlimit(100)]
#[verifier::spinoff_prover]
proof fn lemma_compare_keeps(m: GenModel, result_addr: nat, left_addr: nat, right_addr: nat)
    ensures
        compare_equal_m(m, result_addr, left_addr, right_addr) matches Some(mz) ==> keeps_shape(
            m,
            mz,
        ),
{
    if m.next_temp + 1 < usize::MAX as nat {
        let temp1 = m.next_temp;
        let temp2 = m.next_temp + 1;
        let m0 = GenModel { next_temp: m.next_temp + 2, ..m };
        lemma_copy_keeps(m0, left_addr, temp1);
        if let Some(m1) = copy_value_m(m0, left_addr, temp1) {
            lemma_copy_keeps(m1, right_addr, temp2);
            if let Some(m2) = copy_value_m(m1, right_addr, temp2) {
                lemma_nesting_single('+');
                lemma_nesting_single('-');
                lemma_nesting_single('[');
                lemma_nesting_single(']');
                lemma_pair_shape('[', '-');
                lemma_small_all_bf('+', '+');
                lemma_small_all_bf('-', '-');
                lemma_small_all_bf('[', '-');
                lemma_small_all_bf(']', ']');
                lemma_small_all_bf('[', '[');
                let m3 = emit_m(clear_m(move_to_m(m2, result_addr)), seq!['+']);
                lemma_move_keeps(m2, result_addr);
                lemma_clear_keeps(move_to_m(m2, result_addr));
                lemma_emit_keeps(clear_m(move_to_m(m2, result_addr)), seq!['+']);
                let m4 = emit_m(move_to_m(m3, temp2), seq!['[', '-']);
                lemma_move_keeps(m3, temp2);
                lemma_emit_concat(move_to_m(m3, temp2), seq!['[', '-']);
                let m5 = emit_m(move_to_m(m4, temp1), seq!['-']);
                lemma_move_keeps(m4, temp1);
                lemma_emit_concat(move_to_m(m4, temp1), seq!['-']);
                let m6 = emit_m(move_to_m(m5, temp2), seq![']']);
                lemma_move_keeps(m5, temp2);
                lemma_emit_concat(move_to_m(m5, temp2), seq![']']);
                let m7 = emit_m(move_to_m(m6, temp1), seq!['[']);
                lemma_move_keeps(m6, temp1);
                lemma_emit_concat(move_to_m(m6, temp1), seq!['[']);
                let m8 = emit_m(move_to_m(m7, result_addr), seq!['-']);
                lemma_move_keeps(m7, result_addr);
                lemma_emit_concat(move_to_m(m7, result_addr), seq!['-']);
                lemma_move_keeps(m8, temp1);
                let tail = seq!['[', '-', ']', ']'];
                assert(tail =~= clear_code() + seq![']']);
                lemma_clear_shape();
                lemma_nesting_concat(clear_code(), seq![']']);
                lemma_all_bf_concat(clear_code(), seq![']']);
                lemma_emit_concat(move_to_m(m8, temp1), tail);
                lemma_low_le_nesting(m.output);
            }
        }
    }
}

/// The bit-flip fragment for `!=` keeps the shape.
proof fn lemma_flip_keeps(m: GenModel, result_addr: nat, temp: nat)
    ensures
        keeps_shape(m, flip_m(m, result_addr, temp)),
{
    lemma_nesting_single('+');
    lemma_small_all_bf('+', '+');
    let m1 = emit_m(move_to_m(m, temp), seq!['+']);
    lemma_move_keeps(m, temp);
    lemma_emit_keeps(move_to_m(m, temp), seq!['+']);
    lemma_drain_keeps(m1, result_addr, temp, '-');
    let m4 = emit_m(
        move_to_m(emit_m(move_to_m(emit_m(move_to_m(m1, result_addr), seq!['[', '-']), temp), seq!['-']), result_addr),
        seq![']'],
    );
    lemma_drain_keeps(m4, temp, result_addr, '+');
}

/// Expression evaluation keeps the shape of the output.
proof fn lemma_eval_keeps(m: GenModel, e: Expr)
    ensures
        eval_expr_m(m, e) matches Some((m1, a)) ==> keeps_shape(m, m1),
    decreases e, 0int,
{
    match e {
        Expr::Number(n) => {
            if m.next_temp < usize::MAX as nat {
                let m0 = GenModel { next_temp: m.next_temp + 1, ..m };
                lemma_set_value_keeps(m0, m.next_temp, n as int);
            }
        },
        Expr::Variable(name) => {
            if lookup_var(m.vars, name@) is None && m.next_temp < usize::MAX as nat {
                let m0 = GenModel { next_temp: m.next_temp + 1, ..m };
                lemma_set_value_keeps(m0, m.next_temp, 0);
            }
        },
        Expr::Binary { left, operator, right } => {
            lemma_eval_keeps(m, *left);
            if let Some((ml, la)) = eval_expr_m(m, *left) {
                lemma_eval_keeps(ml, *right);
                if let Some((mr, ra)) = eval_expr_m(ml, *right) {
                    if mr.next_temp < usize::MAX as nat {
                        let res = mr.next_temp;
                        let m0 = GenModel { next_temp: mr.next_temp + 1, ..mr };
                        match operator {
                            BinaryOp::Add => {
                                lemma_add_keeps(m0, res, la, ra);
                            },
                            BinaryOp::Sub => {
                                lemma_sub_keeps(m0, res, la, ra);
                            },
                            BinaryOp::Equal => {
                                lemma_compare_keeps(m0, res, la, ra);
                            },
                            BinaryOp::NotEqual => {
                                lemma_compare_keeps(m0, res, la, ra);
                                if let Some(m1) = compare_equal_m(m0, res, la, ra) {
                                    if m1.next_temp < usize::MAX as nat {
                                        let m2 = GenModel { next_temp: m1.next_temp + 1, ..m1 };
                                        lemma_flip_keeps(m2, res, m1.next_temp);
                                    }
                                }
                            },
                            BinaryOp::Less => {
                                lemma_copy_keeps(m0, la, res);
                            },
                            BinaryOp::Greater => {
                                lemma_copy_keeps(m0, la, res);
                            },
                            BinaryOp::Mul => {
                                lemma_copy_keeps(m0, la, res);
                            },
                            BinaryOp::Div => {
                                lemma_copy_keeps(m0, la, res);
                            },
                        }
                    }
                }
            }
        },
    }
}

/// Condition evaluation keeps the shape of the output.
proof fn lemma_cond_keeps(m: GenModel, e: Expr)
    ensures
        eval_cond_m(m, e) matches Some((m1, a)) ==> keeps_shape(m, m1),
    decreases e, 1int,
{
    match e {
        Expr::Binary { left, operator, right } => {
            if operator == BinaryOp::Equal {
                lemma_eval_keeps(m, *left);
                if let Some((ml, la)) = eval_expr_m(m, *left) {
                    lemma_eval_keeps(ml, *right);
                    if let Some((mr, ra)) = eval_expr_m(ml, *right) {
                        if mr.next_temp < usize::MAX as nat {
                            let m0 = GenModel { next_temp: mr.next_temp + 1, ..mr };
                            lemma_compare_keeps(m0, mr.next_temp, la, ra);
                        }
                    }
                }
            } else if operator == BinaryOp::Greater {
                lemma_eval_keeps(m, *left);
            } else {
                lemma_eval_keeps(m, Expr::Binary { left, operator, right });
            }
        },
        _ => {
            lemma_eval_keeps(m, e);
        },
    }
}

/// Statement lowering keeps the shape: the bracket a conditional or loop
/// opens is closed before the statement ends.
#[verifier::rlimit(100)]
#[verifier::spinoff_prover]
proof fn lemma_stmt_keeps(m: GenModel, s: Stmt)
    ensures
        visit_stmt_m(m, s) matches Some(m1) ==> keeps_shape(m, m1),
    decreases s, 1int,
{
    match s {
        Stmt::Let { name, mutable, value } => {
            if let Some((m1, addr)) = alloc_var_m(m, name@) {
                lemma_eval_keeps(m1, value);
                if let Some((m2, va)) = eval_expr_m(m1, value) {
                    lemma_copy_keeps(m2, va, addr);
                }
            }
        },
        Stmt::Assign { name, value } => {
            if let Some(addr) = lookup_var(m.vars, name@) {
                lemma_eval_keeps(m, value);
                if let Some((m1, va)) = eval_expr_m(m, value) {
                    lemma_copy_keeps(m1, va, addr);
                }
            }
        },
        Stmt::Print(value) => {
            lemma_eval_keeps(m, value);
            if let Some((m1, a)) = eval_expr_m(m, value) {
                lemma_move_keeps(m1, a);
                lemma_nesting_single('.');
                lemma_small_all_bf('.', '.');
                lemma_emit_keeps(move_to_m(m1, a), seq!['.']);
            }
        },
        Stmt::If { condition, body } => {
            lemma_cond_keeps(m, condition);
            if let Some((m1, c)) = eval_cond_m(m, condition) {
                lemma_move_keeps(m1, c);
                lemma_nesting_single('[');
                lemma_nesting_single(']');
                lemma_small_all_bf('[', '[');
                lemma_small_all_bf(']', ']');
                let m2 = emit_m(move_to_m(m1, c), seq!['[']);
                lemma_emit_concat(move_to_m(m1, c), seq!['[']);
                lemma_low_le_nesting(m.output);
                lemma_stmts_keep(m2, body@);
                if let Some(m3) = visit_stmts_m(m2, body@) {
                    lemma_move_keeps(m3, c);
                    lemma_clear_keeps(move_to_m(m3, c));
                    lemma_emit_concat(clear_m(move_to_m(m3, c)), seq![']']);
                }
            }
        },
        Stmt::While { condition, body } => {
            lemma_cond_keeps(m, condition);
            if let Some((m1, c)) = eval_cond_m(m, condition) {
                lemma_move_keeps(m1, c);
                lemma_nesting_single('[');
                lemma_nesting_single(']');
                lemma_small_all_bf('[', '[');
                lemma_small_all_bf(']', ']');
                let m2 = emit_m(move_to_m(m1, c), seq!['[']);
                lemma_emit_concat(move_to_m(m1, c), seq!['[']);
                lemma_low_le_nesting(m.output);
                lemma_stmts_keep(m2, body@);
                if let Some(m3) = visit_stmts_m(m2, body@) {
                    lemma_cond_keeps(m3, condition);
                    if let Some((m4, c2)) = eval_cond_m(m3, condition) {
                        lemma_copy_keeps(m4, c2, c);
                        if let Some(m5) = copy_value_m(m4, c2, c) {
                            lemma_move_keeps(m5, c);
                            lemma_emit_concat(move_to_m(m5, c), seq![']']);
                        }
                    }
                }
            }
        },
    }
}

/// Lowering a statement sequence keeps the shape.
proof fn lemma_stmts_keep(m: GenModel, ss: Seq<Stmt>)
    ensures
        visit_stmts_m(m, ss) matches Some(m1) ==> keeps_shape(m, m1),
    decreases ss, 2int,
{
    if ss.len() > 0 {
        lemma_stmt_keeps(m, ss[0]);
        if let Some(m1) = visit_stmt_m(m, ss[0]) {
            lemma_stmts_keep(m1, ss.drop_first());
        }
    }
}

/// Brackets in the emitted Brainfuck are balanced: in every prefix the
/// count of `[` is at least the count of `]`, with equality over the
/// whole program; and the program stays within the Brainfuck alphabet
/// (`,` is never emitted).  This holds of whatever `generate` returns on
/// a fresh generator, whose model is `init_model()`.
pub proof fn theorem_generate_balanced(prog: Seq<Stmt>, m1: GenModel)
    requires
        visit_program_m(init_model(), prog) == Some(m1),
    ensures
        balanced(m1.output),
        all_bf(m1.output),
{
    assert(nesting(Seq::<char>::empty()) == 0);
    assert(low_point(Seq::<char>::empty()) == 0);
    lemma_stmts_keep(init_model(), prog);
}


// ----------------------------------------------------------------------
// What the primitive fragments do on the Brainfuck machine.
//
// Each primitive's emitted text is the flattening of a structured
// program, and running that program from the modelled head position
// leaves the tape in the primitive's documented postcondition, with the
// runtime head where the model says it is.
// ----------------------------------------------------------------------

/// The structure of the `set_value` fragment: move, clear, and build the
/// value, through the square decomposition for ten and above.
pub open spec fn set_value_struct(h0: nat, addr: nat, v: int) -> Code {
    seq_code(
        moves_struct(h0, addr),
        seq_code(
            clear_struct(),
            if v >= 10 {
                let q = isqrt_s(v);
                let r = (v - q * q) as nat;
                seq_code(
                    op_run('+', q),
                    seq_code(
                        mul_loop(addr, addr + 1, q),
                        seq_code(
                            moves_struct(addr, addr + 1),
                            seq_code(
                                drain_loop(addr + 1, addr, '+'),
                                seq_code(moves_struct(addr + 1, addr), op_run('+', r)),
                            ),
                        ),
                    ),
                )
            } else if v > 0 {
                op_run('+', v as nat)
            } else if v < 0 {
                op_run('-', (-v) as nat)
            } else {
                Code::Done
            },
        ),
    )
}

/// The text `set_value` appends is the flattening of its structure.
#[verifier::rlimit(100)]
#[verifier::spinoff_prover]
pub proof fn lemma_set_value_text(m: GenModel, addr: nat, v: int)
    ensures
        set_value_m(m, addr, v).output == m.output + flatten(set_value_struct(m.head, addr, v)),
{
    let h0 = m.head;
    lemma_flatten_op_run('>', (addr - h0) as nat);
    lemma_flatten_op_run('<', (h0 - addr) as nat);
    lemma_flatten_op_run('>', 1);
    lemma_flatten_op_run('<', 1);
    assert(flatten(Code::Done) =~= Seq::<char>::empty());
    assert(flatten(Code::Op('-', Box::new(Code::Done))) =~= seq!['-']);
    assert(flatten(clear_struct()) =~= clear_code());
    if v >= 10 {
        let q = isqrt_s(v);
        let r = (v - q * q) as nat;
        lemma_isqrt_bounds(v);
        lemma_flatten_op_run('+', q);
        lemma_flatten_op_run('+', r);
        lemma_flatten_op_run('-', 1);
        lemma_flatten_op_run('+', 1);
        let tail = seq_code(
            op_run('+', q),
            seq_code(
                mul_loop(addr, addr + 1, q),
                seq_code(
                    moves_struct(addr, addr + 1),
                    seq_code(
                        drain_loop(addr + 1, addr, '+'),
                        seq_code(moves_struct(addr + 1, addr), op_run('+', r)),
                    ),
                ),
            ),
        );
        lemma_flatten_seq(moves_struct(addr + 1, addr), op_run('+', r));
        lemma_flatten_seq(
            drain_loop(addr + 1, addr, '+'),
            seq_code(moves_struct(addr + 1, addr), op_run('+', r)),
        );
        lemma_flatten_seq(
            moves_struct(addr, addr + 1),
            seq_code(
                drain_loop(addr + 1, addr, '+'),
                seq_code(moves_struct(addr + 1, addr), op_run('+', r)),
            ),
        );
        lemma_flatten_seq(
            mul_loop(addr, addr + 1, q),
            seq_code(
                moves_struct(addr, addr + 1),
                seq_code(
                    drain_loop(addr + 1, addr, '+'),
                    seq_code(moves_struct(addr + 1, addr), op_run('+', r)),
                ),
            ),
        );
        lemma_flatten_seq(op_run('+', q), seq_code(
            mul_loop(addr, addr + 1, q),
            seq_code(
                moves_struct(addr, addr + 1),
                seq_code(
                    drain_loop(addr + 1, addr, '+'),
                    seq_code(moves_struct(addr + 1, addr), op_run('+', r)),
                ),
            ),
        ));
        lemma_flatten_seq(
            crate::bf::mul_body(addr, addr + 1, q),
            Code::Done,
        );
        lemma_flatten_seq(moves_struct(addr, addr + 1), seq_code(
            op_run('+', q),
            seq_code(moves_struct(addr + 1, addr), op_run('-', 1)),
        ));
        lemma_flatten_seq(op_run('+', q), seq_code(moves_struct(addr + 1, addr), op_run('-', 1)));
        lemma_flatten_seq(moves_struct(addr + 1, addr), op_run('-', 1));
        lemma_flatten_seq(op_run('-', 1), seq_code(
            moves_struct(addr + 1, addr),
            seq_code(op_run('+', 1), moves_struct(addr, addr + 1)),
        ));
        lemma_flatten_seq(moves_struct(addr + 1, addr), seq_code(
            op_run('+', 1),
            moves_struct(addr, addr + 1),
        ));
        lemma_flatten_seq(op_run('+', 1), moves_struct(addr, addr + 1));
        lemma_flatten_seq(clear_struct(), tail);
        lemma_flatten_seq(moves_struct(h0, addr), seq_code(clear_struct(), tail));
        assert(set_value_m(m, addr, v).output =~= m.output + flatten(
            set_value_struct(h0, addr, v),
        ));
    } else {
        let tail = if v > 0 {
            op_run('+', v as nat)
        } else if v < 0 {
            op_run('-', (-v) as nat)
        } else {
            Code::Done
        };
        if v > 0 {
            lemma_flatten_op_run('+', v as nat);
        } else if v < 0 {
            lemma_flatten_op_run('-', (-v) as nat);
        }
        lemma_flatten_seq(clear_struct(), tail);
        lemma_flatten_seq(moves_struct(h0, addr), seq_code(clear_struct(), tail));
        assert(set_value_m(m, addr, v).output =~= m.output + flatten(
            set_value_struct(h0, addr, v),
        ));
    }
}

/// `set_value(addr, v)` followed by a read of `addr` yields `v` for any
/// `0 <= v <= 255`: running its fragment from the modelled head position
/// puts `v` into the cell at `addr`, returns the scratch cell at
/// `addr + 1` to zero (and does not touch it at all below ten), touches
/// no other cell, writes no output, and leaves the runtime head where
/// the model says.
#[verifier::rlimit(100)]
#[verifier::spinoff_prover]
pub proof fn theorem_set_value_runs(m: GenModel, addr: nat, v: int, st: BfState, f: nat)
    requires
        0 <= v <= 255,
        st.head == m.head,
        v >= 10 ==> read_cell(st, addr + 1) == 0,
        f >= 495,
    ensures
        run(set_value_struct(m.head, addr, v), st, f) matches Some(st1) && st1.head == addr
            && st1.head == set_value_m(m, addr, v).head && st1.out == st.out && read_cell(st1, addr)
            == v as u8 && read_cell(st1, addr + 1) == (if v >= 10 {
            0u8
        } else {
            read_cell(st, addr + 1)
        }) && forall|i: nat|
            (i != addr && i != addr + 1) ==> read_cell(st1, i) == read_cell(st, i),
{
    let h0 = m.head;
    lemma_run_moves(h0, addr, st, 0);
    let st_a = run(moves_struct(h0, addr), st, 0)->Some_0;
    lemma_run_clear(st_a, 255);
    let st_b = run(clear_struct(), st_a, 255)->Some_0;
    if v >= 10 {
        let q = isqrt_s(v);
        let r = (v - q * q) as nat;
        lemma_isqrt_bounds(v);
        assert(q <= 15) by (nonlinear_arith)
            requires
                q * q <= 255,
                q >= 0,
        ;
        assert(q * q <= 225) by (nonlinear_arith)
            requires
                0 <= q <= 15,
        ;
        assert(read_cell(st_a, addr + 1) == read_cell(st, addr + 1));
        assert(read_cell(st_b, addr + 1) == read_cell(st_a, addr + 1));
        assert(read_cell(st_b, addr) == 0);
        lemma_run_plus(q, st_b, 0);
        let st_c = run(op_run('+', q), st_b, 0)->Some_0;
        assert(read_cell(st_c, addr) == q as u8);
        assert(read_cell(st_c, addr + 1) == 0);
        lemma_run_mul_loop(addr, addr + 1, q, st_c, q);
        let st_d = run(mul_loop(addr, addr + 1, q), st_c, q)->Some_0;
        assert(read_cell(st_d, addr + 1) == (q * q) as u8) by {
            assert(q * (q as u8) as nat == q * q) by (nonlinear_arith)
                requires
                    (q as u8) as nat == q,
            ;
            assert((0 + q * q) % 256 == q * q);
        }
        assert(read_cell(st_d, addr) == 0);
        lemma_run_moves(addr, addr + 1, st_d, 0);
        let st_e = run(moves_struct(addr, addr + 1), st_d, 0)->Some_0;
        assert(read_cell(st_e, addr + 1) == (q * q) as u8);
        assert(read_cell(st_e, addr) == 0);
        lemma_run_drain_loop(addr + 1, addr, '+', st_e, 225);
        let st_f = run(drain_loop(addr + 1, addr, '+'), st_e, 225)->Some_0;
        assert(read_cell(st_f, addr) == (q * q) as u8) by {
            assert(crate::bf::sign_delta('+') == 1);
            assert((0 + 1 * (q * q)) % 256 == q * q) by (nonlinear_arith)
                requires
                    0 <= q * q <= 225,
            ;
        }
        assert(read_cell(st_f, addr + 1) == 0);
        lemma_run_moves(addr + 1, addr, st_f, 0);
        let st_g = run(moves_struct(addr + 1, addr), st_f, 0)->Some_0;
        assert(read_cell(st_g, addr) == (q * q) as u8);
        lemma_run_plus(r, st_g, 0);
        let st_h = run(op_run('+', r), st_g, 0)->Some_0;
        assert(read_cell(st_h, addr) == v as u8) by {
            assert(q * q + r == v);
            assert((q * q + r) % 256 == v);
        }
        assert(read_cell(st_h, addr + 1) == 0);
        lemma_run_seq(moves_struct(addr + 1, addr), op_run('+', r), st_f, 0, 0);
        lemma_run_seq(
            drain_loop(addr + 1, addr, '+'),
            seq_code(moves_struct(addr + 1, addr), op_run('+', r)),
            st_e,
            225,
            0,
        );
        lemma_run_seq(
            moves_struct(addr, addr + 1),
            seq_code(
                drain_loop(addr + 1, addr, '+'),
                seq_code(moves_struct(addr + 1, addr), op_run('+', r)),
            ),
            st_d,
            0,
            225,
        );
        lemma_run_seq(
            mul_loop(addr, addr + 1, q),
            seq_code(
                moves_struct(addr, addr + 1),
                seq_code(
                    drain_loop(addr + 1, addr, '+'),
                    seq_code(moves_struct(addr + 1, addr), op_run('+', r)),
                ),
            ),
            st_c,
            q,
            225,
        );
        let tail = seq_code(
            op_run('+', q),
            seq_code(
                mul_loop(addr, addr + 1, q),
                seq_code(
                    moves_struct(addr, addr + 1),
                    seq_code(
                        drain_loop(addr + 1, addr, '+'),
                        seq_code(moves_struct(addr + 1, addr), op_run('+', r)),
                    ),
                ),
            ),
        );
        lemma_run_seq(
            op_run('+', q),
            seq_code(
                mul_loop(addr, addr + 1, q),
                seq_code(
                    moves_struct(addr, addr + 1),
                    seq_code(
                        drain_loop(addr + 1, addr, '+'),
                        seq_code(moves_struct(addr + 1, addr), op_run('+', r)),
                    ),
                ),
            ),
            st_b,
            0,
            q + 225,
        );
        lemma_run_seq(clear_struct(), tail, st_a, 255, q + 225);
        lemma_run_seq(moves_struct(h0, addr), seq_code(clear_struct(), tail), st, 0, 255 + q + 225);
        lemma_run_mono(set_value_struct(h0, addr, v), st, (255 + q + 225) as nat, f);
        let st1 = run(set_value_struct(h0, addr, v), st, f)->Some_0;
        assert(st1 == st_h);
        assert forall|i: nat| (i != addr && i != addr + 1) implies read_cell(st1, i) == read_cell(
            st,
            i,
        ) by {
            assert(read_cell(st_a, i) == read_cell(st, i));
            let x1 = read_cell(st_b, i);
            let x2 = read_cell(st_c, i);
            let x3 = read_cell(st_d, i);
            assert(read_cell(st_e, i) == read_cell(st_d, i));
            let x4 = read_cell(st_f, i);
            assert(read_cell(st_g, i) == read_cell(st_f, i));
            let x5 = read_cell(st_h, i);
        }
    } else {
        let tail = if v > 0 {
            op_run('+', v as nat)
        } else if v < 0 {
            op_run('-', (-v) as nat)
        } else {
            Code::Done
        };
        assert(read_cell(st_b, addr) == 0);
        assert(read_cell(st_a, addr + 1) == read_cell(st, addr + 1));
        assert(read_cell(st_b, addr + 1) == read_cell(st_a, addr + 1));
        if v > 0 {
            lemma_run_plus(v as nat, st_b, 0);
        } else {
            assert(run(Code::Done, st_b, 0) == Some(st_b));
        }
        let st_c = run(tail, st_b, 0)->Some_0;
        assert(read_cell(st_c, addr) == v as u8);
        assert(read_cell(st_c, addr + 1) == read_cell(st_b, addr + 1));
        lemma_run_seq(clear_struct(), tail, st_a, 255, 0);
        lemma_run_seq(moves_struct(h0, addr), seq_code(clear_struct(), tail), st, 0, 255);
        lemma_run_mono(set_value_struct(h0, addr, v), st, 255, f);
        let st1 = run(set_value_struct(h0, addr, v), st, f)->Some_0;
        assert(st1 == st_c);
        assert forall|i: nat| (i != addr && i != addr + 1) implies read_cell(st1, i) == read_cell(
            st,
            i,
        ) by {
            assert(read_cell(st_a, i) == read_cell(st, i));
            let x1 = read_cell(st_b, i);
            let x2 = read_cell(st_c, i);
        }
    }
}


/// The structure of the `copy_value` fragment: clear both targets, drain
/// the source into the destination and the temporary, then drain the
/// temporary back into the source.
pub open spec fn copy_struct(h0: nat, from: nat, to: nat, temp: nat) -> Code {
    seq_code(
        moves_struct(h0, to),
        seq_code(
            clear_struct(),
            seq_code(
                moves_struct(to, temp),
                seq_code(
                    clear_struct(),
                    seq_code(
                        moves_struct(temp, from),
                        seq_code(
                            copy_loop(from, to, temp),
                            seq_code(moves_struct(from, temp), drain_loop(temp, from, '+')),
                        ),
                    ),
                ),
            ),
        ),
    )
}

/// The text of the copy fragment, written out.
pub open spec fn copy_text(h0: nat, from: nat, to: nat, temp: nat) -> Seq<char> {
    moves_code(h0, to) + clear_code() + moves_code(to, temp) + clear_code() + moves_code(temp, from)
        + (seq!['['] + (seq!['-'] + moves_code(from, to) + seq!['+'] + moves_code(to, temp)
        + seq!['+'] + moves_code(temp, from)) + seq![']']) + moves_code(from, temp) + (seq!['[']
        + (seq!['-'] + moves_code(temp, from) + seq!['+'] + moves_code(from, temp)) + seq![']'])
}

/// The copy structure flattens to the copy text.
#[verifier::rlimit(100)]
#[verifier::spinoff_prover]
proof fn lemma_copy_struct_text(h0: nat, from: nat, to: nat, temp: nat)
    ensures
        flatten(copy_struct(h0, from, to, temp)) == copy_text(h0, from, to, temp),
{
    crate::bf::lemma_flatten_moves(h0, to);
    crate::bf::lemma_flatten_moves(to, temp);
    crate::bf::lemma_flatten_moves(temp, from);
    crate::bf::lemma_flatten_moves(from, temp);
    crate::bf::lemma_flatten_clear();
    crate::bf::lemma_flatten_copy_loop(from, to, temp);
    crate::bf::lemma_flatten_drain_loop(temp, from, '+');
    let t3 = seq_code(moves_struct(from, temp), drain_loop(temp, from, '+'));
    lemma_flatten_seq(moves_struct(from, temp), drain_loop(temp, from, '+'));
    let t2 = seq_code(copy_loop(from, to, temp), t3);
    lemma_flatten_seq(copy_loop(from, to, temp), t3);
    let t1 = seq_code(moves_struct(temp, from), t2);
    lemma_flatten_seq(moves_struct(temp, from), t2);
    let t0 = seq_code(clear_struct(), t1);
    lemma_flatten_seq(clear_struct(), t1);
    let u2 = seq_code(moves_struct(to, temp), t0);
    lemma_flatten_seq(moves_struct(to, temp), t0);
    let u1 = seq_code(clear_struct(), u2);
    lemma_flatten_seq(clear_struct(), u2);
    lemma_flatten_seq(moves_struct(h0, to), u1);
    assert(crate::bf::moves_code_text(h0, to) == moves_code(h0, to));
    assert(crate::bf::moves_code_text(to, temp) == moves_code(to, temp));
    assert(crate::bf::moves_code_text(temp, from) == moves_code(temp, from));
    assert(crate::bf::moves_code_text(from, temp) == moves_code(from, temp));
    assert(crate::bf::moves_code_text(from, to) == moves_code(from, to));
    assert(flatten(copy_struct(h0, from, to, temp)) =~= copy_text(h0, from, to, temp));
}

/// The text `copy_value` appends is the flattening of its structure.
#[verifier::rlimit(100)]
#[verifier::spinoff_prover]
pub proof fn lemma_copy_value_text(m: GenModel, from: nat, to: nat)
    requires
        m.next_temp < usize::MAX as nat,
    ensures
        copy_value_m(m, from, to) matches Some(m9) && m9.output == m.output + flatten(
            copy_struct(m.head, from, to, m.next_temp),
        ),
{
    let h0 = m.head;
    let temp = m.next_temp;
    lemma_copy_struct_text(h0, from, to, temp);
    let m9 = copy_value_m(m, from, to)->Some_0;
    assert(m9.output =~= m.output + copy_text(h0, from, to, temp));
}

/// Running the `copy_value` fragment from the modelled head position
/// copies the source cell into the destination, returns the temporary to
/// zero, and leaves the source cell unchanged — so a second copy leaves
/// it unchanged again.  The runtime head ends where the model says.
#[verifier::rlimit(100)]
#[verifier::spinoff_prover]
pub proof fn theorem_copy_value_runs(m: GenModel, from: nat, to: nat, st: BfState, f: nat)
    requires
        m.next_temp < usize::MAX as nat,
        st.head == m.head,
        from != to,
        from != m.next_temp,
        to != m.next_temp,
        f >= 1020,
    ensures
        run(copy_struct(m.head, from, to, m.next_temp), st, f) matches Some(st1) && ({
            &&& st1.head == m.next_temp
            &&& copy_value_m(m, from, to) matches Some(m9) && st1.head == m9.head
            &&& st1.out == st.out
            &&& read_cell(st1, from) == read_cell(st, from)
            &&& read_cell(st1, to) == read_cell(st, from)
            &&& read_cell(st1, m.next_temp) == 0
            &&& forall|i: nat|
                (i != from && i != to && i != m.next_temp) ==> read_cell(st1, i) == read_cell(st, i)
        }),
{
    let h0 = m.head;
    let temp = m.next_temp;
    let c0 = read_cell(st, from);
    lemma_run_moves(h0, to, st, 0);
    let st_a = run(moves_struct(h0, to), st, 0)->Some_0;
    lemma_run_clear(st_a, 255);
    let st_b = run(clear_struct(), st_a, 255)->Some_0;
    lemma_run_moves(to, temp, st_b, 0);
    let st_c = run(moves_struct(to, temp), st_b, 0)->Some_0;
    lemma_run_clear(st_c, 255);
    let st_d = run(clear_struct(), st_c, 255)->Some_0;
    lemma_run_moves(temp, from, st_d, 0);
    let st_e = run(moves_struct(temp, from), st_d, 0)->Some_0;
    assert(read_cell(st_a, from) == read_cell(st, from));
    assert(read_cell(st_b, from) == read_cell(st_a, from));
    assert(read_cell(st_c, from) == read_cell(st_b, from));
    assert(read_cell(st_d, from) == read_cell(st_c, from));
    assert(read_cell(st_e, from) == read_cell(st_d, from));
    assert(read_cell(st_b, to) == 0);
    assert(read_cell(st_c, to) == read_cell(st_b, to));
    assert(read_cell(st_d, to) == read_cell(st_c, to));
    assert(read_cell(st_e, to) == read_cell(st_d, to));
    assert(read_cell(st_d, temp) == 0);
    assert(read_cell(st_e, temp) == read_cell(st_d, temp));
    assert(read_cell(st_e, from) == c0);
    assert(read_cell(st_e, to) == 0);
    assert(read_cell(st_e, temp) == 0);
    lemma_run_copy_loop(from, to, temp, st_e, 255);
    let st_f = run(copy_loop(from, to, temp), st_e, 255)->Some_0;
    assert(read_cell(st_f, from) == 0);
    assert(read_cell(st_f, to) == c0);
    assert(read_cell(st_f, temp) == c0);
    lemma_run_moves(from, temp, st_f, 0);
    let st_g = run(moves_struct(from, temp), st_f, 0)->Some_0;
    lemma_run_drain_loop(temp, from, '+', st_g, 255);
    let st_h = run(drain_loop(temp, from, '+'), st_g, 255)->Some_0;
    assert(read_cell(st_h, from) == c0) by {
        assert(crate::bf::sign_delta('+') == 1);
        assert((0 + 1 * (c0 as nat)) % 256 == c0 as nat);
    }
    assert(read_cell(st_h, temp) == 0);
    assert(read_cell(st_h, to) == c0);
    lemma_run_seq(moves_struct(from, temp), drain_loop(temp, from, '+'), st_f, 0, 255);
    lemma_run_seq(
        copy_loop(from, to, temp),
        seq_code(moves_struct(from, temp), drain_loop(temp, from, '+')),
        st_e,
        255,
        255,
    );
    lemma_run_seq(
        moves_struct(temp, from),
        seq_code(
            copy_loop(from, to, temp),
            seq_code(moves_struct(from, temp), drain_loop(temp, from, '+')),
        ),
        st_d,
        0,
        510,
    );
    lemma_run_seq(
        clear_struct(),
        seq_code(
            moves_struct(temp, from),
            seq_code(
                copy_loop(from, to, temp),
                seq_code(moves_struct(from, temp), drain_loop(temp, from, '+')),
            ),
        ),
        st_c,
        255,
        510,
    );
    lemma_run_seq(
        moves_struct(to, temp),
        seq_code(
            clear_struct(),
            seq_code(
                moves_struct(temp, from),
                seq_code(
                    copy_loop(from, to, temp),
                    seq_code(moves_struct(from, temp), drain_loop(temp, from, '+')),
                ),
            ),
        ),
        st_b,
        0,
        765,
    );
    lemma_run_seq(
        clear_struct(),
        seq_code(
            moves_struct(to, temp),
            seq_code(
                clear_struct(),
                seq_code(
                    moves_struct(temp, from),
                    seq_code(
                        copy_loop(from, to, temp),
                        seq_code(moves_struct(from, temp), drain_loop(temp, from, '+')),
                    ),
                ),
            ),
        ),
        st_a,
        255,
        765,
    );
    lemma_run_seq(
        moves_struct(h0, to),
        seq_code(
            clear_struct(),
            seq_code(
                moves_struct(to, temp),
                seq_code(
                    clear_struct(),
                    seq_code(
                        moves_struct(temp, from),
                        seq_code(
                            copy_loop(from, to, temp),
                            seq_code(moves_struct(from, temp), drain_loop(temp, from, '+')),
                        ),
                    ),
                ),
            ),
        ),
        st,
        0,
        1020,
    );
    lemma_run_mono(copy_struct(h0, from, to, temp), st, 1020, f);
    let st1 = run(copy_struct(h0, from, to, temp), st, f)->Some_0;
    assert(st1 == st_h);
    assert forall|i: nat| (i != from && i != to && i != temp) implies read_cell(st1, i)
        == read_cell(st, i) by {
        assert(read_cell(st_a, i) == read_cell(st, i));
        let x1 = read_cell(st_b, i);
        assert(read_cell(st_c, i) == read_cell(st_b, i));
        let x2 = read_cell(st_d, i);
        assert(read_cell(st_e, i) == read_cell(st_d, i));
        let x3 = read_cell(st_f, i);
        assert(read_cell(st_g, i) == read_cell(st_f, i));
        let x4 = read_cell(st_h, i);
    }
}


/// `copy_value(a, b)` is idempotent on the source cell: after the
/// fragments of a first copy and of a second one in a row, `a` still
/// holds what it held at the start (as it already does after the first).
pub proof fn theorem_copy_value_idempotent(m: GenModel, from: nat, to: nat, st: BfState, f: nat)
    requires
        m.next_temp + 1 < usize::MAX as nat,
        st.head == m.head,
        from != to,
        from != m.next_temp,
        to != m.next_temp,
        from != m.next_temp + 1,
        to != m.next_temp + 1,
        f >= 2040,
    ensures
        copy_value_m(m, from, to) matches Some(m9) && run(
            seq_code(
                copy_struct(m.head, from, to, m.next_temp),
                copy_struct(m9.head, from, to, m9.next_temp),
            ),
            st,
            f,
        ) matches Some(st2) && read_cell(st2, from) == read_cell(st, from) && read_cell(st2, to)
            == read_cell(st, from),
{
    let m9 = copy_value_m(m, from, to)->Some_0;
    assert(m9.head == m.next_temp);
    assert(m9.next_temp == m.next_temp + 1);
    theorem_copy_value_runs(m, from, to, st, 1020);
    let st1 = run(copy_struct(m.head, from, to, m.next_temp), st, 1020)->Some_0;
    assert(st1.head == m9.head);
    theorem_copy_value_runs(m9, from, to, st1, 1020);
    lemma_run_seq(
        copy_struct(m.head, from, to, m.next_temp),
        copy_struct(m9.head, from, to, m9.next_temp),
        st,
        1020,
        1020,
    );
    lemma_run_mono(
        seq_code(
            copy_struct(m.head, from, to, m.next_temp),
            copy_struct(m9.head, from, to, m9.next_temp),
        ),
        st,
        2040,
        f,
    );
}


// ----------------------------------------------------------------------
// The tape-model invariant is preserved.
//
// Named cells stay below the temporary region, the temporary allocator
// never returns a cell that a name holds, and every bound name keeps its
// own cell: `gen_wf` holds after every statement when it held before.
// ----------------------------------------------------------------------

/// The primitives never touch the variable table or the named-region
/// allocator, and only grow the temporary allocator.
proof fn lemma_copy_fields(m: GenModel, from: nat, to: nat)
    ensures
        copy_value_m(m, from, to) matches Some(m1) ==> m1.vars == m.vars && m1.memory_ptr
            == m.memory_ptr && m.next_temp <= m1.next_temp,
{
}

/// As [`lemma_copy_fields`], for the remaining compound primitives.
proof fn lemma_arith_fields(m: GenModel, result_addr: nat, left_addr: nat, right_addr: nat)
    ensures
        add_values_m(m, result_addr, left_addr, right_addr) matches Some(m1) ==> m1.vars == m.vars
            && m1.memory_ptr == m.memory_ptr && m.next_temp <= m1.next_temp,
        sub_values_m(m, result_addr, left_addr, right_addr) matches Some(m1) ==> m1.vars == m.vars
            && m1.memory_ptr == m.memory_ptr && m.next_temp <= m1.next_temp,
        compare_equal_m(m, result_addr, left_addr, right_addr) matches Some(m1) ==> m1.vars
            == m.vars && m1.memory_ptr == m.memory_ptr && m.next_temp <= m1.next_temp,
{
    if let Some(m1) = copy_value_m(m, left_addr, result_addr) {
        lemma_copy_fields(m, left_addr, result_addr);
        if m1.next_temp < usize::MAX as nat {
            let m2 = GenModel { next_temp: m1.next_temp + 1, ..m1 };
            lemma_copy_fields(m2, right_addr, m1.next_temp);
        }
    }
    if m.next_temp + 1 < usize::MAX as nat {
        let m0 = GenModel { next_temp: m.next_temp + 2, ..m };
        lemma_copy_fields(m0, left_addr, m.next_temp);
        if let Some(m1) = copy_value_m(m0, left_addr, m.next_temp) {
            lemma_copy_fields(m1, right_addr, m.next_temp + 1);
        }
    }
}

/// Expression evaluation keeps the variable table and the named region,
/// and only grows the temporary allocator.
#[verifier::spinoff_prover]
proof fn lemma_eval_fields(m: GenModel, e: Expr)
    ensures
        eval_expr_m(m, e) matches Some((m1, a)) ==> m1.vars == m.vars && m1.memory_ptr
            == m.memory_ptr && m.next_temp <= m1.next_temp,
    decreases e, 0int,
{
    match e {
        Expr::Number(n) => {},
        Expr::Variable(name) => {},
        Expr::Binary { left, operator, right } => {
            lemma_eval_fields(m, *left);
            if let Some((ml, la)) = eval_expr_m(m, *left) {
                lemma_eval_fields(ml, *right);
                if let Some((mr, ra)) = eval_expr_m(ml, *right) {
                    if mr.next_temp < usize::MAX as nat {
                        let res = mr.next_temp;
                        let m0 = GenModel { next_temp: mr.next_temp + 1, ..mr };
                        lemma_arith_fields(m0, res, la, ra);
                        lemma_copy_fields(m0, la, res);
                        if operator == BinaryOp::NotEqual {
                            if let Some(m1) = compare_equal_m(m0, res, la, ra) {
                            }
                        }
                    }
                }
            }
        },
    }
}

/// Condition evaluation keeps the same fields.
proof fn lemma_cond_fields(m: GenModel, e: Expr)
    ensures
        eval_cond_m(m, e) matches Some((m1, a)) ==> m1.vars == m.vars && m1.memory_ptr
            == m.memory_ptr && m.next_temp <= m1.next_temp,
    decreases e, 1int,
{
    match e {
        Expr::Binary { left, operator, right } => {
            if operator == BinaryOp::Equal {
                lemma_eval_fields(m, *left);
                if let Some((ml, la)) = eval_expr_m(m, *left) {
                    lemma_eval_fields(ml, *right);
                    if let Some((mr, ra)) = eval_expr_m(ml, *right) {
                        if mr.next_temp < usize::MAX as nat {
                            let m0 = GenModel { next_temp: mr.next_temp + 1, ..mr };
                            lemma_arith_fields(m0, mr.next_temp, la, ra);
                        }
                    }
                }
            } else if operator == BinaryOp::Greater {
                lemma_eval_fields(m, *left);
            } else {
                lemma_eval_fields(m, Expr::Binary { left, operator, right });
            }
        },
        _ => {
            lemma_eval_fields(m, e);
        },
    }
}

/// Binding a fresh name preserves the invariant: the new cell is the
/// next named cell, distinct from every earlier one.
proof fn lemma_alloc_wf(m: GenModel, name: Seq<char>)
    requires
        gen_wf(m),
    ensures
        alloc_var_m(m, name) matches Some((m1, addr)) ==> gen_wf(m1),
{
    if let Some((m1, addr)) = alloc_var_m(m, name) {
        assert(forall|i: int|
            0 <= i < m.vars.len() ==> (#[trigger] m1.vars[i]) == m.vars[i]);
        assert(m1.vars[m.vars.len() as int].1 == m.memory_ptr);
    }
}

/// A model with the same variable table and named region, and a
/// temporary allocator no lower, keeps the invariant.
proof fn lemma_wf_transfer(m0: GenModel, m1: GenModel)
    requires
        gen_wf(m0),
        m1.vars == m0.vars,
        m1.memory_ptr == m0.memory_ptr,
        m0.next_temp <= m1.next_temp,
    ensures
        gen_wf(m1),
{
}

/// Statement lowering preserves the tape-model invariant.
#[verifier::rlimit(100)]
#[verifier::spinoff_prover]
proof fn lemma_stmt_wf(m: GenModel, s: Stmt)
    requires
        gen_wf(m),
    ensures
        visit_stmt_m(m, s) matches Some(m1) ==> gen_wf(m1),
    decreases s, 1int,
{
    match s {
        Stmt::Let { name, mutable, value } => {
            if let Some((m1, addr)) = alloc_var_m(m, name@) {
                lemma_alloc_wf(m, name@);
                lemma_eval_fields(m1, value);
                if let Some((m2, va)) = eval_expr_m(m1, value) {
                    lemma_wf_transfer(m1, m2);
                    lemma_copy_fields(m2, va, addr);
                    if let Some(m3) = copy_value_m(m2, va, addr) {
                        lemma_wf_transfer(m2, m3);
                    }
                }
            }
        },
        Stmt::Assign { name, value } => {
            if let Some(addr) = lookup_var(m.vars, name@) {
                lemma_eval_fields(m, value);
                if let Some((m1, va)) = eval_expr_m(m, value) {
                    lemma_wf_transfer(m, m1);
                    lemma_copy_fields(m1, va, addr);
                    if let Some(m2) = copy_value_m(m1, va, addr) {
                        lemma_wf_transfer(m1, m2);
                    }
                }
            }
        },
        Stmt::Print(value) => {
            lemma_eval_fields(m, value);
            if let Some((m1, a)) = eval_expr_m(m, value) {
                lemma_wf_transfer(m, m1);
            }
        },
        Stmt::If { condition, body } => {
            lemma_cond_fields(m, condition);
            if let Some((m1, c)) = eval_cond_m(m, condition) {
                lemma_wf_transfer(m, m1);
                let m2 = emit_m(move_to_m(m1, c), seq!['[']);
                lemma_wf_transfer(m1, m2);
                lemma_stmts_wf(m2, body@);
            }
        },
        Stmt::While { condition, body } => {
            lemma_cond_fields(m, condition);
            if let Some((m1, c)) = eval_cond_m(m, condition) {
                lemma_wf_transfer(m, m1);
                let m2 = emit_m(move_to_m(m1, c), seq!['[']);
                lemma_wf_transfer(m1, m2);
                lemma_stmts_wf(m2, body@);
                if let Some(m3) = visit_stmts_m(m2, body@) {
                    lemma_cond_fields(m3, condition);
                    if let Some((m4, c2)) = eval_cond_m(m3, condition) {
                        lemma_wf_transfer(m3, m4);
                        lemma_copy_fields(m4, c2, c);
                        if let Some(m5) = copy_value_m(m4, c2, c) {
                            lemma_wf_transfer(m4, m5);
                        }
                    }
                }
            }
        },
    }
}

/// Statement-sequence lowering preserves the tape-model invariant.
proof fn lemma_stmts_wf(m: GenModel, ss: Seq<Stmt>)
    requires
        gen_wf(m),
    ensures
        visit_stmts_m(m, ss) matches Some(m1) ==> gen_wf(m1),
    decreases ss, 2int,
{
    if ss.len() > 0 {
        lemma_stmt_wf(m, ss[0]);
        if let Some(m1) = visit_stmt_m(m, ss[0]) {
            lemma_stmts_wf(m1, ss.drop_first());
        }
    }
}

/// The generator's tape model stays well formed over a whole program:
/// named cells stay below the temporary region, the temporary allocator
/// never hands out a named cell, and every bound name keeps a cell of
/// its own.
pub proof fn theorem_tape_model_invariant(m: GenModel, prog: Seq<Stmt>)
    requires
        gen_wf(m),
    ensures
        visit_program_m(m, prog) matches Some(m1) ==> gen_wf(m1),
{
    lemma_stmts_wf(m, prog);
}


/// The structure of the `add_values` fragment: copy the left operand
/// into the result, copy the right operand into a fresh temporary, then
/// drain the temporary into the result, incrementing.
pub open spec fn add_struct(h0: nat, result_addr: nat, left_addr: nat, right_addr: nat, t1: nat) -> Code {
    seq_code(
        copy_struct(h0, left_addr, result_addr, t1),
        seq_code(
            copy_struct(t1, right_addr, t1 + 1, t1 + 2),
            seq_code(moves_struct(t1 + 2, t1 + 1), drain_loop(t1 + 1, result_addr, '+')),
        ),
    )
}

/// The text `add_values` appends is the flattening of its structure.
#[verifier::rlimit(100)]
#[verifier::spinoff_prover]
pub proof fn lemma_add_values_text(m: GenModel, result_addr: nat, left_addr: nat, right_addr: nat)
    requires
        m.next_temp + 2 < usize::MAX as nat,
    ensures
        add_values_m(m, result_addr, left_addr, right_addr) matches Some(mz) && mz.output
            == m.output + flatten(
            add_struct(m.head, result_addr, left_addr, right_addr, m.next_temp),
        ),
{
    let h0 = m.head;
    let t1 = m.next_temp;
    lemma_copy_value_text(m, left_addr, result_addr);
    let m1 = copy_value_m(m, left_addr, result_addr)->Some_0;
    assert(m1.head == t1);
    assert(m1.next_temp == t1 + 1);
    let m2 = GenModel { next_temp: m1.next_temp + 1, ..m1 };
    lemma_copy_value_text(m2, right_addr, t1 + 1);
    let m3 = copy_value_m(m2, right_addr, t1 + 1)->Some_0;
    assert(m3.head == t1 + 2);
    crate::bf::lemma_flatten_moves(t1 + 2, t1 + 1);
    crate::bf::lemma_flatten_drain_loop(t1 + 1, result_addr, '+');
    lemma_flatten_seq(moves_struct(t1 + 2, t1 + 1), drain_loop(t1 + 1, result_addr, '+'));
    lemma_flatten_seq(
        copy_struct(t1, right_addr, t1 + 1, t1 + 2),
        seq_code(moves_struct(t1 + 2, t1 + 1), drain_loop(t1 + 1, result_addr, '+')),
    );
    lemma_flatten_seq(
        copy_struct(h0, left_addr, result_addr, t1),
        seq_code(
            copy_struct(t1, right_addr, t1 + 1, t1 + 2),
            seq_code(moves_struct(t1 + 2, t1 + 1), drain_loop(t1 + 1, result_addr, '+')),
        ),
    );
    let mz = add_values_m(m, result_addr, left_addr, right_addr)->Some_0;
    assert(mz.output =~= m.output + flatten(
        add_struct(h0, result_addr, left_addr, right_addr, t1),
    ));
}

/// Running the `add_values` fragment from the modelled head position
/// puts the sum of the operand cells, modulo 256, into the result cell,
/// preserves both operands, returns all three temporaries to zero, and
/// leaves the runtime head where the model says.
#[verifier::rlimit(100)]
#[verifier::spinoff_prover]
pub proof fn theorem_add_values_runs(
    m: GenModel,
    result_addr: nat,
    left_addr: nat,
    right_addr: nat,
    st: BfState,
    f: nat,
)
    requires
        m.next_temp + 2 < usize::MAX as nat,
        st.head == m.head,
        result_addr != left_addr,
        result_addr != right_addr,
        left_addr != m.next_temp && left_addr != m.next_temp + 1 && left_addr != m.next_temp + 2,
        right_addr != m.next_temp && right_addr != m.next_temp + 1 && right_addr != m.next_temp
            + 2,
        result_addr != m.next_temp && result_addr != m.next_temp + 1 && result_addr != m.next_temp
            + 2,
        f >= 2295,
    ensures
        run(add_struct(m.head, result_addr, left_addr, right_addr, m.next_temp), st, f) matches Some(
            st1,
        ) && ({
            &&& add_values_m(m, result_addr, left_addr, right_addr) matches Some(mz) && st1.head
                == mz.head
            &&& st1.out == st.out
            &&& read_cell(st1, result_addr) == ((read_cell(st, left_addr) as nat + read_cell(
                st,
                right_addr,
            ) as nat) % 256) as u8
            &&& read_cell(st1, left_addr) == read_cell(st, left_addr)
            &&& read_cell(st1, right_addr) == read_cell(st, right_addr)
            &&& forall|i: nat|
                (i != result_addr && i != left_addr && i != right_addr && i != m.next_temp && i
                    != m.next_temp + 1 && i != m.next_temp + 2) ==> read_cell(st1, i) == read_cell(
                    st,
                    i,
                )
        }),
{
    let h0 = m.head;
    let t1 = m.next_temp;
    let lv = read_cell(st, left_addr);
    let rv = read_cell(st, right_addr);
    theorem_copy_value_runs(m, left_addr, result_addr, st, 1020);
    let st_a = run(copy_struct(h0, left_addr, result_addr, t1), st, 1020)->Some_0;
    let m1 = copy_value_m(m, left_addr, result_addr)->Some_0;
    assert(m1.head == t1);
    assert(m1.next_temp == t1 + 1);
    let m2 = GenModel { next_temp: m1.next_temp + 1, ..m1 };
    assert(st_a.head == t1);
    assert(read_cell(st_a, right_addr) == rv);
    theorem_copy_value_runs(m2, right_addr, t1 + 1, st_a, 1020);
    let st_b = run(copy_struct(t1, right_addr, t1 + 1, t1 + 2), st_a, 1020)->Some_0;
    assert(read_cell(st_b, t1 + 1) == rv);
    assert(read_cell(st_b, result_addr) == lv);
    lemma_run_moves(t1 + 2, t1 + 1, st_b, 0);
    let st_c = run(moves_struct(t1 + 2, t1 + 1), st_b, 0)->Some_0;
    lemma_run_drain_loop(t1 + 1, result_addr, '+', st_c, 255);
    let st_d = run(drain_loop(t1 + 1, result_addr, '+'), st_c, 255)->Some_0;
    assert(read_cell(st_d, result_addr) == ((lv as nat + rv as nat) % 256) as u8) by {
        assert(crate::bf::sign_delta('+') == 1);
        assert(1 * (rv as nat) == rv as nat);
    }
    lemma_run_seq(moves_struct(t1 + 2, t1 + 1), drain_loop(t1 + 1, result_addr, '+'), st_b, 0, 255);
    lemma_run_seq(
        copy_struct(t1, right_addr, t1 + 1, t1 + 2),
        seq_code(moves_struct(t1 + 2, t1 + 1), drain_loop(t1 + 1, result_addr, '+')),
        st_a,
        1020,
        255,
    );
    lemma_run_seq(
        copy_struct(h0, left_addr, result_addr, t1),
        seq_code(
            copy_struct(t1, right_addr, t1 + 1, t1 + 2),
            seq_code(moves_struct(t1 + 2, t1 + 1), drain_loop(t1 + 1, result_addr, '+')),
        ),
        st,
        1020,
        1275,
    );
    lemma_run_mono(
        add_struct(h0, result_addr, left_addr, right_addr, t1),
        st,
        2295,
        f,
    );
    let st1 = run(add_struct(h0, result_addr, left_addr, right_addr, t1), st, f)->Some_0;
    assert(st1 == st_d);
    assert forall|i: nat|
        (i != result_addr && i != left_addr && i != right_addr && i != t1 && i != t1 + 1 && i != t1
            + 2) implies read_cell(st1, i) == read_cell(st, i) by {
        let x1 = read_cell(st_a, i);
        let x2 = read_cell(st_b, i);
        assert(read_cell(st_c, i) == read_cell(st_b, i));
        let x3 = read_cell(st_d, i);
    }
}


/// The structure of the `sub_values` fragment: as addition, with a
/// decrementing drain.
pub open spec fn sub_struct(h0: nat, result_addr: nat, left_addr: nat, right_addr: nat, t1: nat) -> Code {
    seq_code(
        copy_struct(h0, left_addr, result_addr, t1),
        seq_code(
            copy_struct(t1, right_addr, t1 + 1, t1 + 2),
            seq_code(moves_struct(t1 + 2, t1 + 1), drain_loop(t1 + 1, result_addr, '-')),
        ),
    )
}

/// The text `sub_values` appends is the flattening of its structure.
#[verifier::rlimit(100)]
#[verifier::spinoff_prover]
pub proof fn lemma_sub_values_text(m: GenModel, result_addr: nat, left_addr: nat, right_addr: nat)
    requires
        m.next_temp + 2 < usize::MAX as nat,
    ensures
        sub_values_m(m, result_addr, left_addr, right_addr) matches Some(mz) && mz.output
            == m.output + flatten(
            sub_struct(m.head, result_addr, left_addr, right_addr, m.next_temp),
        ),
{
    let h0 = m.head;
    let t1 = m.next_temp;
    lemma_copy_value_text(m, left_addr, result_addr);
    let m1 = copy_value_m(m, left_addr, result_addr)->Some_0;
    assert(m1.head == t1);
    assert(m1.next_temp == t1 + 1);
    let m2 = GenModel { next_temp: m1.next_temp + 1, ..m1 };
    lemma_copy_value_text(m2, right_addr, t1 + 1);
    let m3 = copy_value_m(m2, right_addr, t1 + 1)->Some_0;
    assert(m3.head == t1 + 2);
    crate::bf::lemma_flatten_moves(t1 + 2, t1 + 1);
    crate::bf::lemma_flatten_drain_loop(t1 + 1, result_addr, '-');
    lemma_flatten_seq(moves_struct(t1 + 2, t1 + 1), drain_loop(t1 + 1, result_addr, '-'));
    lemma_flatten_seq(
        copy_struct(t1, right_addr, t1 + 1, t1 + 2),
        seq_code(moves_struct(t1 + 2, t1 + 1), drain_loop(t1 + 1, result_addr, '-')),
    );
    lemma_flatten_seq(
        copy_struct(h0, left_addr, result_addr, t1),
        seq_code(
            copy_struct(t1, right_addr, t1 + 1, t1 + 2),
            seq_code(moves_struct(t1 + 2, t1 + 1), drain_loop(t1 + 1, result_addr, '-')),
        ),
    );
    let mz = sub_values_m(m, result_addr, left_addr, right_addr)->Some_0;
    assert(mz.output =~= m.output + flatten(
        sub_struct(h0, result_addr, left_addr, right_addr, t1),
    ));
}

/// Running the `sub_values` fragment from the modelled head position
/// puts the difference of the operand cells, modulo 256, into the
/// result cell, preserves both operands, returns all three temporaries
/// to zero, and leaves the runtime head where the model says.
#[verifier::rlimit(100)]
#[verifier::spinoff_prover]
pub proof fn theorem_sub_values_runs(
    m: GenModel,
    result_addr: nat,
    left_addr: nat,
    right_addr: nat,
    st: BfState,
    f: nat,
)
    requires
        m.next_temp + 2 < usize::MAX as nat,
        st.head == m.head,
        result_addr != left_addr,
        result_addr != right_addr,
        left_addr != m.next_temp && left_addr != m.next_temp + 1 && left_addr != m.next_temp + 2,
        right_addr != m.next_temp && right_addr != m.next_temp + 1 && right_addr != m.next_temp
            + 2,
        result_addr != m.next_temp && result_addr != m.next_temp + 1 && result_addr != m.next_temp
            + 2,
        f >= 2295,
    ensures
        run(sub_struct(m.head, result_addr, left_addr, right_addr, m.next_temp), st, f) matches Some(
            st1,
        ) && ({
            &&& sub_values_m(m, result_addr, left_addr, right_addr) matches Some(mz) && st1.head
                == mz.head
            &&& st1.out == st.out
            &&& read_cell(st1, result_addr) == ((read_cell(st, left_addr) as int - read_cell(
                st,
                right_addr,
            ) as int) % 256) as u8
            &&& read_cell(st1, left_addr) == read_cell(st, left_addr)
            &&& read_cell(st1, right_addr) == read_cell(st, right_addr)
            &&& forall|i: nat|
                (i != result_addr && i != left_addr && i != right_addr && i != m.next_temp && i
                    != m.next_temp + 1 && i != m.next_temp + 2) ==> read_cell(st1, i) == read_cell(
                    st,
                    i,
                )
        }),
{
    let h0 = m.head;
    let t1 = m.next_temp;
    let lv = read_cell(st, left_addr);
    let rv = read_cell(st, right_addr);
    theorem_copy_value_runs(m, left_addr, result_addr, st, 1020);
    let st_a = run(copy_struct(h0, left_addr, result_addr, t1), st, 1020)->Some_0;
    let m1 = copy_value_m(m, left_addr, result_addr)->Some_0;
    assert(m1.head == t1);
    assert(m1.next_temp == t1 + 1);
    let m2 = GenModel { next_temp: m1.next_temp + 1, ..m1 };
    assert(st_a.head == t1);
    assert(read_cell(st_a, right_addr) == rv);
    theorem_copy_value_runs(m2, right_addr, t1 + 1, st_a, 1020);
    let st_b = run(copy_struct(t1, right_addr, t1 + 1, t1 + 2), st_a, 1020)->Some_0;
    assert(read_cell(st_b, t1 + 1) == rv);
    assert(read_cell(st_b, result_addr) == lv);
    lemma_run_moves(t1 + 2, t1 + 1, st_b, 0);
    let st_c = run(moves_struct(t1 + 2, t1 + 1), st_b, 0)->Some_0;
    lemma_run_drain_loop(t1 + 1, result_addr, '-', st_c, 255);
    let st_d = run(drain_loop(t1 + 1, result_addr, '-'), st_c, 255)->Some_0;
    assert(read_cell(st_d, result_addr) == ((lv as int - rv as int) % 256) as u8) by {
        assert(crate::bf::sign_delta('-') == 255);
        assert(lv as int + 255 * (rv as int) == 256 * (rv as int) + (lv as int - rv as int));
        vstd::arithmetic::div_mod::lemma_mod_multiples_vanish(
            rv as int,
            lv as int - rv as int,
            256,
        );
    }
    lemma_run_seq(moves_struct(t1 + 2, t1 + 1), drain_loop(t1 + 1, result_addr, '-'), st_b, 0, 255);
    lemma_run_seq(
        copy_struct(t1, right_addr, t1 + 1, t1 + 2),
        seq_code(moves_struct(t1 + 2, t1 + 1), drain_loop(t1 + 1, result_addr, '-')),
        st_a,
        1020,
        255,
    );
    lemma_run_seq(
        copy_struct(h0, left_addr, result_addr, t1),
        seq_code(
            copy_struct(t1, right_addr, t1 + 1, t1 + 2),
            seq_code(moves_struct(t1 + 2, t1 + 1), drain_loop(t1 + 1, result_addr, '-')),
        ),
        st,
        1020,
        1275,
    );
    lemma_run_mono(
        sub_struct(h0, result_addr, left_addr, right_addr, t1),
        st,
        2295,
        f,
    );
    let st1 = run(sub_struct(h0, result_addr, left_addr, right_addr, t1), st, f)->Some_0;
    assert(st1 == st_d);
    assert forall|i: nat|
        (i != result_addr && i != left_addr && i != right_addr && i != t1 && i != t1 + 1 && i != t1
            + 2) implies read_cell(st1, i) == read_cell(st, i) by {
        let x1 = read_cell(st_a, i);
        let x2 = read_cell(st_b, i);
        assert(read_cell(st_c, i) == read_cell(st_b, i));
        let x3 = read_cell(st_d, i);
    }
}


/// The structure of the `compare_equal` fragment: copy both operands
/// into temporaries, raise the flag, subtract one copy from the other,
/// and clear the flag when a residue remains.
pub open spec fn compare_struct(h0: nat, result_addr: nat, left_addr: nat, right_addr: nat, t: nat) -> Code {
    seq_code(
        copy_struct(h0, left_addr, t, t + 2),
        seq_code(
            copy_struct(t + 2, right_addr, t + 1, t + 3),
            seq_code(
                moves_struct(t + 3, result_addr),
                seq_code(
                    clear_struct(),
                    seq_code(
                        op_run('+', 1),
                        seq_code(
                            moves_struct(result_addr, t + 1),
                            seq_code(
                                drain_loop(t + 1, t, '-'),
                                seq_code(moves_struct(t + 1, t), cond_clear(t, result_addr)),
                            ),
                        ),
                    ),
                ),
            ),
        ),
    )
}

/// The text of the comparison tail, written out.
pub open spec fn compare_tail_text(result_addr: nat, t: nat) -> Seq<char> {
    moves_code(t + 3, result_addr) + clear_code() + seq!['+'] + moves_code(result_addr, t + 1)
        + (seq!['['] + (seq!['-'] + moves_code(t + 1, t) + seq!['-'] + moves_code(t, t + 1))
        + seq![']']) + moves_code(t + 1, t) + (seq!['['] + (moves_code(t, result_addr) + seq!['-']
        + moves_code(result_addr, t) + seq!['[', '-', ']']) + seq![']'])
}

/// The comparison structure past its two copies flattens to the
/// comparison tail text.
#[verifier::rlimit(100)]
#[verifier::spinoff_prover]
proof fn lemma_compare_tail_text(result_addr: nat, t: nat)
    ensures
        flatten(
            seq_code(
                moves_struct(t + 3, result_addr),
                seq_code(
                    clear_struct(),
                    seq_code(
                        op_run('+', 1),
                        seq_code(
                            moves_struct(result_addr, t + 1),
                            seq_code(
                                drain_loop(t + 1, t, '-'),
                                seq_code(moves_struct(t + 1, t), cond_clear(t, result_addr)),
                            ),
                        ),
                    ),
                ),
            ),
        ) == compare_tail_text(result_addr, t),
{
    crate::bf::lemma_flatten_moves(t + 3, result_addr);
    crate::bf::lemma_flatten_clear();
    lemma_flatten_op_run('+', 1);
    assert(rep('+', 1) =~= seq!['+']);
    crate::bf::lemma_flatten_moves(result_addr, t + 1);
    crate::bf::lemma_flatten_drain_loop(t + 1, t, '-');
    crate::bf::lemma_flatten_moves(t + 1, t);
    crate::bf::lemma_flatten_moves(t, t + 1);
    crate::bf::lemma_flatten_moves(t, result_addr);
    crate::bf::lemma_flatten_moves(result_addr, t);
    crate::bf::lemma_flatten_cond_clear(t, result_addr);
    let u7 = seq_code(moves_struct(t + 1, t), cond_clear(t, result_addr));
    lemma_flatten_seq(moves_struct(t + 1, t), cond_clear(t, result_addr));
    let u6 = seq_code(drain_loop(t + 1, t, '-'), u7);
    lemma_flatten_seq(drain_loop(t + 1, t, '-'), u7);
    let u5 = seq_code(moves_struct(result_addr, t + 1), u6);
    lemma_flatten_seq(moves_struct(result_addr, t + 1), u6);
    let u4 = seq_code(op_run('+', 1), u5);
    lemma_flatten_seq(op_run('+', 1), u5);
    let u3 = seq_code(clear_struct(), u4);
    lemma_flatten_seq(clear_struct(), u4);
    let u2 = seq_code(moves_struct(t + 3, result_addr), u3);
    lemma_flatten_seq(moves_struct(t + 3, result_addr), u3);
    assert(crate::bf::moves_code_text(t + 3, result_addr) == moves_code(t + 3, result_addr));
    assert(crate::bf::moves_code_text(result_addr, t + 1) == moves_code(result_addr, t + 1));
    assert(crate::bf::moves_code_text(t + 1, t) == moves_code(t + 1, t));
    assert(crate::bf::moves_code_text(t, t + 1) == moves_code(t, t + 1));
    assert(crate::bf::moves_code_text(t, result_addr) == moves_code(t, result_addr));
    assert(crate::bf::moves_code_text(result_addr, t) == moves_code(result_addr, t));
    assert(flatten(u2) =~= compare_tail_text(result_addr, t));
}

/// The mirror's emissions past its two copies spell the comparison
/// tail text.
#[verifier::rlimit(100)]
#[verifier::spinoff_prover]
proof fn lemma_compare_mirror_tail(m2: GenModel, result_addr: nat, t: nat)
    requires
        m2.head == t + 3,
    ensures
        ({
            let m3 = emit_m(clear_m(move_to_m(m2, result_addr)), seq!['+']);
            let m4 = emit_m(move_to_m(m3, t + 1), seq!['[', '-']);
            let m5 = emit_m(move_to_m(m4, t), seq!['-']);
            let m6 = emit_m(move_to_m(m5, t + 1), seq![']']);
            let m7 = emit_m(move_to_m(m6, t), seq!['[']);
            let m8 = emit_m(move_to_m(m7, result_addr), seq!['-']);
            let m9 = emit_m(move_to_m(m8, t), seq!['[', '-', ']', ']']);
            m9.output == m2.output + compare_tail_text(result_addr, t)
        }),
{
    let m3 = emit_m(clear_m(move_to_m(m2, result_addr)), seq!['+']);
    let m4 = emit_m(move_to_m(m3, t + 1), seq!['[', '-']);
    let m5 = emit_m(move_to_m(m4, t), seq!['-']);
    let m6 = emit_m(move_to_m(m5, t + 1), seq![']']);
    let m7 = emit_m(move_to_m(m6, t), seq!['[']);
    let m8 = emit_m(move_to_m(m7, result_addr), seq!['-']);
    let m9 = emit_m(move_to_m(m8, t), seq!['[', '-', ']', ']']);
    assert(m9.output =~= m2.output + compare_tail_text(result_addr, t));
}

/// The text `compare_equal` appends is the flattening of its structure.
#[verifier::rlimit(100)]
#[verifier::spinoff_prover]
pub proof fn lemma_compare_equal_text(
    m: GenModel,
    result_addr: nat,
    left_addr: nat,
    right_addr: nat,
)
    requires
        m.next_temp + 3 < usize::MAX as nat,
    ensures
        compare_equal_m(m, result_addr, left_addr, right_addr) matches Some(mz) && mz.output
            == m.output + flatten(
            compare_struct(m.head, result_addr, left_addr, right_addr, m.next_temp),
        ),
{
    let h0 = m.head;
    let t = m.next_temp;
    let m0 = GenModel { next_temp: m.next_temp + 2, ..m };
    lemma_copy_value_text(m0, left_addr, t);
    let m1 = copy_value_m(m0, left_addr, t)->Some_0;
    assert(m1.head == t + 2);
    assert(m1.next_temp == t + 3);
    lemma_copy_value_text(m1, right_addr, t + 1);
    let m2 = copy_value_m(m1, right_addr, t + 1)->Some_0;
    assert(m2.head == t + 3);
    lemma_compare_mirror_tail(m2, result_addr, t);
    lemma_compare_tail_text(result_addr, t);
    let u2 = seq_code(
        moves_struct(t + 3, result_addr),
        seq_code(
            clear_struct(),
            seq_code(
                op_run('+', 1),
                seq_code(
                    moves_struct(result_addr, t + 1),
                    seq_code(
                        drain_loop(t + 1, t, '-'),
                        seq_code(moves_struct(t + 1, t), cond_clear(t, result_addr)),
                    ),
                ),
            ),
        ),
    );
    let u1 = seq_code(copy_struct(t + 2, right_addr, t + 1, t + 3), u2);
    lemma_flatten_seq(copy_struct(t + 2, right_addr, t + 1, t + 3), u2);
    lemma_flatten_seq(copy_struct(h0, left_addr, t, t + 2), u1);
    let mz = compare_equal_m(m, result_addr, left_addr, right_addr)->Some_0;
    assert(mz.output =~= m.output + flatten(
        compare_struct(h0, result_addr, left_addr, right_addr, t),
    ));
}

/// Running the `compare_equal` fragment from the modelled head position
/// puts `1` into the result cell when the operand cells are equal and
/// `0` otherwise, preserves both operands, returns all four temporaries
/// to zero, and leaves the runtime head where the model says.
#[verifier::rlimit(100)]
#[verifier::spinoff_prover]
pub proof fn theorem_compare_equal_runs(
    m: GenModel,
    result_addr: nat,
    left_addr: nat,
    right_addr: nat,
    st: BfState,
    f: nat,
)
    requires
        m.next_temp + 3 < usize::MAX as nat,
        st.head == m.head,
        result_addr != left_addr,
        result_addr != right_addr,
        left_addr != m.next_temp && left_addr != m.next_temp + 1 && left_addr != m.next_temp + 2
            && left_addr != m.next_temp + 3,
        right_addr != m.next_temp && right_addr != m.next_temp + 1 && right_addr != m.next_temp + 2
            && right_addr != m.next_temp + 3,
        result_addr != m.next_temp && result_addr != m.next_temp + 1 && result_addr != m.next_temp
            + 2 && result_addr != m.next_temp + 3,
        f >= 2806,
    ensures
        run(compare_struct(m.head, result_addr, left_addr, right_addr, m.next_temp), st, f)
            matches Some(st1) && ({
            &&& compare_equal_m(m, result_addr, left_addr, right_addr) matches Some(mz)
                && st1.head == mz.head
            &&& st1.out == st.out
            &&& read_cell(st1, result_addr) == (if read_cell(st, left_addr) == read_cell(
                st,
                right_addr,
            ) {
                1u8
            } else {
                0u8
            })
            &&& read_cell(st1, left_addr) == read_cell(st, left_addr)
            &&& read_cell(st1, right_addr) == read_cell(st, right_addr)
            &&& forall|i: nat|
                (i != result_addr && i != left_addr && i != right_addr && i != m.next_temp && i
                    != m.next_temp + 1 && i != m.next_temp + 2 && i != m.next_temp + 3)
                    ==> read_cell(st1, i) == read_cell(st, i)
        }),
{
    let h0 = m.head;
    let t = m.next_temp;
    let lv = read_cell(st, left_addr);
    let rv = read_cell(st, right_addr);
    let m0 = GenModel { next_temp: m.next_temp + 2, ..m };
    theorem_copy_value_runs(m0, left_addr, t, st, 1020);
    let st_a = run(copy_struct(h0, left_addr, t, t + 2), st, 1020)->Some_0;
    let m1 = copy_value_m(m0, left_addr, t)->Some_0;
    assert(m1.head == t + 2);
    assert(m1.next_temp == t + 3);
    assert(st_a.head == t + 2);
    assert(read_cell(st_a, t) == lv);
    assert(read_cell(st_a, right_addr) == rv);
    theorem_copy_value_runs(m1, right_addr, t + 1, st_a, 1020);
    let st_b = run(copy_struct(t + 2, right_addr, t + 1, t + 3), st_a, 1020)->Some_0;
    assert(read_cell(st_b, t + 1) == rv);
    assert(read_cell(st_b, t) == lv);
    lemma_run_moves(t + 3, result_addr, st_b, 0);
    let st_c = run(moves_struct(t + 3, result_addr), st_b, 0)->Some_0;
    lemma_run_clear(st_c, 255);
    let st_d = run(clear_struct(), st_c, 255)->Some_0;
    lemma_run_plus(1, st_d, 0);
    let st_e = run(op_run('+', 1), st_d, 0)->Some_0;
    assert(read_cell(st_e, result_addr) == 1);
    assert(read_cell(st_e, t) == lv);
    assert(read_cell(st_e, t + 1) == rv);
    lemma_run_moves(result_addr, t + 1, st_e, 0);
    let st_f = run(moves_struct(result_addr, t + 1), st_e, 0)->Some_0;
    lemma_run_drain_loop(t + 1, t, '-', st_f, 255);
    let st_g = run(drain_loop(t + 1, t, '-'), st_f, 255)->Some_0;
    let residue = ((lv as nat + 255 * (rv as nat)) % 256) as u8;
    assert(read_cell(st_g, t) == residue) by {
        assert(crate::bf::sign_delta('-') == 255);
    }
    assert(read_cell(st_g, t + 1) == 0);
    assert(residue == 0 <==> lv == rv) by {
        assert(lv as int + 255 * (rv as int) == 256 * (rv as int) + (lv as int - rv as int));
        vstd::arithmetic::div_mod::lemma_mod_multiples_vanish(
            rv as int,
            lv as int - rv as int,
            256,
        );
        if lv == rv {
            assert((0int % 256) == 0);
        } else if lv > rv {
            vstd::arithmetic::div_mod::lemma_small_mod((lv - rv) as nat, 256);
        } else {
            vstd::arithmetic::div_mod::lemma_mod_multiples_vanish(
                1,
                lv as int - rv as int,
                256,
            );
            assert(256 + lv as int - rv as int == (256 + lv - rv) as nat);
            vstd::arithmetic::div_mod::lemma_small_mod((256 + lv - rv) as nat, 256);
        }
    }
    assert(read_cell(st_g, result_addr) == 1);
    lemma_run_moves(t + 1, t, st_g, 0);
    let st_h = run(moves_struct(t + 1, t), st_g, 0)->Some_0;
    assert(read_cell(st_h, result_addr) == 1);
    assert(read_cell(st_h, t) == residue);
    lemma_run_cond_clear(t, result_addr, st_h, 256);
    let st_i = run(cond_clear(t, result_addr), st_h, 256)->Some_0;
    assert(read_cell(st_i, result_addr) == (if lv == rv {
        1u8
    } else {
        0u8
    })) by {
        if lv != rv {
            assert(read_cell(st_h, t) == residue && residue != 0);
            assert(((1nat + 255) % 256) == 0);
        }
    }
    assert(read_cell(st_b, left_addr) == lv);
    assert(read_cell(st_b, right_addr) == rv);
    assert(read_cell(st_c, left_addr) == lv && read_cell(st_c, right_addr) == rv);
    assert(read_cell(st_d, left_addr) == lv && read_cell(st_d, right_addr) == rv);
    assert(read_cell(st_e, left_addr) == lv && read_cell(st_e, right_addr) == rv);
    assert(read_cell(st_f, left_addr) == lv && read_cell(st_f, right_addr) == rv);
    assert(read_cell(st_g, left_addr) == lv && read_cell(st_g, right_addr) == rv);
    assert(read_cell(st_h, left_addr) == lv && read_cell(st_h, right_addr) == rv);
    assert(read_cell(st_i, left_addr) == lv && read_cell(st_i, right_addr) == rv);
    lemma_run_seq(moves_struct(t + 1, t), cond_clear(t, result_addr), st_g, 0, 256);
    let u7 = seq_code(moves_struct(t + 1, t), cond_clear(t, result_addr));
    lemma_run_seq(drain_loop(t + 1, t, '-'), u7, st_f, 255, 256);
    let u6 = seq_code(drain_loop(t + 1, t, '-'), u7);
    lemma_run_seq(moves_struct(result_addr, t + 1), u6, st_e, 0, 511);
    let u5 = seq_code(moves_struct(result_addr, t + 1), u6);
    lemma_run_seq(op_run('+', 1), u5, st_d, 0, 511);
    let u4 = seq_code(op_run('+', 1), u5);
    lemma_run_seq(clear_struct(), u4, st_c, 255, 511);
    let u3 = seq_code(clear_struct(), u4);
    lemma_run_seq(moves_struct(t + 3, result_addr), u3, st_b, 0, 766);
    let u2 = seq_code(moves_struct(t + 3, result_addr), u3);
    lemma_run_seq(copy_struct(t + 2, right_addr, t + 1, t + 3), u2, st_a, 1020, 766);
    let u1 = seq_code(copy_struct(t + 2, right_addr, t + 1, t + 3), u2);
    lemma_run_seq(copy_struct(h0, left_addr, t, t + 2), u1, st, 1020, 1786);
    lemma_run_mono(
        compare_struct(h0, result_addr, left_addr, right_addr, t),
        st,
        2806,
        f,
    );
    let st1 = run(compare_struct(h0, result_addr, left_addr, right_addr, t), st, f)->Some_0;
    assert(st1 == st_i);
    assert forall|i: nat|
        (i != result_addr && i != left_addr && i != right_addr && i != t && i != t + 1 && i != t
            + 2 && i != t + 3) implies read_cell(st1, i) == read_cell(st, i) by {
        let x1 = read_cell(st_a, i);
        let x2 = read_cell(st_b, i);
        assert(read_cell(st_c, i) == read_cell(st_b, i));
        let x3 = read_cell(st_d, i);
        let x4 = read_cell(st_e, i);
        assert(read_cell(st_f, i) == read_cell(st_e, i));
        let x5 = read_cell(st_g, i);
        assert(read_cell(st_h, i) == read_cell(st_g, i));
        let x6 = read_cell(st_i, i);
    }
}

} // verus!
