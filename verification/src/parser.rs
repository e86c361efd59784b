//! Recursive-descent parsing: tokens to a `Program`.
//!
//! The meaning of the parser is given by the spec-level parse functions
//! ([`p_program`] and the productions below it), a direct transcription
//! of the grammar: each production yields the model of the node it
//! builds and the index after it, or the index an error arises at.
//! Every executable production is proved to agree with its spec-level
//! parse in both the success and the failure case, so `parse` succeeds
//! exactly on the token sequences that derive from the grammar, and the
//! tree it returns — precedence, associativity, names and values — is
//! pinned.  All productions are also proved to terminate on every token
//! sequence.

use vstd::prelude::*;
use crate::ast::{
    expr_model, spec_kind, stmt_model, stmts_model, BinaryOp, Expr, ExprModel, Program, Stmt,
    StmtModel, Token, TokenKind,
};
use crate::error::{TranspilerError, TranspilerResult};

verus! {

/// The kind of the token at `i`, `Eof` past the end.
pub open spec fn kind_at(toks: Seq<Token>, i: int) -> TokenKind {
    if 0 <= i < toks.len() {
        spec_kind(toks[i])
    } else {
        TokenKind::Eof
    }
}

/// The spec-level parse of a primary expression at `i`: a number, a
/// variable, or a parenthesized expression.  Every parse function here
/// returns the node's model and the index after it, or the index the
/// error arose at; together they transcribe the expression and statement
/// grammar, so a token sequence is grammatical exactly when
/// [`p_program`] succeeds on it.
pub open spec fn p_primary(toks: Seq<Token>, i: int) -> Result<(ExprModel, int), int>
    decreases toks.len() - i, 1int,
{
    if 0 <= i < toks.len() {
        match toks[i] {
            Token::Number(n) => Ok((ExprModel::Number(n as int), i + 1)),
            Token::Identifier(name) => Ok((ExprModel::Variable(name@), i + 1)),
            Token::LeftParen => match p_expression(toks, i + 1) {
                Err(p) => Err(p),
                Ok((e, j)) => {
                    if kind_at(toks, j) == TokenKind::RightParen {
                        Ok((e, j + 1))
                    } else {
                        Err(j)
                    }
                },
            },
            _ => Err(i),
        }
    } else {
        Err(i)
    }
}

/// primary ((`*` | `/`) primary)*, left-associative.
pub open spec fn p_factor(toks: Seq<Token>, i: int) -> Result<(ExprModel, int), int>
    decreases toks.len() - i, 2int,
{
    match p_primary(toks, i) {
        Err(p) => Err(p),
        Ok((e, j)) => {
            if i < j <= toks.len() {
                p_factor_tail(toks, e, j)
            } else {
                Err(j)  // unreachable: a parse consumes at least one token
            }
        },
    }
}

/// The left-associative operator loop of `p_factor`.
pub open spec fn p_factor_tail(toks: Seq<Token>, e: ExprModel, i: int) -> Result<
    (ExprModel, int),
    int,
>
    decreases toks.len() - i, 0int,
{
    let k = kind_at(toks, i);
    if k == TokenKind::Multiply || k == TokenKind::Divide {
        let op = if k == TokenKind::Multiply {
            BinaryOp::Mul
        } else {
            BinaryOp::Div
        };
        match p_primary(toks, i + 1) {
            Err(p) => Err(p),
            Ok((r, j)) => {
                let e2 = ExprModel::Binary { left: Box::new(e), operator: op, right: Box::new(r) };
                if i < j <= toks.len() {
                    p_factor_tail(toks, e2, j)
                } else {
                    Err(j)  // unreachable: a parse consumes at least one token
                }
            },
        }
    } else {
        Ok((e, i))
    }
}

/// factor ((`+` | `-`) factor)*, left-associative.
pub open spec fn p_term(toks: Seq<Token>, i: int) -> Result<(ExprModel, int), int>
    decreases toks.len() - i, 3int,
{
    match p_factor(toks, i) {
        Err(p) => Err(p),
        Ok((e, j)) => {
            if i < j <= toks.len() {
                p_term_tail(toks, e, j)
            } else {
                Err(j)  // unreachable: a parse consumes at least one token
            }
        },
    }
}

/// The left-associative operator loop of `p_term`.
pub open spec fn p_term_tail(toks: Seq<Token>, e: ExprModel, i: int) -> Result<
    (ExprModel, int),
    int,
>
    decreases toks.len() - i, 2int,
{
    let k = kind_at(toks, i);
    if k == TokenKind::Plus || k == TokenKind::Minus {
        let op = if k == TokenKind::Plus {
            BinaryOp::Add
        } else {
            BinaryOp::Sub
        };
        match p_factor(toks, i + 1) {
            Err(p) => Err(p),
            Ok((r, j)) => {
                let e2 = ExprModel::Binary { left: Box::new(e), operator: op, right: Box::new(r) };
                if i < j <= toks.len() {
                    p_term_tail(toks, e2, j)
                } else {
                    Err(j)  // unreachable: a parse consumes at least one token
                }
            },
        }
    } else {
        Ok((e, i))
    }
}

/// term ((`<` | `>`) term)*, left-associative.
pub open spec fn p_comparison(toks: Seq<Token>, i: int) -> Result<(ExprModel, int), int>
    decreases toks.len() - i, 4int,
{
    match p_term(toks, i) {
        Err(p) => Err(p),
        Ok((e, j)) => {
            if i < j <= toks.len() {
                p_comparison_tail(toks, e, j)
            } else {
                Err(j)  // unreachable: a parse consumes at least one token
            }
        },
    }
}

/// The left-associative operator loop of `p_comparison`.
pub open spec fn p_comparison_tail(toks: Seq<Token>, e: ExprModel, i: int) -> Result<
    (ExprModel, int),
    int,
>
    decreases toks.len() - i, 3int,
{
    let k = kind_at(toks, i);
    if k == TokenKind::Less || k == TokenKind::Greater {
        let op = if k == TokenKind::Less {
            BinaryOp::Less
        } else {
            BinaryOp::Greater
        };
        match p_term(toks, i + 1) {
            Err(p) => Err(p),
            Ok((r, j)) => {
                let e2 = ExprModel::Binary { left: Box::new(e), operator: op, right: Box::new(r) };
                if i < j <= toks.len() {
                    p_comparison_tail(toks, e2, j)
                } else {
                    Err(j)  // unreachable: a parse consumes at least one token
                }
            },
        }
    } else {
        Ok((e, i))
    }
}

/// comparison ((`==` | `!=`) comparison)*, left-associative.
pub open spec fn p_equality(toks: Seq<Token>, i: int) -> Result<(ExprModel, int), int>
    decreases toks.len() - i, 5int,
{
    match p_comparison(toks, i) {
        Err(p) => Err(p),
        Ok((e, j)) => {
            if i < j <= toks.len() {
                p_equality_tail(toks, e, j)
            } else {
                Err(j)  // unreachable: a parse consumes at least one token
            }
        },
    }
}

/// The left-associative operator loop of `p_equality`.
pub open spec fn p_equality_tail(toks: Seq<Token>, e: ExprModel, i: int) -> Result<
    (ExprModel, int),
    int,
>
    decreases toks.len() - i, 4int,
{
    let k = kind_at(toks, i);
    if k == TokenKind::Equal || k == TokenKind::NotEqual {
        let op = if k == TokenKind::Equal {
            BinaryOp::Equal
        } else {
            BinaryOp::NotEqual
        };
        match p_comparison(toks, i + 1) {
            Err(p) => Err(p),
            Ok((r, j)) => {
                let e2 = ExprModel::Binary { left: Box::new(e), operator: op, right: Box::new(r) };
                if i < j <= toks.len() {
                    p_equality_tail(toks, e2, j)
                } else {
                    Err(j)  // unreachable: a parse consumes at least one token
                }
            },
        }
    } else {
        Ok((e, i))
    }
}

/// An expression: the lowest-precedence production.
pub open spec fn p_expression(toks: Seq<Token>, i: int) -> Result<(ExprModel, int), int>
    decreases toks.len() - i, 6int,
{
    p_equality(toks, i)
}

/// `let` (`mut`)? name `=` expression `;`?
pub open spec fn p_let(toks: Seq<Token>, i: int) -> Result<(StmtModel, int), int>
    decreases toks.len() - i, 7int,
{
    if kind_at(toks, i) != TokenKind::Let {
        Err(i)
    } else {
        let i1 = i + 1;
        let mutable = kind_at(toks, i1) == TokenKind::Mut;
        let i2 = if mutable {
            i1 + 1
        } else {
            i1
        };
        if kind_at(toks, i2) != TokenKind::Identifier {
            Err(i2)
        } else {
            match toks[i2] {
                Token::Identifier(name) => {
                    if kind_at(toks, i2 + 1) != TokenKind::Assign {
                        Err(i2 + 1)
                    } else {
                        match p_expression(toks, i2 + 2) {
                            Err(p) => Err(p),
                            Ok((value, j)) => {
                                let j2 = if kind_at(toks, j) == TokenKind::Semicolon {
                                    j + 1
                                } else {
                                    j
                                };
                                Ok((StmtModel::Let { name: name@, mutable, value }, j2))
                            },
                        }
                    }
                },
                _ => Err(i2),  // unreachable: the kind at i2 is Identifier
            }
        }
    }
}

/// name `=` expression `;`?
pub open spec fn p_assign(toks: Seq<Token>, i: int) -> Result<(StmtModel, int), int>
    decreases toks.len() - i, 7int,
{
    if kind_at(toks, i) != TokenKind::Identifier {
        Err(i)
    } else {
        match toks[i] {
            Token::Identifier(name) => {
                if kind_at(toks, i + 1) != TokenKind::Assign {
                    Err(i + 1)
                } else {
                    match p_expression(toks, i + 2) {
                        Err(p) => Err(p),
                        Ok((value, j)) => {
                            let j2 = if kind_at(toks, j) == TokenKind::Semicolon {
                                j + 1
                            } else {
                                j
                            };
                            Ok((StmtModel::Assign { name: name@, value }, j2))
                        },
                    }
                }
            },
            _ => Err(i),  // unreachable: the kind at i is Identifier
        }
    }
}

/// `print` `(` expression `)` `;`?
pub open spec fn p_print(toks: Seq<Token>, i: int) -> Result<(StmtModel, int), int>
    decreases toks.len() - i, 7int,
{
    if kind_at(toks, i) != TokenKind::Print {
        Err(i)
    } else if kind_at(toks, i + 1) != TokenKind::LeftParen {
        Err(i + 1)
    } else {
        match p_expression(toks, i + 2) {
            Err(p) => Err(p),
            Ok((value, j)) => {
                if kind_at(toks, j) != TokenKind::RightParen {
                    Err(j)
                } else {
                    let j2 = if kind_at(toks, j + 1) == TokenKind::Semicolon {
                        j + 2
                    } else {
                        j + 1
                    };
                    Ok((StmtModel::Print(value), j2))
                }
            },
        }
    }
}

/// `{` statement* `}`
pub open spec fn p_block(toks: Seq<Token>, i: int) -> Result<(Seq<StmtModel>, int), int>
    decreases toks.len() - i, 7int,
{
    if kind_at(toks, i) != TokenKind::LeftBrace {
        Err(i)
    } else {
        p_block_items(toks, i + 1)
    }
}

/// The statements of a block, up to the closing brace.
pub open spec fn p_block_items(toks: Seq<Token>, i: int) -> Result<(Seq<StmtModel>, int), int>
    decreases toks.len() - i, 9int,
{
    if kind_at(toks, i) == TokenKind::RightBrace {
        Ok((Seq::empty(), i + 1))
    } else if i >= toks.len() {
        Err(i)
    } else {
        match p_statement(toks, i) {
            Err(p) => Err(p),
            Ok((s, j)) => {
                if i < j <= toks.len() {
                    match p_block_items(toks, j) {
                        Err(p) => Err(p),
                        Ok((ss, k)) => Ok((seq![s] + ss, k)),
                    }
                } else {
                    Err(j)  // unreachable: a parse consumes at least one token
                }
            },
        }
    }
}

/// `if` expression block
pub open spec fn p_if(toks: Seq<Token>, i: int) -> Result<(StmtModel, int), int>
    decreases toks.len() - i, 7int,
{
    if kind_at(toks, i) != TokenKind::If {
        Err(i)
    } else {
        match p_expression(toks, i + 1) {
            Err(p) => Err(p),
            Ok((condition, j)) => {
                if i < j <= toks.len() {
                    match p_block(toks, j) {
                        Err(p) => Err(p),
                        Ok((body, k)) => Ok((StmtModel::If { condition, body }, k)),
                    }
                } else {
                    Err(j)  // unreachable: a parse consumes at least one token
                }
            },
        }
    }
}

/// `while` expression block
pub open spec fn p_while(toks: Seq<Token>, i: int) -> Result<(StmtModel, int), int>
    decreases toks.len() - i, 7int,
{
    if kind_at(toks, i) != TokenKind::While {
        Err(i)
    } else {
        match p_expression(toks, i + 1) {
            Err(p) => Err(p),
            Ok((condition, j)) => {
                if i < j <= toks.len() {
                    match p_block(toks, j) {
                        Err(p) => Err(p),
                        Ok((body, k)) => Ok((StmtModel::While { condition, body }, k)),
                    }
                } else {
                    Err(j)  // unreachable: a parse consumes at least one token
                }
            },
        }
    }
}

/// Statement dispatch: the token at the cursor names the production.
pub open spec fn p_statement(toks: Seq<Token>, i: int) -> Result<(StmtModel, int), int>
    decreases toks.len() - i, 8int,
{
    let k = kind_at(toks, i);
    if k == TokenKind::Let {
        p_let(toks, i)
    } else if k == TokenKind::Print {
        p_print(toks, i)
    } else if k == TokenKind::If {
        p_if(toks, i)
    } else if k == TokenKind::While {
        p_while(toks, i)
    } else if k == TokenKind::Identifier {
        p_assign(toks, i)
    } else {
        Err(i)
    }
}

/// A whole program: statements until the end of the tokens or an `Eof`
/// token.  A token sequence derives from the statement grammar exactly
/// when this returns `Ok`.
pub open spec fn p_program(toks: Seq<Token>, i: int) -> Result<(Seq<StmtModel>, int), int>
    decreases toks.len() - i, 9int,
{
    if i >= toks.len() || kind_at(toks, i) == TokenKind::Eof {
        Ok((Seq::empty(), i))
    } else {
        match p_statement(toks, i) {
            Err(p) => Err(p),
            Ok((s, j)) => {
                if i < j <= toks.len() {
                    match p_program(toks, j) {
                        Err(p) => Err(p),
                        Ok((ss, k)) => Ok((seq![s] + ss, k)),
                    }
                } else {
                    Err(j)  // unreachable: a parse consumes at least one token
                }
            },
        }
    }
}

/// Prepends already-parsed statements to the parse of the rest.
pub open spec fn p_seq_prefix(
    done: Seq<StmtModel>,
    r: Result<(Seq<StmtModel>, int), int>,
) -> Result<(Seq<StmtModel>, int), int> {
    match r {
        Ok((ss, k)) => Ok((done + ss, k)),
        Err(p) => Err(p),
    }
}

/// Shifts one freshly parsed statement from the tail into the prefix of
/// a program parse.
proof fn lemma_program_prefix_push(
    done: Seq<StmtModel>,
    sm: StmtModel,
    toks: Seq<Token>,
    before: int,
    after: int,
)
    requires
        0 <= before < toks.len(),
        kind_at(toks, before) != TokenKind::Eof,
        p_statement(toks, before) == Ok::<(StmtModel, int), int>((sm, after)),
        before < after <= toks.len(),
    ensures
        p_seq_prefix(done, p_program(toks, before)) == p_seq_prefix(
            done.push(sm),
            p_program(toks, after),
        ),
{
    match p_program(toks, after) {
        Ok((ss, k)) => {
            assert(done + (seq![sm] + ss) =~= done.push(sm) + ss);
        },
        Err(_) => {},
    }
}

/// Shifts one freshly parsed statement from the tail into the prefix of
/// a block parse.
proof fn lemma_block_prefix_push(
    done: Seq<StmtModel>,
    sm: StmtModel,
    toks: Seq<Token>,
    before: int,
    after: int,
)
    requires
        0 <= before < toks.len(),
        kind_at(toks, before) != TokenKind::RightBrace,
        p_statement(toks, before) == Ok::<(StmtModel, int), int>((sm, after)),
        before < after <= toks.len(),
    ensures
        p_seq_prefix(done, p_block_items(toks, before)) == p_seq_prefix(
            done.push(sm),
            p_block_items(toks, after),
        ),
{
    match p_block_items(toks, after) {
        Ok((ss, k)) => {
            assert(done + (seq![sm] + ss) =~= done.push(sm) + ss);
        },
        Err(_) => {},
    }
}

/// The parser: a token vector and an index-based cursor.
pub struct Parser {
    tokens: Vec<Token>,
    current: usize,
}

impl Parser {
    /// The tokens being parsed.
    pub closed spec fn toks(&self) -> Seq<Token> {
        self.tokens@
    }

    /// The cursor index.
    pub closed spec fn cur(&self) -> int {
        self.current as int
    }

    /// The cursor never passes the end of the tokens.
    pub closed spec fn wf(&self) -> bool {
        self.current <= self.tokens@.len()
    }

    /// The kind of the token at the cursor, `Eof` past the end.
    pub open spec fn peek_spec(&self) -> TokenKind {
        if self.cur() < self.toks().len() {
            spec_kind(self.toks()[self.cur()])
        } else {
            TokenKind::Eof
        }
    }

    /// A fresh parser at the start of `tokens`.
    pub fn new(tokens: Vec<Token>) -> (p: Parser)
        ensures
            p.wf(),
            p.toks() == tokens@,
            p.cur() == 0,
    {
        Parser { tokens, current: 0 }
    }

    /// Parses the whole token sequence into a program: exactly the
    /// statements the spec-level parse [`p_program`] gives, so `Ok` comes
    /// back precisely when the tokens derive from the statement grammar.
    /// On failure the error carries the token index the spec-level parse
    /// fails at.
    pub fn parse(&mut self) -> (r: TranspilerResult<Program>)
        requires
            old(self).wf(),
        ensures
            final(self).wf(),
            final(self).toks() == old(self).toks(),
            old(self).cur() <= final(self).cur(),
            r matches Ok(prog) ==> p_program(old(self).toks(), old(self).cur())
                == Ok::<(Seq<StmtModel>, int), int>((stmts_model(prog@), final(self).cur())),
            r is Ok ==> final(self).peek_spec() == TokenKind::Eof,
            r matches Err(e) ==> (p_program(old(self).toks(), old(self).cur()) matches Err(p)
                && e.position == Some(p as usize)),
    {
        let ghost toks = old(self).toks();
        let ghost i0 = old(self).cur();
        let mut statements: Vec<Stmt> = Vec::new();
        proof {
            assert(stmts_model(statements@) =~= Seq::<StmtModel>::empty());
            if let Ok((ss, k)) = p_program(toks, i0) {
                assert(Seq::<StmtModel>::empty() + ss =~= ss);
            }
        }
        loop
            invariant
                self.wf(),
                toks == old(self).toks(),
                i0 == old(self).cur(),
                self.toks() == toks,
                0 <= i0 <= self.cur(),
                p_program(toks, i0) == p_seq_prefix(
                    stmts_model(statements@),
                    p_program(toks, self.cur()),
                ),
            decreases self.toks().len() - self.cur(),
        {
            if self.is_at_end() {
                proof {
                    assert(p_program(toks, self.cur()) == Ok::<(Seq<StmtModel>, int), int>(
                        (Seq::<StmtModel>::empty(), self.cur()),
                    ));
                    assert(stmts_model(statements@) + Seq::<StmtModel>::empty() =~= stmts_model(
                        statements@,
                    ));
                }
                return Ok(statements);
            }
            if self.peek_kind() == TokenKind::Eof {
                proof {
                    assert(p_program(toks, self.cur()) == Ok::<(Seq<StmtModel>, int), int>(
                        (Seq::<StmtModel>::empty(), self.cur()),
                    ));
                    assert(stmts_model(statements@) + Seq::<StmtModel>::empty() =~= stmts_model(
                        statements@,
                    ));
                }
                return Ok(statements);
            }
            let ghost before = self.cur();
            match self.statement() {
                Ok(s) => {
                    let ghost prev = statements@;
                    statements.push(s);
                    proof {
                        assert(statements@.drop_last() =~= prev);
                        assert(statements@.last() == s);
                        lemma_program_prefix_push(
                            stmts_model(prev),
                            stmt_model(s),
                            toks,
                            before,
                            self.cur(),
                        );
                    }
                }
                Err(e) => {
                    return Err(e);
                }
            }
        }
    }

    /// Dispatches on the token at the cursor to one statement form; the
    /// result is the spec-level parse [`p_statement`] of the tokens.
    fn statement(&mut self) -> (r: TranspilerResult<Stmt>)
        requires
            old(self).wf(),
        ensures
            final(self).wf(),
            final(self).toks() == old(self).toks(),
            old(self).cur() <= final(self).cur() <= final(self).toks().len(),
            r matches Ok(s) ==> p_statement(old(self).toks(), old(self).cur())
                == Ok::<(StmtModel, int), int>((stmt_model(s), final(self).cur())),
            r is Ok ==> old(self).cur() < final(self).cur(),
            r matches Err(e) ==> (p_statement(old(self).toks(), old(self).cur()) matches Err(p)
                && e.position == Some(p as usize)),
        decreases old(self).toks().len() - old(self).cur(), 8int,
    {
        let k = self.peek_kind();
        if k == TokenKind::Let {
            self.let_statement()
        } else if k == TokenKind::Print {
            self.print_statement()
        } else if k == TokenKind::If {
            self.if_statement()
        } else if k == TokenKind::While {
            self.while_statement()
        } else if k == TokenKind::Identifier {
            self.assignment_statement()
        } else {
            Err(TranspilerError::with_position("Unexpected token".to_owned(), self.current))
        }
    }

    /// `let` (`mut`)? name `=` expression `;`? — the spec-level parse
    /// [`p_let`] of the tokens.
    fn let_statement(&mut self) -> (r: TranspilerResult<Stmt>)
        requires
            old(self).wf(),
        ensures
            final(self).wf(),
            final(self).toks() == old(self).toks(),
            old(self).cur() <= final(self).cur() <= final(self).toks().len(),
            r matches Ok(s) ==> p_let(old(self).toks(), old(self).cur())
                == Ok::<(StmtModel, int), int>((stmt_model(s), final(self).cur())),
            r is Ok ==> old(self).cur() < final(self).cur(),
            r matches Err(e) ==> (p_let(old(self).toks(), old(self).cur()) matches Err(p)
                && e.position == Some(p as usize)),
        decreases old(self).toks().len() - old(self).cur(), 7int,
    {
        let _ = self.consume(TokenKind::Let, "Expected 'let'")?;
        let mutable = self.consume_if_present(TokenKind::Mut);
        let name = self.consume_identifier("Expected variable name")?;
        let _ = self.consume(TokenKind::Assign, "Expected '=' after variable name")?;
        let value = self.expression()?;
        self.consume_if_present(TokenKind::Semicolon);
        Ok(Stmt::let_stmt(name, mutable, value))
    }

    /// name `=` expression `;`? — the spec-level parse [`p_assign`] of
    /// the tokens.
    fn assignment_statement(&mut self) -> (r: TranspilerResult<Stmt>)
        requires
            old(self).wf(),
        ensures
            final(self).wf(),
            final(self).toks() == old(self).toks(),
            old(self).cur() <= final(self).cur() <= final(self).toks().len(),
            r matches Ok(s) ==> p_assign(old(self).toks(), old(self).cur())
                == Ok::<(StmtModel, int), int>((stmt_model(s), final(self).cur())),
            r is Ok ==> old(self).cur() < final(self).cur(),
            r matches Err(e) ==> (p_assign(old(self).toks(), old(self).cur()) matches Err(p)
                && e.position == Some(p as usize)),
        decreases old(self).toks().len() - old(self).cur(), 7int,
    {
        let name = self.consume_identifier("Expected variable name")?;
        let _ = self.consume(TokenKind::Assign, "Expected '=' in assignment")?;
        let value = self.expression()?;
        self.consume_if_present(TokenKind::Semicolon);
        Ok(Stmt::assign(name, value))
    }

    /// `print` `(` expression `)` `;`? — the spec-level parse [`p_print`]
    /// of the tokens.
    fn print_statement(&mut self) -> (r: TranspilerResult<Stmt>)
        requires
            old(self).wf(),
        ensures
            final(self).wf(),
            final(self).toks() == old(self).toks(),
            old(self).cur() <= final(self).cur() <= final(self).toks().len(),
            r matches Ok(s) ==> p_print(old(self).toks(), old(self).cur())
                == Ok::<(StmtModel, int), int>((stmt_model(s), final(self).cur())),
            r is Ok ==> old(self).cur() < final(self).cur(),
            r matches Err(e) ==> (p_print(old(self).toks(), old(self).cur()) matches Err(p)
                && e.position == Some(p as usize)),
        decreases old(self).toks().len() - old(self).cur(), 7int,
    {
        let _ = self.consume(TokenKind::Print, "Expected 'print'")?;
        let _ = self.consume(TokenKind::LeftParen, "Expected '(' after 'print'")?;
        let expr = self.expression()?;
        let _ = self.consume(TokenKind::RightParen, "Expected ')' after expression")?;
        self.consume_if_present(TokenKind::Semicolon);
        Ok(Stmt::print(expr))
    }

    /// `if` expression block — the spec-level parse [`p_if`] of the
    /// tokens.
    fn if_statement(&mut self) -> (r: TranspilerResult<Stmt>)
        requires
            old(self).wf(),
        ensures
            final(self).wf(),
            final(self).toks() == old(self).toks(),
            old(self).cur() <= final(self).cur() <= final(self).toks().len(),
            r matches Ok(s) ==> p_if(old(self).toks(), old(self).cur())
                == Ok::<(StmtModel, int), int>((stmt_model(s), final(self).cur())),
            r is Ok ==> old(self).cur() < final(self).cur(),
            r matches Err(e) ==> (p_if(old(self).toks(), old(self).cur()) matches Err(p)
                && e.position == Some(p as usize)),
        decreases old(self).toks().len() - old(self).cur(), 7int,
    {
        let _ = self.consume(TokenKind::If, "Expected 'if'")?;
        let condition = self.expression()?;
        let body = self.block()?;
        Ok(Stmt::if_stmt(condition, body))
    }

    /// `while` expression block — the spec-level parse [`p_while`] of the
    /// tokens.
    fn while_statement(&mut self) -> (r: TranspilerResult<Stmt>)
        requires
            old(self).wf(),
        ensures
            final(self).wf(),
            final(self).toks() == old(self).toks(),
            old(self).cur() <= final(self).cur() <= final(self).toks().len(),
            r matches Ok(s) ==> p_while(old(self).toks(), old(self).cur())
                == Ok::<(StmtModel, int), int>((stmt_model(s), final(self).cur())),
            r is Ok ==> old(self).cur() < final(self).cur(),
            r matches Err(e) ==> (p_while(old(self).toks(), old(self).cur()) matches Err(p)
                && e.position == Some(p as usize)),
        decreases old(self).toks().len() - old(self).cur(), 7int,
    {
        let _ = self.consume(TokenKind::While, "Expected 'while'")?;
        let condition = self.expression()?;
        let body = self.block()?;
        Ok(Stmt::while_stmt(condition, body))
    }

    /// `{` statement* `}` — the spec-level parse [`p_block`] of the
    /// tokens.
    fn block(&mut self) -> (r: TranspilerResult<Vec<Stmt>>)
        requires
            old(self).wf(),
        ensures
            final(self).wf(),
            final(self).toks() == old(self).toks(),
            old(self).cur() <= final(self).cur() <= final(self).toks().len(),
            r matches Ok(body) ==> p_block(old(self).toks(), old(self).cur())
                == Ok::<(Seq<StmtModel>, int), int>((stmts_model(body@), final(self).cur())),
            r is Ok ==> old(self).cur() < final(self).cur(),
            r matches Err(e) ==> (p_block(old(self).toks(), old(self).cur()) matches Err(p)
                && e.position == Some(p as usize)),
        decreases old(self).toks().len() - old(self).cur(), 7int,
    {
        let ghost toks = old(self).toks();
        let ghost i0 = old(self).cur();
        let _ = self.consume(TokenKind::LeftBrace, "Expected '{'")?;
        let mut statements: Vec<Stmt> = Vec::new();
        proof {
            assert(stmts_model(statements@) =~= Seq::<StmtModel>::empty());
            if let Ok((ss, k)) = p_block_items(toks, i0 + 1) {
                assert(Seq::<StmtModel>::empty() + ss =~= ss);
            }
        }
        loop
            invariant
                self.wf(),
                toks == old(self).toks(),
                i0 == old(self).cur(),
                self.toks() == toks,
                0 <= i0 < self.cur() <= toks.len(),
                p_block(toks, i0) == p_seq_prefix(
                    stmts_model(statements@),
                    p_block_items(toks, self.cur()),
                ),
            ensures
                self.cur() >= toks.len() || kind_at(toks, self.cur()) == TokenKind::RightBrace,
            decreases self.toks().len() - self.cur(),
        {
            if self.is_at_end() {
                break;
            }
            if self.peek_kind() == TokenKind::RightBrace {
                break;
            }
            let ghost before = self.cur();
            match self.statement() {
                Ok(s) => {
                    let ghost prev = statements@;
                    statements.push(s);
                    proof {
                        assert(statements@.drop_last() =~= prev);
                        assert(statements@.last() == s);
                        lemma_block_prefix_push(
                            stmts_model(prev),
                            stmt_model(s),
                            toks,
                            before,
                            self.cur(),
                        );
                    }
                }
                Err(e) => {
                    return Err(e);
                }
            }
        }
        let _ = self.consume(TokenKind::RightBrace, "Expected '}'")?;
        proof {
            assert(stmts_model(statements@) + Seq::<StmtModel>::empty() =~= stmts_model(
                statements@,
            ));
        }
        Ok(statements)
    }

    /// An expression: the lowest-precedence production, the spec-level
    /// parse [`p_expression`] of the tokens.
    fn expression(&mut self) -> (r: TranspilerResult<Expr>)
        requires
            old(self).wf(),
        ensures
            final(self).wf(),
            final(self).toks() == old(self).toks(),
            old(self).cur() <= final(self).cur() <= final(self).toks().len(),
            r matches Ok(e) ==> p_expression(old(self).toks(), old(self).cur())
                == Ok::<(ExprModel, int), int>((expr_model(e), final(self).cur())),
            r is Ok ==> old(self).cur() < final(self).cur(),
            r matches Err(er) ==> (p_expression(old(self).toks(), old(self).cur()) matches Err(p)
                && er.position == Some(p as usize)),
        decreases old(self).toks().len() - old(self).cur(), 6int,
    {
        self.equality()
    }

    /// comparison ((`==` | `!=`) comparison)*, left-associative — the
    /// spec-level parse [`p_equality`] of the tokens.
    fn equality(&mut self) -> (r: TranspilerResult<Expr>)
        requires
            old(self).wf(),
        ensures
            final(self).wf(),
            final(self).toks() == old(self).toks(),
            old(self).cur() <= final(self).cur() <= final(self).toks().len(),
            r matches Ok(e) ==> p_equality(old(self).toks(), old(self).cur())
                == Ok::<(ExprModel, int), int>((expr_model(e), final(self).cur())),
            r is Ok ==> old(self).cur() < final(self).cur(),
            r matches Err(er) ==> (p_equality(old(self).toks(), old(self).cur()) matches Err(p)
                && er.position == Some(p as usize)),
        decreases old(self).toks().len() - old(self).cur(), 5int,
    {
        let ghost toks = old(self).toks();
        let ghost i0 = old(self).cur();
        let mut expr = self.comparison()?;
        loop
            invariant
                self.wf(),
                toks == old(self).toks(),
                i0 == old(self).cur(),
                self.toks() == toks,
                0 <= i0 < self.cur() <= toks.len(),
                p_equality(toks, i0) == p_equality_tail(toks, expr_model(expr), self.cur()),
            decreases self.toks().len() - self.cur(),
        {
            let k = self.peek_kind();
            if k == TokenKind::Equal || k == TokenKind::NotEqual {
                self.advance();
                let op = if k == TokenKind::Equal {
                    BinaryOp::Equal
                } else {
                    BinaryOp::NotEqual
                };
                let right = self.comparison()?;
                expr = Expr::binary(expr, op, right);
            } else {
                return Ok(expr);
            }
        }
    }

    /// term ((`<` | `>`) term)*, left-associative — the spec-level parse
    /// [`p_comparison`] of the tokens.
    fn comparison(&mut self) -> (r: TranspilerResult<Expr>)
        requires
            old(self).wf(),
        ensures
            final(self).wf(),
            final(self).toks() == old(self).toks(),
            old(self).cur() <= final(self).cur() <= final(self).toks().len(),
            r matches Ok(e) ==> p_comparison(old(self).toks(), old(self).cur())
                == Ok::<(ExprModel, int), int>((expr_model(e), final(self).cur())),
            r is Ok ==> old(self).cur() < final(self).cur(),
            r matches Err(er) ==> (p_comparison(old(self).toks(), old(self).cur()) matches Err(p)
                && er.position == Some(p as usize)),
        decreases old(self).toks().len() - old(self).cur(), 4int,
    {
        let ghost toks = old(self).toks();
        let ghost i0 = old(self).cur();
        let mut expr = self.term()?;
        loop
            invariant
                self.wf(),
                toks == old(self).toks(),
                i0 == old(self).cur(),
                self.toks() == toks,
                0 <= i0 < self.cur() <= toks.len(),
                p_comparison(toks, i0) == p_comparison_tail(toks, expr_model(expr), self.cur()),
            decreases self.toks().len() - self.cur(),
        {
            let k = self.peek_kind();
            if k == TokenKind::Less || k == TokenKind::Greater {
                self.advance();
                let op = if k == TokenKind::Less {
                    BinaryOp::Less
                } else {
                    BinaryOp::Greater
                };
                let right = self.term()?;
                expr = Expr::binary(expr, op, right);
            } else {
                return Ok(expr);
            }
        }
    }

    /// factor ((`+` | `-`) factor)*, left-associative — the spec-level
    /// parse [`p_term`] of the tokens.
    fn term(&mut self) -> (r: TranspilerResult<Expr>)
        requires
            old(self).wf(),
        ensures
            final(self).wf(),
            final(self).toks() == old(self).toks(),
            old(self).cur() <= final(self).cur() <= final(self).toks().len(),
            r matches Ok(e) ==> p_term(old(self).toks(), old(self).cur())
                == Ok::<(ExprModel, int), int>((expr_model(e), final(self).cur())),
            r is Ok ==> old(self).cur() < final(self).cur(),
            r matches Err(er) ==> (p_term(old(self).toks(), old(self).cur()) matches Err(p)
                && er.position == Some(p as usize)),
        decreases old(self).toks().len() - old(self).cur(), 3int,
    {
        let ghost toks = old(self).toks();
        let ghost i0 = old(self).cur();
        let mut expr = self.factor()?;
        loop
            invariant
                self.wf(),
                toks == old(self).toks(),
                i0 == old(self).cur(),
                self.toks() == toks,
                0 <= i0 < self.cur() <= toks.len(),
                p_term(toks, i0) == p_term_tail(toks, expr_model(expr), self.cur()),
            decreases self.toks().len() - self.cur(),
        {
            let k = self.peek_kind();
            if k == TokenKind::Plus || k == TokenKind::Minus {
                self.advance();
                let op = if k == TokenKind::Plus {
                    BinaryOp::Add
                } else {
                    BinaryOp::Sub
                };
                let right = self.factor()?;
                expr = Expr::binary(expr, op, right);
            } else {
                return Ok(expr);
            }
        }
    }

    /// primary ((`*` | `/`) primary)*, left-associative — the spec-level
    /// parse [`p_factor`] of the tokens.
    fn factor(&mut self) -> (r: TranspilerResult<Expr>)
        requires
            old(self).wf(),
        ensures
            final(self).wf(),
            final(self).toks() == old(self).toks(),
            old(self).cur() <= final(self).cur() <= final(self).toks().len(),
            r matches Ok(e) ==> p_factor(old(self).toks(), old(self).cur())
                == Ok::<(ExprModel, int), int>((expr_model(e), final(self).cur())),
            r is Ok ==> old(self).cur() < final(self).cur(),
            r matches Err(er) ==> (p_factor(old(self).toks(), old(self).cur()) matches Err(p)
                && er.position == Some(p as usize)),
        decreases old(self).toks().len() - old(self).cur(), 2int,
    {
        let ghost toks = old(self).toks();
        let ghost i0 = old(self).cur();
        let mut expr = self.primary()?;
        loop
            invariant
                self.wf(),
                toks == old(self).toks(),
                i0 == old(self).cur(),
                self.toks() == toks,
                0 <= i0 < self.cur() <= toks.len(),
                p_factor(toks, i0) == p_factor_tail(toks, expr_model(expr), self.cur()),
            decreases self.toks().len() - self.cur(),
        {
            let k = self.peek_kind();
            if k == TokenKind::Multiply || k == TokenKind::Divide {
                self.advance();
                let op = if k == TokenKind::Multiply {
                    BinaryOp::Mul
                } else {
                    BinaryOp::Div
                };
                let right = self.primary()?;
                expr = Expr::binary(expr, op, right);
            } else {
                return Ok(expr);
            }
        }
    }

    /// A number, a variable, or a parenthesized expression — the
    /// spec-level parse [`p_primary`] of the tokens.
    fn primary(&mut self) -> (r: TranspilerResult<Expr>)
        requires
            old(self).wf(),
        ensures
            final(self).wf(),
            final(self).toks() == old(self).toks(),
            old(self).cur() <= final(self).cur() <= final(self).toks().len(),
            r matches Ok(e) ==> p_primary(old(self).toks(), old(self).cur())
                == Ok::<(ExprModel, int), int>((expr_model(e), final(self).cur())),
            r is Ok ==> old(self).cur() < final(self).cur(),
            r matches Err(er) ==> (p_primary(old(self).toks(), old(self).cur()) matches Err(p)
                && er.position == Some(p as usize)),
        decreases old(self).toks().len() - old(self).cur(), 1int,
    {
        if self.current < self.tokens.len() {
            match &self.tokens[self.current] {
                Token::Number(n) => {
                    let num = *n;
                    self.advance();
                    return Ok(Expr::number(num));
                }
                Token::Identifier(name) => {
                    let var_name = name.clone();
                    self.advance();
                    return Ok(Expr::variable(var_name));
                }
                Token::LeftParen => {
                    self.advance();
                    let expr = self.expression()?;
                    let _ = self.consume(TokenKind::RightParen, "Expected ')' after expression")?;
                    return Ok(expr);
                }
                _ => {}
            }
        }
        Err(TranspilerError::with_position(
            "Unexpected token in expression".to_owned(),
            self.current,
        ))
    }

    /// The kind of the token at the cursor, `Eof` past the end.
    fn peek_kind(&self) -> (k: TokenKind)
        requires
            self.wf(),
        ensures
            k == self.peek_spec(),
    {
        if self.current < self.tokens.len() {
            self.tokens[self.current].kind()
        } else {
            TokenKind::Eof
        }
    }

    /// Moves the cursor one token forward, stopping at the end.
    fn advance(&mut self)
        requires
            old(self).wf(),
        ensures
            final(self).wf(),
            final(self).toks() == old(self).toks(),
            old(self).cur() < old(self).toks().len() ==> final(self).cur() == old(self).cur() + 1,
            old(self).cur() >= old(self).toks().len() ==> final(self).cur() == old(self).cur(),
    {
        if self.current < self.tokens.len() {
            self.current = self.current + 1;
        }
    }

    /// Whether the cursor has passed the last token.
    fn is_at_end(&self) -> (b: bool)
        requires
            self.wf(),
        ensures
            b == (self.cur() >= self.toks().len()),
    {
        self.current >= self.tokens.len()
    }

    /// Consumes a token of the expected kind, or reports the cursor index.
    fn consume(&mut self, expected: TokenKind, message: &str) -> (r: TranspilerResult<()>)
        requires
            old(self).wf(),
        ensures
            final(self).wf(),
            final(self).toks() == old(self).toks(),
            r is Ok ==> old(self).peek_spec() == expected,
            r is Ok && old(self).cur() < old(self).toks().len() ==> final(self).cur() == old(
                self,
            ).cur() + 1,
            r is Ok && old(self).cur() >= old(self).toks().len() ==> final(self).cur() == old(
                self,
            ).cur(),
            r matches Err(e) ==> {
                &&& old(self).peek_spec() != expected
                &&& *final(self) == *old(self)
                &&& e.position == Some(old(self).current)
            },
    {
        if self.peek_kind() == expected {
            self.advance();
            Ok(())
        } else {
            Err(TranspilerError::with_position(message.to_owned(), self.current))
        }
    }

    /// Consumes a token of the given kind when it is there; reports
    /// whether it was.
    fn consume_if_present(&mut self, token: TokenKind) -> (b: bool)
        requires
            old(self).wf(),
        ensures
            final(self).wf(),
            final(self).toks() == old(self).toks(),
            b == (old(self).peek_spec() == token),
            b && old(self).cur() < old(self).toks().len() ==> final(self).cur() == old(
                self,
            ).cur() + 1,
            b && old(self).cur() >= old(self).toks().len() ==> final(self).cur() == old(
                self,
            ).cur(),
            !b ==> *final(self) == *old(self),
    {
        if self.peek_kind() == token {
            self.advance();
            true
        } else {
            false
        }
    }

    /// Consumes an `Identifier` token and hands its name out, or reports
    /// the cursor index.
    fn consume_identifier(&mut self, message: &str) -> (r: TranspilerResult<String>)
        requires
            old(self).wf(),
        ensures
            final(self).wf(),
            final(self).toks() == old(self).toks(),
            r matches Ok(name) ==> {
                &&& old(self).cur() < old(self).toks().len()
                &&& old(self).toks()[old(self).cur()] matches Token::Identifier(n) && name@ == n@
                &&& final(self).cur() == old(self).cur() + 1
            },
            r matches Err(e) ==> {
                &&& old(self).peek_spec() != TokenKind::Identifier
                &&& *final(self) == *old(self)
                &&& e.position == Some(old(self).current)
            },
    {
        if self.current < self.tokens.len() {
            match &self.tokens[self.current] {
                Token::Identifier(name) => {
                    let result = name.clone();
                    self.advance();
                    return Ok(result);
                }
                _ => {}
            }
        }
        Err(TranspilerError::with_position(message.to_owned(), self.current))
    }
}

} // verus!
