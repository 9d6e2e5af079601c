//! Statements of the language and their execution.
use vstd::prelude::*;

use crate::expression::{evaluate, failure, show, tree_of, Expr, Tree};
use crate::Diagnostic;

verus! {

/// Statement types.
#[derive(Debug, PartialEq)]
pub enum Stmt {
    Expression(Expr),
    Print(Expr),
}

/// The shape of a statement as contracts see it.
pub enum StmtTree {
    Expression(Tree),
    Print(Tree),
}

pub open spec fn stmt_tree(s: Stmt) -> StmtTree {
    match s {
        Stmt::Expression(e) => StmtTree::Expression(tree_of(e)),
        Stmt::Print(e) => StmtTree::Print(tree_of(e)),
    }
}

/// What executing a statement tree writes, or the line and message of its
/// error.
pub open spec fn tree_effect(t: StmtTree) -> Result<Seq<Seq<char>>, (nat, Seq<char>)> {
    match t {
        StmtTree::Expression(e) => match evaluate(e) {
            Ok(_) => Ok(seq![]),
            Err(x) => Err(x),
        },
        StmtTree::Print(e) => match evaluate(e) {
            Ok(v) => Ok(seq![show(v)]),
            Err(x) => Err(x),
        },
    }
}

/// What executing a statement writes, or the line and message of its error.
pub open spec fn effect(s: Stmt) -> Result<Seq<Seq<char>>, (nat, Seq<char>)> {
    tree_effect(stmt_tree(s))
}

/// What executing statements in order writes, and the error of the first
/// one that fails, after which none runs.
pub open spec fn run_trees(ts: Seq<StmtTree>) -> (Seq<Seq<char>>, Option<(nat, Seq<char>)>)
    decreases ts.len(),
{
    if ts.len() == 0 {
        (seq![], None)
    } else {
        match tree_effect(ts[0]) {
            Ok(w) => {
                let rest = run_trees(ts.drop_first());
                (w + rest.0, rest.1)
            },
            Err(x) => (seq![], Some(x)),
        }
    }
}

/// The text of each line in `out`.
pub open spec fn texts(out: Seq<String>) -> Seq<Seq<char>> {
    out.map_values(|t: String| t@)
}

impl Stmt {
    /// Executes the statement: a print statement appends the text of its
    /// value to `out`, an expression statement evaluates and drops its value.
    pub fn execute(&self, out: &mut Vec<String>) -> (r: Result<(), Diagnostic>)
        ensures
            match r {
                Ok(()) => effect(*self) matches Ok(w) && texts(final(out)@) == texts(old(out)@) + w,
                Err(d) => d is LoxError && effect(*self) == Err::<Seq<Seq<char>>, (nat, Seq<char>)>(
                    failure(d),
                ) && final(out)@ == old(out)@,
            },
    {
        match self {
            Stmt::Expression(expr) => {
                expr.eval()?;
                assert(texts(old(out)@) + seq![] == texts(out@));
                Ok(())
            },
            Stmt::Print(expr) => {
                let v = expr.eval()?;
                let ghost before = out@;
                out.push(v.to_text());
                assert(texts(out@) == texts(before) + seq![show(v@)]);
                Ok(())
            },
        }
    }
}

/// The statement trees of `ss`.
pub open spec fn stmt_trees(ss: Seq<Stmt>) -> Seq<StmtTree> {
    ss.map_values(|s: Stmt| stmt_tree(s))
}

/// What a statement tree writes where it runs without error.
pub open spec fn written(t: StmtTree) -> Seq<Seq<char>> {
    match tree_effect(t) {
        Ok(w) => w,
        Err(_) => seq![],
    }
}

/// Executes statements in order, appending what they write to `out`, and
/// stops at the first that fails.
pub fn execute_all(stmts: &Vec<Stmt>, out: &mut Vec<String>) -> (r: Result<(), Diagnostic>)
    ensures
        texts(final(out)@) == texts(old(out)@) + run_trees(stmt_trees(stmts@)).0,
        match run_trees(stmt_trees(stmts@)).1 {
            None => r is Ok,
            Some(e) => r matches Err(d) && d is LoxError && failure(d) == e,
        },
{
    let ghost trees = stmt_trees(stmts@);
    let ghost w: Seq<Seq<char>> = seq![];
    assert(trees.skip(0) == trees);
    assert(w + run_trees(trees).0 == run_trees(trees).0);
    let mut k: usize = 0;
    while k < stmts.len()
        invariant
            trees == stmt_trees(stmts@),
            k <= stmts.len(),
            texts(out@) == texts(old(out)@) + w,
            run_trees(trees) == (w + run_trees(trees.skip(k as int)).0, run_trees(
                trees.skip(k as int),
            ).1),
        decreases stmts.len() - k,
    {
        let ghost rest = trees.skip(k as int);
        assert(rest[0] == trees[k as int]);
        assert(rest.drop_first() == trees.skip(k + 1));
        assert(trees[k as int] == stmt_tree(stmts@[k as int]));
        match stmts[k].execute(out) {
            Ok(()) => {},
            Err(d) => {
                assert(w + Seq::<Seq<char>>::empty() == w);
                return Err(d);
            },
        }
        proof {
            let ew = written(trees[k as int]);
            assert(w + (ew + run_trees(trees.skip(k + 1)).0) == (w + ew) + run_trees(
                trees.skip(k + 1),
            ).0);
            w = w + ew;
        }
        k = k + 1;
    }
    assert(trees.skip(k as int).len() == 0);
    assert(w + Seq::<Seq<char>>::empty() == w);
    Ok(())
}

} // verus!
