//! The statement tree of a parsed script.

use vstd::prelude::*;

verus! {

/// What a node of the tree is. Where a statement of a kind has
/// sub-statements, they are named here in the order in which it holds them.
#[derive(Clone, Copy, Debug, PartialEq, Eq, Structural)]
pub enum StatementKind {
    /// A number, string, boolean or null.
    Primitive,
    /// An attack category.
    AttackCategory,
    /// A variable.
    Variable,
    /// An array variable: its lookup, where it has one.
    Array,
    /// A call of a function: its parameters.
    Call,
    /// The exit statement: the exit code.
    Exit,
    /// The return statement: the value.
    Return,
    /// The break statement.
    Break,
    /// The continue statement.
    Continue,
    /// The include statement: the path.
    Include,
    /// A declaration: the variables.
    Declare,
    /// The parameters of a call, from the first to the last.
    Parameter,
    /// A named parameter of a call: its value.
    NamedParameter,
    /// An assignment: the target, the value.
    Assign,
    /// An operator: its operands.
    Operator,
    /// A conditional: condition, branch and, where there is one, else branch.
    If,
    /// A for loop: initializer, condition, increment, body.
    For,
    /// A while loop: condition, body.
    While,
    /// A repeat loop: body, condition.
    Repeat,
    /// A foreach loop: array, body.
    ForEach,
    /// A block: its statements.
    Block,
    /// A function declaration: parameters, body.
    FunctionDeclaration,
    /// An empty statement.
    NoOp,
    /// The end of the script.
    EoF,
}

/// One node of the tree: what it is, its source text, and its
/// sub-statements in the order in which the statement holds them.
///
/// The text of a node stands for the node alone: it can be read as a script
/// of one statement, without what surrounds the node in its tree.
#[derive(Debug, PartialEq, Eq)]
pub struct Statement {
    pub kind: StatementKind,
    pub text: String,
    pub children: Vec<Statement>,
}

impl Statement {
    /// The nodes of the tree below and including `self`, each before its
    /// sub-statements, and these from first to last.
    pub open spec fn nodes(self) -> Seq<Statement>
        decreases self,
    {
        seq![self] + Self::nodes_of(self.children@)
    }

    /// The nodes of the trees in `stmts`, tree after tree.
    pub open spec fn nodes_of(stmts: Seq<Statement>) -> Seq<Statement>
        decreases stmts,
    {
        if stmts.len() == 0 {
            Seq::empty()
        } else {
            Self::nodes_of(stmts.drop_last()) + stmts.last().nodes()
        }
    }
}

impl Statement {
    /// A statement of the given kind and text over the given sub-statements.
    pub fn new(kind: StatementKind, text: String, children: Vec<Statement>) -> (stmt: Statement)
        ensures
            stmt == (Statement { kind, text, children }),
    {
        Statement { kind, text, children }
    }

    /// The source text of this statement.
    pub fn to_string(&self) -> (text: String)
        ensures
            text@ == self.text@,
    {
        self.text.clone()
    }

    /// The trees are taken in turn: the nodes of the last tree come after
    /// those of all the trees before it.
    pub proof fn lemma_nodes_of_push(stmts: Seq<Statement>, last: Statement)
        ensures
            Self::nodes_of(stmts.push(last)) == Self::nodes_of(stmts) + last.nodes(),
    {
        assert(stmts.push(last).drop_last() =~= stmts);
    }

    /// The nodes of two runs of trees, one after the other, are the nodes of
    /// the first run followed by those of the second.
    pub proof fn lemma_nodes_of_add(first: Seq<Statement>, second: Seq<Statement>)
        ensures
            Self::nodes_of(first + second) == Self::nodes_of(first) + Self::nodes_of(second),
        decreases second.len(),
    {
        if second.len() == 0 {
            assert(first + second =~= first);
            assert(Self::nodes_of(first) + Self::nodes_of(second) =~= Self::nodes_of(first));
        } else {
            Self::lemma_nodes_of_add(first, second.drop_last());
            assert((first + second).drop_last() =~= first + second.drop_last());
            assert((first + second).last() == second.last());
            assert((Self::nodes_of(first) + Self::nodes_of(second.drop_last()))
                + second.last().nodes() =~= Self::nodes_of(first) + (Self::nodes_of(
                second.drop_last(),
            ) + second.last().nodes()));
        }
    }
}

} // verus!
