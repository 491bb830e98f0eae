//! Code generation: walks the syntax tree in post-order — each node's
//! single child is fully processed before the node's own emission — and
//! appends assembly-text lines to an output list. Because children emit
//! first, the list is built in child-before-parent order: the statement's
//! lines come before the function's prologue lines, and a writer must put
//! the list out in reverse to obtain valid top-down assembly. A transient
//! argument stack passes the expression's literal up to its enclosing
//! statement during the one traversal.

use vstd::prelude::*;
use crate::ast::{AstNode, AstNodeType, subtree_literal, subtree_wf};
use crate::lexer::line_views;

verus! {

/// The instruction that loads the return value: `mov $<literal>, %eax`.
pub open spec fn mov_line(lit: Seq<char>) -> Seq<char> {
    "mov $"@ + lit + ", %eax"@
}

/// The four lines a whole program emits, in the order they are appended —
/// the reverse of the order a reader of the assembly sees them in.
pub open spec fn program_emits(lit: Seq<char>) -> Seq<Seq<char>> {
    seq!["ret"@, mov_line(lit), "main:"@, ".globl main"@]
}

/// Builds the `mov` instruction text for a literal.
fn build_mov(value: &String) -> (r: String)
    ensures
        r@ == mov_line(value@),
{
    let mut s = "mov $".to_owned();
    s.append(value.as_str());
    s.append(", %eax");
    s
}

/// The code generator: holds the root of the tree it walks.
pub struct CodeGenState {
    current_node: Option<Box<AstNode>>,
}

impl CodeGenState {
    /// Whether the held tree is a Program satisfying the shape invariant.
    pub closed spec fn wf(&self) -> bool {
        match self.current_node {
            Some(r) => r.node_type == AstNodeType::Program && subtree_wf(*r),
            None => false,
        }
    }

    /// The literal the held tree carries.
    pub closed spec fn spec_literal(&self) -> Seq<char> {
        match self.current_node {
            Some(r) => subtree_literal(*r),
            None => Seq::empty(),
        }
    }

    /// A generator for the given tree root.
    pub fn new(root_node: Box<AstNode>) -> (s: CodeGenState)
        ensures
            s.wf() == (root_node.node_type == AstNodeType::Program && subtree_wf(*root_node)),
            s.spec_literal() == subtree_literal(*root_node),
    {
        CodeGenState { current_node: Some(root_node) }
    }

    /// Walks the tree and appends its emission to the list: exactly the
    /// four assembly lines, in child-before-parent order, with the tree's
    /// literal inside the `mov` instruction.
    pub fn generate_code(&self, emit_stack: &mut Vec<String>)
        requires
            self.wf(),
        ensures
            line_views(final(emit_stack)@) == line_views(old(emit_stack)@) + program_emits(
                self.spec_literal(),
            ),
    {
        let mut arg_stack: Vec<String> = Vec::new();
        match &self.current_node {
            Some(valid) => {
                self.generate_code_recurse(valid, &mut arg_stack, emit_stack);
            },
            None => {
                proof {
                    assert(false);
                }
            },
        }
    }

    /// One step of the post-order walk: the child's emission is appended
    /// first, then the node's own. An expression pushes its literal onto
    /// the argument stack and emits nothing; a statement pops that literal
    /// and emits `ret` then the `mov`; a function emits its label line and
    /// the export directive; the program node emits nothing of its own.
    fn generate_code_recurse(
        &self,
        node: &AstNode,
        argstack: &mut Vec<String>,
        emitstack: &mut Vec<String>,
    )
        requires
            subtree_wf(*node),
        ensures
            node.node_type == AstNodeType::Expression ==> {
                &&& line_views(final(argstack)@) == line_views(old(argstack)@).push(node.data@)
                &&& final(emitstack)@ == old(emitstack)@
            },
            node.node_type == AstNodeType::Statement ==> {
                &&& line_views(final(argstack)@) == line_views(old(argstack)@)
                &&& line_views(final(emitstack)@) == line_views(old(emitstack)@) + seq![
                    "ret"@,
                    mov_line(subtree_literal(*node)),
                ]
            },
            node.node_type == AstNodeType::Function ==> {
                &&& line_views(final(argstack)@) == line_views(old(argstack)@)
                &&& line_views(final(emitstack)@) == line_views(old(emitstack)@) + seq![
                    "ret"@,
                    mov_line(subtree_literal(*node)),
                    "main:"@,
                    ".globl main"@,
                ]
            },
            node.node_type == AstNodeType::Program ==> {
                &&& line_views(final(argstack)@) == line_views(old(argstack)@)
                &&& line_views(final(emitstack)@) == line_views(old(emitstack)@) + program_emits(
                    subtree_literal(*node),
                )
            },
        decreases *node,
    {
        match &node.child {
            Some(valid) => {
                self.generate_code_recurse(valid, argstack, emitstack);
                proof {
                    // Ties the callee's postcondition to this node's child.
                    assert(node.child->0 == *valid);
                    if (**valid).node_type == AstNodeType::Expression {
                        assert(line_views(argstack@) == line_views(old(argstack)@).push(
                            (**valid).data@,
                        ));
                    }
                }
            },
            None => {},
        }
        match node.node_type {
            AstNodeType::Expression => {
                argstack.push(node.data.clone());
                proof {
                    assert(line_views(argstack@) =~= line_views(old(argstack)@).push(node.data@));
                }
            },
            AstNodeType::Statement => {
                let ghost arg1 = argstack@;
                let ret_arg = argstack.pop();
                match ret_arg {
                    Some(v) => {
                        proof {
                            let ch = *node.child->0;
                            assert(ch.node_type == AstNodeType::Expression);
                            assert(subtree_literal(*node) == subtree_literal(ch));
                            assert(subtree_literal(ch) == ch.data@);
                            assert(line_views(arg1).len() == arg1.len());
                            assert(line_views(arg1)[arg1.len() - 1] == arg1[arg1.len() - 1]@);
                            assert(v@ == subtree_literal(*node));
                            assert(argstack@ == arg1.subrange(0, arg1.len() - 1));
                            assert forall|i: int| 0 <= i < argstack@.len() implies #[trigger] line_views(
                                argstack@,
                            )[i] == line_views(old(argstack)@)[i] by {
                                assert(argstack@[i] == arg1[i]);
                                assert(line_views(arg1)[i] == arg1[i]@);
                                assert(line_views(arg1)[i] == line_views(old(argstack)@).push(
                                    subtree_literal(*node),
                                )[i]);
                            }
                            assert(line_views(argstack@) =~= line_views(old(argstack)@));
                        }
                        let ghost mid = emitstack@;
                        emitstack.push("ret".to_owned());
                        emitstack.push(build_mov(&v));
                        proof {
                            assert(line_views(emitstack@) =~= line_views(mid) + seq![
                                "ret"@,
                                mov_line(subtree_literal(*node)),
                            ]);
                        }
                    },
                    None => {
                        proof {
                            assert(false);
                        }
                    },
                }
            },
            AstNodeType::Function => {
                let ghost mid = emitstack@;
                emitstack.push("main:".to_owned());
                emitstack.push(".globl main".to_owned());
                proof {
                    assert(line_views(emitstack@) =~= line_views(mid) + seq![
                        "main:"@,
                        ".globl main"@,
                    ]);
                    assert(line_views(emitstack@) =~= line_views(old(emitstack)@) + seq![
                        "ret"@,
                        mov_line(subtree_literal(*node)),
                        "main:"@,
                        ".globl main"@,
                    ]);
                }
            },
            AstNodeType::Program => {
                proof {
                    assert(line_views(emitstack@) =~= line_views(old(emitstack)@) + program_emits(
                        subtree_literal(*node),
                    ));
                }
            },
        }
    }
}

} // verus!
