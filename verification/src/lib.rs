//! A small embeddable scripting language: a cursor-based parser producing a
//! syntax tree, and a tree-walking evaluator running the tree against a
//! mutable, dynamically typed scope chain.

use vstd::prelude::*;

pub mod error;
pub mod eval;
pub mod node;
pub mod parser;
pub mod runtime;
pub mod stdlib;
pub mod syntax;

use crate::error::ParseError;
use crate::eval::{eval_frame, Host};
use crate::node::Node;
use crate::parser::Parser;
use crate::runtime::{rt_wf, EvalError, Runtime};
use crate::syntax::{class_pred, run_len, CharClass};

verus! {

/// Why a whole run failed: a parse failure with its source position, or an
/// evaluation failure. The embedder prints the first kind before any
/// evaluation happened, and aborts on a fatal second kind.
#[derive(Debug)]
pub enum ExecError {
    Syntax { error: ParseError, row: usize, col: usize },
    Runtime(EvalError),
}

/// The recursion budget one run gets: the analog of the machine stack that
/// bounds script-function calls and source inclusions.
pub const EVAL_FUEL: u64 = 1000000;

/// Parses the buffer as one top-level block and evaluates it against the
/// scope in slot `scope`. A parse failure carries the cursor's position
/// and leaves the runtime untouched.
pub fn execute<H: Host>(rt: &mut Runtime, scope: usize, buffer: String, host: &mut H) -> (r:
    Result<(), ExecError>)
    requires
        rt_wf(old(rt)@),
        scope < old(rt)@.len(),
    ensures
        eval_frame(old(rt)@, final(rt)@, scope as int),
        r matches Err(e) ==> (e matches ExecError::Syntax { .. } ==> final(rt)@ == old(rt)@),
        run_len(buffer@, 0, class_pred(CharClass::Space)) == buffer@.len() ==> ((
        r matches Ok(u)) && final(rt)@ == old(rt)@),
        (match crate::parser::program_at(buffer@) {
            Option::Some(vs) => crate::eval::all_simple(vs) ==> ({
                let fold = crate::eval::eval_simple_stmts(old(rt)@, scope as int, vs);
                final(rt)@ == fold.0 && (match fold.1 {
                    Option::None => r matches Ok(u2),
                    Option::Some(e) => r matches Err(ee) && (ee matches ExecError::Runtime(re)
                        && re@ == e),
                })
            }),
            Option::None => true,
        }),
{
    let ghost bufv = buffer@;
    let mut parser = Parser::new(buffer);
    match parser.parse() {
        Err(e) => {
            let row = parser.row();
            let col = parser.col();
            Err(ExecError::Syntax { error: e, row, col })
        },
        Ok(node) => match node {
            Node::Block(b) => {
                proof {
                    crate::node::lemma_nodes_view_index(b.statements@);
                    if run_len(bufv, 0, class_pred(CharClass::Space)) == bufv.len() {
                        assert(b@.statements.len() == 0);
                        assert(b.statements@.len() == 0);
                        assert(crate::eval::all_simple(b@.statements));
                    }
                    match crate::parser::program_at(bufv) {
                        Option::Some(vs) => {
                            if crate::eval::all_simple(vs) {
                                assert(b@.statements == vs);
                            }
                        },
                        Option::None => {},
                    }
                }
                match b.eval(rt, scope, host, EVAL_FUEL) {
                    Ok(_) => Ok(()),
                    Err(e) => Err(ExecError::Runtime(e)),
                }
            },
            _ => {
                // `parse` promises a block node
                proof {
                    assert(false);
                }
                Ok(())
            },
        },
    }
}

} // verus!
