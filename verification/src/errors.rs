//! The error type shared by every evaluator operation.

use vstd::prelude::*;

verus! {

/// Why evaluation of a line stopped early.
///
/// `BadNumberParse` is a defensive variant: token classification attempts an
/// integer parse exactly once, so the evaluator never actually returns it.
/// `TerminateRequested` is not a failure: it is the out-of-band signal raised
/// by the `bye` token, bubbled up so that the host loop decides how to shut
/// down instead of the core terminating the process itself.
#[derive(Debug, Clone, Copy, PartialEq, Eq, Structural)]
pub enum LangError {
    /// An operator needed more values than the data stack held.
    StackUnderflow,
    /// A token is neither a literal, an operator, a keyword, nor a known word.
    NameNotFound,
    /// A token that was classified as numeric failed to parse (unreachable).
    BadNumberParse,
    /// A `:` definition carried no name token.
    BadWordDefinitionForm,
    /// A `/` token found zero on top of the stack.
    DivisionByZero,
    /// The `bye` token asked the host loop to terminate.
    TerminateRequested,
    /// Word expansion recursed past the configured depth bound.
    ExpansionTooDeep,
}

} // verus!
