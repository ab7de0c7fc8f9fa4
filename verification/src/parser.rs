use vstd::prelude::*;
use crate::lexer::{LexerError, Token};

verus! {

/// A parsing failure of the process-description language. The parser
/// itself is an external collaborator of this crate: it consumes the
/// lexer's tokens and produces the graph the layout engine works on, and
/// reports its failures in these terms.
#[derive(Debug)]
pub enum ParseError {
    /// Message and token that caused the error
    UnexpectedToken(String, Token, usize, String),
    /// Error when a join label is expected
    ExpectedJoinLabelError(String, usize, String),
    /// Propagate lexer errors
    LexerError(LexerError),
    /// Errors related to branching
    BranchingError(Token, usize, String),
    /// Error when a gateway does not match
    GatewayMatchingError((usize, usize), String),
    /// Error when a join gateway is missing
    GatewayJoinMissingError(usize, String),
    /// Errors related to Go tokens
    UnexpectedTokenAfterGoError(Token, usize, String),
    /// Errors related to Go nodes
    DefineNodesAfterGoError(usize, String),
    /// Error when a node is expected before a 'Go' token
    GoFromError(usize, String),
    /// Error when a 'Go' token has no node to join
    GoToError(usize, String),
    /// Generic error
    GenericError(String),
}

} // verus!
