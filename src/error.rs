use vstd::prelude::*;

use crate::ast::Span;

verus! {

/// Why a parse failed.
#[derive(Debug)]
pub enum BbCodeError {
    /// The input is longer than the limit, in bytes.
    InputSizeExceeded { max_size: usize, actual_size: usize },
    /// The input holds more tags than the limit.
    TagCountExceeded { max_tags: usize },
    /// A tag block lies deeper than the limit; `near` is its source text, `span`
    /// its bytes, and `line` and `column` (from 1, in characters) where it starts.
    NestDepthExceeded { max_depth: usize, near: String, span: Span, line: usize, column: usize },
    /// No rule of the grammar applies at byte `position` (line and column from 1).
    SyntaxError { position: usize, line: usize, column: usize },
}

/// The mathematical value of an error.
pub ghost enum ErrV {
    InputSizeExceeded { max_size: nat, actual_size: nat },
    TagCountExceeded { max_tags: nat },
    NestDepthExceeded { max_depth: nat, near: Seq<char>, span: Span, line: nat, column: nat },
    SyntaxError { position: nat, line: nat, column: nat },
}

pub open spec fn err_view(e: BbCodeError) -> ErrV {
    match e {
        BbCodeError::InputSizeExceeded { max_size, actual_size } => ErrV::InputSizeExceeded {
            max_size: max_size as nat,
            actual_size: actual_size as nat,
        },
        BbCodeError::TagCountExceeded { max_tags } => ErrV::TagCountExceeded {
            max_tags: max_tags as nat,
        },
        BbCodeError::NestDepthExceeded { max_depth, near, span, line, column } =>
            ErrV::NestDepthExceeded {
            max_depth: max_depth as nat,
            near: near@,
            span,
            line: line as nat,
            column: column as nat,
        },
        BbCodeError::SyntaxError { position, line, column } => ErrV::SyntaxError {
            position: position as nat,
            line: line as nat,
            column: column as nat,
        },
    }
}

} // verus!
