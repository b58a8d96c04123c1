use vstd::prelude::*;
use crate::text::{decimal, usize_to_decimal, push_str_chars};

verus! {

/// Every stage in the pipeline returns this error type instead of panicking
/// on malformed or pathological input.
#[derive(Debug, Clone, PartialEq, Eq)]
pub enum EngineError {
    InputTooLarge { limit: usize, actual: usize },
    NestingTooDeep { limit: usize },
    LayoutTooDeep { limit: usize },
    InvalidCss(String),
    InvalidLength(String),
    InvalidColor(String),
    Io(String),
}

pub type EngineResult<T> = Result<T, EngineError>;

/// Largest input, in bytes, that any parser accepts.
pub const MAX_INPUT_BYTES: usize = 5 * 1024 * 1024;
/// Deepest stack of open HTML elements the parser keeps.
pub const MAX_DOM_DEPTH: usize = 512;
/// Deepest rule nesting the CSS parser accepts.
pub const MAX_CSS_DEPTH: usize = 256;
/// Deepest box nesting that layout walks.
pub const MAX_LAYOUT_DEPTH: usize = 512;

/// Fails with `InputTooLarge` exactly when the UTF-8 encoding of `input`
/// is longer than `MAX_INPUT_BYTES`.
pub fn check_input_size(input: &str) -> (r: EngineResult<()>)
    ensures
        r is Ok <==> input.len() <= MAX_INPUT_BYTES,
        r is Err ==> r == Err::<(), EngineError>(EngineError::InputTooLarge {
            limit: MAX_INPUT_BYTES,
            actual: input.len(),
        }),
{
    if input.len() > MAX_INPUT_BYTES {
        return Err(EngineError::InputTooLarge { limit: MAX_INPUT_BYTES, actual: input.len() });
    }
    Ok(())
}

impl EngineError {
    /// The human-readable text of the error, as the command line prints it.
    pub open spec fn spec_message(&self) -> Seq<char> {
        match self {
            EngineError::InputTooLarge { limit, actual } =>
                "input too large: "@ + decimal(*actual as nat) + " bytes exceeds limit of "@
                    + decimal(*limit as nat) + " bytes"@,
            EngineError::NestingTooDeep { limit } =>
                "nesting exceeds max depth of "@ + decimal(*limit as nat),
            EngineError::LayoutTooDeep { limit } =>
                "layout recursion exceeds max depth of "@ + decimal(*limit as nat),
            EngineError::InvalidCss(msg) => "invalid css: "@ + msg@,
            EngineError::InvalidLength(msg) => "invalid length: "@ + msg@,
            EngineError::InvalidColor(msg) => "invalid color: "@ + msg@,
            EngineError::Io(msg) => "io error: "@ + msg@,
        }
    }

    pub fn message(&self) -> (s: String)
        ensures
            s@ == self.spec_message(),
    {
        let mut s = String::new();
        match self {
            EngineError::InputTooLarge { limit, actual } => {
                push_str_chars(&mut s, "input too large: ");
                let a = usize_to_decimal(*actual);
                push_str_chars(&mut s, a.as_str());
                push_str_chars(&mut s, " bytes exceeds limit of ");
                let l = usize_to_decimal(*limit);
                push_str_chars(&mut s, l.as_str());
                push_str_chars(&mut s, " bytes");
            },
            EngineError::NestingTooDeep { limit } => {
                push_str_chars(&mut s, "nesting exceeds max depth of ");
                let l = usize_to_decimal(*limit);
                push_str_chars(&mut s, l.as_str());
            },
            EngineError::LayoutTooDeep { limit } => {
                push_str_chars(&mut s, "layout recursion exceeds max depth of ");
                let l = usize_to_decimal(*limit);
                push_str_chars(&mut s, l.as_str());
            },
            EngineError::InvalidCss(msg) => {
                push_str_chars(&mut s, "invalid css: ");
                push_str_chars(&mut s, msg.as_str());
            },
            EngineError::InvalidLength(msg) => {
                push_str_chars(&mut s, "invalid length: ");
                push_str_chars(&mut s, msg.as_str());
            },
            EngineError::InvalidColor(msg) => {
                push_str_chars(&mut s, "invalid color: ");
                push_str_chars(&mut s, msg.as_str());
            },
            EngineError::Io(msg) => {
                push_str_chars(&mut s, "io error: ");
                push_str_chars(&mut s, msg.as_str());
            },
        }
        s
    }
}

} // verus!
