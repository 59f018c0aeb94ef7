//! The errors of this crate.
use vstd::prelude::*;

verus! {

/// What can go wrong in this crate.
#[derive(Debug, PartialEq, Eq)]
pub enum AppError {
    /// A prompt could not be built from its template.
    PromptConstruction(String),
    /// A request to the engine was refused before it was sent.
    ComfyUI(String),
}

/// The result of an operation that may fail with an [`AppError`].
pub type AppResult<T> = Result<T, AppError>;

impl AppError {
    /// What the error says of its cause.
    pub open spec fn detail_text(self) -> Seq<char> {
        match self {
            AppError::PromptConstruction(detail) => detail@,
            AppError::ComfyUI(detail) => detail@,
        }
    }

    /// What the error says of its cause.
    pub fn detail(&self) -> (r: &String)
        ensures
            r@ == self.detail_text(),
    {
        match self {
            AppError::PromptConstruction(detail) => detail,
            AppError::ComfyUI(detail) => detail,
        }
    }
}

} // verus!
