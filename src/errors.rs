//! Errors of the maze and of the program's input.
use vstd::prelude::*;
use vstd::string::*;

verus! {

/// Why a maze could not be read or played.
#[derive(Debug, PartialEq)]
pub enum BombermanError {
    MazeNotSquare(String),
    InvalidSquare(String),
    NoBombInStartingPosition(String),
}

/// A `BombermanError` with its message as a sequence of characters.
pub enum ErrorView {
    MazeNotSquare(Seq<char>),
    InvalidSquare(Seq<char>),
    NoBombInStartingPosition(Seq<char>),
}

impl View for BombermanError {
    type V = ErrorView;

    open spec fn view(&self) -> ErrorView {
        match self {
            BombermanError::MazeNotSquare(m) => ErrorView::MazeNotSquare(m@),
            BombermanError::InvalidSquare(m) => ErrorView::InvalidSquare(m@),
            BombermanError::NoBombInStartingPosition(m) => ErrorView::NoBombInStartingPosition(m@),
        }
    }
}

/// The error written for the user: its kind, a colon, and its message.
pub open spec fn error_text(e: ErrorView) -> Seq<char> {
    match e {
        ErrorView::MazeNotSquare(m) => "MazeNotSquare: "@ + m,
        ErrorView::InvalidSquare(m) => "InvalidSquare: "@ + m,
        ErrorView::NoBombInStartingPosition(m) => "NoBombInStartingPosition: "@ + m,
    }
}

impl BombermanError {
    /// The error as the user reads it, e.g. `InvalidSquare: ...`.
    pub fn to_string(&self) -> (r: String)
        ensures
            r@ == error_text(self@),
    {
        match self {
            BombermanError::MazeNotSquare(m) => {
                let mut r = String::from_str("MazeNotSquare: ");
                r.append(m.as_str());
                r
            },
            BombermanError::InvalidSquare(m) => {
                let mut r = String::from_str("InvalidSquare: ");
                r.append(m.as_str());
                r
            },
            BombermanError::NoBombInStartingPosition(m) => {
                let mut r = String::from_str("NoBombInStartingPosition: ");
                r.append(m.as_str());
                r
            },
        }
    }
}

/// Why the program's arguments or files could not be used.
#[derive(Debug, PartialEq)]
pub enum InputError {
    InvalidInput(String),
    FileError(String),
}

impl InputError {
    /// The error as the user reads it, e.g. `InvalidInput: ...`.
    pub fn to_string(&self) -> (r: String)
        ensures
            r@ == match self {
                InputError::InvalidInput(m) => "InvalidInput: "@ + m@,
                InputError::FileError(m) => "FileError: "@ + m@,
            },
    {
        match self {
            InputError::InvalidInput(m) => {
                let mut r = String::from_str("InvalidInput: ");
                r.append(m.as_str());
                r
            },
            InputError::FileError(m) => {
                let mut r = String::from_str("FileError: ");
                r.append(m.as_str());
                r
            },
        }
    }
}

} // verus!
