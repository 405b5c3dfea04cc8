//! The errors a session can meet, each with a description.
use vstd::prelude::*;
use vstd::string::StringExecFns;

verus! {

pub enum AppError {
    ConnectionError(String),
    CloneError(String),
    StreamUnavailable(String),
    WriteError(String),
    ReadError(String),
    InvalidMove(String),
    ServerError(String),
    UnexpectedResponse(String),
    IOError(String),
    UTF8Error(String),
    GraphicsError(String),
}

/// `prefix` followed by `detail`.
fn labelled(prefix: &str, detail: &String) -> (text: String)
    ensures
        text@ == prefix@ + detail@,
{
    let mut text = String::from_str(prefix);
    text.append(detail.as_str());
    text
}

impl AppError {
    /// The text of the error: what kind it is, then its detail.
    pub fn describe(&self) -> (text: String)
        ensures
            text@ == match self {
                AppError::ConnectionError(m) => "Connection error: "@ + m@,
                AppError::CloneError(m) => "Clone error: "@ + m@,
                AppError::StreamUnavailable(m) => "Stream is unavailable "@ + m@,
                AppError::WriteError(m) => "Write error: "@ + m@,
                AppError::ReadError(m) => "Read error: "@ + m@,
                AppError::InvalidMove(m) => "Invalid move: "@ + m@,
                AppError::ServerError(m) => "Server error: "@ + m@,
                AppError::UnexpectedResponse(m) => "Unexpected response: "@ + m@,
                AppError::IOError(m) => "IO error: "@ + m@,
                AppError::UTF8Error(m) => "UTF-8 error: "@ + m@,
                AppError::GraphicsError(m) => "Egui error: "@ + m@,
            },
    {
        match self {
            AppError::ConnectionError(m) => labelled("Connection error: ", m),
            AppError::CloneError(m) => labelled("Clone error: ", m),
            AppError::StreamUnavailable(m) => labelled("Stream is unavailable ", m),
            AppError::WriteError(m) => labelled("Write error: ", m),
            AppError::ReadError(m) => labelled("Read error: ", m),
            AppError::InvalidMove(m) => labelled("Invalid move: ", m),
            AppError::ServerError(m) => labelled("Server error: ", m),
            AppError::UnexpectedResponse(m) => labelled("Unexpected response: ", m),
            AppError::IOError(m) => labelled("IO error: ", m),
            AppError::UTF8Error(m) => labelled("UTF-8 error: ", m),
            AppError::GraphicsError(m) => labelled("Egui error: ", m),
        }
    }
}

} // verus!
