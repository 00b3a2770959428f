//! Errors of the application.
use std::io;
use vstd::prelude::*;
use vstd::string::*;

verus! {

/// `std::io::Error`.
#[verifier::external_type_specification]
#[verifier::external_body]
pub struct ExIoError(std::io::Error);

/// What the application fails with
#[derive(Debug)]
pub enum SweetMagnetError {
    Io(io::Error),
    MagnetParse(String),
    TorrentClient(String),
    MediaPlayer(String),
}

/// Calls `to_string` on an I/O error. Nothing is known of what the system
/// says.
#[verifier::external_body]
fn io_error_text(error: &io::Error) -> String {
    error.to_string()
}

/// A text after another.
fn labelled(label: &str, text: &str) -> (s: String)
    ensures
        s@ == label@ + text@,
{
    let mut s = label.to_string();
    s.append(text);
    s
}

impl SweetMagnetError {
    /// What the error says, where the system says `io_text` of an I/O error.
    pub open spec fn text(self, io_text: Seq<char>) -> Seq<char> {
        match self {
            SweetMagnetError::Io(_) => "I/O error: "@ + io_text,
            SweetMagnetError::MagnetParse(s) => "Magnet parsing error: "@ + s@,
            SweetMagnetError::TorrentClient(s) => "Torrent client error: "@ + s@,
            SweetMagnetError::MediaPlayer(s) => "Media player error: "@ + s@,
        }
    }

    /// What the error says, where the system says `io_text` of an I/O error
    pub fn message_with(&self, io_text: &str) -> (s: String)
        ensures
            s@ == self.text(io_text@),
    {
        match self {
            SweetMagnetError::Io(_) => labelled("I/O error: ", io_text),
            SweetMagnetError::MagnetParse(s) => labelled("Magnet parsing error: ", s.as_str()),
            SweetMagnetError::TorrentClient(s) => labelled("Torrent client error: ", s.as_str()),
            SweetMagnetError::MediaPlayer(s) => labelled("Media player error: ", s.as_str()),
        }
    }

    /// What the error says
    pub fn message(&self) -> (s: String)
        ensures
            exists|io_text: Seq<char>| s@ == #[trigger] self.text(io_text),
    {
        match self {
            SweetMagnetError::Io(e) => {
                let io_text = io_error_text(e);
                self.message_with(io_text.as_str())
            },
            _ => self.message_with(""),
        }
    }
}

impl vstd::std_specs::convert::FromSpecImpl<io::Error> for SweetMagnetError {
    open spec fn obeys_from_spec() -> bool {
        true
    }

    open spec fn from_spec(error: io::Error) -> Self {
        SweetMagnetError::Io(error)
    }
}

impl From<io::Error> for SweetMagnetError {
    fn from(error: io::Error) -> (e: Self) {
        SweetMagnetError::Io(error)
    }
}

} // verus!
