//! The archive unpack dispatcher: decides how a compressed storage
//! archive is to be obtained before it is decompressed to disk.

use vstd::prelude::*;

verus! {

/// Where a compressed archive comes from.
pub enum Input {
    /// A file already on disk.
    File(String),
    /// An address to download from.
    Url(String),
}

/// The outside work an unpack request calls for.
pub enum UnpackAction {
    /// Stream the named file through the decompressor into `dest`.
    ReadFileAndUnpack { path: String, dest: String },
    /// Download from the address and stream the download through the
    /// decompressor into `dest`.
    DownloadAndUnpack { url: String, dest: String },
}

/// Decides how the archive named by `input` is to be unpacked into
/// `dest`: a file input is streamed from disk, an address is downloaded.
pub fn unpack(input: Input, dest: String) -> (r: UnpackAction)
    ensures
        match input {
            Input::File(p) => r == (UnpackAction::ReadFileAndUnpack { path: p, dest }),
            Input::Url(u) => r == (UnpackAction::DownloadAndUnpack { url: u, dest }),
        },
{
    match input {
        Input::File(path) => UnpackAction::ReadFileAndUnpack { path, dest },
        Input::Url(url) => UnpackAction::DownloadAndUnpack { url, dest },
    }
}

} // verus!
