//! Tests of the archive unpack dispatcher.

use casper_db_utils::{unpack, Input, UnpackAction};

#[test]
fn unpack_dispatches_file_input() {
    let action = unpack(
        Input::File(String::from("archive.tar.zst")),
        String::from("out.tar"),
    );
    match action {
        UnpackAction::ReadFileAndUnpack { path, dest } => {
            assert_eq!(path, "archive.tar.zst");
            assert_eq!(dest, "out.tar");
        }
        _ => panic!("a file input must be read from disk"),
    }
}

#[test]
fn unpack_dispatches_url_input() {
    let action = unpack(
        Input::Url(String::from("https://example.invalid/archive.tar.zst")),
        String::from("out.tar"),
    );
    match action {
        UnpackAction::DownloadAndUnpack { url, dest } => {
            assert_eq!(url, "https://example.invalid/archive.tar.zst");
            assert_eq!(dest, "out.tar");
        }
        _ => panic!("an address input must be downloaded"),
    }
}
