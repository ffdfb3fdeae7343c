//! The kinds of files that can be read, told by the extension of a file.

use crate::models::AppError;
use crate::text::{lowercase, same_text};
use vstd::prelude::*;
use vstd::string::StringExecFns;

verus! {

/// The kinds of files that can be read.
#[derive(Clone, Copy, Debug, PartialEq, Eq, Structural)]
pub enum FileKind {
    Csv,
    Excel,
    Cad,
}

/// The kind of file that an extension in lowercase names.
pub open spec fn kind_named(extension: Seq<char>) -> Option<FileKind> {
    if extension == "csv"@ {
        Some(FileKind::Csv)
    } else if extension == "xlsx"@ {
        Some(FileKind::Excel)
    } else if extension == "eco"@ || extension == "ccf"@ || extension == "msf"@ || extension
        == "net"@ {
        Some(FileKind::Cad)
    } else {
        None
    }
}

/// What is said of a file without an extension.
pub open spec fn no_extension_message() -> Seq<char> {
    "ファイル拡張子を判定できませんでした。"@
}

/// What is said of an extension that names no kind of file.
pub open spec fn unsupported_message(extension: Seq<char>) -> Seq<char> {
    "サポートされていないファイル形式です: "@ + extension
}

/// The kind of a file with the given extension, which is read in
/// lowercase, or the message of the failure.
pub open spec fn kind_of(extension: Option<Seq<char>>) -> Result<FileKind, Seq<char>> {
    match extension {
        None => Err(no_extension_message()),
        Some(e) => match kind_named(lowercase(e)) {
            Some(kind) => Ok(kind),
            None => Err(unsupported_message(lowercase(e))),
        },
    }
}

/// Tells the kind of a file by its extension.
pub fn file_kind(extension: Option<&str>) -> (r: Result<FileKind, AppError>)
    ensures
        match kind_of(
            match extension {
                Some(e) => Some(e@),
                None => None,
            },
        ) {
            Ok(kind) => r == Ok::<FileKind, AppError>(kind),
            Err(m) => r is Err && r->Err_0.message@ == m,
        },
{
    let e = match extension {
        Some(e) => e,
        None => {
            return Err(AppError::new("ファイル拡張子を判定できませんでした。"));
        },
    };
    let lower = e.to_lowercase();
    let l = lower.as_str();
    if same_text(l, "csv") {
        Ok(FileKind::Csv)
    } else if same_text(l, "xlsx") {
        Ok(FileKind::Excel)
    } else if same_text(l, "eco") || same_text(l, "ccf") || same_text(l, "msf") || same_text(
        l,
        "net",
    ) {
        Ok(FileKind::Cad)
    } else {
        let mut message = "サポートされていないファイル形式です: ".to_owned();
        message.append(l);
        Err(AppError::new(message.as_str()))
    }
}

} // verus!
