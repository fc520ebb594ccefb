//! The decision logic of the two endpoints: the health report, the extension
//! allow-list check, and the upload outcome (rejection, size limit, or a
//! collision-free stored name).

use vstd::prelude::*;
use crate::naming::{
    ext_of,
    find_last_dot,
    get_unique_filename,
    has_extension,
    is_unique_choice,
    taken,
};
use crate::text::{eq_lowercase, lower_of, split_commas_trimmed, trimmed_split};

verus! {

/// The largest payload the service stores, in bytes.
pub const MAX_FILE_SIZE_BYTES: usize = 25 * 1024 * 1024;

/// The same limit, in whole mebibytes, as the health report states it.
pub const MAX_FILE_SIZE_MB: u64 = 25;

/// Whether the name's extension stands in the comma-separated allow-list:
/// some entry, trimmed of white space and folded to lower case, equals the
/// lower-cased extension.
pub open spec fn extension_allowed(filename: Seq<char>, allowed: Seq<char>) -> bool {
    has_extension(filename) && exists|i: int|
        0 <= i < trimmed_split(allowed).len() && lower_of(
            #[trigger] trimmed_split(allowed)[i],
        ) == lower_of(ext_of(filename))
}

/// Whether `filename` may be uploaded under the configured allow-list: its
/// extension (after the last dot) must match one of the list's entries,
/// ignoring case and surrounding white space.
pub fn is_allowed_file_type(filename: &str, allowed_extensions: &str) -> (r: bool)
    ensures
        r == extension_allowed(filename@, allowed_extensions@),
{
    match find_last_dot(filename) {
        None => false,
        Some(d) => {
            let len = filename.unicode_len();
            proof {
                crate::naming::lemma_last_dot(filename@);
            }
            let ext = filename.substring_char(d + 1, len);
            proof {
                assert(ext@ =~= ext_of(filename@));
            }
            let entries = split_commas_trimmed(allowed_extensions);
            let ghost pieces = trimmed_split(allowed_extensions@);
            let mut i: usize = 0;
            while i < entries.len()
                invariant
                    entries.deep_view() == pieces,
                    pieces == trimmed_split(allowed_extensions@),
                    entries@.len() == pieces.len(),
                    i <= entries.len(),
                    ext@ == ext_of(filename@),
                    has_extension(filename@),
                    forall|t: int|
                        0 <= t < i ==> lower_of(#[trigger] pieces[t]) != lower_of(
                            ext_of(filename@),
                        ),
                decreases entries.len() - i,
            {
                proof {
                    assert(entries.deep_view()[i as int] == entries@[i as int]@);
                }
                if eq_lowercase(entries[i].as_str(), ext) {
                    return true;
                }
                i = i + 1;
            }
            false
        },
    }
}

/// What `GET /` reports: a fixed status and description, the allow-list
/// split into its trimmed entries, and the size limit in mebibytes.
pub struct HealthReport {
    pub status: String,
    pub message: String,
    pub allowed_file_types: Vec<String>,
    pub max_file_size_mb: u64,
}

/// The health report for the given allow-list. It never fails, and its
/// contents do not depend on anything but the configuration.
pub fn health_report(allowed_extensions: &str) -> (r: HealthReport)
    ensures
        r.status@ == "ok"@,
        r.message@ == "Calibre Ingest Backend"@,
        r.allowed_file_types.deep_view() == trimmed_split(allowed_extensions@),
        r.max_file_size_mb == MAX_FILE_SIZE_MB,
{
    HealthReport {
        status: String::from_str("ok"),
        message: String::from_str("Calibre Ingest Backend"),
        allowed_file_types: split_commas_trimmed(allowed_extensions),
        max_file_size_mb: MAX_FILE_SIZE_MB,
    }
}

/// The outcome of an upload request whose multipart field was read: a
/// business-level rejection (disallowed extension or oversized payload) or
/// the name to store the payload under.
pub enum UploadDecision {
    RejectedType { message: String, allowed_types: Vec<String> },
    TooLarge { message: String },
    Stored { filename: String, message: String, size: usize },
}

/// The text of the extension rejection: the fixed prefix followed by the
/// allow-list exactly as configured.
pub open spec fn rejection_message(allowed: Seq<char>) -> Seq<char> {
    "File type not allowed. Allowed types: "@ + allowed
}

/// The rejection reported for a filename whose extension is not allowed.
pub fn type_rejection(allowed_extensions: &str) -> (r: UploadDecision)
    ensures
        (r matches UploadDecision::RejectedType { message, allowed_types }
            && message@ == rejection_message(allowed_extensions@)
            && allowed_types.deep_view() == trimmed_split(allowed_extensions@)),
{
    UploadDecision::RejectedType {
        message: String::from_str("File type not allowed. Allowed types: ").concat(
            allowed_extensions,
        ),
        allowed_types: split_commas_trimmed(allowed_extensions),
    }
}

/// The full upload decision, in the order the service applies its rules: a
/// disallowed extension is rejected first, whatever the payload size; an
/// allowed upload over the size limit is rejected next; anything else is
/// stored under the first collision-free candidate name.
pub fn decide_upload(
    filename: &str,
    allowed_extensions: &str,
    data_len: usize,
    existing: &Vec<String>,
) -> (r: UploadDecision)
    ensures
        !extension_allowed(filename@, allowed_extensions@) ==> (r
            matches UploadDecision::RejectedType { message, allowed_types }
            && message@ == rejection_message(allowed_extensions@)
            && allowed_types.deep_view() == trimmed_split(allowed_extensions@)),
        extension_allowed(filename@, allowed_extensions@) && data_len > MAX_FILE_SIZE_BYTES ==> (r
            matches UploadDecision::TooLarge { message }
            && message@ == "File too large. Maximum size is 25MB."@),
        extension_allowed(filename@, allowed_extensions@) && data_len <= MAX_FILE_SIZE_BYTES ==> (r
            matches UploadDecision::Stored { filename: stored, message, size }
            && is_unique_choice(existing.deep_view(), filename@, stored@)
            && !taken(existing.deep_view(), stored@)
            && size == data_len
            && message@ == "File uploaded successfully"@),
{
    if !is_allowed_file_type(filename, allowed_extensions) {
        type_rejection(allowed_extensions)
    } else if data_len > MAX_FILE_SIZE_BYTES {
        UploadDecision::TooLarge {
            message: String::from_str("File too large. Maximum size is 25MB."),
        }
    } else {
        let unique = get_unique_filename(existing, filename);
        UploadDecision::Stored {
            filename: unique,
            message: String::from_str("File uploaded successfully"),
            size: data_len,
        }
    }
}

/// Whether a multipart field is the upload target: the first field with this
/// name is the one the service stores, and any other field is ignored.
pub fn is_file_field(name: &str) -> (r: bool)
    ensures
        r == (name@ == "file"@),
{
    String::from_str(name) == String::from_str("file")
}

/// The allow-list the service falls back on when none is configured.
pub fn default_allowed_types() -> (r: String)
    ensures
        r@ == "epub,pdf,mobi,azw,azw3,txt"@,
{
    String::from_str("epub,pdf,mobi,azw,azw3,txt")
}

} // verus!
