use calibre_ingest::naming::get_unique_filename;
use calibre_ingest::service::{
    decide_upload, default_allowed_types, health_report, is_allowed_file_type, is_file_field,
    type_rejection, UploadDecision, MAX_FILE_SIZE_BYTES, MAX_FILE_SIZE_MB,
};

#[test]
fn default_config_round_trip() {
    let allowed = default_allowed_types();
    let existing: Vec<String> = Vec::new();
    match decide_upload("book.epub", allowed.as_str(), 10, &existing) {
        UploadDecision::Stored {
            filename,
            message,
            size,
        } => {
            assert_eq!(filename, "book.epub");
            assert_eq!(message, "File uploaded successfully");
            assert_eq!(size, 10);
        }
        _ => panic!("expected the upload to be stored"),
    }
    let existing = vec![String::from("book.epub")];
    match decide_upload("book.epub", allowed.as_str(), 10, &existing) {
        UploadDecision::Stored { filename, size, .. } => {
            assert_eq!(filename, "book_1.epub");
            assert_eq!(size, 10);
        }
        _ => panic!("expected the repeated upload to be stored"),
    }
    match decide_upload("malware.exe", allowed.as_str(), 10, &existing) {
        UploadDecision::RejectedType {
            message,
            allowed_types,
        } => {
            assert_eq!(
                message,
                "File type not allowed. Allowed types: epub,pdf,mobi,azw,azw3,txt"
            );
            assert_eq!(
                allowed_types,
                vec!["epub", "pdf", "mobi", "azw", "azw3", "txt"]
            );
        }
        _ => panic!("expected the extension to be rejected"),
    }
}

#[test]
fn oversized_payload_is_rejected() {
    let allowed = default_allowed_types();
    let existing: Vec<String> = Vec::new();
    match decide_upload(
        "book.epub",
        allowed.as_str(),
        MAX_FILE_SIZE_BYTES + 1,
        &existing,
    ) {
        UploadDecision::TooLarge { message } => {
            assert_eq!(message, "File too large. Maximum size is 25MB.");
        }
        _ => panic!("expected the oversized upload to be rejected"),
    }
}

#[test]
fn payload_at_the_limit_is_stored() {
    let allowed = default_allowed_types();
    let existing: Vec<String> = Vec::new();
    match decide_upload("book.pdf", allowed.as_str(), MAX_FILE_SIZE_BYTES, &existing) {
        UploadDecision::Stored { filename, size, .. } => {
            assert_eq!(filename, "book.pdf");
            assert_eq!(size, MAX_FILE_SIZE_BYTES);
        }
        _ => panic!("expected an upload at the size limit to be stored"),
    }
}

#[test]
fn disallowed_extension_beats_size_check() {
    let allowed = default_allowed_types();
    let existing: Vec<String> = Vec::new();
    match decide_upload(
        "huge.exe",
        allowed.as_str(),
        MAX_FILE_SIZE_BYTES + 1,
        &existing,
    ) {
        UploadDecision::RejectedType { .. } => {}
        _ => panic!("expected the extension rejection to come first"),
    }
}

#[test]
fn extension_check_is_case_insensitive() {
    assert!(is_allowed_file_type("BOOK.EPUB", "epub,pdf"));
    assert!(is_allowed_file_type("book.ePub", "EPUB,pdf"));
    assert!(is_allowed_file_type("x.epub", " ePub , PDF "));
    assert!(!is_allowed_file_type("book.mobi", "epub,pdf"));
}

#[test]
fn name_without_extension_is_rejected() {
    assert!(!is_allowed_file_type("noext", default_allowed_types().as_str()));
    assert!(!is_allowed_file_type("", default_allowed_types().as_str()));
}

#[test]
fn leading_dot_name_uses_the_part_after_the_dot() {
    assert!(is_allowed_file_type(".epub", default_allowed_types().as_str()));
}

#[test]
fn unique_name_keeps_a_free_name() {
    let existing: Vec<String> = Vec::new();
    assert_eq!(get_unique_filename(&existing, "a.txt"), "a.txt");
}

#[test]
fn unique_name_counts_past_collisions() {
    let existing = vec![String::from("a.txt"), String::from("a_1.txt")];
    assert_eq!(get_unique_filename(&existing, "a.txt"), "a_2.txt");
}

#[test]
fn unique_name_without_extension_appends_counter() {
    let existing = vec![String::from("notes")];
    assert_eq!(get_unique_filename(&existing, "notes"), "notes_1");
}

#[test]
fn unique_name_of_empty_name() {
    let existing = vec![String::from("")];
    assert_eq!(get_unique_filename(&existing, ""), "_1");
}

#[test]
fn health_report_lists_trimmed_entries() {
    let report = health_report("epub, pdf,mobi");
    assert_eq!(report.status, "ok");
    assert_eq!(report.message, "Calibre Ingest Backend");
    assert_eq!(report.allowed_file_types, vec!["epub", "pdf", "mobi"]);
    assert_eq!(report.max_file_size_mb, 25);
}

#[test]
fn health_report_of_default_config() {
    let allowed = default_allowed_types();
    let report = health_report(allowed.as_str());
    assert_eq!(
        report.allowed_file_types,
        vec!["epub", "pdf", "mobi", "azw", "azw3", "txt"]
    );
    assert_eq!(report.max_file_size_mb, MAX_FILE_SIZE_MB);
}

#[test]
fn only_the_field_named_file_is_the_target() {
    assert!(is_file_field("file"));
    assert!(!is_file_field("files"));
    assert!(!is_file_field("unknown"));
    assert!(!is_file_field(""));
}

#[test]
fn type_rejection_carries_list_and_message() {
    match type_rejection("epub , pdf") {
        UploadDecision::RejectedType {
            message,
            allowed_types,
        } => {
            assert_eq!(message, "File type not allowed. Allowed types: epub , pdf");
            assert_eq!(allowed_types, vec!["epub", "pdf"]);
        }
        _ => panic!("expected a rejection"),
    }
}

#[test]
fn trailing_dot_name_drops_the_dot_when_numbered() {
    let existing = vec![String::from("book.")];
    assert_eq!(get_unique_filename(&existing, "book."), "book_1");
    let existing = vec![String::from("book."), String::from("book_1")];
    assert_eq!(get_unique_filename(&existing, "book."), "book_2");
}

#[test]
fn trailing_comma_admits_empty_extension() {
    assert!(is_allowed_file_type("book.", "epub,pdf,"));
    assert!(!is_allowed_file_type("book", "epub,pdf,"));
    let existing = vec![String::from("book.")];
    match decide_upload("book.", "epub,pdf,", 4, &existing) {
        UploadDecision::Stored { filename, size, .. } => {
            assert_eq!(filename, "book_1");
            assert_eq!(size, 4);
        }
        _ => panic!("expected the empty extension to be admitted"),
    }
}

#[test]
fn extension_folding_is_unicode() {
    assert!(is_allowed_file_type("a.\u{C9}", "\u{E9}"));
    assert!(is_allowed_file_type("a.\u{E9}", "\u{C9}"));
    assert!(!is_allowed_file_type("a.\u{E9}", "e"));
}

#[test]
fn entry_trimming_covers_unicode_white_space() {
    assert!(is_allowed_file_type("x.epub", "epub\u{000C}"));
    assert!(is_allowed_file_type("x.epub", "\u{00A0}epub\u{2003}"));
    assert!(is_allowed_file_type("x.epub", "pdf,\u{0009}epub\u{000B}"));
}
