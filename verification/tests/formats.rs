use format_table::error::Error;
use format_table::format::{supported_format_table_extension, supported_format_table_formats};

#[test]
fn test_unsupported_format_lists_the_supported_ones() {
    let error = supported_format_table_extension("csv").unwrap_err();
    let Error::Unsupported { message } = error else {
        panic!("expected Unsupported, got {error:?}");
    };
    assert!(message.contains("'csv'"), "{message}");
    for format in supported_format_table_formats() {
        assert!(message.contains(format), "{format} missing from {message}");
    }
}

#[test]
fn test_supported_formats_are_accepted_case_insensitively() {
    for format in supported_format_table_formats() {
        let expected = format!(".{format}");
        assert_eq!(supported_format_table_extension(format).unwrap(), expected);
        assert_eq!(
            supported_format_table_extension(&format.to_ascii_uppercase()).unwrap(),
            expected
        );
    }
}

#[test]
fn test_formats_in_the_order_of_the_list() {
    assert_eq!(
        supported_format_table_formats(),
        vec!["parquet", "orc", "avro", "row", "mosaic"]
    );
    assert_eq!(supported_format_table_extension("PaRqUeT").unwrap(), ".parquet");
}

#[test]
fn test_unsupported_format_message() {
    let error = supported_format_table_extension("CSV").unwrap_err();
    assert_eq!(
        error.message(),
        "Format table file.format 'csv' is not supported by the Rust reader yet, \
         expected one of: parquet, orc, avro, row, mosaic"
    );
    assert!(supported_format_table_extension("").is_err());
    assert!(supported_format_table_extension("parquet ").is_err());
}

#[test]
fn test_only_ascii_letters_are_lowered() {
    let error = supported_format_table_extension("\u{c4}VRO").unwrap_err();
    assert!(error.message().contains("'\u{c4}vro'"), "{}", error.message());
}
