use linechunk::config::{Config, ConfigError, TextEncoding};
use linechunk::emit::chunk_file_name;

fn args(list: &[&str]) -> Vec<Vec<char>> {
    list.iter().map(|s| s.chars().collect()).collect()
}

fn parse(list: &[&str]) -> Result<Config, ConfigError> {
    Config::from_args(&args(list))
}

fn chars(s: &str) -> Vec<char> {
    s.chars().collect()
}

#[test]
fn defaults_applied() {
    let c = parse(&["tool", "in.log", "out"]).unwrap();
    assert_eq!(c.input_path, chars("in.log"));
    assert_eq!(c.output_prefix, chars("out"));
    assert_eq!(c.chunk_size, 100 * 1024 * 1024);
    assert_eq!(c.line_ending, vec!['\n']);
    assert_eq!(c.encoding, TextEncoding::Utf8);
}

#[test]
fn too_few_arguments() {
    assert_eq!(parse(&["tool"]).unwrap_err(), ConfigError::TooFewArguments);
    assert_eq!(parse(&["tool", "in.log"]).unwrap_err(), ConfigError::TooFewArguments);
}

#[test]
fn chunk_size_in_megabytes() {
    let c = parse(&["tool", "in", "out", "5"]).unwrap();
    assert_eq!(c.chunk_size, 5 * 1024 * 1024);
}

#[test]
fn chunk_size_rejects_junk_and_zero() {
    assert_eq!(parse(&["tool", "in", "out", "abc"]).unwrap_err(), ConfigError::InvalidChunkSize);
    assert_eq!(parse(&["tool", "in", "out", "0"]).unwrap_err(), ConfigError::InvalidChunkSize);
    assert_eq!(parse(&["tool", "in", "out", "-3"]).unwrap_err(), ConfigError::InvalidChunkSize);
    assert_eq!(
        parse(&["tool", "in", "out", "99999999999999999999"]).unwrap_err(),
        ConfigError::InvalidChunkSize
    );
}

#[test]
fn line_ending_keywords_case_insensitive() {
    assert_eq!(parse(&["tool", "in", "out", "1", "lf"]).unwrap().line_ending, vec!['\n']);
    assert_eq!(parse(&["tool", "in", "out", "1", "CRLF"]).unwrap().line_ending, vec!['\r', '\n']);
    assert_eq!(parse(&["tool", "in", "out", "1", "cr"]).unwrap().line_ending, vec!['\r']);
}

#[test]
fn custom_line_ending_unescaped() {
    let c = parse(&["tool", "in", "out", "1", "custom:;;"]).unwrap();
    assert_eq!(c.line_ending, vec![';', ';']);
    let c = parse(&["tool", "in", "out", "1", "custom:\\r\\n\\r\\n"]).unwrap();
    assert_eq!(c.line_ending, vec!['\r', '\n', '\r', '\n']);
}

#[test]
fn custom_line_ending_empty_rejected() {
    assert_eq!(
        parse(&["tool", "in", "out", "1", "custom:"]).unwrap_err(),
        ConfigError::EmptyCustomLineEnding
    );
}

#[test]
fn unknown_line_ending_rejected() {
    assert_eq!(
        parse(&["tool", "in", "out", "1", "tab"]).unwrap_err(),
        ConfigError::InvalidLineEnding
    );
}

#[test]
fn encodings_recognised() {
    assert_eq!(
        parse(&["tool", "in", "out", "1", "LF", "utf-8"]).unwrap().encoding,
        TextEncoding::Utf8
    );
    assert_eq!(
        parse(&["tool", "in", "out", "1", "LF", "gbk"]).unwrap().encoding,
        TextEncoding::Gbk
    );
}

#[test]
fn unknown_encoding_rejected() {
    assert_eq!(
        parse(&["tool", "in", "out", "1", "LF", "latin1"]).unwrap_err(),
        ConfigError::UnsupportedEncoding
    );
}

#[test]
fn error_order_follows_argument_order() {
    // A bad chunk size is reported before a bad line ending.
    assert_eq!(
        parse(&["tool", "in", "out", "x", "bogus"]).unwrap_err(),
        ConfigError::InvalidChunkSize
    );
}

#[test]
fn multibyte_custom_line_ending() {
    let c = parse(&["tool", "in", "out", "1", "custom:\u{e9}"]).unwrap();
    assert_eq!(c.line_ending, vec!['\u{e9}']);
}

#[test]
fn artifact_names_zero_padded_and_sortable() {
    let prefix = chars("out");
    let s = |v: Vec<char>| -> String { v.iter().collect() };
    assert_eq!(s(chunk_file_name(&prefix, 1)), "out.001.zst");
    assert_eq!(s(chunk_file_name(&prefix, 42)), "out.042.zst");
    assert_eq!(s(chunk_file_name(&prefix, 123)), "out.123.zst");
    assert_eq!(s(chunk_file_name(&prefix, 1234)), "out.1234.zst");
}
