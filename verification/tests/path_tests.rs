use minipx::path_util::trim_trailing_slash;
use minipx::path_util::validate_and_clean_path;

#[test]
fn test_trim_trailing_slash_with_slash() {
    assert_eq!(trim_trailing_slash("/api/v1/".to_string()), "/api/v1");
    assert_eq!(trim_trailing_slash("/test/".to_string()), "/test");
    assert_eq!(trim_trailing_slash("/".to_string()), "");
    assert_eq!(trim_trailing_slash("path///".to_string()), "path");
}

#[test]
fn test_trim_trailing_slash_without_slash() {
    assert_eq!(trim_trailing_slash("/api/v1".to_string()), "/api/v1");
    assert_eq!(trim_trailing_slash("/test".to_string()), "/test");
    assert_eq!(trim_trailing_slash("path".to_string()), "path");
    assert_eq!(trim_trailing_slash("".to_string()), "");
}

#[test]
fn test_validate_and_clean_path() {
    assert_eq!(validate_and_clean_path("/api/v1/".to_string()), "/api/v1");
    assert_eq!(validate_and_clean_path("/api/v1".to_string()), "/api/v1");
    assert_eq!(validate_and_clean_path("".to_string()), "");
}
