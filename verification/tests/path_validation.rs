use oci_imgref::repository::{path, Error};

#[test]
fn test_path_validation() {
    assert!(path("valid", Error::Container).is_ok());
    assert!(path("valid-name", Error::Container).is_ok());
    assert!(path("valid_name.123", Error::Container).is_ok());
    assert!(path("UPPERCASE", Error::Container).is_ok());
    assert!(path("", Error::Container).is_err()); // Empty string
    assert!(path("invalid!", Error::Container).is_err()); // Invalid symbol
    assert!(path("invalid/name", Error::Container).is_err()); // Invalid slash
    assert!(path("invalid space", Error::Container).is_err()); // Invalid space
    assert!(path("-invalid", Error::Container).is_err()); // Bad start char
    assert!(path("invalid-", Error::Container).is_err()); // Bad end char
    assert!(path("bad@chars", Error::Container).is_err()); // Invalid chars
    assert!(path(".invalid", Error::Container).is_err()); // Bad start with dot
    assert!(path("_invalid", Error::Container).is_err()); // Bad start with underscore
}

#[test]
fn path_returns_chosen_error() {
    assert_eq!(path("bad!", Error::Organization).unwrap_err(), Error::Organization);
    assert_eq!(path("bad!", Error::Container).unwrap_err(), Error::Container);
    assert_eq!(path("ok-name", Error::Organization).unwrap(), "ok-name");
}
