use oci_imgref::image::{Error, Image};
use oci_imgref::registry::Error as RegError;
use oci_imgref::registry::Registry;
use oci_imgref::repository::Error as RepoError;

#[test]
fn tag_of_128_characters_parses() {
    let tag = "t".repeat(128);
    let image = Image::parse(&format!("foo:{tag}")).unwrap();
    assert_eq!(image.tag.unwrap(), tag);
}

#[test]
fn tag_of_129_characters_fails() {
    let tag = "t".repeat(129);
    assert_eq!(Image::parse(&format!("foo:{tag}")).unwrap_err(), Error::Tag);
}

#[test]
fn empty_tag_fails() {
    assert_eq!(Image::parse("foo:").unwrap_err(), Error::Tag);
}

#[test]
fn tag_leading_underscore_parses() {
    let image = Image::parse("foo:_tag").unwrap();
    assert_eq!(image.tag.unwrap(), "_tag");
}

#[test]
fn tag_leading_dot_fails() {
    assert_eq!(Image::parse("foo:.tag").unwrap_err(), Error::Tag);
}

#[test]
fn tag_bad_character_fails() {
    assert_eq!(Image::parse("foo:ta!g").unwrap_err(), Error::Tag);
}

#[test]
fn port_zero_fails() {
    assert_eq!(Registry::parse("quay.io:0").unwrap_err(), RegError::Port);
    assert_eq!(
        Image::parse("quay.io:0/foo").unwrap_err(),
        Error::Repository(RepoError::Registry(RegError::Port))
    );
}

#[test]
fn port_65535_parses() {
    let registry = Registry::parse("quay.io:65535").unwrap();
    assert_eq!(registry.port, Some(65535));
    let image = Image::parse("quay.io:65535/foo").unwrap();
    assert_eq!(image.repository.registry.unwrap().port, Some(65535));
}

#[test]
fn port_65536_fails() {
    assert_eq!(Registry::parse("quay.io:65536").unwrap_err(), RegError::Port);
}

#[test]
fn nonnumeric_port_fails() {
    assert_eq!(Registry::parse("quay.io:latest").unwrap_err(), RegError::Port);
    assert_eq!(Registry::parse("quay.io:+443").unwrap_err(), RegError::Port);
}

#[test]
fn colon_suffix_with_slash_is_no_tag() {
    // The registry's own port-bearing colon coexists with a trailing path.
    let image = Image::parse("localhost:5000/my-app").unwrap();
    assert!(image.tag.is_none());
    let registry = image.repository.registry.unwrap();
    assert_eq!(registry.host, "localhost");
    assert_eq!(registry.port, Some(5000));
}
