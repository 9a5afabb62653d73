use oci_imgref::digest::Digest;
use oci_imgref::image::Image;
use oci_imgref::registry::Registry;
use oci_imgref::repository::Repository;

const HEX64: &str = "e3b0c44298fc1c149afbf4c8996fb92427ae41e4649b934ca495991b7852b855";

fn image_round_trips(input: &str) {
    let image = Image::parse(input).unwrap();
    let rendered = image.to_string();
    assert_eq!(rendered, input);
    assert_eq!(Image::parse(&rendered).unwrap(), image);
}

#[test]
fn image_round_trip_canonical_inputs() {
    image_round_trips("docker.io/library/ubuntu:latest");
    image_round_trips("localhost:5000/my-app:1.0");
    image_round_trips("foo");
    image_round_trips("foo/bar");
    image_round_trips("quay.io/foo");
    image_round_trips(&format!("quay.io:443/foo/bar:latest@sha256:{HEX64}"));
    image_round_trips(&format!("registry.example.com/project/app@sha256:{HEX64}"));
}

#[test]
fn registry_round_trip() {
    for input in ["quay.io", "localhost", "registry.example.com:8080"] {
        let registry = Registry::parse(input).unwrap();
        assert_eq!(registry.to_string(), input);
        assert_eq!(Registry::parse(&registry.to_string()).unwrap(), registry);
    }
}

#[test]
fn repository_round_trip() {
    for input in ["ubuntu", "library/ubuntu", "docker.io/library/ubuntu", "localhost/foo"] {
        let repository = Repository::parse(input).unwrap();
        assert_eq!(repository.to_string(), input);
        assert_eq!(Repository::parse(&repository.to_string()).unwrap(), repository);
    }
}

#[test]
fn digest_round_trip() {
    let input = format!("sha256:{HEX64}");
    let digest = Digest::parse(&input).unwrap();
    assert_eq!(digest.to_string(), input);
    assert_eq!(Digest::parse(&digest.to_string()).unwrap(), digest);
}

#[test]
fn parse_is_idempotent_on_noncanonical_port() {
    // "quay.io:0443/foo" parses but is not canonical text.
    let first = Image::parse("quay.io:0443/foo").unwrap();
    let second = Image::parse(&first.to_string()).unwrap();
    assert_eq!(first, second);
}

#[test]
fn tag_and_digest_are_independent() {
    let digest = format!("sha256:{HEX64}");
    let neither = Image::parse("foo").unwrap();
    assert!(neither.tag.is_none() && neither.digest.is_none());
    let tag_only = Image::parse("foo:latest").unwrap();
    assert!(tag_only.tag.is_some() && tag_only.digest.is_none());
    let digest_only = Image::parse(&format!("foo@{digest}")).unwrap();
    assert!(digest_only.tag.is_none() && digest_only.digest.is_some());
    let both = Image::parse(&format!("foo:latest@{digest}")).unwrap();
    assert!(both.tag.is_some() && both.digest.is_some());
}
