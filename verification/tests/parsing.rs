use oci_imgref::digest::Error as DigestError;
use oci_imgref::image::{Error, Image};
use oci_imgref::registry::Error as RegError;
use oci_imgref::repository::Error as RepoError;

const HEX64: &str = "e3b0c44298fc1c149afbf4c8996fb92427ae41e4649b934ca495991b7852b855";

fn check_image(
    input: &str,
    host: Option<&str>,
    port: Option<u16>,
    org: Option<&str>,
    con: &str,
    tag: Option<&str>,
    digest: Option<&str>,
) {
    let image = Image::parse(input).unwrap();

    match host {
        None => assert!(image.repository.registry.is_none()),
        Some(host) => {
            let reg = image.repository.registry.clone().unwrap();
            assert_eq!(reg.host, host);
            match port {
                None => assert!(reg.port.is_none()),
                Some(port) => assert_eq!(port, reg.port.unwrap()),
            }
        }
    }

    match org {
        None => assert!(image.repository.organization.is_none()),
        Some(org) => assert_eq!(image.repository.organization.clone().unwrap(), org),
    }

    assert_eq!(image.repository.container, con);

    match tag {
        None => assert!(image.tag.is_none()),
        Some(tag) => assert_eq!(image.tag.clone().unwrap(), tag),
    }

    match digest {
        None => assert!(image.digest.is_none()),
        Some(digest) => assert_eq!(image.digest.clone().unwrap().to_string(), digest),
    }
}

#[test]
fn image_full_reference() {
    let input = format!("quay.io:443/foo/bar:latest@sha256:{HEX64}");
    let digest = format!("sha256:{HEX64}");
    check_image(
        &input,
        Some("quay.io"),
        Some(443),
        Some("foo"),
        "bar",
        Some("latest"),
        Some(&digest),
    );
}

#[test]
fn image_docker_io_library_ubuntu() {
    check_image(
        "docker.io/library/ubuntu:latest",
        Some("docker.io"),
        None,
        Some("library"),
        "ubuntu",
        Some("latest"),
        None,
    );
}

#[test]
fn image_registry_port_org_tag() {
    check_image(
        "quay.io:443/foo/bar:latest",
        Some("quay.io"),
        Some(443),
        Some("foo"),
        "bar",
        Some("latest"),
        None,
    );
}

#[test]
fn image_registry_port_org() {
    check_image("quay.io:443/foo/bar", Some("quay.io"), Some(443), Some("foo"), "bar", None, None);
}

#[test]
fn image_registry_org_tag() {
    check_image("quay.io/foo/bar:x", Some("quay.io"), None, Some("foo"), "bar", Some("x"), None);
}

#[test]
fn image_registry_org() {
    check_image("quay.io/foo/bar", Some("quay.io"), None, Some("foo"), "bar", None, None);
}

#[test]
fn image_registry_only() {
    check_image("quay.io/foo", Some("quay.io"), None, None, "foo", None, None);
}

#[test]
fn image_localhost_registry() {
    check_image("localhost/foo", Some("localhost"), None, None, "foo", None, None);
}

#[test]
fn image_org_and_container() {
    check_image("foo/bar", None, None, Some("foo"), "bar", None, None);
}

#[test]
fn image_container_only() {
    check_image("foo", None, None, None, "foo", None, None);
}

#[test]
fn image_container_tag() {
    check_image("foo:latest", None, None, None, "foo", Some("latest"), None);
}

#[test]
fn image_container_tag_digest() {
    let input = format!("foo:latest@sha256:{HEX64}");
    let digest = format!("sha256:{HEX64}");
    check_image(&input, None, None, None, "foo", Some("latest"), Some(&digest));
}

#[test]
fn image_container_digest() {
    let input = format!("foo@sha256:{HEX64}");
    let digest = format!("sha256:{HEX64}");
    check_image(&input, None, None, None, "foo", None, Some(&digest));
}

#[test]
fn failure_digest_character() {
    let input = format!("foo@sha256:X{}", &HEX64[1..]);
    assert_eq!(Image::parse(&input).unwrap_err(), Error::Digest(DigestError::Character));
}

#[test]
fn failure_digest_algorithm() {
    let input = format!("foo@sha257:{HEX64}");
    assert_eq!(Image::parse(&input).unwrap_err(), Error::Digest(DigestError::Algorithm));
}

#[test]
fn failure_digest_length() {
    assert_eq!(Image::parse("foo@sha256:e3").unwrap_err(), Error::Digest(DigestError::Length));
}

#[test]
fn failure_digest_empty() {
    assert_eq!(Image::parse("foo@").unwrap_err(), Error::Digest(DigestError::Length));
}

#[test]
fn failure_tag_leading_hyphen() {
    assert_eq!(Image::parse("foo:-").unwrap_err(), Error::Tag);
}

#[test]
fn failure_container_trailing_hyphen() {
    assert_eq!(Image::parse("foo-").unwrap_err(), Error::Repository(RepoError::Container));
}

#[test]
fn failure_organization_trailing_hyphen() {
    assert_eq!(Image::parse("foo-/bar").unwrap_err(), Error::Repository(RepoError::Organization));
}

#[test]
fn failure_organization_in_three_segments() {
    assert_eq!(
        Image::parse("quay.io/foo-/bar").unwrap_err(),
        Error::Repository(RepoError::Organization)
    );
}

#[test]
fn failure_registry_host_trailing_hyphen() {
    assert_eq!(
        Image::parse("quay.io-/foo").unwrap_err(),
        Error::Repository(RepoError::Registry(RegError::Host))
    );
}

#[test]
fn failure_registry_host_in_three_segments() {
    assert_eq!(
        Image::parse("quay.io-/foo/bar").unwrap_err(),
        Error::Repository(RepoError::Registry(RegError::Host))
    );
}

#[test]
fn failure_registry_empty_port() {
    assert_eq!(
        Image::parse("quay.io:/foo/bar").unwrap_err(),
        Error::Repository(RepoError::Registry(RegError::Port))
    );
}

#[test]
fn failure_registry_nonnumeric_port() {
    assert_eq!(
        Image::parse("quay.io:abcd/foo/bar").unwrap_err(),
        Error::Repository(RepoError::Registry(RegError::Port))
    );
}

#[test]
fn sha512_digest_accepted() {
    let hex128 = HEX64.repeat(2);
    let input = format!("foo@sha512:{hex128}");
    let image = Image::parse(&input).unwrap();
    assert_eq!(image.digest.unwrap().to_string(), format!("sha512:{hex128}"));
}
