use oci_imgref::registry::{Error, Registry};

fn check_registry(input: &str, expected: Result<(&str, Option<u16>), Error>) {
    let expected = expected.map(|(host, port)| Registry { host: host.into(), port });
    assert_eq!(expected, Registry::parse(input));
    if let Ok(registry) = Registry::parse(input) {
        assert_eq!(input, registry.to_string());
    }
}

#[test]
fn registry_plain_hosts() {
    check_registry("quay.io", Ok(("quay.io", None)));
    check_registry("docker.io", Ok(("docker.io", None)));
    check_registry("foo-bar.io", Ok(("foo-bar.io", None)));
    check_registry("0zero.io", Ok(("0zero.io", None)));
    check_registry("localhost", Ok(("localhost", None)));
}

#[test]
fn registry_bad_hosts() {
    check_registry("docker.io.", Err(Error::Host));
    check_registry(".docker.io", Err(Error::Host));
    check_registry("docker..io", Err(Error::Host));
    check_registry("foo-bar-.io", Err(Error::Host));
    check_registry("-foo-bar.io", Err(Error::Host));
    check_registry("foo_bar.io", Err(Error::Host));
    check_registry("", Err(Error::Host));
}

#[test]
fn registry_with_port() {
    check_registry("quay.io:1234", Ok(("quay.io", Some(1234))));
    check_registry("localhost:5000", Ok(("localhost", Some(5000))));
}

#[test]
fn registry_bad_ports() {
    check_registry("quay.io:0", Err(Error::Port));
    check_registry("quay.io:", Err(Error::Port));
    check_registry("quay.io:65536", Err(Error::Port));
    check_registry("quay.io:12ab", Err(Error::Port));
}

#[test]
fn registry_empty_host_reported_first() {
    // An empty host takes precedence over any port trouble.
    check_registry(":1234", Err(Error::Host));
    check_registry(":0", Err(Error::Host));
    check_registry(":", Err(Error::Host));
}

#[test]
fn registry_port_leading_zeros_not_canonical() {
    // Leading zeros parse to the same value; formatting is canonical.
    let registry = Registry::parse("quay.io:0443").unwrap();
    assert_eq!(registry.port, Some(443));
    assert_eq!(registry.to_string(), "quay.io:443");
}
