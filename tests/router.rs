use relay_proxy::error::ClientError;
use relay_proxy::router::get_host;

fn host_of(text: &str) -> Result<(String, u16), ClientError> {
    get_host(&text.to_string())
}

#[test]
fn host_without_port_defaults_to_80() {
    let r = host_of("GET / HTTP/1.1\r\nHost: example.com\r\n\r\n");
    assert_eq!(r, Ok(("example.com".to_string(), 80)));
}

#[test]
fn host_with_port() {
    let r = host_of("GET / HTTP/1.1\r\nHost: 127.0.0.1:8080\r\n\r\n");
    assert_eq!(r, Ok(("127.0.0.1".to_string(), 8080)));
}

#[test]
fn missing_host_line() {
    let r = host_of("GET / HTTP/1.1\r\nAccept: */*\r\n\r\n");
    assert_eq!(r, Err(ClientError::NoHostFound));
}

#[test]
fn empty_request_has_no_host() {
    assert_eq!(host_of(""), Err(ClientError::NoHostFound));
}

#[test]
fn non_numeric_port() {
    let r = host_of("GET / HTTP/1.1\r\nHost: example.com:notaport\r\n\r\n");
    assert_eq!(r, Err(ClientError::PortParseError));
}

#[test]
fn port_bounds() {
    assert_eq!(host_of("Host: a:65535"), Ok(("a".to_string(), 65535)));
    assert_eq!(host_of("Host: a:65536"), Err(ClientError::PortParseError));
    assert_eq!(host_of("Host: a:0"), Ok(("a".to_string(), 0)));
    assert_eq!(host_of("Host: a:00080"), Ok(("a".to_string(), 80)));
    assert_eq!(host_of("Host: a:"), Err(ClientError::PortParseError));
    assert_eq!(host_of("Host: a:-1"), Err(ClientError::PortParseError));
}

#[test]
fn port_with_plus_sign() {
    assert_eq!(host_of("Host: a:+81"), Ok(("a".to_string(), 81)));
    assert_eq!(host_of("Host: a:+"), Err(ClientError::PortParseError));
}

#[test]
fn many_colons_name_no_host() {
    assert_eq!(host_of("Host: ::1"), Err(ClientError::NoHostFound));
    assert_eq!(host_of("Host: [::1]:8080"), Err(ClientError::NoHostFound));
    assert_eq!(host_of("Host: a:1:2"), Err(ClientError::NoHostFound));
}

#[test]
fn extra_whitespace_is_tolerated() {
    let r = host_of("Host:   example.com   \r\nX: y\r\n");
    assert_eq!(r, Ok(("example.com".to_string(), 80)));
    let r = host_of("Host:\texample.org\n");
    assert_eq!(r, Ok(("example.org".to_string(), 80)));
}

#[test]
fn unicode_whitespace_separates_fields() {
    let r = host_of("Host:\u{3000}example.com\u{a0}\n");
    assert_eq!(r, Ok(("example.com".to_string(), 80)));
}

#[test]
fn first_host_line_wins() {
    let r = host_of("GET / HTTP/1.1\nHost: one.test:1\nHost: two.test:2\n");
    assert_eq!(r, Ok(("one.test".to_string(), 1)));
}

#[test]
fn host_must_start_the_line() {
    let r = host_of("GET / HTTP/1.1\r\nX-Host: a.test\r\n\r\n");
    assert_eq!(r, Err(ClientError::NoHostFound));
}

#[test]
fn last_field_of_the_line_is_taken() {
    let r = host_of("Host: a.test b.test:9\r\n");
    assert_eq!(r, Ok(("b.test".to_string(), 9)));
    let r = host_of("Hostname\n");
    assert_eq!(r, Ok(("Hostname".to_string(), 80)));
}

#[test]
fn non_ascii_host_is_kept() {
    let r = host_of("Host: bücher.example:8443\r\n");
    assert_eq!(r, Ok(("bücher.example".to_string(), 8443)));
}

#[test]
fn empty_host_names_no_host() {
    assert_eq!(host_of("GET / HTTP/1.1\r\nHost: :80\r\n\r\n"), Err(ClientError::NoHostFound));
    assert_eq!(host_of("Host: :"), Err(ClientError::NoHostFound));
    assert_eq!(host_of("Host: :notaport"), Err(ClientError::NoHostFound));
}
