//! Choices the server makes from its command-line options.
use vstd::prelude::*;

verus! {

/// The standard HTTPS port.
pub const STANDARD_HTTPS_PORT: u16 = 443;

/// The standard HTTP port.
pub const STANDARD_HTTP_PORT: u16 = 80;

/// The HTTP and HTTPS ports to listen on: those given, else the standard
/// ports when the process may bind them (`privileged`), else 8080 and 8443.
pub fn http_and_https_ports(privileged: bool, http_port: Option<u16>, https_port: Option<u16>) -> (r: (u16, u16))
    ensures
        r.0 == match http_port {
            Some(p) => p,
            None => if privileged {
                STANDARD_HTTP_PORT
            } else {
                8080u16
            },
        },
        r.1 == match https_port {
            Some(p) => p,
            None => if privileged {
                STANDARD_HTTPS_PORT
            } else {
                8443u16
            },
        },
{
    let (http_default, https_default) = if privileged {
        (STANDARD_HTTP_PORT, STANDARD_HTTPS_PORT)
    } else {
        (8080u16, 8443u16)
    };
    let http = match http_port {
        Some(p) => p,
        None => http_default,
    };
    let https = match https_port {
        Some(p) => p,
        None => https_default,
    };
    (http, https)
}

} // verus!
