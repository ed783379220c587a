//! Connection targets and conversions into them.

use vstd::prelude::*;

use crate::addr::{IpAddr, SocketAddr};
use crate::ip::{ip_of, ipv4_of, lemma_empty_not_ip, parse_ip};
use crate::text::{is_port, lemma_rfind, lemma_rfind_is, parse_port, port_value, rfind, rfind_char};

verus! {

/// Why a textual target could not be read as an endpoint.
#[derive(Clone, Copy, Debug, PartialEq, Eq, Structural)]
pub enum EndpointError {
    /// The string has no host/port separator.
    InvalidEndpoint,
    /// The segment after the last `':'` is not an unsigned 16-bit integer.
    InvalidPort,
}

/// An `Endpoint` is a way of identifying the target of a connection.
///
/// It is either a socket address, or a host name which still needs to
/// be resolved into a list of IP addresses, together with a port.
/// Classifying a value into an `Endpoint` never performs name
/// resolution: it is a purely syntactic matter.
///
/// A `Host` name is never empty when it comes from the string
/// conversion ([`lemma_host_name_nonempty`]); the pair conversions
/// wrap the name as given.
#[derive(Clone, Debug, PartialEq, Eq)]
pub enum Endpoint {
    Host(String, u16),
    SocketAddr(SocketAddr),
}

/// The successful conversion result holding the given socket address.
pub open spec fn ok_socket_addr(sa: SocketAddr) -> Result<Endpoint, EndpointError> {
    Ok(Endpoint::SocketAddr(sa))
}

/// The failed conversion result holding the given error.
pub open spec fn conversion_err(e: EndpointError) -> Result<Endpoint, EndpointError> {
    Err(e)
}

/// What converting a host/port pair yields: a socket address when the
/// host is an IP literal, and otherwise the pair itself, unchanged.
///
/// The pair form never fails: the name is wrapped as given, so keeping
/// it nonempty is the caller's charge there, as a meaningful port is.
/// The string form rejects an empty host segment instead: see
/// [`str_endpoint`].
pub open spec fn host_port_endpoint(
    h: Seq<char>,
    p: u16,
    r: Result<Endpoint, EndpointError>,
) -> bool {
    match ip_of(h) {
        Some(ip) => r == ok_socket_addr(SocketAddr { ip, port: p }),
        None => r matches Ok(Endpoint::Host(name, port)) && name@ == h && port == p,
    }
}

/// What converting a `"target:port"` string yields: the string is split
/// at its last colon; without a colon it is an invalid endpoint; the
/// segment after the colon must be an unsigned 16-bit integer; an empty
/// segment before the colon names no host and is an invalid endpoint;
/// and otherwise the host segment is classified as in
/// [`host_port_endpoint`].  A host name held by an `Endpoint` parsed
/// from a string is therefore never empty.
pub open spec fn str_endpoint(s: Seq<char>, r: Result<Endpoint, EndpointError>) -> bool {
    match rfind(s, ':') {
        None => r == conversion_err(EndpointError::InvalidEndpoint),
        Some(i) => if !is_port(s.skip(i + 1)) {
            r == conversion_err(EndpointError::InvalidPort)
        } else if i == 0 {
            r == conversion_err(EndpointError::InvalidEndpoint)
        } else {
            host_port_endpoint(s.take(i), port_value(s.skip(i + 1)), r)
        },
    }
}

/// A trait for values that can be converted into an [`Endpoint`].
///
/// The conversion never performs host name resolution.  Each
/// implementation fixes, through `endpoint_spec`, exactly what the
/// conversion returns.
pub trait ToEndpoint: Sized {
    /// The relation between the input and the returned value.
    spec fn endpoint_spec(self, r: Result<Endpoint, EndpointError>) -> bool;

    /// Convert `self` into an [`Endpoint`].
    fn to_endpoint(self) -> (r: Result<Endpoint, EndpointError>)
        ensures
            self.endpoint_spec(r),
    ;
}

impl ToEndpoint for SocketAddr {
    open spec fn endpoint_spec(self, r: Result<Endpoint, EndpointError>) -> bool {
        r == ok_socket_addr(self)
    }

    fn to_endpoint(self) -> (r: Result<Endpoint, EndpointError>) {
        Ok(Endpoint::SocketAddr(self))
    }
}

impl<'a> ToEndpoint for &'a SocketAddr {
    open spec fn endpoint_spec(self, r: Result<Endpoint, EndpointError>) -> bool {
        r == ok_socket_addr(*self)
    }

    fn to_endpoint(self) -> (r: Result<Endpoint, EndpointError>) {
        Ok(Endpoint::SocketAddr(*self))
    }
}

impl ToEndpoint for (IpAddr, u16) {
    open spec fn endpoint_spec(self, r: Result<Endpoint, EndpointError>) -> bool {
        r == ok_socket_addr(SocketAddr { ip: self.0, port: self.1 })
    }

    fn to_endpoint(self) -> (r: Result<Endpoint, EndpointError>) {
        Ok(Endpoint::SocketAddr(SocketAddr::new(self.0, self.1)))
    }
}

impl<'a> ToEndpoint for (&'a str, u16) {
    open spec fn endpoint_spec(self, r: Result<Endpoint, EndpointError>) -> bool {
        host_port_endpoint(self.0@, self.1, r)
    }

    fn to_endpoint(self) -> (r: Result<Endpoint, EndpointError>) {
        match parse_ip(self.0) {
            Some(ip) => Ok(Endpoint::SocketAddr(SocketAddr::new(ip, self.1))),
            None => Ok(Endpoint::Host(String::from_str(self.0), self.1)),
        }
    }
}

impl<'a> ToEndpoint for &'a str {
    open spec fn endpoint_spec(self, r: Result<Endpoint, EndpointError>) -> bool {
        str_endpoint(self@, r)
    }

    fn to_endpoint(self) -> (r: Result<Endpoint, EndpointError>) {
        match rfind_char(self, ':') {
            Some(idx) => {
                let n = self.unicode_len();
                let host = self.substring_char(0, idx);
                let ports = self.substring_char(idx + 1, n);
                assert(host@ =~= self@.take(idx as int));
                assert(ports@ =~= self@.skip(idx + 1 as int));
                match parse_port(ports) {
                    Some(p) => if idx == 0 {
                        Err(EndpointError::InvalidEndpoint)
                    } else {
                        (host, p).to_endpoint()
                    },
                    None => Err(EndpointError::InvalidPort),
                }
            },
            None => Err(EndpointError::InvalidEndpoint),
        }
    }
}

/// Converting a socket address directly always round-trips: the result
/// is exactly that address, wrapped, for any address and port.
pub proof fn lemma_socket_addr_round_trip(sa: SocketAddr, r: Result<Endpoint, EndpointError>)
    requires
        sa.endpoint_spec(r),
    ensures
        r == ok_socket_addr(sa),
{
}

/// Converting an (IP, port) pair always succeeds with exactly that
/// address and port.  The conversion is a pure function of the pair; no
/// name resolution is involved.
pub proof fn lemma_pair_conversion(ip: IpAddr, port: u16, r: Result<Endpoint, EndpointError>)
    requires
        (ip, port).endpoint_spec(r),
    ensures
        r == ok_socket_addr(SocketAddr { ip, port }),
{
}

/// A string without any colon is rejected as an invalid endpoint.
pub proof fn lemma_no_colon_invalid(s: Seq<char>, r: Result<Endpoint, EndpointError>)
    requires
        forall|i: int| 0 <= i < s.len() ==> s[i] != ':',
        str_endpoint(s, r),
    ensures
        r == conversion_err(EndpointError::InvalidEndpoint),
{
    lemma_rfind(s, ':');
}

/// When the segment after the last colon of `s` is not an unsigned
/// 16-bit integer, parsing fails with the invalid-port error.
pub proof fn lemma_bad_port_invalid(s: Seq<char>, i: int, r: Result<Endpoint, EndpointError>)
    requires
        0 <= i < s.len(),
        s[i] == ':',
        forall|j: int| i < j < s.len() ==> s[j] != ':',
        !is_port(s.skip(i + 1)),
        str_endpoint(s, r),
    ensures
        r == conversion_err(EndpointError::InvalidPort),
{
    lemma_rfind_is(s, ':', i);
}

/// A string that splits at its last colon into an IPv4 literal and a
/// valid port parses to exactly that address and port, echoed back.
pub proof fn lemma_ipv4_literal_endpoint(s: Seq<char>, i: int, r: Result<Endpoint, EndpointError>)
    requires
        0 <= i < s.len(),
        s[i] == ':',
        forall|j: int| i < j < s.len() ==> s[j] != ':',
        ipv4_of(s.take(i)) is Some,
        is_port(s.skip(i + 1)),
        str_endpoint(s, r),
    ensures
        r == ok_socket_addr(
            SocketAddr {
                ip: IpAddr::V4(ipv4_of(s.take(i))->Some_0),
                port: port_value(s.skip(i + 1)),
            },
        ),
{
    lemma_rfind_is(s, ':', i);
    if i == 0 {
        lemma_empty_not_ip(s.take(0));
    }
}

/// A string that splits at its last colon into an IP literal of either
/// family and a valid port parses to exactly that address and port.
pub proof fn lemma_ip_literal_endpoint(s: Seq<char>, i: int, r: Result<Endpoint, EndpointError>)
    requires
        0 <= i < s.len(),
        s[i] == ':',
        forall|j: int| i < j < s.len() ==> s[j] != ':',
        ip_of(s.take(i)) is Some,
        is_port(s.skip(i + 1)),
        str_endpoint(s, r),
    ensures
        r == ok_socket_addr(
            SocketAddr { ip: ip_of(s.take(i))->Some_0, port: port_value(s.skip(i + 1)) },
        ),
{
    lemma_rfind_is(s, ':', i);
    if i == 0 {
        lemma_empty_not_ip(s.take(0));
    }
}

/// A string whose host segment is nonempty and not an IP literal
/// parses to exactly that host and port, as split, left unresolved.
pub proof fn lemma_host_endpoint(s: Seq<char>, i: int, r: Result<Endpoint, EndpointError>)
    requires
        0 < i < s.len(),
        s[i] == ':',
        forall|j: int| i < j < s.len() ==> s[j] != ':',
        ip_of(s.take(i)) is None,
        is_port(s.skip(i + 1)),
        str_endpoint(s, r),
    ensures
        r matches Ok(Endpoint::Host(name, port)) && name@ == s.take(i) && port == port_value(
            s.skip(i + 1),
        ),
{
    lemma_rfind_is(s, ':', i);
}

/// A host endpoint parsed from a string never carries an empty name:
/// an empty segment before the last colon is rejected instead.
pub proof fn lemma_host_name_nonempty(s: Seq<char>, r: Result<Endpoint, EndpointError>)
    requires
        str_endpoint(s, r),
    ensures
        r matches Ok(Endpoint::Host(name, port)) ==> name@.len() > 0,
{
    lemma_rfind(s, ':');
}

} // verus!
