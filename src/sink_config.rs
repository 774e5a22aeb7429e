use vstd::prelude::*;

verus! {

/// Files that set up TLS towards the receiving end.
#[derive(Clone, Debug, PartialEq)]
pub struct GrpcTlsConfig {
    pub ca_file: String,
    pub crt_file: String,
    pub key_file: String,
}

/// Where the sink sends events, and how.
#[derive(Clone, Debug, PartialEq)]
pub struct VectorSinkConfig {
    pub address: String,
    pub tls: Option<GrpcTlsConfig>,
}

/// gRPC's status code for an error of unknown cause.
pub const UNKNOWN_CODE: i32 = 2;

/// Why sending to the receiving end failed.
#[derive(Clone, Copy, Debug, PartialEq, Eq, Structural)]
pub enum Error {
    /// A request came back with this gRPC status code.
    Request { code: i32 },
    /// The receiving end reported that it is not serving.
    Health,
    /// The address names no host.
    NoHost,
}

/// The authority (host and port) that `http::Uri` reads in `s`, where `s`
/// parses as a URI that has one.
pub uninterp spec fn uri_authority(s: Seq<char>) -> Option<Seq<char>>;

/// Relies on http's `Uri` parsing (`FromStr`) and `Uri::authority`: the
/// authority of the URI written in `url`, if it parses and has one.
#[verifier::external_body]
fn parse_authority(url: &str) -> (r: Option<String>)
    ensures
        match r {
            Some(a) => uri_authority(url@) == Some(a@),
            None => uri_authority(url@) is None,
        },
{
    match url.parse::<http::Uri>() {
        Ok(uri) => match uri.authority() {
            Some(a) => Some(a.as_str().to_owned()),
            None => None,
        },
        Err(_) => None,
    }
}

/// The host (with port) that `url` names, which TLS checks the peer against.
pub fn get_authority(url: &str) -> (r: Result<String, Error>)
    ensures
        match uri_authority(url@) {
            Some(a) => r is Ok && r->Ok_0@ == a,
            None => r == Err::<String, Error>(Error::NoHost),
        },
{
    match parse_authority(url) {
        Some(a) => Ok(a),
        None => Err(Error::NoHost),
    }
}

/// A configuration that sends to `address` without TLS.
pub fn default_config(address: &str) -> (r: VectorSinkConfig)
    ensures
        r.address@ == address@,
        r.tls is None,
{
    VectorSinkConfig { address: address.to_owned(), tls: None }
}

impl VectorSinkConfig {
    /// The name TLS checks the peer against: none without TLS, the address's
    /// authority with it.
    pub fn tls_domain(&self) -> (r: Result<Option<String>, Error>)
        ensures
            self.tls is None ==> r == Ok::<Option<String>, Error>(None),
            self.tls is Some ==> match uri_authority(self.address@) {
                Some(a) => r is Ok && r->Ok_0 is Some && r->Ok_0->0@ == a,
                None => r == Err::<Option<String>, Error>(Error::NoHost),
            },
    {
        match &self.tls {
            None => Ok(None),
            Some(_) => match get_authority(self.address.as_str()) {
                Ok(a) => Ok(Some(a)),
                Err(e) => Err(e),
            },
        }
    }
}

/// Whether a failed send is worth another try: every failure is, except a
/// request that failed for an unknown cause.
pub fn is_retriable_error(err: &Error) -> (r: bool)
    ensures
        r == !(*err == Error::Request { code: UNKNOWN_CODE }),
{
    match err {
        Error::Request { code } => *code != UNKNOWN_CODE,
        _ => true,
    }
}

/// Seconds that the source waits for its server to stop.
pub fn default_shutdown_timeout_secs() -> (r: u64)
    ensures
        r == 30,
{
    30
}

} // verus!
