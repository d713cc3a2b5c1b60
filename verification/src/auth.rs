//! The authorization header value sent to the leave source: HTTP basic
//! authentication over a base64-rendered credential pair.

use base64::Engine;
use vstd::prelude::*;

verus! {

/// The base64 rendering (standard alphabet, with padding) of the UTF-8
/// bytes of `user`, a colon, and `pass`. The result is a function of the
/// two inputs alone.
pub uninterp spec fn basic_credentials_of(user: Seq<char>, pass: Seq<char>) -> Seq<char>;

/// Relies on base64's `Engine::encode` with the `STANDARD` engine: it
/// encodes the UTF-8 bytes of "user:pass" into base64 text, a pure
/// function of its input bytes.
#[verifier::external_body]
fn encode_credentials(user: &str, pass: &str) -> (r: String)
    ensures
        r@ == basic_credentials_of(user@, pass@),
{
    base64::prelude::BASE64_STANDARD.encode(format!("{}:{}", user, pass))
}

/// The value of the Authorization header for HTTP basic authentication:
/// "Basic " followed by the base64 of "username:password".
pub fn basic_auth_header(username: &str, password: &str) -> (r: String)
    ensures
        r@ == "Basic "@ + basic_credentials_of(username@, password@),
{
    let mut s = "Basic ".to_owned();
    let encoded = encode_credentials(username, password);
    s.append(encoded.as_str());
    s
}

} // verus!
