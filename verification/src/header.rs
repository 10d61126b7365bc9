use vstd::prelude::*;

verus! {

/// The custom request header that carries the session's XSRF token.
pub const X_XSRF_TOKEN: &'static str = "X-XSRF-TOKEN";

/// The content type every API request declares.
pub const APPLICATION_JSON: &'static str = "application/json";

/// The browser-like user agent the transport is configured with.
pub const USER_AGENT: &'static str =
    "Mozilla/5.0 (X11; Linux x86_64; rv:141.0) Gecko/20100101 Firefox/141.0";

/// The name-prefix of the Set-Cookie header value that carries the
/// XSRF token.
pub const XSRF_COOKIE_PREFIX: &'static str = "XSRF-TOKEN=";

/// The character that ends the meaningful part of the cookie value.
pub const XSRF_COOKIE_SEPARATOR: char = ';';

} // verus!
