//! What the crawler reads out of a URL: the origin, which bounds the crawl,
//! and the path, under which a page is remembered.
//!
//! Parsing is left to the `url` crate. Nothing here depends on how it reads a
//! URL, only on the origin and the path it hands back.

use vstd::prelude::*;

verus! {

/// Declares `url::ParseError`, the reason the parser gives for rejecting a
/// string. It is carried through to the caller; nothing is said of its
/// values.
#[verifier::external_type_specification]
#[verifier::external_body]
pub struct ExParseError(url::ParseError);

/// The path of the URL that `url::Url::parse` reads from `input`, as
/// `url::Url::path` returns it; `None` where `parse` rejects `input`.
pub uninterp spec fn url_path(input: Seq<char>) -> Option<Seq<char>>;

/// The origin of the URL that `url::Url::parse` reads from `input`, as
/// `url::Origin::ascii_serialization` writes what `url::Url::origin` returns:
/// scheme, host and port, the port left out where it is the scheme's own,
/// and the word `null` for a URL whose scheme gives it no such origin;
/// `None` where `parse` rejects `input`.
pub uninterp spec fn url_origin(input: Seq<char>) -> Option<Seq<char>>;

/// Calls `url::Url::parse` on `input` and `url::Url::path` on the URL it
/// returns. The contract gives the outcome its name, `url_path(input@)`, and
/// says nothing else of it: the path where `parse` succeeds, its error where
/// it fails.
#[verifier::external_body]
fn parse_path(input: &str) -> (r: Result<String, url::ParseError>)
    ensures
        r matches Ok(path) ==> url_path(input@) == Some(path@),
        r is Err ==> url_path(input@) is None,
{
    match url::Url::parse(input) {
        Ok(parsed) => Ok(parsed.path().to_string()),
        Err(cause) => Err(cause),
    }
}

/// Calls `url::Url::parse` on `input`, `url::Url::origin` on the URL it
/// returns and `url::Origin::ascii_serialization` on that origin. The
/// contract gives the outcome its name, `url_origin(input@)`, and says
/// nothing else of it: the serialized origin where `parse` succeeds, its
/// error where it fails.
#[verifier::external_body]
fn parse_origin(input: &str) -> (r: Result<String, url::ParseError>)
    ensures
        r matches Ok(origin) ==> url_origin(input@) == Some(origin@),
        r is Err ==> url_origin(input@) is None,
{
    match url::Url::parse(input) {
        Ok(parsed) => Ok(parsed.origin().ascii_serialization()),
        Err(cause) => Err(cause),
    }
}

/// A string that was to be read as a URL and is none.
#[derive(Debug)]
pub struct InvalidUrl {
    /// The string that could not be parsed.
    pub url: String,
    /// Why the parser rejected it.
    pub cause: url::ParseError,
}

/// The path of the URL `host`, the key under which its page is harvested.
///
/// Fails where `host` is no URL, and hands the string back in the error.
pub fn harvest(host: &str) -> (r: Result<String, InvalidUrl>)
    ensures
        match r {
            Ok(path) => url_path(host@) == Some(path@),
            Err(e) => url_path(host@) is None && e.url@ == host@,
        },
{
    match parse_path(host) {
        Ok(path) => Ok(path),
        Err(cause) => Err(InvalidUrl { url: host.to_owned(), cause }),
    }
}

/// The scope of a crawl that starts at `host`: the origin of the URL, which
/// is its scheme, host and port without the path and what follows it.
///
/// Fails where `host` is no URL, and hands the string back in the error.
pub fn get_scope(host: &str) -> (r: Result<String, InvalidUrl>)
    ensures
        match r {
            Ok(scope) => url_origin(host@) == Some(scope@),
            Err(e) => url_origin(host@) is None && e.url@ == host@,
        },
{
    match parse_origin(host) {
        Ok(origin) => Ok(origin),
        Err(cause) => Err(InvalidUrl { url: host.to_owned(), cause }),
    }
}

} // verus!
