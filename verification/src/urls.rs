use vstd::prelude::*;

verus! {

use url::ParseError;

/// Whether `url::Url::parse` accepts the string as an absolute URL.
pub uninterp spec fn url_parses(s: Seq<char>) -> bool;

/// The scheme that `url::Url::scheme` reports for a string that parses.
pub uninterp spec fn url_scheme(s: Seq<char>) -> Seq<char>;

/// Whether `url::Url::host` reports a host for a string that parses.
pub uninterp spec fn url_has_host(s: Seq<char>) -> bool;

/// Whether `url::Url::join` resolves the candidate against a base that parses.
pub uninterp spec fn join_accepts(base: Seq<char>, candidate: Seq<char>) -> bool;

/// The serialization of the URL that `url::Url::join` produces.
pub uninterp spec fn join_result(base: Seq<char>, candidate: Seq<char>) -> Seq<char>;

#[verifier::external_type_specification]
#[verifier::external_body]
pub struct ExParseError(ParseError);

/// The scheme and host presence of a parsed URL.
pub struct UrlParts {
    pub scheme: String,
    pub has_host: bool,
}

/// Relies on `url::Url::parse`, `url::Url::scheme` and `url::Url::host`:
/// whether a string parses as an absolute URL, and the scheme and host of
/// the parse, depend on the string alone.
#[verifier::external_body]
fn parse_parts(s: &str) -> (r: Option<UrlParts>)
    ensures
        r is Some <==> url_parses(s@),
        r matches Some(p) ==> (p.scheme@ == url_scheme(s@) && p.has_host == url_has_host(s@)),
{
    match url::Url::parse(s) {
        Ok(u) => Some(UrlParts { scheme: u.scheme().to_string(), has_host: u.host().is_some() }),
        Err(_) => None,
    }
}

/// Relies on `url::Url::parse`, `url::Url::join` and the serialization of the
/// joined URL: resolving a candidate string against a base string is a
/// function of the two strings alone.
#[verifier::external_body]
pub(crate) fn create_absolute_url(base_url: &str, relative_link: &str) -> (r: Result<String, ParseError>)
    ensures
        r is Ok <==> (url_parses(base_url@) && join_accepts(base_url@, relative_link@)),
        r matches Ok(u) ==> (u@ == join_result(base_url@, relative_link@)),
{
    let base = url::Url::parse(base_url)?;
    let absolute_url = base.join(relative_link)?;
    Ok(absolute_url.to_string())
}

/// Relies on the `Display` form of `url::ParseError` for a human-readable
/// description of why a candidate could not be resolved.
#[verifier::external_body]
fn parse_error_text(e: &ParseError) -> String {
    format!("{}", e)
}

/// A string validates when it parses as a URL with a non-empty scheme and a
/// resolvable host.
pub open spec fn spec_validate(s: Seq<char>) -> bool {
    url_parses(s) && url_scheme(s).len() > 0 && url_has_host(s)
}

/// True iff the string parses as a URL that has both a non-empty scheme and
/// a host.
pub fn validate_url(url: &str) -> (r: bool)
    ensures
        r == spec_validate(url@),
{
    match parse_parts(url) {
        Some(p) => !p.scheme.as_str().is_empty() && p.has_host,
        None => false,
    }
}

/// A per-link failure: the href could not be resolved against the base.
/// The message describes the underlying cause.
#[derive(Debug)]
pub struct LinkResolutionError {
    pub href: String,
    pub message: String,
}

/// What resolution returns, as a function of the base and candidate strings:
/// a candidate that already validates as absolute is kept as it is; any other
/// candidate is joined to the base; a candidate that cannot be resolved even
/// against the base yields nothing.
pub open spec fn spec_resolve(base: Seq<char>, candidate: Seq<char>) -> Option<Seq<char>> {
    if spec_validate(candidate) {
        Some(candidate)
    } else if url_parses(base) && join_accepts(base, candidate) {
        Some(join_result(base, candidate))
    } else {
        None
    }
}

/// Resolves one href against the base document URL. An href that already
/// validates as an absolute URL is returned unchanged; otherwise it is
/// resolved against the base by standard URL-resolution rules. Failure is a
/// recoverable per-link error naming the offending href.
pub fn resolve(base: &str, candidate: &str) -> (r: Result<String, LinkResolutionError>)
    ensures
        r is Ok <==> spec_resolve(base@, candidate@) is Some,
        r matches Ok(u) ==> spec_resolve(base@, candidate@) == Some(u@),
        spec_validate(candidate@) ==> (r matches Ok(u) && u@ == candidate@),
        r matches Err(e) ==> e.href@ == candidate@,
{
    if validate_url(candidate) {
        Ok(candidate.to_owned())
    } else {
        match create_absolute_url(base, candidate) {
            Ok(u) => Ok(u),
            Err(e) => Err(
                LinkResolutionError {
                    href: candidate.to_owned(),
                    message: parse_error_text(&e),
                },
            ),
        }
    }
}

} // verus!
