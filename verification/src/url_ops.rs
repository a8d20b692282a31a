//! URL handling, from the `url` crate. A URL is carried as its
//! serialization: the string that `url::Url` prints.
use vstd::prelude::*;

verus! {

/// Whether `url::Url::parse` accepts `s`.
pub uninterp spec fn url_parses(s: Seq<char>) -> bool;

/// The serialization of the URL that `url::Url::parse` makes of `s`.
pub uninterp spec fn url_normalized(s: Seq<char>) -> Seq<char>;

/// The message of the error that `url::Url::parse` gives for `s`.
pub uninterp spec fn url_error_message(s: Seq<char>) -> Seq<char>;

/// The scheme of the URL whose serialization is `s`.
pub uninterp spec fn url_scheme_of(s: Seq<char>) -> Seq<char>;

/// The serialization of the URL `s` with its query set to `q`.
pub uninterp spec fn url_with_query(s: Seq<char>, q: Seq<char>) -> Seq<char>;

/// `url::Url::parse` (which `Url::try_from` calls), giving the URL as its
/// serialization, or the error as its message. Whether it succeeds, the
/// serialization and the message are named, not stated.
#[verifier::external_body]
pub(crate) fn parse_url(s: &str) -> (r: Result<String, String>)
    ensures
        r is Ok <==> url_parses(s@),
        r matches Ok(u) ==> u@ == url_normalized(s@),
        r matches Err(m) ==> m@ == url_error_message(s@),
{
    match url::Url::parse(s) {
        Ok(u) => Ok(String::from(u)),
        Err(e) => Err(e.to_string()),
    }
}

/// `url::Url::scheme` of the URL serialized as `s` (read back with
/// `url::Url::parse`). The scheme is named, not stated.
#[verifier::external_body]
pub(crate) fn url_scheme(s: &str) -> (r: String)
    ensures
        r@ == url_scheme_of(s@),
{
    match url::Url::parse(s) {
        Ok(u) => u.scheme().to_owned(),
        Err(_) => String::new(),
    }
}

/// `url::Url::set_query` with `Some(q)` on the URL serialized as `s` (read
/// back with `url::Url::parse`), giving the new serialization, which is
/// named, not stated.
#[verifier::external_body]
pub(crate) fn url_set_query(s: &str, q: &str) -> (r: String)
    ensures
        r@ == url_with_query(s@, q@),
{
    match url::Url::parse(s) {
        Ok(mut u) => {
            u.set_query(Some(q));
            String::from(u)
        },
        Err(_) => String::new(),
    }
}

} // verus!
