use vstd::prelude::*;

verus! {

/// Whether `uuid::Uuid::parse_str` accepts the text.
pub uninterp spec fn uuid_text(s: Seq<char>) -> bool;

/// The text read by `chrono::DateTime::parse_from_rfc3339` and written back in
/// UTC by `to_rfc3339`; `None` where the text is not an RFC 3339 time.
pub uninterp spec fn utc_rfc3339(s: Seq<char>) -> Option<Seq<char>>;

/// Whether `regex::Regex` compiles `pattern` and finds a match of it in `s`.
pub uninterp spec fn pattern_matches(pattern: Seq<char>, s: Seq<char>) -> bool;

/// Relies on uuid::Uuid::new_v4 for a fresh random identifier, written in
/// hyphenated form. Nothing is promised of its value.
#[verifier::external_body]
pub(crate) fn new_id() -> (r: String) {
    uuid::Uuid::new_v4().to_string()
}

/// Relies on uuid::Uuid::parse_str to tell whether `s` is a UUID.
#[verifier::external_body]
pub(crate) fn is_uuid(s: &str) -> (r: bool)
    ensures
        r == uuid_text(s@),
{
    uuid::Uuid::parse_str(s).is_ok()
}

/// Relies on chrono::Utc::now for the current time, written in RFC 3339.
#[verifier::external_body]
pub(crate) fn now_rfc3339() -> (r: String) {
    chrono::Utc::now().to_rfc3339()
}

/// Relies on chrono::Utc::now for the current time in milliseconds since the
/// Unix epoch.
#[verifier::external_body]
pub(crate) fn now_millis() -> (r: i64) {
    chrono::Utc::now().timestamp_millis()
}

/// Relies on chrono::DateTime::parse_from_rfc3339 to read an RFC 3339 time,
/// which is then written back in UTC; `None` where the text is not one.
#[verifier::external_body]
pub(crate) fn to_utc_rfc3339(s: &str) -> (r: Option<String>)
    ensures
        r is Some <==> utc_rfc3339(s@) is Some,
        r is Some ==> r->0@ == utc_rfc3339(s@)->0,
{
    match chrono::DateTime::parse_from_rfc3339(s) {
        Ok(t) => Some(t.with_timezone(&chrono::Utc).to_rfc3339()),
        Err(_) => None,
    }
}

/// Relies on regex::Regex::new and regex::Regex::is_match to tell whether
/// `pattern` matches somewhere in `s`; a pattern that does not compile
/// matches nothing.
#[verifier::external_body]
pub(crate) fn regex_matches(pattern: &str, s: &str) -> (r: bool)
    ensures
        r == pattern_matches(pattern@, s@),
{
    match regex::Regex::new(pattern) {
        Ok(re) => re.is_match(s),
        Err(_) => false,
    }
}

/// What `str::trim` leaves of a text: it without leading and trailing white space.
pub uninterp spec fn trimmed(s: Seq<char>) -> Seq<char>;

/// Relies on str::trim to drop leading and trailing white space.
#[verifier::external_body]
pub(crate) fn trim_text(s: &str) -> (r: &str)
    ensures
        r@ == trimmed(s@),
{
    s.trim()
}

} // verus!
