use vstd::prelude::*;
use vstd::string::StringExecFns;

use crate::outside::{is_uuid, pattern_matches, regex_matches, to_utc_rfc3339, trim_text, trimmed, utc_rfc3339, uuid_text};

verus! {

/// The shape of a UPI payment address: a handle, `@`, and a provider.
pub const UPI_ID_PATTERN: &'static str = "^[a-zA-Z0-9.\\-_]{2,49}@[a-zA-Z._]{2,49}$";

/// The message that rejects a value of field `field`.
pub open spec fn invalid_message(field: Seq<char>) -> Seq<char> {
    "Invalid "@ + field
}

/// The rejection of a value of field `field`.
fn invalid(field: &str) -> (r: Result<(), String>)
    ensures
        r is Err,
        r->Err_0@ == invalid_message(field@),
{
    proof {
        reveal_strlit("Invalid ");
    }
    Err("Invalid ".to_string().concat(field))
}

/// Accepts a display name of 4 to 59 bytes once trimmed.
#[derive(Debug)]
pub struct NameValidator {
    field_name: &'static str,
}

impl NameValidator {
    /// A validator for the field `name`.
    pub fn new(name: &'static str) -> (r: Self)
        ensures
            r.field_name() == name@,
    {
        Self { field_name: name }
    }

    /// The name of the field checked.
    pub closed spec fn field_name(&self) -> Seq<char> {
        self.field_name@
    }

    /// `Ok` where the trimmed value is longer than 3 and shorter than 60 bytes.
    pub fn check(&self, value: &String) -> (r: Result<(), String>)
        ensures
            r is Ok <==> 3 < vstd::utf8::encode_utf8(trimmed(value@)).len() < 60,
            r is Err ==> r->Err_0@ == invalid_message(self.field_name()),
    {
        let t = trim_text(value.as_str());
        let n = t.as_bytes().len();
        if n > 3 && n < 60 {
            Ok(())
        } else {
            invalid(self.field_name)
        }
    }
}

/// Accepts an RFC 3339 time.
#[derive(Debug)]
pub struct DateTimeValidator {
    field_name: &'static str,
}

impl DateTimeValidator {
    /// A validator for the field `name`.
    pub fn new(name: &'static str) -> (r: Self)
        ensures
            r.field_name() == name@,
    {
        Self { field_name: name }
    }

    /// The name of the field checked.
    pub closed spec fn field_name(&self) -> Seq<char> {
        self.field_name@
    }

    /// `Ok` where the value is an RFC 3339 time.
    pub fn check(&self, value: &String) -> (r: Result<(), String>)
        ensures
            r is Ok <==> utc_rfc3339(value@) is Some,
            r is Err ==> r->Err_0@ == invalid_message(self.field_name()),
    {
        if to_utc_rfc3339(value.as_str()).is_some() {
            Ok(())
        } else {
            invalid(self.field_name)
        }
    }
}

/// Accepts a UUID.
#[derive(Debug)]
pub struct IdValidator {
    field_name: &'static str,
}

impl IdValidator {
    /// A validator for the field `name`.
    pub fn new(name: &'static str) -> (r: Self)
        ensures
            r.field_name() == name@,
    {
        Self { field_name: name }
    }

    /// The name of the field checked.
    pub closed spec fn field_name(&self) -> Seq<char> {
        self.field_name@
    }

    /// `Ok` where the value is a UUID.
    pub fn check(&self, value: &String) -> (r: Result<(), String>)
        ensures
            r is Ok <==> uuid_text(value@),
            r is Err ==> r->Err_0@ == invalid_message(self.field_name()),
    {
        if is_uuid(value.as_str()) {
            Ok(())
        } else {
            invalid(self.field_name)
        }
    }
}

/// Accepts a UPI payment address.
#[derive(Debug)]
pub struct UpiIdValidator {
    field_name: &'static str,
}

impl UpiIdValidator {
    /// A validator for the field `name`.
    pub fn new(name: &'static str) -> (r: Self)
        ensures
            r.field_name() == name@,
    {
        Self { field_name: name }
    }

    /// The name of the field checked.
    pub closed spec fn field_name(&self) -> Seq<char> {
        self.field_name@
    }

    /// `Ok` where the value has the shape of `UPI_ID_PATTERN`.
    pub fn check(&self, value: &String) -> (r: Result<(), String>)
        ensures
            r is Ok <==> pattern_matches(UPI_ID_PATTERN@, value@),
            r is Err ==> r->Err_0@ == invalid_message(self.field_name()),
    {
        if regex_matches(UPI_ID_PATTERN, value.as_str()) {
            Ok(())
        } else {
            invalid(self.field_name)
        }
    }
}

} // verus!
