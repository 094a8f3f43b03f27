//! The `SameSite` attribute.
use crate::parse::ParseError;
use crate::text::{eq_ignore_case, range_eq, range_eq_ignore_case};
use vstd::prelude::*;
use vstd::string::*;
use vstd::utf8::*;

verus! {

/// The value of the `SameSite` attribute.
#[derive(Debug, Clone, Copy, PartialEq, Eq, Structural)]
pub enum SameSite {
    Strict,
    Lax,
    /// Written `None` on the wire: the cookie is sent with every request.
    Unrestricted,
}

impl Default for SameSite {
    /// The value that is written `None`.
    fn default() -> (r: Self)
        ensures
            r == SameSite::Unrestricted,
    {
        SameSite::Unrestricted
    }
}

impl SameSite {
    /// The attribute value as it is written on the wire.
    pub open spec fn word(self) -> Seq<u8> {
        match self {
            SameSite::Strict => "Strict".spec_bytes(),
            SameSite::Lax => "Lax".spec_bytes(),
            SameSite::Unrestricted => "None".spec_bytes(),
        }
    }

    /// The value that `text` names when the case of letters is ignored.
    pub open spec fn lenient(text: Seq<u8>) -> Option<SameSite> {
        if eq_ignore_case(text, "strict".spec_bytes()) {
            Some(SameSite::Strict)
        } else if eq_ignore_case(text, "lax".spec_bytes()) {
            Some(SameSite::Lax)
        } else if eq_ignore_case(text, "none".spec_bytes()) {
            Some(SameSite::Unrestricted)
        } else {
            None
        }
    }

    /// The value that `text` names exactly.
    pub open spec fn exact(text: Seq<u8>) -> Option<SameSite> {
        if text == "Strict".spec_bytes() {
            Some(SameSite::Strict)
        } else if text == "Lax".spec_bytes() {
            Some(SameSite::Lax)
        } else if text == "None".spec_bytes() {
            Some(SameSite::Unrestricted)
        } else {
            None
        }
    }

    /// The attribute value as it is written on the wire: `Strict`, `Lax` or `None`.
    pub fn as_str(self) -> (r: &'static str)
        ensures
            r.spec_bytes() == self.word(),
    {
        match self {
            SameSite::Strict => "Strict",
            SameSite::Lax => "Lax",
            SameSite::Unrestricted => "None",
        }
    }

    /// Reads the value in `from..to` of `bytes`, ignoring the case of letters.
    pub fn from_range(bytes: &[u8], from: usize, to: usize) -> (r: Option<SameSite>)
        requires
            from <= to <= bytes@.len(),
        ensures
            r == SameSite::lenient(bytes@.subrange(from as int, to as int)),
    {
        if range_eq_ignore_case(bytes, from, to, "strict".as_bytes()) {
            Some(SameSite::Strict)
        } else if range_eq_ignore_case(bytes, from, to, "lax".as_bytes()) {
            Some(SameSite::Lax)
        } else if range_eq_ignore_case(bytes, from, to, "none".as_bytes()) {
            Some(SameSite::Unrestricted)
        } else {
            None
        }
    }
}

impl<'a> TryFrom<&'a str> for SameSite {
    type Error = ParseError;

    /// Accepts exactly `Strict`, `Lax` and `None`; anything else is `InvalidSameSite`.
    fn try_from(value: &'a str) -> (r: Result<Self, ParseError>) {
        let bytes = value.as_bytes();
        let n: usize = bytes.len();
        assert(bytes@.subrange(0, n as int) =~= bytes@);
        if range_eq(bytes, 0, n, "Strict".as_bytes()) {
            Ok(SameSite::Strict)
        } else if range_eq(bytes, 0, n, "Lax".as_bytes()) {
            Ok(SameSite::Lax)
        } else if range_eq(bytes, 0, n, "None".as_bytes()) {
            Ok(SameSite::Unrestricted)
        } else {
            Err(ParseError::InvalidSameSite)
        }
    }
}

impl<'a> vstd::std_specs::convert::TryFromSpecImpl<&'a str> for SameSite {
    /// `try_from` returns what `try_from_spec` says.
    open spec fn obeys_try_from_spec() -> bool {
        true
    }

    /// The value that `value` names exactly, or `InvalidSameSite`.
    open spec fn try_from_spec(value: &'a str) -> Result<Self, ParseError> {
        match SameSite::exact(value.spec_bytes()) {
            Some(s) => Ok(s),
            None => Err(ParseError::InvalidSameSite),
        }
    }
}

} // verus!
