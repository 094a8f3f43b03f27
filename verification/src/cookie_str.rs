//! A text that is either held by value or is a range of a source buffer that
//! it does not hold itself.
use crate::text::slice;
use std::borrow::Cow;
use vstd::prelude::*;
use vstd::string::*;
use vstd::utf8::*;

verus! {

/// The text of a cookie field.
///
/// `Indexed` gives the start and the end of the text as byte offsets into the
/// cookie string that the field was read from. `Concrete` holds the text.
#[derive(Debug, PartialEq, Eq)]
pub enum CookieStr<'a> {
    Indexed(usize, usize),
    Concrete(Cow<'a, str>),
}

/// What a [`CookieStr`] stands for: a range of a source, or the bytes of a text.
pub enum Text {
    Offset(int, int),
    Concrete(Seq<u8>),
}

/// The bytes of a string that is borrowed or owned.
pub open spec fn cow_bytes(text: Cow<'_, str>) -> Seq<u8> {
    encode_utf8(text@)
}

/// The bytes of the source, where there is one.
pub open spec fn source_bytes(source: Option<&Cow<'_, str>>) -> Option<Seq<u8>> {
    match source {
        Some(text) => Some(cow_bytes(*text)),
        None => None,
    }
}

/// The bytes of a text, where there is one.
pub open spec fn text_bytes(text: Option<&str>) -> Option<Seq<u8>> {
    match text {
        Some(t) => Some(t.spec_bytes()),
        None => None,
    }
}

impl Text {
    /// Whether the text can be read: a range needs a source that it lies in,
    /// between character boundaries.
    pub open spec fn resolves_in(self, source: Option<Seq<u8>>) -> bool {
        match self {
            Text::Offset(start, end) => {
                &&& source matches Some(s)
                &&& 0 <= start <= end <= s.len()
                &&& is_char_boundary(s, start)
                &&& is_char_boundary(s, end)
            },
            Text::Concrete(_) => true,
        }
    }

    /// Whether a range has a source that it lies in.
    pub open spec fn lies_in(self, source: Option<Seq<u8>>) -> bool {
        match self {
            Text::Offset(start, end) => source matches Some(s) && 0 <= start <= end <= s.len(),
            Text::Concrete(_) => true,
        }
    }

    /// The bytes of the text: those of the range, or those held.
    pub open spec fn resolve(self, source: Option<Seq<u8>>) -> Seq<u8> {
        match self {
            Text::Offset(start, end) => source.unwrap().subrange(start, end),
            Text::Concrete(bytes) => bytes,
        }
    }

    /// The bytes of the text as they stand in the source, if the text is a
    /// range and the source is still the caller's text.
    pub open spec fn raw(self, source: Seq<u8>, borrowed: bool) -> Option<Seq<u8>> {
        match self {
            Text::Offset(start, end) => if borrowed {
                Some(source.subrange(start, end))
            } else {
                None
            },
            Text::Concrete(_) => None,
        }
    }

    /// Where a needle of `needle_len` bytes at address `needle_at` lies in a
    /// haystack of `haystack_len` bytes at address `haystack_at`: the range
    /// of its offsets, if all of it lies inside the haystack.
    pub open spec fn span(
        needle_at: usize,
        needle_len: usize,
        haystack_at: usize,
        haystack_len: usize,
    ) -> Option<Text> {
        if haystack_at <= needle_at && needle_at + needle_len <= haystack_at + haystack_len {
            Some(Text::Offset(needle_at - haystack_at, needle_at - haystack_at + needle_len))
        } else {
            None
        }
    }
}

impl<'a> View for CookieStr<'a> {
    type V = Text;

    open spec fn view(&self) -> Text {
        match self {
            CookieStr::Indexed(start, end) => Text::Offset(*start as int, *end as int),
            CookieStr::Concrete(text) => Text::Concrete(cow_bytes(*text)),
        }
    }
}

/// What [`CookieStr::within`] returns, as a text.
pub open spec fn found_text(found: Option<CookieStr<'static>>) -> Option<Text> {
    match found {
        Some(text) => Some(text@),
        None => None,
    }
}

impl<'a> Clone for CookieStr<'a> {
    /// A copy: the same range, or the same text.
    fn clone(&self) -> (r: Self)
        ensures
            r == *self,
    {
        match self {
            CookieStr::Indexed(start, end) => CookieStr::Indexed(*start, *end),
            CookieStr::Concrete(Cow::Borrowed(text)) => CookieStr::Concrete(Cow::Borrowed(*text)),
            CookieStr::Concrete(Cow::Owned(text)) => CookieStr::Concrete(Cow::Owned(text.clone())),
        }
    }
}

/// Calls `str::as_ptr` and gives the pointer as a number.
///
/// The contract claims nothing of the address.
#[verifier::external_body]
fn address_of(text: &str) -> usize {
    text.as_ptr() as usize
}

/// The string that `text` holds or borrows.
pub fn cow_str<'s>(text: &'s Cow<'_, str>) -> (r: &'s str)
    ensures
        r.spec_bytes() == cow_bytes(*text),
{
    match text {
        Cow::Borrowed(borrowed) => borrowed,
        Cow::Owned(owned) => owned.as_str(),
    }
}

impl<'a> CookieStr<'a> {
    /// The range of `needle` in `haystack`, if `needle` is a part of the
    /// memory of `haystack`. A needle that lies elsewhere gives `None`, even
    /// where `haystack` holds the same text.
    ///
    /// Which of the two holds depends on where the strings lie: the result is
    /// what [`CookieStr::within`] gives for their addresses. Whatever they
    /// are, a range that is returned has the length of `needle` and ends
    /// inside `haystack`.
    pub fn indexed(needle: &str, haystack: &str) -> (r: Option<CookieStr<'static>>)
        ensures
            exists|needle_at: usize, haystack_at: usize|
                found_text(r) == #[trigger] Text::span(
                    needle_at,
                    needle.spec_bytes().len() as usize,
                    haystack_at,
                    haystack.spec_bytes().len() as usize,
                ),
            match r {
                Some(CookieStr::Indexed(start, end)) => {
                    &&& start <= end <= haystack.spec_bytes().len()
                    &&& end - start == needle.spec_bytes().len()
                },
                Some(CookieStr::Concrete(_)) => false,
                None => true,
            },
    {
        let needle_len: usize = needle.as_bytes().len();
        let haystack_len: usize = haystack.as_bytes().len();
        let needle_at = address_of(needle);
        let haystack_at = address_of(haystack);
        let r = CookieStr::within(needle_at, needle_len, haystack_at, haystack_len);
        assert(found_text(r) == Text::span(
            needle_at,
            needle.spec_bytes().len() as usize,
            haystack_at,
            haystack.spec_bytes().len() as usize,
        ));
        r
    }

    /// The range of a needle in a haystack, from their addresses and lengths:
    /// `Some` if and only if the needle starts at or after the start of the
    /// haystack and ends at or before its end.
    pub fn within(
        needle_at: usize,
        needle_len: usize,
        haystack_at: usize,
        haystack_len: usize,
    ) -> (r: Option<CookieStr<'static>>)
        ensures
            found_text(r) == Text::span(needle_at, needle_len, haystack_at, haystack_len),
            r matches Some(found) ==> found is Indexed,
    {
        if needle_at < haystack_at {
            return None;
        }
        let start: usize = needle_at - haystack_at;
        if start > haystack_len || needle_len > haystack_len - start {
            return None;
        }
        Some(CookieStr::Indexed(start, start + needle_len))
    }

    /// The text: the range of `source`, or the text held.
    pub fn as_str<'s>(&'s self, source: Option<&'s Cow<'_, str>>) -> (r: &'s str)
        requires
            self@.resolves_in(source_bytes(source)),
        ensures
            r.spec_bytes() == self@.resolve(source_bytes(source)),
    {
        match self {
            CookieStr::Indexed(start, end) => {
                let whole = cow_str(source.unwrap());
                slice(whole, *start, *end)
            },
            CookieStr::Concrete(text) => cow_str(text),
        }
    }

    /// The text as it stands in `source`, if this is a range and `source` is
    /// still the caller's text; `None` otherwise.
    pub fn to_raw_str<'s, 'b: 's>(&'s self, source: &'s Cow<'b, str>) -> (r: Option<&'s str>)
        requires
            self@.resolves_in(Some(cow_bytes(*source))),
        ensures
            text_bytes(r) == self@.raw(cow_bytes(*source), *source is Borrowed),
    {
        match self {
            CookieStr::Indexed(start, end) => match source {
                Cow::Borrowed(whole) => Some(slice(whole, *start, *end)),
                Cow::Owned(_) => None,
            },
            CookieStr::Concrete(_) => None,
        }
    }

    /// The text, held by value and without a lifetime: a copy of the range
    /// of `source`, or of the text held.
    pub fn into_owned(self, source: Option<&Cow<'_, str>>) -> (r: CookieStr<'static>)
        requires
            self@.resolves_in(source_bytes(source)),
        ensures
            r@ == Text::Concrete(self@.resolve(source_bytes(source))),
            r matches CookieStr::Concrete(text) && text is Owned,
    {
        match self {
            CookieStr::Indexed(start, end) => {
                let whole = cow_str(source.unwrap());
                CookieStr::Concrete(Cow::Owned(slice(whole, start, end).to_owned()))
            },
            CookieStr::Concrete(Cow::Owned(text)) => CookieStr::Concrete(Cow::Owned(text)),
            CookieStr::Concrete(Cow::Borrowed(text)) => CookieStr::Concrete(
                Cow::Owned(text.to_owned()),
            ),
        }
    }
}

} // verus!
