//! Building a cookie attribute by attribute.
use crate::cookie::{Cookie, CookieView};
use crate::cookie_str::Text;
use crate::expires::Expiration;
use crate::same_site::SameSite;
use std::borrow::Cow;
use vstd::prelude::*;
use vstd::string::*;

verus! {

/// A cookie in the making. Each method sets one attribute and hands the
/// builder back; `build` gives the cookie.
pub struct CookieBuilder<'a>(Cookie<'a>);

impl<'a> View for CookieBuilder<'a> {
    type V = CookieView;

    closed spec fn view(&self) -> CookieView {
        self.0@
    }
}

impl<'a> CookieBuilder<'a> {
    /// Starts a cookie of a name and a value, without attributes.
    pub fn new(name: &'a str, val: &'a str) -> (r: Self)
        ensures
            r@ == CookieView::of_pair(name.spec_bytes(), val.spec_bytes()),
    {
        CookieBuilder(Cookie::of_pair(name, val))
    }

    /// Sets the expiry.
    pub fn expires(self, expires: Expiration) -> (r: Self)
        ensures
            r@ == (CookieView { expires: Some(expires), ..self@ }),
    {
        let mut next = self;
        next.0.set_expires(Some(expires));
        next
    }

    /// Sets the seconds of `Max-Age`.
    pub fn max_age(self, max_age: u64) -> (r: Self)
        ensures
            r@ == (CookieView { max_age: Some(max_age), ..self@ }),
    {
        let mut next = self;
        next.0.set_max_age(Some(max_age));
        next
    }

    /// Sets the domain.
    pub fn domain(self, domain: &'a str) -> (r: Self)
        ensures
            r@ == (CookieView { domain: Some(Text::Concrete(domain.spec_bytes())), ..self@ }),
    {
        let mut next = self;
        next.0.set_domain(Cow::Borrowed(domain));
        next
    }

    /// Sets the path.
    pub fn path(self, path: &'a str) -> (r: Self)
        ensures
            r@ == (CookieView { path: Some(Text::Concrete(path.spec_bytes())), ..self@ }),
    {
        let mut next = self;
        next.0.set_path(Cow::Borrowed(path));
        next
    }

    /// Sets `Secure`.
    pub fn secure(self, secure: bool) -> (r: Self)
        ensures
            r@ == (CookieView { secure: Some(secure), ..self@ }),
    {
        let mut next = self;
        next.0.set_secure(Some(secure));
        next
    }

    /// Sets `HttpOnly`.
    pub fn http_only(self, http_only: bool) -> (r: Self)
        ensures
            r@ == (CookieView { http_only: Some(http_only), ..self@ }),
    {
        let mut next = self;
        next.0.set_http_only(Some(http_only));
        next
    }

    /// Sets `SameSite`.
    pub fn same_site(self, same_site: SameSite) -> (r: Self)
        ensures
            r@ == (CookieView { same_site: Some(same_site), ..self@ }),
    {
        let mut next = self;
        next.0.set_same_site(Some(same_site));
        next
    }

    /// The cookie as built.
    pub fn build(self) -> (r: Cookie<'a>)
        ensures
            r@ == self@,
    {
        self.0
    }

    /// A builder that goes on from a cookie holds what the cookie holds.
    pub proof fn lemma_from(cookie: Cookie<'a>)
        ensures
            <CookieBuilder<'a> as vstd::std_specs::convert::FromSpec<Cookie<'a>>>::from_spec(
                cookie,
            )@ == cookie@,
    {
    }
}

impl<'a> From<Cookie<'a>> for CookieBuilder<'a> {
    /// Goes on building from a cookie.
    fn from(value: Cookie<'a>) -> (r: Self) {
        CookieBuilder(value)
    }
}

impl<'a> vstd::std_specs::convert::FromSpecImpl<Cookie<'a>> for CookieBuilder<'a> {
    /// `from` returns what `from_spec` says.
    open spec fn obeys_from_spec() -> bool {
        true
    }

    /// The builder that holds `value`; [`CookieBuilder::lemma_from`] says
    /// what it holds.
    closed spec fn from_spec(value: Cookie<'a>) -> Self {
        CookieBuilder(value)
    }
}

} // verus!
