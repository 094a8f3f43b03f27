//! Parsing, representation and serialization of a single HTTP cookie.
//!
//! A [`Cookie`] is read from a cookie string (the value of a `Set-Cookie`
//! header) by [`Cookie::parse`], or built with a [`CookieBuilder`]. A cookie
//! that was read keeps the string as its source and holds its texts as
//! ranges of it; a text that is set anew is held by value. `to_string` gives
//! the wire form.
//!
//! Every function is verified against a contract over bytes:
//!
//! - [`text`] searches, trims and compares ranges of bytes;
//! - [`parse`] is the grammar of a cookie string, and [`date`] reads the date
//!   of an `Expires` attribute;
//! - [`cookie_str`], [`cookie`] and [`builder`] are the data model;
//! - [`laws`] and [`round_trip`] prove what holds of every cookie string and
//!   every cookie, with [`words`] for the bytes of the words involved.
//!
//! What is not proved is stated in two places: [`calendar`] holds the calls
//! into `chrono` (date text, the clock, day arithmetic), and
//! [`CookieStr::indexed`] asks for the addresses of two strings.
pub mod builder;
pub mod calendar;
pub mod cookie;
pub mod cookie_str;
pub mod date;
pub mod expires;
pub mod laws;
pub mod parse;
pub mod render;
pub mod round_trip;
pub mod same_site;
pub mod text;
pub mod words;

pub use builder::CookieBuilder;
pub use cookie::Cookie;
pub use cookie_str::CookieStr;
pub use expires::{Expiration, Expires, Timestamp};
pub use parse::{parse_cookie, ParseError};
pub use same_site::SameSite;
