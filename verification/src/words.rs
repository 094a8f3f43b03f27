//! The words of the wire form, byte by byte.
use crate::parse::{EQUALS, SEMICOLON};
use crate::text::lemma_ascii_bytes;
use vstd::prelude::*;
use vstd::string::*;

verus! {

/// The byte of a space.
pub const SPACE: u8 = 0x20;

/// `; `, which introduces an attribute in the wire form.
pub open spec fn lead() -> Seq<u8> {
    seq![SEMICOLON, SPACE]
}

/// Whether every byte is a visible ASCII character other than `;` and `=`.
pub open spec fn is_plain(word: Seq<u8>) -> bool {
    forall|i: int|
        0 <= i < word.len() ==> 0x21 <= #[trigger] word[i] <= 0x7E && word[i] != SEMICOLON
            && word[i] != EQUALS
}

/// The bytes of the seven keys.
pub proof fn lemma_keys()
    ensures
        "Expires".spec_bytes() == seq![0x45u8, 0x78, 0x70, 0x69, 0x72, 0x65, 0x73],
        "Max-Age".spec_bytes() == seq![0x4Du8, 0x61, 0x78, 0x2D, 0x41, 0x67, 0x65],
        "Domain".spec_bytes() == seq![0x44u8, 0x6F, 0x6D, 0x61, 0x69, 0x6E],
        "Path".spec_bytes() == seq![0x50u8, 0x61, 0x74, 0x68],
        "Secure".spec_bytes() == seq![0x53u8, 0x65, 0x63, 0x75, 0x72, 0x65],
        "HttpOnly".spec_bytes() == seq![0x48u8, 0x74, 0x74, 0x70, 0x4F, 0x6E, 0x6C, 0x79],
        "SameSite".spec_bytes() == seq![0x53u8, 0x61, 0x6D, 0x65, 0x53, 0x69, 0x74, 0x65],
        is_plain("Expires".spec_bytes()),
        is_plain("Max-Age".spec_bytes()),
        is_plain("Domain".spec_bytes()),
        is_plain("Path".spec_bytes()),
        is_plain("Secure".spec_bytes()),
        is_plain("HttpOnly".spec_bytes()),
        is_plain("SameSite".spec_bytes()),
{
    reveal_strlit("Expires");
    reveal_strlit("Max-Age");
    reveal_strlit("Domain");
    reveal_strlit("Path");
    reveal_strlit("Secure");
    reveal_strlit("HttpOnly");
    reveal_strlit("SameSite");
    lemma_ascii_bytes("Expires");
    lemma_ascii_bytes("Max-Age");
    lemma_ascii_bytes("Domain");
    lemma_ascii_bytes("Path");
    lemma_ascii_bytes("Secure");
    lemma_ascii_bytes("HttpOnly");
    lemma_ascii_bytes("SameSite");
    assert("Expires".spec_bytes() =~= seq![0x45u8, 0x78, 0x70, 0x69, 0x72, 0x65, 0x73]);
    assert("Max-Age".spec_bytes() =~= seq![0x4Du8, 0x61, 0x78, 0x2D, 0x41, 0x67, 0x65]);
    assert("Domain".spec_bytes() =~= seq![0x44u8, 0x6F, 0x6D, 0x61, 0x69, 0x6E]);
    assert("Path".spec_bytes() =~= seq![0x50u8, 0x61, 0x74, 0x68]);
    assert("Secure".spec_bytes() =~= seq![0x53u8, 0x65, 0x63, 0x75, 0x72, 0x65]);
    assert("HttpOnly".spec_bytes() =~= seq![0x48u8, 0x74, 0x74, 0x70, 0x4F, 0x6E, 0x6C, 0x79]);
    assert("SameSite".spec_bytes() =~= seq![0x53u8, 0x61, 0x6D, 0x65, 0x53, 0x69, 0x74, 0x65]);
}

/// The seven keys differ from each other, and each is a plain word.
pub proof fn lemma_keys_differ()
    ensures
        "Expires".spec_bytes() != "Max-Age".spec_bytes(),
        "Expires".spec_bytes() != "Domain".spec_bytes(),
        "Expires".spec_bytes() != "Path".spec_bytes(),
        "Expires".spec_bytes() != "Secure".spec_bytes(),
        "Expires".spec_bytes() != "HttpOnly".spec_bytes(),
        "Expires".spec_bytes() != "SameSite".spec_bytes(),
        "Max-Age".spec_bytes() != "Domain".spec_bytes(),
        "Max-Age".spec_bytes() != "Path".spec_bytes(),
        "Max-Age".spec_bytes() != "Secure".spec_bytes(),
        "Max-Age".spec_bytes() != "HttpOnly".spec_bytes(),
        "Max-Age".spec_bytes() != "SameSite".spec_bytes(),
        "Domain".spec_bytes() != "Path".spec_bytes(),
        "Domain".spec_bytes() != "Secure".spec_bytes(),
        "Domain".spec_bytes() != "HttpOnly".spec_bytes(),
        "Domain".spec_bytes() != "SameSite".spec_bytes(),
        "Path".spec_bytes() != "Secure".spec_bytes(),
        "Path".spec_bytes() != "HttpOnly".spec_bytes(),
        "Path".spec_bytes() != "SameSite".spec_bytes(),
        "Secure".spec_bytes() != "HttpOnly".spec_bytes(),
        "Secure".spec_bytes() != "SameSite".spec_bytes(),
        "HttpOnly".spec_bytes() != "SameSite".spec_bytes(),
{
    lemma_keys();
    assert("Expires".spec_bytes()[0] == 0x45);
    assert("Max-Age".spec_bytes()[0] == 0x4D);
    assert("Domain".spec_bytes()[0] == 0x44);
    assert("Path".spec_bytes()[0] == 0x50);
    assert("Secure".spec_bytes()[1] == 0x65);
    assert("HttpOnly".spec_bytes()[0] == 0x48);
    assert("SameSite".spec_bytes()[1] == 0x61);
    assert("Secure".spec_bytes()[0] == 0x53);
    assert("SameSite".spec_bytes()[0] == 0x53);
    assert("Expires".spec_bytes()[1] == 0x78);
    assert("Max-Age".spec_bytes()[1] == 0x61);
    assert("Domain".spec_bytes()[1] == 0x6F);
    assert("Path".spec_bytes()[1] == 0x61);
    assert("HttpOnly".spec_bytes()[1] == 0x74);
}

/// The words that introduce an attribute in the wire form are `; `, the key
/// and, where a value follows, `=`.
pub proof fn lemma_introductions()
    ensures
        "=".spec_bytes() == seq![EQUALS],
        "; Expires=".spec_bytes() == lead() + "Expires".spec_bytes() + seq![EQUALS],
        "; Max-Age=".spec_bytes() == lead() + "Max-Age".spec_bytes() + seq![EQUALS],
        "; Domain=".spec_bytes() == lead() + "Domain".spec_bytes() + seq![EQUALS],
        "; Path=".spec_bytes() == lead() + "Path".spec_bytes() + seq![EQUALS],
        "; Secure".spec_bytes() == lead() + "Secure".spec_bytes(),
        "; HttpOnly".spec_bytes() == lead() + "HttpOnly".spec_bytes(),
        "; SameSite=".spec_bytes() == lead() + "SameSite".spec_bytes() + seq![EQUALS],
{
    lemma_keys();
    reveal_strlit("=");
    reveal_strlit("; Expires=");
    reveal_strlit("; Max-Age=");
    reveal_strlit("; Domain=");
    reveal_strlit("; Path=");
    reveal_strlit("; Secure");
    reveal_strlit("; HttpOnly");
    reveal_strlit("; SameSite=");
    lemma_ascii_bytes("=");
    lemma_ascii_bytes("; Expires=");
    lemma_ascii_bytes("; Max-Age=");
    lemma_ascii_bytes("; Domain=");
    lemma_ascii_bytes("; Path=");
    lemma_ascii_bytes("; Secure");
    lemma_ascii_bytes("; HttpOnly");
    lemma_ascii_bytes("; SameSite=");
    assert("=".spec_bytes() =~= seq![EQUALS]);
    assert("; Expires=".spec_bytes() =~= lead() + "Expires".spec_bytes() + seq![EQUALS]);
    assert("; Max-Age=".spec_bytes() =~= lead() + "Max-Age".spec_bytes() + seq![EQUALS]);
    assert("; Domain=".spec_bytes() =~= lead() + "Domain".spec_bytes() + seq![EQUALS]);
    assert("; Path=".spec_bytes() =~= lead() + "Path".spec_bytes() + seq![EQUALS]);
    assert("; Secure".spec_bytes() =~= lead() + "Secure".spec_bytes());
    assert("; HttpOnly".spec_bytes() =~= lead() + "HttpOnly".spec_bytes());
    assert("; SameSite=".spec_bytes() =~= lead() + "SameSite".spec_bytes() + seq![EQUALS]);
}

/// The bytes of the values of `SameSite`, as written and in lower case.
pub proof fn lemma_same_site_words()
    ensures
        "Strict".spec_bytes() == seq![0x53u8, 0x74, 0x72, 0x69, 0x63, 0x74],
        "Lax".spec_bytes() == seq![0x4Cu8, 0x61, 0x78],
        "None".spec_bytes() == seq![0x4Eu8, 0x6F, 0x6E, 0x65],
        "strict".spec_bytes() == seq![0x73u8, 0x74, 0x72, 0x69, 0x63, 0x74],
        "lax".spec_bytes() == seq![0x6Cu8, 0x61, 0x78],
        "none".spec_bytes() == seq![0x6Eu8, 0x6F, 0x6E, 0x65],
{
    reveal_strlit("Strict");
    reveal_strlit("Lax");
    reveal_strlit("None");
    reveal_strlit("strict");
    reveal_strlit("lax");
    reveal_strlit("none");
    lemma_ascii_bytes("Strict");
    lemma_ascii_bytes("Lax");
    lemma_ascii_bytes("None");
    lemma_ascii_bytes("strict");
    lemma_ascii_bytes("lax");
    lemma_ascii_bytes("none");
    assert("Strict".spec_bytes() =~= seq![0x53u8, 0x74, 0x72, 0x69, 0x63, 0x74]);
    assert("Lax".spec_bytes() =~= seq![0x4Cu8, 0x61, 0x78]);
    assert("None".spec_bytes() =~= seq![0x4Eu8, 0x6F, 0x6E, 0x65]);
    assert("strict".spec_bytes() =~= seq![0x73u8, 0x74, 0x72, 0x69, 0x63, 0x74]);
    assert("lax".spec_bytes() =~= seq![0x6Cu8, 0x61, 0x78]);
    assert("none".spec_bytes() =~= seq![0x6Eu8, 0x6F, 0x6E, 0x65]);
}

} // verus!
