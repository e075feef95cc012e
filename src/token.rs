use vstd::prelude::*;

verus! {

/// A character that may appear in a session token: an ASCII letter or digit.
pub open spec fn is_token_char(c: char) -> bool {
    ('a' <= c && c <= 'z') || ('A' <= c && c <= 'Z') || ('0' <= c && c <= '9')
}

/// A well-formed token of `len` characters.
pub open spec fn is_token_of_len(s: Seq<char>, len: nat) -> bool {
    &&& s.len() == len
    &&& forall|i: int| 0 <= i < s.len() ==> is_token_char(#[trigger] s[i])
}

/// Relies on rand's `Alphanumeric` distribution drawn through `DistString::sample_string`
/// from `OsRng`, the operating system's entropy source: the string holds `len` samples,
/// each one of the 62 ASCII letters and digits. `OsRng` panics if the entropy source
/// fails, which is the intended fatal outcome.
#[verifier::external_body]
pub(crate) fn random_token(len: usize) -> (r: String)
    ensures
        is_token_of_len(r@, len as nat),
{
    rand::distributions::DistString::sample_string(
        &rand::distributions::Alphanumeric,
        &mut rand::rngs::OsRng,
        len,
    )
}

/// The token that names one session.
pub struct SessionID(String);

impl View for SessionID {
    type V = Seq<char>;

    closed spec fn view(&self) -> Seq<char> {
        self.0@
    }
}

impl SessionID {
    pub fn new(token: String) -> (r: SessionID)
        ensures
            r@ == token@,
    {
        SessionID(token)
    }

    pub fn as_str(&self) -> (r: &str)
        ensures
            r@ == self@,
    {
        self.0.as_str()
    }

    pub fn as_string(&self) -> (r: &String)
        ensures
            r@ == self@,
    {
        &self.0
    }

    pub fn into_string(self) -> (r: String)
        ensures
            r@ == self@,
    {
        self.0
    }
}

} // verus!
