//! Geographic origin of a node: an ISO 3166-1 alpha-3 country code. This is
//! node policy, not consensus: an origin never enters a block's encoding
//! and never affects GHOSTDAG colouring or linearization.
use vstd::prelude::*;
use vstd::string::StringSliceAdditionalSpecFns;

verus! {

/// Why parsing an origin failed.
#[derive(Clone, Copy, Debug, PartialEq, Eq, Structural)]
pub enum OriginError {
    /// Not exactly three ASCII letters (ISO 3166-1 alpha-3).
    Invalid,
}

impl OriginError {
    /// A description of the error, for display.
    pub fn message(&self) -> (r: &'static str)
        ensures
            r@ == "origin must be a 3-letter ISO 3166-1 alpha-3 code (e.g. HRV)"@,
    {
        "origin must be a 3-letter ISO 3166-1 alpha-3 code (e.g. HRV)"
    }
}

/// An ISO 3166-1 alpha-3 country code (uppercase ASCII). Any three letters
/// A–Z are accepted; there is no country table at this layer.
#[derive(Clone, Copy, Debug, PartialEq, Eq, PartialOrd, Ord, Hash)]
pub struct Origin([u8; 3]);

/// `b` is an ASCII letter.
pub open spec fn is_letter(b: u8) -> bool {
    (65 <= b <= 90) || (97 <= b <= 122)
}

/// `b` in ASCII upper case.
pub open spec fn upper(b: u8) -> u8 {
    if 97 <= b <= 122 { (b - 32) as u8 } else { b }
}

/// Calls `core::str::from_utf8`. Trusted: it succeeds exactly on valid UTF-8
/// and then returns a string whose bytes are the given bytes.
#[verifier::external_body]
fn str_from_utf8(bytes: &[u8]) -> (r: Option<&str>)
    ensures
        r is Some <==> vstd::utf8::valid_utf8(bytes@),
        r matches Some(s) ==> s.spec_bytes() == bytes@,
{
    core::str::from_utf8(bytes).ok()
}

/// ASCII bytes are valid UTF-8.
proof fn lemma_ascii_valid(bytes: Seq<u8>)
    requires
        forall|i: int| 0 <= i < bytes.len() ==> #[trigger] bytes[i] < 128,
    ensures
        vstd::utf8::valid_utf8(bytes),
{
    let chars = Seq::new(bytes.len(), |i: int| bytes[i] as char);
    assert(vstd::utf8::is_ascii_chars(chars)) by {
        assert forall|i: int| 0 <= i < chars.len() implies '\0' <= #[trigger] chars[i] <= '\u{7f}' by {
            assert(chars[i] == bytes[i] as char);
        }
    }
    vstd::utf8::is_ascii_chars_encode_utf8(chars);
    vstd::utf8::encode_utf8_valid_utf8(chars);
    assert forall|i: int| 0 <= i < bytes.len() implies vstd::utf8::encode_utf8(chars)[i] == bytes[i] by {
        assert(chars[i] as u8 == vstd::utf8::encode_utf8(chars)[i]);
        assert(chars[i] == bytes[i] as char);
    }
    assert(vstd::utf8::encode_utf8(chars) =~= bytes);
}

/// ASCII bytes are the UTF-8 encoding of the characters they name.
proof fn lemma_ascii_chars(bytes: Seq<u8>)
    requires
        forall|i: int| 0 <= i < bytes.len() ==> #[trigger] bytes[i] < 128,
    ensures
        vstd::utf8::encode_utf8(Seq::new(bytes.len(), |i: int| bytes[i] as char)) == bytes,
{
    let chars = Seq::new(bytes.len(), |i: int| bytes[i] as char);
    assert(vstd::utf8::is_ascii_chars(chars)) by {
        assert forall|i: int| 0 <= i < chars.len() implies '\0' <= #[trigger] chars[i] <= '\u{7f}' by {
            assert(chars[i] == bytes[i] as char);
        }
    }
    vstd::utf8::is_ascii_chars_encode_utf8(chars);
    assert forall|i: int| 0 <= i < bytes.len() implies vstd::utf8::encode_utf8(chars)[i] == bytes[i] by {
        assert(chars[i] as u8 == vstd::utf8::encode_utf8(chars)[i]);
        assert(chars[i] == bytes[i] as char);
    }
    assert(vstd::utf8::encode_utf8(chars) =~= bytes);
}

/// Upper-case an ASCII letter.
fn to_upper(b: u8) -> (r: u8)
    ensures
        r == upper(b),
{
    if b >= 97 && b <= 122 { b - 32 } else { b }
}

impl Origin {
    #[verifier::type_invariant]
    spec fn well_formed(self) -> bool {
        forall|i: int| 0 <= i < 3 ==> 65 <= #[trigger] self.0@[i] <= 90
    }

    /// The three letters.
    pub closed spec fn letters(&self) -> Seq<u8> {
        self.0@
    }

    /// There are three letters.
    pub proof fn lemma_letters_len(&self)
        ensures
            self.letters().len() == 3,
    {
    }

    /// Parse a three-letter country code, case-insensitively.
    pub fn parse(s: &str) -> (r: Result<Origin, OriginError>)
        ensures
            ({
                let b = s.spec_bytes();
                if b.len() == 3 && is_letter(b[0]) && is_letter(b[1]) && is_letter(b[2]) {
                    r matches Ok(o) && o.letters() == seq![upper(b[0]), upper(b[1]), upper(b[2])]
                } else {
                    r == Err::<Origin, OriginError>(OriginError::Invalid)
                }
            }),
    {
        Self::from_bytes(s.as_bytes())
    }

    /// Parse a three-letter country code given as bytes, case-insensitively.
    pub fn from_bytes(bytes: &[u8]) -> (r: Result<Origin, OriginError>)
        ensures
            ({
                let b = bytes@;
                if b.len() == 3 && is_letter(b[0]) && is_letter(b[1]) && is_letter(b[2]) {
                    r matches Ok(o) && o.letters() == seq![upper(b[0]), upper(b[1]), upper(b[2])]
                } else {
                    r == Err::<Origin, OriginError>(OriginError::Invalid)
                }
            }),
    {
        if bytes.len() != 3 {
            return Err(OriginError::Invalid);
        }
        let a = to_upper(bytes[0]);
        let b = to_upper(bytes[1]);
        let c = to_upper(bytes[2]);
        if !(a >= 65 && a <= 90 && b >= 65 && b <= 90 && c >= 65 && c <= 90) {
            return Err(OriginError::Invalid);
        }
        let o = Origin([a, b, c]);
        proof {
            assert(o.0@ =~= seq![a, b, c]);
        }
        Ok(o)
    }

    /// The three uppercase ASCII letters.
    pub fn as_bytes(&self) -> (r: &[u8; 3])
        ensures
            r@ == self.letters(),
    {
        &self.0
    }

    /// The three letters as text.
    pub open spec fn text(&self) -> Seq<char> {
        Seq::new(3, |i: int| self.letters()[i] as char)
    }

    /// The code as a string.
    pub fn as_str(&self) -> (r: &str)
        ensures
            r.spec_bytes() == self.letters(),
            r@ == self.text(),
    {
        proof {
            use_type_invariant(self);
            lemma_ascii_valid(self.0@);
        }
        let r = match str_from_utf8(self.0.as_slice()) {
            Some(s) => s,
            None => "???",
        };
        proof {
            let chars = Seq::new(self.0@.len(), |i: int| self.0@[i] as char);
            lemma_ascii_chars(self.0@);
            vstd::utf8::encode_utf8_decode_utf8(chars);
            vstd::utf8::encode_utf8_decode_utf8(r@);
            assert(chars =~= self.text());
        }
        r
    }
}

} // verus!
