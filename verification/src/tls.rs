//! The receiver's identity and the sender's pin.
//!
//! TLS 1.3 is used for the key exchange only. The receiver makes a throwaway
//! self-signed certificate and shows its SHA-256 fingerprint; the sender pins
//! it. Both ends then derive the symbol-plane key from the TLS session by the
//! keying-material exporter of RFC 8446, section 7.5.

use vstd::prelude::*;
use crate::digest::{digest_of, hex_bytes, hex_decode, hex_text, is_hex, law_hex_round_trip};
use crate::digest::{hex_value, law_hexadecimal_digit_by_digit};
use crate::digest::{lemma_hex_has_no_gap, sha256, sha256_hex, HASH_LIMIT};
use crate::error::Error;
use crate::text::{join, quote, quoted};

verus! {

/// Exporter label for the symbol-plane key. Both ends export the key under
/// this label, with empty context, once the handshake is complete.
pub const SEAL_EXPORTER_LABEL: &'static str = "EXPORTER-atp-rq-sealed-v1-symbol-key";

/// Symbol-plane key length in bytes.
pub const SEAL_KEY_LEN: usize = 32;

/// SNI name; carries no trust (identity is the pinned fingerprint).
pub const SNI: &'static str = "atp-experiment";

/// A space or another character of Unicode's property White_Space.
pub open spec fn is_white_space(c: char) -> bool {
    let n = c as int;
    ||| 0x9 <= n <= 0xD
    ||| n == 0x20
    ||| n == 0x85
    ||| n == 0xA0
    ||| n == 0x1680
    ||| 0x2000 <= n <= 0x200A
    ||| n == 0x2028
    ||| n == 0x2029
    ||| n == 0x202F
    ||| n == 0x205F
    ||| n == 0x3000
}

/// What may stand between the digits of a pin.
pub open spec fn is_separator(c: char) -> bool {
    c == ':' || is_white_space(c)
}

/// `s` without colons and white space.
pub open spec fn cleaned(s: Seq<char>) -> Seq<char>
    decreases s.len(),
{
    if s.len() == 0 {
        s
    } else if is_separator(s.last()) {
        cleaned(s.drop_last())
    } else {
        cleaned(s.drop_last()).push(s.last())
    }
}

/// The digest that a pin stands for, if it stands for one.
pub open spec fn pinned(s: Seq<char>) -> Option<Seq<u8>> {
    let t = cleaned(s);
    if is_hex(t) && t.len() == 64 {
        Some(hex_bytes(t))
    } else {
        None
    }
}

/// Whether `c` may stand between the digits of a pin.
fn separates(c: char) -> (r: bool)
    ensures
        r == is_separator(c),
{
    let n: u32 = c as u32;
    c == ':' || (0x9 <= n && n <= 0xD) || n == 0x20 || n == 0x85 || n == 0xA0 || n == 0x1680 || (
    0x2000 <= n && n <= 0x200A) || n == 0x2028 || n == 0x2029 || n == 0x202F || n == 0x205F || n
        == 0x3000
}

/// `s` without colons and white space.
fn clean(s: &str) -> (r: String)
    ensures
        r@ == cleaned(s@),
{
    let mut r = String::new();
    let n: usize = s.unicode_len();
    let mut i: usize = 0;
    assert(s@.subrange(0, 0) =~= Seq::<char>::empty());
    while i < n
        invariant
            n == s@.len(),
            i <= n,
            r@ == cleaned(s@.subrange(0, i as int)),
        decreases n - i,
    {
        let c: char = s.get_char(i);
        proof {
            let t = s@.subrange(0, i + 1);
            assert(t.drop_last() =~= s@.subrange(0, i as int));
            assert(t.last() == c);
        }
        if !separates(c) {
            r.push(c);
        }
        i = i + 1;
    }
    assert(s@.subrange(0, n as int) =~= s@);
    r
}

/// Parse a pin: hexadecimal SHA-256, colons and white space tolerated.
pub fn parse_pin(s: &str) -> (r: Result<[u8; 32], Error>)
    ensures
        match pinned(s@) {
            Some(d) => r matches Ok(pin) && pin@ == d,
            None => r matches Err(Error::Transfer(m)) && m@ == if is_hex(cleaned(s@)) {
                "--pin must be a 32-byte (64 hex char) SHA-256"@
            } else {
                "--pin is not valid hex: "@ + quoted(s@)
            },
        },
{
    let t = clean(s);
    match hex_decode(t.as_str()) {
        Err(_) => Err(
            Error::Transfer(join("--pin is not valid hex: ", quote(s).as_str())),
        ),
        Ok(bytes) => {
            if bytes.len() != 32 {
                return Err(
                    Error::Transfer("--pin must be a 32-byte (64 hex char) SHA-256".to_owned()),
                );
            }
            let mut pin: [u8; 32] = [0u8; 32];
            let mut i: usize = 0;
            while i < 32
                invariant
                    i <= 32,
                    bytes@.len() == 32,
                    forall|j: int| 0 <= j < i ==> pin@[j] == bytes@[j],
                decreases 32 - i,
            {
                pin[i] = bytes[i];
                i = i + 1;
            }
            assert(pin@ =~= bytes@);
            Ok(pin)
        },
    }
}

/// Whether a certificate is the pinned one.
pub fn pin_matches(cert_der: &[u8], pin: &[u8; 32]) -> (r: bool)
    requires
        cert_der@.len() < HASH_LIMIT,
    ensures
        r == (sha256(cert_der@) == pin@),
{
    let d: [u8; 32] = digest_of(cert_der);
    let mut i: usize = 0;
    while i < 32
        invariant
            i <= 32,
            d@ == sha256(cert_der@),
            forall|j: int| 0 <= j < i ==> d@[j] == pin@[j],
        decreases 32 - i,
    {
        if d[i] != pin[i] {
            assert(d@ != pin@);
            return false;
        }
        i = i + 1;
    }
    assert(d@ =~= pin@);
    true
}

/// Self-signed identity of one receiver.
pub struct Identity {
    cert: Vec<u8>,
    key: Vec<u8>,
}

/// `name` has a letter that no IP address is written with.
pub open spec fn is_host_name(name: Seq<char>) -> bool {
    exists|i: int| 0 <= i < name.len() && 'g' <= #[trigger] name[i] <= 'z'
}

/// The entry of a certificate that says it is valid for the host `name`: the
/// tag of a DNS name, its length, its characters.
pub open spec fn dns_entry(name: Seq<char>) -> Seq<u8> {
    seq![0x82u8, name.len() as u8] + name.map_values(|c: char| c as u8)
}

/// `part` stands somewhere in `whole`.
pub open spec fn holds(whole: Seq<u8>, part: Seq<u8>) -> bool {
    exists|i: int|
        0 <= i <= whole.len() - part.len() && #[trigger] whole.subrange(i, i + part.len()) == part
}

/// Bytes of a private key of the curve P-256 in PKCS #8. Its public key is the
/// end of it.
pub const PKCS8_LEN: usize = 138;

/// Where the private number begins in it.
pub const PRIVATE_AT: usize = 36;

/// Where the private number ends in it.
pub const PRIVATE_END: usize = 68;

/// The public key, as an uncompressed point, that the curve P-256 has for a
/// private number: what the generator of keys computes with `ring`'s
/// `Seed::compute_public_key`.
pub uninterp spec fn p256_public(private: Seq<u8>) -> Seq<u8>;

/// The private number of a private key in PKCS #8.
pub open spec fn private_part(key: Seq<u8>) -> Seq<u8> {
    key.subrange(PRIVATE_AT as int, PRIVATE_END as int)
}

/// A private number of the curve P-256 and its public key in PKCS #8: a fixed
/// preamble, the number, five fixed bytes and the public key.
pub open spec fn pkcs8(private: Seq<u8>) -> Seq<u8> {
    seq![0x30u8, 0x81, 0x87, 0x02, 0x01, 0x00, 0x30, 0x13, 0x06, 0x07, 0x2a, 0x86]
        + seq![0x48u8, 0xce, 0x3d, 0x02, 0x01, 0x06, 0x08, 0x2a, 0x86, 0x48, 0xce, 0x3d]
        + seq![0x03u8, 0x01, 0x07, 0x04, 0x6d, 0x30, 0x6b, 0x02, 0x01, 0x01, 0x04, 0x20] + private
        + seq![0xa1u8, 0x44, 0x03, 0x42, 0x00] + p256_public(private)
}

/// The private key belongs to the certificate: it is a private number with its
/// public key, and that public key stands in the certificate.
pub open spec fn belongs(cert: Seq<u8>, key: Seq<u8>) -> bool {
    &&& key.len() == PKCS8_LEN
    &&& key == pkcs8(private_part(key))
    &&& holds(cert, p256_public(private_part(key)))
}

/// Calls `rcgen::generate_simple_self_signed` and hands out the certificate
/// and the private key in DER, or the text of the error.
///
/// Claimed of it: a certificate for a host name of fewer than 128 characters
/// has that name among those it is valid for. The key is one of the curve
/// P-256 in PKCS #8, with its public key; that public key is computed from the
/// private number alone, and stands byte for byte in the certificate. Which
/// key it is is chance, and whether the generator works is the machine's
/// affair: of these, and of the certificate's signature, nothing is claimed.
#[verifier::external_body]
fn self_signed(name: &str) -> (r: Result<(Vec<u8>, Vec<u8>), String>)
    ensures
        r matches Ok((cert, key)) ==> key@.len() == PKCS8_LEN && key@ == pkcs8(private_part(key@))
            && holds(cert@, p256_public(private_part(key@))),
        r matches Ok((cert, key)) ==> (is_host_name(name@) && name@.len() < 128 ==> holds(
            cert@,
            dns_entry(name@),
        )),
{
    rcgen::generate_simple_self_signed(vec![name.to_string()])
        .map(|ck| (ck.cert.der().to_vec(), ck.key_pair.serialize_der()))
        .map_err(|e| e.to_string())
}

impl Identity {
    /// The certificate in DER.
    pub closed spec fn cert(self) -> Seq<u8> {
        self.cert@
    }

    /// The private key in PKCS #8 DER.
    pub closed spec fn key(self) -> Seq<u8> {
        self.key@
    }

    /// A fresh identity: a certificate made out to [`SNI`], and the private key
    /// that belongs to it. Which key it is is chance; where none comes out,
    /// the error says so.
    pub fn generate() -> (r: Result<Self, Error>)
        ensures
            r matches Ok(id) ==> holds(id.cert(), dns_entry(SNI@)),
            r matches Ok(id) ==> belongs(id.cert(), id.key()),
            r matches Err(e) ==> {
                &&& e matches Error::Transfer(m)
                &&& exists|why: Seq<char>| m@ == "certificate generation failed: "@ + why
            },
    {
        proof {
            reveal_strlit("atp-experiment");
            assert('g' <= SNI@[1] <= 'z');
        }
        Identity::from_generated(self_signed(SNI))
    }

    /// The identity made of a certificate and its key, or the error for a
    /// generation that failed with this text.
    pub fn from_generated(made: Result<(Vec<u8>, Vec<u8>), String>) -> (r: Result<Self, Error>)
        ensures
            match made {
                Ok((cert, key)) => r matches Ok(id) && id.cert() == cert@ && id.key() == key@,
                Err(why) => r matches Err(Error::Transfer(m)) && m@
                    == "certificate generation failed: "@ + why@,
            },
    {
        match made {
            Ok((cert, key)) => Ok(Identity { cert, key }),
            Err(why) => Err(
                Error::Transfer(join("certificate generation failed: ", why.as_str())),
            ),
        }
    }

    /// The certificate in DER.
    pub fn cert_der(&self) -> (r: &[u8])
        ensures
            r@ == self.cert(),
    {
        self.cert.as_slice()
    }

    /// The private key in PKCS #8 DER.
    pub fn key_der(&self) -> (r: &[u8])
        ensures
            r@ == self.key(),
    {
        self.key.as_slice()
    }

    /// Hexadecimal SHA-256 of the certificate: what the sender pins.
    pub fn fingerprint(&self) -> (r: String)
        requires
            self.cert().len() < HASH_LIMIT,
        ensures
            r@ == hex_text(sha256(self.cert())),
    {
        sha256_hex(self.cert.as_slice())
    }
}

/// The fingerprint of a certificate, given as a pin, stands for the digest of
/// that certificate.
pub proof fn law_fingerprint_is_a_pin(digest: Seq<u8>)
    requires
        digest.len() == 32,
    ensures
        pinned(hex_text(digest)) == Some(digest),
{
    law_hex_round_trip(digest);
    lemma_hex_has_no_gap(digest);
    lemma_clean_text(hex_text(digest));
}

proof fn lemma_clean_text(s: Seq<char>)
    requires
        forall|i: int| 0 <= i < s.len() ==> !is_separator(#[trigger] s[i]),
    ensures
        cleaned(s) == s,
    decreases s.len(),
{
    if s.len() > 0 {
        assert(forall|i: int|
            0 <= i < s.len() - 1 ==> #[trigger] s.drop_last()[i] == s[i]);
        lemma_clean_text(s.drop_last());
        assert(s.drop_last().push(s.last()) =~= s);
    }
}

/// Putting a colon or white space anywhere into a pin does not change what it
/// stands for.
pub proof fn law_separators_do_not_matter(a: Seq<char>, c: char, b: Seq<char>)
    requires
        is_separator(c),
    ensures
        pinned(a.push(c) + b) == pinned(a + b),
{
    lemma_clean_join(a, b);
    lemma_clean_join(a.push(c), b);
    assert(a.push(c).drop_last() =~= a);
}

proof fn lemma_clean_join(a: Seq<char>, b: Seq<char>)
    ensures
        cleaned(a + b) == cleaned(a) + cleaned(b),
    decreases b.len(),
{
    if b.len() == 0 {
        assert(a + b =~= a);
        assert(cleaned(a) + cleaned(b) =~= cleaned(a));
    } else {
        lemma_clean_join(a, b.drop_last());
        assert((a + b).drop_last() =~= a + b.drop_last());
        assert((a + b).last() == b.last());
        if !is_separator(b.last()) {
            assert((cleaned(a) + cleaned(b.drop_last())).push(b.last()) =~= cleaned(a) + cleaned(
                b.drop_last(),
            ).push(b.last()));
        }
    }
}

/// Cleaning a pin leaves out colons and white space, and nothing else: of one
/// character more, exactly that is left which is neither. A hexadecimal digit
/// is neither.
pub proof fn law_only_separators_are_left_out(s: Seq<char>, c: char)
    ensures
        cleaned(Seq::<char>::empty()).len() == 0,
        c == ':' || c == ' ' || c == '\t' || c == '\n' || c == '\r' ==> cleaned(s.push(c))
            == cleaned(s),
        33 <= c as int <= 126 && c != ':' ==> cleaned(s.push(c)) == cleaned(s).push(c),
        cleaned(s.push(c)) == cleaned(s) || cleaned(s.push(c)) == cleaned(s).push(c),
{
    assert(s.push(c).drop_last() =~= s);
}

/// A pin stands for a digest exactly where 64 hexadecimal digits are left of
/// it, upper or lower case; the digest is then the one whose text has the same
/// digits.
pub proof fn law_a_pin_has_64_digits(s: Seq<char>)
    ensures
        pinned(s) is Some <==> cleaned(s).len() == 64 && forall|i: int|
            0 <= i < 64 ==> hex_value(#[trigger] cleaned(s)[i]) is Some,
        pinned(s) matches Some(d) ==> {
            &&& d.len() == 32
            &&& forall|i: int|
                0 <= i < 64 ==> hex_value(#[trigger] hex_text(d)[i]) == hex_value(cleaned(s)[i])
        },
{
    let t = cleaned(s);
    if let Some(d) = pinned(s) {
        law_hex_round_trip(d);
        assert forall|i: int| 0 <= i < 64 implies hex_value(#[trigger] hex_text(d)[i])
            == hex_value(t[i]) by {
            let j = i / 2;
            law_hexadecimal_digit_by_digit(d, j, t[i]);
            law_hexadecimal_digit_by_digit(d, j, t[2 * j]);
            law_hexadecimal_digit_by_digit(d, j, t[2 * j + 1]);
            assert(d[j] == (16 * hex_value(t[2 * j])->0 + hex_value(t[2 * j + 1])->0) as u8);
            assert(i == 2 * j || i == 2 * j + 1);
        }
    }
}

/// The white space that may stand in a pin is Unicode's.
pub proof fn law_white_space_is_unicodes(s: Seq<char>, c: char)
    ensures
        cleaned(s.push(c)) == cleaned(s) <==> {
            let n = c as int;
            ||| c == ':' || c == ' ' || n == 0x85 || n == 0xA0 || n == 0x1680
            ||| 9 <= n <= 13 || 0x2000 <= n <= 0x200A
            ||| n == 0x2028 || n == 0x2029 || n == 0x202F || n == 0x205F || n == 0x3000
        },
{
    assert(s.push(c).drop_last() =~= s);
    assert(cleaned(s).push(c).len() == cleaned(s).len() + 1);
}

} // verus!
