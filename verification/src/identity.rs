//! Signed anonymous player identity.
//!
//! A leaderboard needs to know that two submissions came from the same person,
//! and not who that person is. So there are no accounts: just an opaque random
//! id that is signed, so that it cannot be forged or swapped for another.
//!
//! The cookie is `<id>.<mac>`, where mac is the HMAC-SHA256 of the id, cut to
//! its first bytes.

use crate::text::{digits_value, digit_value, begins, char_at, chars_of, find_char, lemma_char_at, same, slice_from, string_of, trim, trimmed};
use hmac::{Hmac, KeyInit, Mac};
use sha2::Sha256;
use vstd::prelude::*;
use vstd::slice::slice_subrange;
use vstd::string::StringExecFns;
use vstd::utf8::encode_utf8;

verus! {

/// Bytes of an id.
pub const ID_BYTES: usize = 16;

/// Bytes of a signature that are kept.
pub const MAC_BYTES: usize = 16;

/// Bytes that a stored secret has at least.
pub const SECRET_BYTES: usize = 32;

/// The secret that identities are signed with.
pub struct Identity {
    secret: Vec<u8>,
}

/// The HMAC-SHA256 of a message under a key.
pub uninterp spec fn hmac_of(key: Seq<u8>, message: Seq<u8>) -> Seq<u8>;

/// `hmac::Hmac<sha2::Sha256>`: `new_from_slice` takes a key of any length,
/// `update` the message, and `finalize` gives the code of the two, which is as
/// long as a SHA-256 digest.
#[verifier::external_body]
fn hmac_sha256(key: &[u8], message: &[u8]) -> (r: Vec<u8>)
    ensures
        r@ == hmac_of(key@, message@),
        r@.len() == 32,
{
    let mut mac = Hmac::<Sha256>::new_from_slice(key).expect("hmac accepts any key size");
    mac.update(message);
    mac.finalize().into_bytes().to_vec()
}

/// A digit in base sixteen.
pub open spec fn hex_digit(d: u8) -> char {
    if d < 10 {
        (48 + d) as char
    } else {
        (87 + d) as char
    }
}

/// Bytes in base sixteen, two digits each.
pub open spec fn hex_of(bytes: Seq<u8>) -> Seq<char>
    decreases bytes.len(),
{
    if bytes.len() == 0 {
        seq![]
    } else {
        let b = bytes.last();
        hex_of(bytes.drop_last()).push(hex_digit(b / 16)).push(hex_digit(b % 16))
    }
}

fn digit(d: u8) -> (r: char)
    requires
        d < 16,
    ensures
        r == hex_digit(d),
{
    if d < 10 {
        (48 + d) as char
    } else {
        (87 + d) as char
    }
}

fn hex(bytes: &[u8]) -> (r: Vec<char>)
    ensures
        r@ == hex_of(bytes@),
{
    let mut out: Vec<char> = Vec::new();
    let n: usize = bytes.len();
    let mut i: usize = 0;
    assert(bytes@.take(0) =~= Seq::<u8>::empty());
    while i < n
        invariant
            n == bytes@.len(),
            i <= n,
            out@ == hex_of(bytes@.take(i as int)),
        decreases n - i,
    {
        assert(bytes@.take(i + 1).drop_last() =~= bytes@.take(i as int));
        let b: u8 = bytes[i];
        out.push(digit(b / 16));
        out.push(digit(b % 16));
        i = i + 1;
    }
    assert(bytes@.take(n as int) =~= bytes@);
    out
}

/// The signature of an id.
pub open spec fn signature(secret: Seq<u8>, id: Seq<char>) -> Seq<char> {
    hex_of(hmac_of(secret, encode_utf8(id)).take(MAC_BYTES as int))
}

/// The cookie of an id.
pub open spec fn signed(secret: Seq<u8>, id: Seq<char>) -> Seq<char> {
    id + "."@ + signature(secret, id)
}

pub open spec fn is_hex_digit(c: char) -> bool {
    '0' <= c <= '9' || 'a' <= c <= 'f' || 'A' <= c <= 'F'
}

/// A digit as it is written here.
pub open spec fn is_lower_hex_digit(c: char) -> bool {
    '0' <= c <= '9' || 'a' <= c <= 'f'
}

/// An id as it is written.
pub open spec fn is_id(id: Seq<char>) -> bool {
    &&& id.len() == ID_BYTES * 2
    &&& forall|i: int| 0 <= i < id.len() ==> is_hex_digit(#[trigger] id[i])
}

/// The id that a cookie names, if its signature holds.
pub open spec fn verified(secret: Seq<u8>, value: Seq<char>) -> Option<Seq<char>> {
    match char_at(value, '.', 0) {
        Some(i) => if is_id(value.take(i)) && value.skip(i + 1) == signature(
            secret,
            value.take(i),
        ) {
            Some(value.take(i))
        } else {
            None
        },
        None => None,
    }
}

fn code_of(c: char) -> (r: u32)
    ensures
        r as int == c as int,
{
    c as u32
}

/// Whether two texts are the same, without stopping at the first difference:
/// how long it takes says nothing of how much of a guess was right.
fn ct_eq(a: &[char], b: &[char]) -> (r: bool)
    ensures
        r == (a@ == b@),
{
    let n: usize = a.len();
    if n != b.len() {
        return false;
    }
    let mut acc: u32 = 0;
    let mut i: usize = 0;
    while i < n
        invariant
            n == a@.len(),
            n == b@.len(),
            i <= n,
            acc == 0 ==> forall|k: int| 0 <= k < i ==> a@[k] == b@[k],
            acc != 0 ==> a@ != b@,
        decreases n - i,
    {
        let c: char = a[i];
        let d: char = b[i];
        let x: u32 = code_of(c);
        let y: u32 = code_of(d);
        let ghost before = acc;
        acc = acc | (x ^ y);
        proof {
            assert((before | (x ^ y)) == 0 <==> before == 0 && x == y) by (bit_vector);
            if acc != 0 && before == 0 {
                assert(a@[i as int] != b@[i as int]);
            }
        }
        i = i + 1;
    }
    if acc == 0 {
        assert(a@ =~= b@);
    }
    acc == 0
}

fn hex_digits_only(s: &[char]) -> (r: bool)
    ensures
        r == forall|i: int| 0 <= i < s@.len() ==> is_hex_digit(#[trigger] s@[i]),
{
    let n: usize = s.len();
    let mut i: usize = 0;
    while i < n
        invariant
            n == s@.len(),
            i <= n,
            forall|k: int| 0 <= k < i ==> is_hex_digit(#[trigger] s@[k]),
        decreases n - i,
    {
        let c: char = s[i];
        if !(('0' <= c && c <= '9') || ('a' <= c && c <= 'f') || ('A' <= c && c <= 'F')) {
            assert(!is_hex_digit(s@[i as int]));
            return false;
        }
        i = i + 1;
    }
    true
}

/// The value of our cookie, in a `Cookie` header from place `i` on.
pub open spec fn cookie_value(header: Seq<char>, i: int) -> Option<Seq<char>>
    decreases header.len() - i,
    via cookie_value_decreases
{
    let end = match char_at(header, ';', i) {
        Some(e) => e,
        None => header.len() as int,
    };
    let part = trimmed(header.subrange(i, end));
    match char_at(part, '=', 0) {
        Some(k) => if part.take(k) == "wr_id"@ {
            Some(part.skip(k + 1))
        } else if end >= header.len() {
            None
        } else {
            cookie_value(header, end + 1)
        },
        None => if end >= header.len() {
            None
        } else {
            cookie_value(header, end + 1)
        },
    }
}

#[via_fn]
proof fn cookie_value_decreases(header: Seq<char>, i: int) {
    if i >= 0 {
        lemma_char_at(header, ';', i);
    }
}

impl Identity {
    pub closed spec fn key(&self) -> Seq<u8> {
        self.secret@
    }

    pub fn from_secret(secret: Vec<u8>) -> (r: Identity)
        ensures
            r.key() == secret@,
    {
        Identity { secret }
    }

    /// Take the stored secret, or the fresh one where none is stored or it is
    /// too short. The result also says whether the fresh one has to be stored.
    ///
    /// Keeping it matters: with a new secret at each start every player would
    /// be someone else.
    pub fn load_or_create(stored: Option<Vec<u8>>, fresh: Vec<u8>) -> (r: (Identity, bool))
        ensures
            match stored {
                Some(s) => if s@.len() >= SECRET_BYTES {
                    r.0.key() == s@ && !r.1
                } else {
                    r.0.key() == fresh@ && r.1
                },
                None => r.0.key() == fresh@ && r.1,
            },
    {
        match stored {
            Some(s) => if s.len() >= SECRET_BYTES {
                (Identity { secret: s }, false)
            } else {
                (Identity { secret: fresh }, true)
            },
            None => (Identity { secret: fresh }, true),
        }
    }

    fn sign(&self, id: &str) -> (r: Vec<char>)
        ensures
            r@ == signature(self.key(), id@),
            r@.len() == MAC_BYTES * 2,
    {
        let mac = hmac_sha256(self.secret.as_slice(), id.as_bytes());
        let part = slice_subrange(mac.as_slice(), 0, MAC_BYTES);
        assert(part@ =~= mac@.take(MAC_BYTES as int));
        proof {
            lemma_hex(part@);
        }
        hex(part)
    }

    /// Mint a signed identity out of random bytes, as the value of a cookie: an
    /// id and its signature, with a dot between them.
    pub fn issue(&self, entropy: &[u8]) -> (r: String)
        requires
            entropy@.len() == ID_BYTES,
        ensures
            r@ == signed(self.key(), hex_of(entropy@)),
            r@.len() == ID_BYTES * 2 + 1 + MAC_BYTES * 2,
            r@.take(ID_BYTES * 2) == hex_of(entropy@),
            forall|i: int| 0 <= i < ID_BYTES * 2 ==> is_lower_hex_digit(#[trigger] r@[i]),
            r@[ID_BYTES * 2] == '.',
            verified(self.key(), r@) == Some(r@.take(ID_BYTES * 2)),
    {
        proof {
            reveal_strlit(".");
            lemma_hex(entropy@);
            law_issued_is_accepted(self.key(), entropy@);
        }
        let id = hex(entropy);
        let text = string_of(id.as_slice(), 0, id.len());
        assert(text@ =~= id@);
        let mac = self.sign(text.as_str());
        let tail = string_of(mac.as_slice(), 0, mac.len());
        assert(tail@ =~= mac@);
        let mut out = text;
        out.append(".");
        out.append(tail.as_str());
        assert(out@.take(ID_BYTES * 2) =~= id@);
        assert forall|i: int| 0 <= i < ID_BYTES * 2 implies is_lower_hex_digit(
            #[trigger] out@[i],
        ) by {
            assert(out@[i] == id@[i]);
        }
        out
    }

    /// The player that a cookie names, if the signature holds.
    pub fn verify(&self, value: &str) -> (r: Option<String>)
        ensures
            match r {
                Some(id) => verified(self.key(), value@) == Some(id@),
                None => verified(self.key(), value@) is None,
            },
    {
        let chars = chars_of(value);
        let i: usize = match find_char(chars.as_slice(), '.', 0) {
            Some(i) => i,
            None => {
                return None;
            },
        };
        let id = slice_subrange(chars.as_slice(), 0, i);
        assert(id@ =~= value@.take(i as int));
        let n: usize = chars.len();
        let mac = slice_from(chars.as_slice(), i + 1);
        if id.len() != ID_BYTES * 2 || !hex_digits_only(id) {
            return None;
        }
        let text = string_of(id, 0, id.len());
        assert(text@ =~= id@);
        let expect = self.sign(text.as_str());
        if ct_eq(expect.as_slice(), mac) {
            Some(text)
        } else {
            None
        }
    }

    /// The `Set-Cookie` header for an identity.
    pub fn cookie_header(value: &str, secure: bool) -> (r: String)
        ensures
            r@ == "wr_id="@ + value@ + "; Path=/; Max-Age=31536000; HttpOnly; SameSite=Lax"@ + (
            if secure {
                "; Secure"@
            } else {
                seq![]
            }),
    {
        let mut s = String::from_str("wr_id=");
        s.append(value);
        s.append("; Path=/; Max-Age=31536000; HttpOnly; SameSite=Lax");
        if secure {
            s.append("; Secure");
        } else {
            assert(s@ =~= s@ + Seq::<char>::empty());
        }
        s
    }

    /// Find our cookie in a `Cookie` header.
    pub fn from_header(header: &str) -> (r: Option<String>)
        ensures
            match r {
                Some(v) => cookie_value(header@, 0) == Some(v@),
                None => cookie_value(header@, 0) is None,
            },
    {
        let chars = chars_of(header);
        let s: &[char] = chars.as_slice();
        let name = chars_of("wr_id");
        let n: usize = s.len();
        let mut i: usize = 0;
        loop
            invariant
                n == s@.len(),
                s@ == header@,
                name@ == "wr_id"@,
                i <= n,
                cookie_value(s@, 0) == cookie_value(s@, i as int),
            decreases n - i,
        {
            proof {
                lemma_char_at(s@, ';', i as int);
            }
            let end: usize = match find_char(s, ';', i) {
                Some(e) => e,
                None => n,
            };
            let part = trim(slice_subrange(s, i, end));
            if let Some(k) = find_char(part, '=', 0) {
                let key = slice_subrange(part, 0, k);
                assert(key@ =~= part@.take(k as int));
                if same(key, name.as_slice()) {
                    let m: usize = part.len();
                    let v = slice_from(part, k + 1);
                    let text = string_of(v, 0, v.len());
                    assert(text@ =~= v@);
                    return Some(text);
                }
            }
            if end >= n {
                return None;
            }
            i = end + 1;
        }
    }
}

// ---------------------------------------------------------------------------
// Laws
// ---------------------------------------------------------------------------

proof fn lemma_hex(bytes: Seq<u8>)
    ensures
        hex_of(bytes).len() == 2 * bytes.len(),
        forall|i: int|
            0 <= i < hex_of(bytes).len() ==> is_lower_hex_digit(#[trigger] hex_of(bytes)[i]),
    decreases bytes.len(),
{
    if bytes.len() > 0 {
        lemma_hex(bytes.drop_last());
        let rest = hex_of(bytes.drop_last());
        let all = hex_of(bytes);
        assert forall|i: int| 0 <= i < all.len() implies is_lower_hex_digit(#[trigger] all[i]) by {
            if i < rest.len() {
                assert(all[i] == rest[i]);
            }
        }
    }
}

/// What is issued is accepted, and names the same player every time.
pub proof fn law_issued_is_accepted(secret: Seq<u8>, entropy: Seq<u8>)
    requires
        entropy.len() == ID_BYTES,
    ensures
        verified(secret, signed(secret, hex_of(entropy))) == Some(hex_of(entropy)),
{
    let id = hex_of(entropy);
    let value = signed(secret, id);
    reveal_strlit(".");
    lemma_hex(entropy);
    lemma_char_at(value, '.', 0);
    assert(value[id.len() as int] == '.');
    assert forall|i: int| 0 <= i < id.len() implies value[i] != '.' by {
        assert(value[i] == id[i]);
        assert(is_lower_hex_digit(id[i]));
    }
    assert(value.take(id.len() as int) =~= id);
    assert(value.skip(id.len() as int + 1) =~= signature(secret, id));
}

/// What is accepted is exactly what the id is signed with: an id with any
/// other signature is refused, and so is a signature with any other id.
pub proof fn law_accepted_is_signed(secret: Seq<u8>, value: Seq<char>)
    requires
        verified(secret, value) is Some,
    ensures
        is_id(verified(secret, value)->0),
        value == signed(secret, verified(secret, value)->0),
{
    reveal_strlit(".");
    lemma_char_at(value, '.', 0);
    let i = char_at(value, '.', 0)->0;
    assert(value =~= value.take(i) + "."@ + value.skip(i + 1));
}

/// Bytes are spelled with two digits each, the higher one first.
pub proof fn law_bytes_are_spelled_in_hex(bytes: Seq<u8>, b: u8)
    ensures
        hex_of(bytes).len() == 2 * bytes.len(),
        hex_of(bytes.push(b)) == hex_of(bytes) + hex_of(seq![b]),
        digits_value(hex_of(seq![b]), 16) == Some(b as int),
{
    lemma_hex(bytes);
    assert(bytes.push(b).drop_last() =~= bytes);
    let none = Seq::<u8>::empty();
    assert(seq![b].drop_last() =~= none);
    assert(hex_of(none) =~= Seq::<char>::empty());
    let two = seq![hex_digit(b / 16), hex_digit(b % 16)];
    assert(hex_of(seq![b]) =~= two);
    let one = two.drop_last();
    assert(one =~= seq![hex_digit(b / 16)]);
    assert(one.drop_last() =~= Seq::<char>::empty());
    assert(digits_value(one.drop_last(), 16) == Some(0int));
    assert(digit_value(hex_digit(b / 16), 16) == Some((b / 16) as int));
    assert(digit_value(hex_digit(b % 16), 16) == Some((b % 16) as int));
    assert(one.last() == hex_digit(b / 16));
    assert(two.last() == hex_digit(b % 16));
    assert(digits_value(one, 16) == Some((b / 16) as int));
}

/// An id has thirty-two digits and its signature as many, which spell the first
/// sixteen bytes of the code over the id; a dot stands between.
pub proof fn law_cookies_have_an_id_and_a_signature(secret: Seq<u8>, value: Seq<char>)
    requires
        verified(secret, value) is Some,
        hmac_of(secret, encode_utf8(verified(secret, value)->0)).len() >= 16,
    ensures
        value.len() == 65,
        value[32] == '.',
        verified(secret, value) == Some(value.take(32)),
        value.skip(33) == hex_of(hmac_of(secret, encode_utf8(value.take(32))).take(16)),
        forall|i: int|
            0 <= i < 32 ==> ('0' <= #[trigger] value[i] <= '9' || 'a' <= value[i] <= 'f' || 'A'
                <= value[i] <= 'F'),
{
    lemma_char_at(value, '.', 0);
    let i = char_at(value, '.', 0)->0;
    let id = value.take(i);
    lemma_hex(hmac_of(secret, encode_utf8(id)).take(16));
    assert(id.len() == 32);
    assert(value.skip(i + 1).len() == 32);
    assert forall|k: int| 0 <= k < 32 implies ('0' <= #[trigger] value[k] <= '9' || 'a' <= value[k]
        <= 'f' || 'A' <= value[k] <= 'F') by {
        assert(id[k] == value[k]);
        assert(is_hex_digit(id[k]));
    }
}

/// A value with no dot, with an id that is too short or too long, or with a
/// signature that is not its own names nobody.
pub proof fn law_forged_cookies_are_refused(secret: Seq<u8>, value: Seq<char>, i: int)
    requires
        0 <= i < value.len(),
        value[i] == '.',
        forall|k: int| 0 <= k < i ==> #[trigger] value[k] != '.',
    ensures
        verified(secret, value) is Some ==> i == 32,
        value.skip(i + 1) != signature(secret, value.take(i)) ==> verified(secret, value) is None,
        i == 32 && value.skip(33) == signature(secret, value.take(32)) && (forall|k: int|
            0 <= k < 32 ==> ('0' <= #[trigger] value[k] <= '9' || 'a' <= value[k] <= 'f' || 'A'
                <= value[k] <= 'F')) ==> verified(secret, value) == Some(value.take(32)),
        verified(secret, value.take(i)) is None,
{
    lemma_char_at(value, '.', 0);
    assert(char_at(value, '.', 0) == Some(i));
    let front = value.take(i);
    lemma_char_at(front, '.', 0);
    assert(char_at(front, '.', 0) is None) by {
        if char_at(front, '.', 0) is Some {
            let k = char_at(front, '.', 0)->0;
            assert(front[k] == value[k]);
        }
    }
    if i == 32 && (forall|k: int|
        0 <= k < 32 ==> ('0' <= #[trigger] value[k] <= '9' || 'a' <= value[k] <= 'f' || 'A'
            <= value[k] <= 'F')) {
        assert forall|k: int| 0 <= k < front.len() implies is_hex_digit(#[trigger] front[k]) by {
            assert(front[k] == value[k]);
        }
    }
}

/// The cookie is found by its name, wherever it stands among others that are
/// set apart by semicolons, and with white space around or not.
pub proof fn law_the_cookie_is_found(header: Seq<char>, i: int, end: int, value: Seq<char>)
    requires
        0 <= i <= end <= header.len(),
        end < header.len() ==> header[end] == ';',
        forall|k: int| i <= k < end ==> #[trigger] header[k] != ';',
    ensures
        trimmed(header.subrange(i, end)) == "wr_id="@ + value ==> cookie_value(header, i) == Some(
            value,
        ),
        !begins(trimmed(header.subrange(i, end)), "wr_id="@) ==> cookie_value(header, i) == (if end
            < header.len() {
            cookie_value(header, end + 1)
        } else {
            None
        }),
{
    reveal_strlit("wr_id=");
    reveal_strlit("wr_id");
    lemma_char_at(header, ';', i);
    assert(char_at(header, ';', i) == (if end < header.len() {
        Some(end)
    } else {
        None
    }));
    let part = trimmed(header.subrange(i, end));
    let name = "wr_id"@;
    lemma_char_at(part, '=', 0);
    if part == "wr_id="@ + value {
        assert(part[5] == '=');
        assert(part[0] == 'w' && part[1] == 'r' && part[2] == '_' && part[3] == 'i' && part[4] == 'd');
        assert(char_at(part, '=', 0) == Some(5int));
        assert(part.take(5) =~= name);
        assert(part.skip(6) =~= value);
    }
    if !begins(part, "wr_id="@) && char_at(part, '=', 0) is Some {
        let k = char_at(part, '=', 0)->0;
        if part.take(k) == name {
            assert(name.len() == 5);
            assert(k == 5);
            assert forall|j: int| 0 <= j < 6 implies part[j] == #[trigger] "wr_id="@[j] by {
                if j < 5 {
                    assert(part.take(k)[j] == part[j]);
                    assert(name[j] == "wr_id="@[j]);
                }
            }
            assert(part.subrange(0, 6) =~= "wr_id="@);
        }
    }
}
} // verus!
