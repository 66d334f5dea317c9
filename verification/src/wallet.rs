//! The key record store: named keypairs, their lookup by name or by the
//! base64 form of the public key, and their display. File persistence is
//! not done here; callers move a wallet's bytes in and out themselves.

use vstd::prelude::*;
use vstd::string::StrSliceExecFns;
use vstd::string::StringExecFns;
use vstd::utf8::{encode_utf8, encode_utf8_decode_utf8, encode_utf8_valid_utf8, valid_utf8};

use crate::crypto::{gen_keypair, signature_of, signature_valid};
use crate::encoding::{
    bytes_field, bytes_field_at, decode_bytes_field, encode_bytes_field, lemma_bytes_field_frame,
};
use crate::error::SimplesResult;
use crate::keys::{copy_bytes, PublicKey, SecretKey, PUBLIC_KEY_LEN, SECRET_KEY_LEN};

verus! {

/// The base64 form, standard alphabet with padding, of a byte string: a
/// function of the bytes alone.
pub uninterp spec fn base64_of(b: Seq<u8>) -> Seq<char>;

/// Relies on rustc_serialize's `ToBase64::to_base64` with the `STANDARD`
/// configuration (standard alphabet, padding, no line wraps), which encodes
/// the bytes alone.
#[verifier::external_body]
fn to_base64(b: &Vec<u8>) -> (r: String)
    ensures
        r@ == base64_of(b@),
{
    rustc_serialize::base64::ToBase64::to_base64(&b[..], rustc_serialize::base64::STANDARD)
}

/// One stored record: a name, a public key, and — for keys this wallet can
/// spend from — the matching secret key. A record holding only a public key
/// leaves the secret key empty.
#[derive(Debug)]
pub struct WalletKeypair {
    pub public_key: Vec<u8>,
    pub secret_key: Vec<u8>,
    pub name: String,
}

/// Ghost image of a `WalletKeypair`.
#[verifier::ext_equal]
pub struct WalletKeypairV {
    pub public_key: Seq<u8>,
    pub secret_key: Seq<u8>,
    pub name: Seq<char>,
}

impl View for WalletKeypair {
    type V = WalletKeypairV;

    open spec fn view(&self) -> WalletKeypairV {
        WalletKeypairV {
            public_key: self.public_key@,
            secret_key: self.secret_key@,
            name: self.name@,
        }
    }
}

/// A fresh copy of a record, with the same contents.
fn clone_keypair(k: &WalletKeypair) -> (r: WalletKeypair)
    ensures
        r@ == k@,
{
    WalletKeypair {
        public_key: copy_bytes(&k.public_key),
        secret_key: copy_bytes(&k.secret_key),
        name: k.name.clone(),
    }
}

impl WalletKeypair {
    /// The record's public key as a checked key value; rejects a malformed
    /// length.
    pub fn decode_public_key(&self) -> (r: SimplesResult<PublicKey>)
        ensures
            self@.public_key.len() == PUBLIC_KEY_LEN ==> (r matches Ok(pk) && pk@
                == self@.public_key && pk.wf()),
            self@.public_key.len() != PUBLIC_KEY_LEN ==> (r matches Err(e) && e is KeyDecodeError),
    {
        PublicKey::from_bytes(&self.public_key)
    }

    /// The record's secret key as a checked key value; rejects a malformed
    /// length.
    pub fn decode_secret_key(&self) -> (r: SimplesResult<SecretKey>)
        ensures
            self@.secret_key.len() == SECRET_KEY_LEN ==> (r matches Ok(sk) && sk@
                == self@.secret_key && sk.wf()),
            self@.secret_key.len() != SECRET_KEY_LEN ==> (r matches Err(e) && e is KeyDecodeError),
    {
        SecretKey::from_bytes(&self.secret_key)
    }
}

/// One record, displayed over several lines: a bracketed base64 header,
/// then the name, the public key and the secret key, each on its own line.
pub fn pretty_format(wallet_key: &WalletKeypair) -> (r: String)
    ensures
        r@ == "[ "@ + base64_of(wallet_key@.public_key) + " ]\n name: "@ + wallet_key@.name
            + "\n   pk: "@ + base64_of(wallet_key@.public_key) + "\n   sk: "@ + base64_of(
            wallet_key@.secret_key,
        ) + "\n"@,
{
    let pk64 = to_base64(&wallet_key.public_key);
    let sk64 = to_base64(&wallet_key.secret_key);
    let mut s = String::new();
    s.append("[ ");
    s.append(pk64.as_str());
    s.append(" ]\n name: ");
    s.append(wallet_key.name.as_str());
    s.append("\n   pk: ");
    s.append(pk64.as_str());
    s.append("\n   sk: ");
    s.append(sk64.as_str());
    s.append("\n");
    proof {
        assert(s@ =~= "[ "@ + base64_of(wallet_key@.public_key) + " ]\n name: "@
            + wallet_key@.name + "\n   pk: "@ + base64_of(wallet_key@.public_key) + "\n   sk: "@
            + base64_of(wallet_key@.secret_key) + "\n"@);
    }
    s
}

/// Whether a record answers a search string: the string is a prefix of the
/// record's name, or of the base64 form of its public key.
pub open spec fn matches_search(k: WalletKeypairV, q: Seq<char>) -> bool {
    q.is_prefix_of(k.name) || q.is_prefix_of(base64_of(k.public_key))
}

/// Whether `prefix` starts `s`, character by character.
fn str_starts_with(s: &str, prefix: &str) -> (r: bool)
    ensures
        r == prefix@.is_prefix_of(s@),
{
    let n = prefix.unicode_len();
    let m = s.unicode_len();
    if n > m {
        return false;
    }
    let mut i: usize = 0;
    while i < n
        invariant
            i <= n,
            n == prefix@.len(),
            m == s@.len(),
            n <= m,
            forall|j: int| 0 <= j < i ==> s@[j] == prefix@[j],
        decreases n - i,
    {
        if s.get_char(i) != prefix.get_char(i) {
            proof {
                assert(s@.subrange(0, n as int)[i as int] == s@[i as int]);
            }
            return false;
        }
        i = i + 1;
    }
    proof {
        assert(prefix@ =~= s@.subrange(0, n as int));
    }
    true
}

/// The stored records, in insertion order.
#[derive(Debug)]
pub struct Wallet {
    pub keypairs: Vec<WalletKeypair>,
}

impl View for Wallet {
    type V = Seq<WalletKeypairV>;

    open spec fn view(&self) -> Seq<WalletKeypairV> {
        self.keypairs@.map_values(|k: WalletKeypair| k@)
    }
}

impl Wallet {
    /// An empty wallet.
    pub fn new() -> (r: Wallet)
        ensures
            r@.len() == 0,
    {
        Wallet { keypairs: Vec::new() }
    }

    /// Appends a record holding both halves of a keypair under `name`.
    pub fn add_key(&mut self, name: &str, public_key: &PublicKey, secret_key: &SecretKey)
        ensures
            final(self)@ == old(self)@.push(
                (WalletKeypairV { public_key: public_key@, secret_key: secret_key@, name: name@ }),
            ),
    {
        let key = WalletKeypair {
            public_key: copy_bytes(&public_key.bytes),
            secret_key: copy_bytes(&secret_key.bytes),
            name: name.to_owned(),
        };
        self.keypairs.push(key);
        proof {
            assert(self@ =~= old(self)@.push(
                (WalletKeypairV { public_key: public_key@, secret_key: secret_key@, name: name@ }),
            ));
        }
    }

    /// Appends a watch-only record: a public key under `name`, with no
    /// secret key.
    pub fn add_public_key(&mut self, name: &str, public_key: &PublicKey)
        ensures
            final(self)@ == old(self)@.push(
                (WalletKeypairV {
                    public_key: public_key@,
                    secret_key: Seq::<u8>::empty(),
                    name: name@,
                }),
            ),
    {
        let key = WalletKeypair {
            public_key: copy_bytes(&public_key.bytes),
            secret_key: Vec::new(),
            name: name.to_owned(),
        };
        self.keypairs.push(key);
        proof {
            assert(self@ =~= old(self)@.push(
                (WalletKeypairV {
                    public_key: public_key@,
                    secret_key: Seq::<u8>::empty(),
                    name: name@,
                }),
            ));
        }
    }

    /// Draws a fresh keypair, stores it under `name`, and returns a copy of
    /// the new record. Whatever pair is drawn, it is a valid signing pair:
    /// the secret key's signature over any message verifies under the
    /// public key.
    pub fn generate_new_key(&mut self, name: &str) -> (r: WalletKeypair)
        ensures
            final(self)@ == old(self)@.push(r@),
            r@.name == name@,
            r@.public_key.len() == PUBLIC_KEY_LEN,
            r@.secret_key.len() == SECRET_KEY_LEN,
            forall|m: Seq<u8>| #[trigger] signature_valid(
                r@.public_key,
                m,
                signature_of(r@.secret_key, m),
            ),
    {
        let (pk, sk) = gen_keypair();
        let key = WalletKeypair {
            public_key: pk.bytes,
            secret_key: sk.bytes,
            name: name.to_owned(),
        };
        let copy = clone_keypair(&key);
        self.keypairs.push(key);
        proof {
            assert(self@ =~= old(self)@.push(copy@));
        }
        copy
    }

    /// Returns copies of the records that answer the search string — a
    /// prefix of the name or of the public key's base64 form — in stored
    /// order.
    pub fn search_keys(&self, search_str: &str) -> (r: Vec<WalletKeypair>)
        ensures
            r@.map_values(|k: WalletKeypair| k@) == self@.filter(
                |k: WalletKeypairV| matches_search(k, search_str@),
            ),
    {
        let ghost pred = |k: WalletKeypairV| matches_search(k, search_str@);
        let mut out: Vec<WalletKeypair> = Vec::new();
        let mut i: usize = 0;
        proof {
            reveal(Seq::filter);
            assert(self@.subrange(0, 0) =~= Seq::<WalletKeypairV>::empty());
            assert(out@.map_values(|k: WalletKeypair| k@) =~= self@.subrange(0, 0).filter(pred));
        }
        while i < self.keypairs.len()
            invariant
                i <= self@.len(),
                self@.len() == self.keypairs@.len(),
                out@.map_values(|k: WalletKeypair| k@) == self@.subrange(0, i as int).filter(pred),
                pred == (|k: WalletKeypairV| matches_search(k, search_str@)),
            decreases self@.len() - i,
        {
            let k = &self.keypairs[i];
            let b64 = to_base64(&k.public_key);
            let matched = str_starts_with(k.name.as_str(), search_str) || str_starts_with(
                b64.as_str(),
                search_str,
            );
            proof {
                reveal(Seq::filter);
                assert(self@.subrange(0, i + 1).drop_last() =~= self@.subrange(0, i as int));
                assert(self@.subrange(0, i + 1).last() == self@[i as int]);
                assert(self@[i as int] == k@);
            }
            if matched {
                let ghost prev = out@.map_values(|kk: WalletKeypair| kk@);
                out.push(clone_keypair(k));
                proof {
                    assert(out@.map_values(|kk: WalletKeypair| kk@) =~= prev.push(k@));
                }
            }
            i = i + 1;
        }
        proof {
            assert(self@.subrange(0, self@.len() as int) =~= self@);
        }
        out
    }
}

// ---------------------------------------------------------------------------
// Canonical encoding of a wallet
// ---------------------------------------------------------------------------

/// Wallet field 1, bytes: one embedded record.
pub const TAG_WALLET_KEYPAIR: u8 = 0x0A;

/// WalletKeypair field 1, bytes: the public key.
pub const TAG_KP_PUBLIC_KEY: u8 = 0x0A;

/// WalletKeypair field 2, bytes: the secret key.
pub const TAG_KP_SECRET_KEY: u8 = 0x12;

/// WalletKeypair field 3, bytes: the name, in its utf-8 form.
pub const TAG_KP_NAME: u8 = 0x1A;

/// The canonical bytes of one record: its three fields, tagged, in order.
pub open spec fn keypair_enc(k: WalletKeypairV) -> Seq<u8> {
    bytes_field(TAG_KP_PUBLIC_KEY, k.public_key) + bytes_field(TAG_KP_SECRET_KEY, k.secret_key)
        + bytes_field(TAG_KP_NAME, encode_utf8(k.name))
}

/// The canonical bytes of a wallet: each record as one embedded,
/// length-prefixed field, in stored order.
pub open spec fn wallet_enc(w: Seq<WalletKeypairV>) -> Seq<u8>
    decreases w.len(),
{
    if w.len() == 0 {
        Seq::empty()
    } else {
        wallet_enc(w.drop_last()) + bytes_field(TAG_WALLET_KEYPAIR, keypair_enc(w.last()))
    }
}

/// Appends the canonical bytes of one record's fields to `out`.
fn encode_keypair(out: &mut Vec<u8>, k: &WalletKeypair)
    ensures
        final(out)@ == old(out)@ + keypair_enc(k@),
{
    encode_bytes_field(out, TAG_KP_PUBLIC_KEY, &k.public_key);
    encode_bytes_field(out, TAG_KP_SECRET_KEY, &k.secret_key);
    let name_bytes = k.name.as_str().as_bytes_vec();
    encode_bytes_field(out, TAG_KP_NAME, &name_bytes);
    assert(final(out)@ =~= old(out)@ + keypair_enc(k@));
}

impl Wallet {
    /// Serializes the wallet into its canonical byte string — the form it
    /// is stored in.
    pub fn encode(&self) -> (r: Vec<u8>)
        ensures
            r@ == wallet_enc(self@),
    {
        let mut out: Vec<u8> = Vec::new();
        let mut i: usize = 0;
        proof {
            assert(self@.subrange(0, 0) =~= Seq::<WalletKeypairV>::empty());
        }
        while i < self.keypairs.len()
            invariant
                i <= self.keypairs@.len(),
                self@.len() == self.keypairs@.len(),
                out@ == wallet_enc(self@.subrange(0, i as int)),
            decreases self.keypairs@.len() - i,
        {
            let mut body: Vec<u8> = Vec::new();
            encode_keypair(&mut body, &self.keypairs[i]);
            encode_bytes_field(&mut out, TAG_WALLET_KEYPAIR, &body);
            i = i + 1;
            proof {
                assert(self@.subrange(0, i as int).drop_last() =~= self@.subrange(0, i - 1));
                assert(self@.subrange(0, i as int).last() == self@[i - 1]);
                assert(out@ =~= wallet_enc(self@.subrange(0, i as int)));
            }
        }
        proof {
            assert(self@.subrange(0, self@.len() as int) =~= self@);
        }
        out
    }
}

/// Where each of a record's three fields stands inside its canonical bytes.
proof fn lemma_keypair_enc_fields(bytes: Seq<u8>, kv: WalletKeypairV)
    requires
        bytes == keypair_enc(kv),
    ensures
        bytes_field_at(bytes, 0, TAG_KP_PUBLIC_KEY, kv.public_key),
        bytes_field_at(
            bytes,
            bytes_field(TAG_KP_PUBLIC_KEY, kv.public_key).len() as int,
            TAG_KP_SECRET_KEY,
            kv.secret_key,
        ),
        bytes_field_at(
            bytes,
            bytes_field(TAG_KP_PUBLIC_KEY, kv.public_key).len() + bytes_field(
                TAG_KP_SECRET_KEY,
                kv.secret_key,
            ).len() as int,
            TAG_KP_NAME,
            encode_utf8(kv.name),
        ),
        bytes.len() == bytes_field(TAG_KP_PUBLIC_KEY, kv.public_key).len() + bytes_field(
            TAG_KP_SECRET_KEY,
            kv.secret_key,
        ).len() + bytes_field(TAG_KP_NAME, encode_utf8(kv.name)).len(),
{
    let f1 = bytes_field(TAG_KP_PUBLIC_KEY, kv.public_key);
    let f2 = bytes_field(TAG_KP_SECRET_KEY, kv.secret_key);
    let f3 = bytes_field(TAG_KP_NAME, encode_utf8(kv.name));
    assert(bytes =~= f1 + f2 + f3);
    assert(bytes.subrange(0, f1.len() as int) =~= f1);
    assert(bytes.subrange(f1.len() as int, f1.len() + f2.len() as int) =~= f2);
    assert(bytes.subrange(f1.len() + f2.len() as int, bytes.len() as int) =~= f3);
}

/// Record bytes frame their record: equal concatenations that both start
/// with an encoded record agree on the record and on what follows.
proof fn lemma_keypair_enc_frame(a: WalletKeypairV, b: WalletKeypairV, u: Seq<u8>, v: Seq<u8>)
    requires
        keypair_enc(a) + u == keypair_enc(b) + v,
    ensures
        a == b,
        u == v,
{
    assert(keypair_enc(a) + u =~= bytes_field(TAG_KP_PUBLIC_KEY, a.public_key) + (bytes_field(
        TAG_KP_SECRET_KEY,
        a.secret_key,
    ) + (bytes_field(TAG_KP_NAME, encode_utf8(a.name)) + u)));
    assert(keypair_enc(b) + v =~= bytes_field(TAG_KP_PUBLIC_KEY, b.public_key) + (bytes_field(
        TAG_KP_SECRET_KEY,
        b.secret_key,
    ) + (bytes_field(TAG_KP_NAME, encode_utf8(b.name)) + v)));
    lemma_bytes_field_frame(
        TAG_KP_PUBLIC_KEY,
        a.public_key,
        b.public_key,
        bytes_field(TAG_KP_SECRET_KEY, a.secret_key) + (bytes_field(
            TAG_KP_NAME,
            encode_utf8(a.name),
        ) + u),
        bytes_field(TAG_KP_SECRET_KEY, b.secret_key) + (bytes_field(
            TAG_KP_NAME,
            encode_utf8(b.name),
        ) + v),
    );
    lemma_bytes_field_frame(
        TAG_KP_SECRET_KEY,
        a.secret_key,
        b.secret_key,
        bytes_field(TAG_KP_NAME, encode_utf8(a.name)) + u,
        bytes_field(TAG_KP_NAME, encode_utf8(b.name)) + v,
    );
    lemma_bytes_field_frame(TAG_KP_NAME, encode_utf8(a.name), encode_utf8(b.name), u, v);
    encode_utf8_decode_utf8(a.name);
    encode_utf8_decode_utf8(b.name);
    assert(a =~= b);
}

/// The bytes of a nonempty wallet start with the first record's field,
/// followed by the rest of the wallet.
proof fn lemma_wallet_enc_first(w: Seq<WalletKeypairV>)
    requires
        w.len() > 0,
    ensures
        wallet_enc(w) == bytes_field(TAG_WALLET_KEYPAIR, keypair_enc(w.first())) + wallet_enc(
            w.drop_first(),
        ),
    decreases w.len(),
{
    if w.len() == 1 {
        assert(w.drop_last() =~= Seq::<WalletKeypairV>::empty());
        assert(w.drop_first() =~= Seq::<WalletKeypairV>::empty());
        assert(w.last() == w.first());
        assert(wallet_enc(w) =~= bytes_field(TAG_WALLET_KEYPAIR, keypair_enc(w.first()))
            + wallet_enc(w.drop_first()));
    } else {
        lemma_wallet_enc_first(w.drop_last());
        assert(w.drop_last().first() == w.first());
        assert(w.drop_last().drop_first() =~= w.drop_first().drop_last());
        assert(w.drop_first().last() == w.last());
        assert(wallet_enc(w.drop_first()) == wallet_enc(w.drop_first().drop_last()) + bytes_field(
            TAG_WALLET_KEYPAIR,
            keypair_enc(w.drop_first().last()),
        ));
        assert(wallet_enc(w) =~= bytes_field(TAG_WALLET_KEYPAIR, keypair_enc(w.first()))
            + wallet_enc(w.drop_first()));
    }
}

/// Whatever follows an encoded wallet prefix within a longer encoded
/// wallet is itself the encoding of the remaining records.
proof fn lemma_wallet_enc_prefix(a: Seq<WalletKeypairV>, b: Seq<WalletKeypairV>, x: Seq<u8>)
    requires
        wallet_enc(a) + x == wallet_enc(b),
    ensures
        a.len() <= b.len(),
        x == wallet_enc(b.skip(a.len() as int)),
        forall|i: int| 0 <= i < a.len() ==> #[trigger] a[i] == b[i],
    decreases a.len(),
{
    if a.len() == 0 {
        assert(x =~= wallet_enc(a) + x);
        assert(b.skip(0) =~= b);
    } else if b.len() == 0 {
        lemma_wallet_enc_first(a);
        assert(bytes_field(TAG_WALLET_KEYPAIR, keypair_enc(a.first())).len() >= 1);
        assert((wallet_enc(a) + x).len() >= 1);
    } else {
        lemma_wallet_enc_first(a);
        lemma_wallet_enc_first(b);
        assert(wallet_enc(a) + x =~= bytes_field(TAG_WALLET_KEYPAIR, keypair_enc(a.first())) + (
        wallet_enc(a.drop_first()) + x));
        lemma_bytes_field_frame(
            TAG_WALLET_KEYPAIR,
            keypair_enc(a.first()),
            keypair_enc(b.first()),
            wallet_enc(a.drop_first()) + x,
            wallet_enc(b.drop_first()),
        );
        lemma_keypair_enc_frame(a.first(), b.first(), Seq::empty(), Seq::empty());
        lemma_wallet_enc_prefix(a.drop_first(), b.drop_first(), x);
        assert(b.drop_first().skip(a.len() - 1) =~= b.skip(a.len() as int));
        assert forall|i: int| 0 <= i < a.len() implies #[trigger] a[i] == b[i] by {
            if i > 0 {
                assert(a.drop_first()[i - 1] == a[i]);
                assert(b.drop_first()[i - 1] == b[i]);
            }
        };
    }
}

/// Round-trip law, the value half: the canonical wallet encoding is
/// injective, so a decoded wallet is exactly the one that was encoded.
pub proof fn lemma_wallet_enc_injective(a: Seq<WalletKeypairV>, b: Seq<WalletKeypairV>)
    requires
        wallet_enc(a) == wallet_enc(b),
    ensures
        a == b,
{
    assert(wallet_enc(a) + Seq::<u8>::empty() =~= wallet_enc(a));
    lemma_wallet_enc_prefix(a, b, Seq::empty());
    if a.len() < b.len() {
        lemma_wallet_enc_first(b.skip(a.len() as int));
        assert(bytes_field(
            TAG_WALLET_KEYPAIR,
            keypair_enc(b.skip(a.len() as int).first()),
        ).len() >= 1);
    }
    assert(a =~= b);
}

/// Inside a wallet's canonical bytes, what follows an already-decoded
/// prefix of records is the field of the next record to decode.
proof fn lemma_wallet_decode_step(
    bytes: Seq<u8>,
    pos: int,
    acc: Seq<WalletKeypairV>,
    wv: Seq<WalletKeypairV>,
)
    requires
        0 <= pos < bytes.len(),
        bytes.subrange(0, pos) == wallet_enc(acc),
        bytes == wallet_enc(wv),
    ensures
        acc.len() < wv.len(),
        bytes_field_at(bytes, pos, TAG_WALLET_KEYPAIR, keypair_enc(wv[acc.len() as int])),
{
    let suffix = bytes.subrange(pos, bytes.len() as int);
    assert(wallet_enc(acc) + suffix =~= bytes);
    lemma_wallet_enc_prefix(acc, wv, suffix);
    let rest = wv.skip(acc.len() as int);
    assert(rest.len() > 0);
    lemma_wallet_enc_first(rest);
    let field = bytes_field(TAG_WALLET_KEYPAIR, keypair_enc(rest.first()));
    assert(rest.first() == wv[acc.len() as int]);
    assert(suffix == field + wallet_enc(rest.drop_first()));
    assert forall|i: int| 0 <= i < field.len() implies #[trigger] bytes.subrange(
        pos,
        pos + field.len(),
    )[i] == field[i] by {
        assert(suffix[i] == (field + wallet_enc(rest.drop_first()))[i]);
    };
    assert(bytes.subrange(pos, pos + field.len()) =~= field);
}

/// Relies on alloc's `String::from_utf8`: it succeeds exactly on valid
/// utf-8 and wraps the given bytes unchanged, so the returned string spells
/// those very bytes.
#[verifier::external_body]
fn bytes_to_string(b: Vec<u8>) -> (r: Option<String>)
    ensures
        r matches Some(s) ==> encode_utf8(s@) == b@,
        valid_utf8(b@) ==> r is Some,
{
    match String::from_utf8(b) {
        Ok(s) => Some(s),
        Err(_) => None,
    }
}

/// Reads one record from a buffer that must hold exactly its canonical
/// bytes: whatever comes back re-encodes to the very same buffer, and
/// whenever the buffer is a record's canonical bytes, that record comes
/// back.
fn decode_keypair(bytes: &Vec<u8>) -> (r: Option<WalletKeypair>)
    ensures
        r matches Some(k) ==> bytes@ == keypair_enc(k@),
        forall|kv: WalletKeypairV|
            bytes@ == #[trigger] keypair_enc(kv) ==> (r matches Some(k) && k@ == kv),
{
    let first = decode_bytes_field(bytes, 0, TAG_KP_PUBLIC_KEY);
    proof {
        assert forall|kv: WalletKeypairV| bytes@ == keypair_enc(kv) implies bytes_field_at(
            bytes@,
            0,
            TAG_KP_PUBLIC_KEY,
            kv.public_key,
        ) by {
            lemma_keypair_enc_fields(bytes@, kv);
        };
    }
    match first {
        None => None,
        Some((public_key, p1)) => {
            let second = decode_bytes_field(bytes, p1, TAG_KP_SECRET_KEY);
            proof {
                assert forall|kv: WalletKeypairV| bytes@ == keypair_enc(kv) implies bytes_field_at(
                    bytes@,
                    p1 as int,
                    TAG_KP_SECRET_KEY,
                    kv.secret_key,
                ) && public_key@ == kv.public_key by {
                    lemma_keypair_enc_fields(bytes@, kv);
                };
            }
            match second {
                None => None,
                Some((secret_key, p2)) => {
                    let third = decode_bytes_field(bytes, p2, TAG_KP_NAME);
                    proof {
                        assert forall|kv: WalletKeypairV|
                            bytes@ == keypair_enc(kv) implies bytes_field_at(
                            bytes@,
                            p2 as int,
                            TAG_KP_NAME,
                            encode_utf8(kv.name),
                        ) && secret_key@ == kv.secret_key by {
                            lemma_keypair_enc_fields(bytes@, kv);
                        };
                    }
                    match third {
                        None => None,
                        Some((name_bytes, p3)) => {
                            if p3 != bytes.len() {
                                proof {
                                    assert forall|kv: WalletKeypairV|
                                        bytes@ == keypair_enc(kv) implies false by {
                                        lemma_keypair_enc_fields(bytes@, kv);
                                    };
                                }
                                return None;
                            }
                            let ghost nb = name_bytes@;
                            proof {
                                assert forall|kv: WalletKeypairV|
                                    bytes@ == keypair_enc(kv) implies valid_utf8(nb) by {
                                    lemma_keypair_enc_fields(bytes@, kv);
                                    encode_utf8_valid_utf8(kv.name);
                                };
                            }
                            match bytes_to_string(name_bytes) {
                                None => None,
                                Some(name) => {
                                    let k = WalletKeypair { public_key, secret_key, name };
                                    proof {
                                        assert(bytes@ =~= bytes@.subrange(0, p1 as int) + bytes@
                                            .subrange(p1 as int, p2 as int) + bytes@.subrange(
                                            p2 as int,
                                            p3 as int,
                                        ));
                                        assert(bytes@ =~= keypair_enc(k@));
                                        assert forall|kv: WalletKeypairV|
                                            bytes@ == keypair_enc(kv) implies #[trigger] k@
                                            == kv by {
                                            lemma_keypair_enc_fields(bytes@, kv);
                                            encode_utf8_decode_utf8(k@.name);
                                            encode_utf8_decode_utf8(kv.name);
                                            assert(k@ =~= kv);
                                        };
                                    }
                                    Some(k)
                                },
                            }
                        },
                    }
                },
            }
        },
    }
}

impl Wallet {
    /// Reads a wallet back from its canonical bytes. Accepts exactly the
    /// strings that [`Wallet::encode`] produces: whatever wallet comes back
    /// re-encodes to the very same bytes, and on any encoder output the
    /// very wallet that was encoded comes back.
    pub fn decode(bytes: &Vec<u8>) -> (r: Option<Wallet>)
        ensures
            r matches Some(w) ==> bytes@ == wallet_enc(w@),
            forall|wv: Seq<WalletKeypairV>|
                bytes@ == #[trigger] wallet_enc(wv) ==> (r matches Some(w) && w@ == wv),
    {
        let mut keypairs: Vec<WalletKeypair> = Vec::new();
        let mut pos: usize = 0;
        proof {
            assert(keypairs@.map_values(|kk: WalletKeypair| kk@) =~= Seq::<
                WalletKeypairV,
            >::empty());
            assert(bytes@.subrange(0, 0) =~= wallet_enc(
                keypairs@.map_values(|kk: WalletKeypair| kk@),
            ));
        }
        while pos < bytes.len()
            invariant
                pos <= bytes@.len(),
                bytes@.subrange(0, pos as int) == wallet_enc(
                    keypairs@.map_values(|kk: WalletKeypair| kk@),
                ),
            decreases bytes@.len() - pos,
        {
            let ghost accv = keypairs@.map_values(|kk: WalletKeypair| kk@);
            match decode_bytes_field(bytes, pos, TAG_WALLET_KEYPAIR) {
                None => {
                    proof {
                        assert forall|wv: Seq<WalletKeypairV>|
                            bytes@ == #[trigger] wallet_enc(wv) implies false by {
                            lemma_wallet_decode_step(bytes@, pos as int, accv, wv);
                        };
                    }
                    return None;
                },
                Some((body, q)) => {
                    match decode_keypair(&body) {
                        None => {
                            proof {
                                assert forall|wv: Seq<WalletKeypairV>|
                                    bytes@ == #[trigger] wallet_enc(wv) implies false by {
                                    lemma_wallet_decode_step(bytes@, pos as int, accv, wv);
                                    assert(body@ == keypair_enc(wv[accv.len() as int]));
                                };
                            }
                            return None;
                        },
                        Some(k) => {
                            let ghost prev = keypairs@.map_values(|kk: WalletKeypair| kk@);
                            keypairs.push(k);
                            proof {
                                assert(keypairs@.map_values(|kk: WalletKeypair| kk@) =~= prev.push(
                                    k@,
                                ));
                                assert(prev.push(k@).drop_last() =~= prev);
                                assert(bytes@.subrange(0, q as int) =~= bytes@.subrange(
                                    0,
                                    pos as int,
                                ) + bytes@.subrange(pos as int, q as int));
                                assert(bytes@.subrange(0, q as int) =~= wallet_enc(prev.push(k@)));
                            }
                            pos = q;
                        },
                    }
                },
            }
        }
        proof {
            assert(bytes@.subrange(0, bytes@.len() as int) =~= bytes@);
            assert forall|wv: Seq<WalletKeypairV>|
                bytes@ == #[trigger] wallet_enc(wv) implies keypairs@.map_values(
                |kk: WalletKeypair| kk@,
            ) == wv by {
                lemma_wallet_enc_injective(keypairs@.map_values(|kk: WalletKeypair| kk@), wv);
            };
        }
        Some(Wallet { keypairs })
    }
}

// ---------------------------------------------------------------------------
// Generated names
// ---------------------------------------------------------------------------

/// The character of one decimal digit.
pub open spec fn digit_char(d: nat) -> char {
    if d == 0 {
        '0'
    } else if d == 1 {
        '1'
    } else if d == 2 {
        '2'
    } else if d == 3 {
        '3'
    } else if d == 4 {
        '4'
    } else if d == 5 {
        '5'
    } else if d == 6 {
        '6'
    } else if d == 7 {
        '7'
    } else if d == 8 {
        '8'
    } else {
        '9'
    }
}

/// The decimal digits of `n`, most significant first, no leading zeros.
pub open spec fn dec_str(n: nat) -> Seq<char>
    decreases n,
{
    if n < 10 {
        seq![digit_char(n)]
    } else {
        dec_str(n / 10) + seq![digit_char(n % 10)]
    }
}

/// The generated name for slot `i`.
pub open spec fn addr_name(i: nat) -> Seq<char> {
    "addr"@ + dec_str(i)
}

/// Whether some record of the wallet carries exactly this name.
pub open spec fn wallet_has_name(w: Seq<WalletKeypairV>, name: Seq<char>) -> bool {
    exists|k: int| 0 <= k < w.len() && (#[trigger] w[k]).name == name
}

/// One decimal digit as a string slice.
fn digit_str(d: u128) -> (r: &'static str)
    requires
        d < 10,
    ensures
        r@ == seq![digit_char(d as nat)],
{
    proof {
        reveal_strlit("0");
        reveal_strlit("1");
        reveal_strlit("2");
        reveal_strlit("3");
        reveal_strlit("4");
        reveal_strlit("5");
        reveal_strlit("6");
        reveal_strlit("7");
        reveal_strlit("8");
        reveal_strlit("9");
    }
    let r: &'static str = if d == 0 {
        "0"
    } else if d == 1 {
        "1"
    } else if d == 2 {
        "2"
    } else if d == 3 {
        "3"
    } else if d == 4 {
        "4"
    } else if d == 5 {
        "5"
    } else if d == 6 {
        "6"
    } else if d == 7 {
        "7"
    } else if d == 8 {
        "8"
    } else {
        "9"
    };
    proof {
        assert(r@ =~= seq![digit_char(d as nat)]);
    }
    r
}

/// The decimal form of `n`.
fn dec_string(n: u128) -> (r: String)
    ensures
        r@ == dec_str(n as nat),
    decreases n,
{
    if n < 10 {
        digit_str(n).to_owned()
    } else {
        let mut s = dec_string(n / 10);
        s.append(digit_str(n % 10));
        proof {
            assert(s@ =~= dec_str(n as nat));
        }
        s
    }
}

/// The generated name for slot `i`, as a string.
fn make_addr_name(i: u128) -> (r: String)
    ensures
        r@ == addr_name(i as nat),
{
    let mut s = "addr".to_owned();
    let digits = dec_string(i);
    s.append(digits.as_str());
    proof {
        assert(s@ =~= addr_name(i as nat));
    }
    s
}

/// A decimal string determines at least one character.
proof fn lemma_dec_str_len(n: nat)
    ensures
        dec_str(n).len() >= 1,
    decreases n,
{
    if n >= 10 {
        lemma_dec_str_len(n / 10);
    }
}

/// Distinct digits print as distinct characters.
proof fn lemma_digit_char_inj(a: nat, b: nat)
    requires
        a < 10,
        b < 10,
        digit_char(a) == digit_char(b),
    ensures
        a == b,
{
}

/// Distinct numbers print as distinct decimal strings.
proof fn lemma_dec_str_inj(a: nat, b: nat)
    requires
        dec_str(a) == dec_str(b),
    ensures
        a == b,
    decreases a + b,
{
    if a < 10 && b < 10 {
        assert(dec_str(a)[0] == digit_char(a));
        assert(dec_str(b)[0] == digit_char(b));
        lemma_digit_char_inj(a, b);
    } else if a < 10 {
        lemma_dec_str_len(b / 10);
        assert(dec_str(b).len() >= 2);
    } else if b < 10 {
        lemma_dec_str_len(a / 10);
        assert(dec_str(a).len() >= 2);
    } else {
        assert(dec_str(a).last() == digit_char(a % 10));
        assert(dec_str(b).last() == digit_char(b % 10));
        lemma_digit_char_inj(a % 10, b % 10);
        assert(dec_str(a).drop_last() =~= dec_str(a / 10));
        assert(dec_str(b).drop_last() =~= dec_str(b / 10));
        lemma_dec_str_inj(a / 10, b / 10);
    }
}

/// Distinct slots get distinct generated names.
proof fn lemma_addr_name_inj(a: nat, b: nat)
    requires
        a != b,
    ensures
        addr_name(a) != addr_name(b),
{
    if addr_name(a) == addr_name(b) {
        assert(addr_name(a).len() == "addr"@.len() + dec_str(a).len());
        assert(addr_name(b).len() == "addr"@.len() + dec_str(b).len());
        assert(dec_str(a).len() == dec_str(b).len());
        assert forall|x: int| 0 <= x < dec_str(a).len() implies dec_str(a)[x] == dec_str(b)[x] by {
            assert(addr_name(a)["addr"@.len() + x] == dec_str(a)[x]);
            assert(addr_name(b)["addr"@.len() + x] == dec_str(b)[x]);
        };
        assert(dec_str(a) =~= dec_str(b));
        lemma_dec_str_inj(a, b);
    }
}

/// Pigeonhole bound: a wallet whose records cover the generated names of
/// slots `1..=m` holds at least `m` records.
proof fn lemma_names_bound(w: Seq<WalletKeypairV>, m: nat)
    requires
        forall|i: nat| 1 <= i <= m ==> wallet_has_name(w, #[trigger] addr_name(i)),
    ensures
        m <= w.len(),
    decreases m,
{
    if m > 0 {
        assert(wallet_has_name(w, addr_name(m)));
        let k = choose|k: int| 0 <= k < w.len() && (#[trigger] w[k]).name == addr_name(m);
        let w2 = w.remove(k);
        w.remove_ensures(k);
        assert forall|i: nat| 1 <= i <= m - 1 implies wallet_has_name(
            w2,
            #[trigger] addr_name(i),
        ) by {
            assert(wallet_has_name(w, addr_name(i)));
            let k2 = choose|k2: int| 0 <= k2 < w.len() && (#[trigger] w[k2]).name == addr_name(i);
            lemma_addr_name_inj(i, m);
            assert(k2 != k);
            if k2 < k {
                assert(w2[k2] == w[k2]);
                assert(wallet_has_name(w2, addr_name(i)));
            } else {
                assert(w2[k2 - 1] == w[k2]);
                assert(wallet_has_name(w2, addr_name(i)));
            }
        };
        lemma_names_bound(w2, (m - 1) as nat);
    }
}

impl Wallet {
    /// Whether some record carries exactly this name.
    pub fn has_name(&self, name: &String) -> (r: bool)
        ensures
            r == wallet_has_name(self@, name@),
    {
        let mut j: usize = 0;
        while j < self.keypairs.len()
            invariant
                j <= self.keypairs@.len(),
                self@.len() == self.keypairs@.len(),
                forall|k: int| 0 <= k < j ==> (#[trigger] self@[k]).name != name@,
            decreases self.keypairs@.len() - j,
        {
            if self.keypairs[j].name == *name {
                proof {
                    assert(self@[j as int].name == name@);
                }
                return true;
            }
            j = j + 1;
        }
        false
    }

    /// The first free generated name: `addr` followed by the smallest
    /// decimal index, counted from one, that no stored record carries.
    pub fn generate_name(&self) -> (r: String)
        ensures
            exists|i: nat|
                1 <= i && r@ == #[trigger] addr_name(i) && !wallet_has_name(self@, addr_name(i))
                    && (forall|j: nat| 1 <= j < i ==> wallet_has_name(self@, #[trigger] addr_name(j))),
    {
        let n = self.keypairs.len();
        let mut i: u128 = 1;
        loop
            invariant
                1 <= i,
                self@.len() == n as nat,
                i - 1 <= n,
                forall|j: nat| 1 <= j < i ==> wallet_has_name(self@, #[trigger] addr_name(j)),
            decreases self@.len() + 2 - i,
        {
            let candidate = make_addr_name(i);
            if !self.has_name(&candidate) {
                proof {
                    assert(1 <= i as nat && candidate@ == addr_name(i as nat) && !wallet_has_name(
                        self@,
                        addr_name(i as nat),
                    ) && (forall|j: nat|
                        1 <= j < i as nat ==> wallet_has_name(self@, #[trigger] addr_name(j))));
                }
                return candidate;
            }
            proof {
                assert(forall|j: nat|
                    1 <= j <= i as nat ==> wallet_has_name(self@, #[trigger] addr_name(j)));
                lemma_names_bound(self@, i as nat);
            }
            i = i + 1;
        }
    }
}

} // verus!
