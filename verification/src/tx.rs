//! The transaction core: the commitment model — what is being authorized,
//! with its canonical byte encoding — and the authorization engine that
//! collects one detached signature per distinct source account and checks
//! a finished transaction against its own commitment bytes.

use vstd::prelude::*;

use crate::crypto::{sign, signature_of, signature_valid, verify};
use crate::encoding::{
    bytes_field, decode_bytes_field, decode_uint_field, encode_bytes_field, encode_uint_field,
    lemma_bytes_field_frame, lemma_uint_field_frame, uint_field,
};
use crate::error::{result_v, SimplesError, SimplesErrorV, SimplesResult};
use crate::keys::{copy_bytes, PublicKey, SecretKey, PUBLIC_KEY_LEN, SECRET_KEY_LEN};

verus! {

// ---------------------------------------------------------------------------
// Data model
// ---------------------------------------------------------------------------

/// One unit of value movement inside a commitment. Key fields hold the raw
/// canonical bytes of the accounts, exactly as they travel on the wire.
#[derive(Clone, Debug)]
pub struct Transfer {
    /// Position of this transfer among its siblings; disambiguates transfers
    /// that are otherwise identical.
    pub op_index: u32,
    /// The amount moved.
    pub tokens: u64,
    /// The paying account's public key.
    pub source_pk: Vec<u8>,
    /// The receiving account's public key.
    pub destination_pk: Vec<u8>,
}

/// Ghost image of a `Transfer`.
#[verifier::ext_equal]
pub struct TransferV {
    pub op_index: u32,
    pub tokens: u64,
    pub source_pk: Seq<u8>,
    pub destination_pk: Seq<u8>,
}

impl View for Transfer {
    type V = TransferV;

    open spec fn view(&self) -> TransferV {
        TransferV {
            op_index: self.op_index,
            tokens: self.tokens,
            source_pk: self.source_pk@,
            destination_pk: self.destination_pk@,
        }
    }
}

/// What is being authorized: an ordered list of transfers and an optional
/// bounty. An empty `bounty_pk` means no bounty is attached; then the
/// `bounty` amount is meaningless and left out of the encoding.
#[derive(Clone, Debug)]
pub struct Commitment {
    pub transfers: Vec<Transfer>,
    pub bounty_pk: Vec<u8>,
    pub bounty: u64,
}

/// Ghost image of a `Commitment`.
#[verifier::ext_equal]
pub struct CommitmentV {
    pub transfers: Seq<TransferV>,
    pub bounty_pk: Seq<u8>,
    pub bounty: u64,
}

impl View for Commitment {
    type V = CommitmentV;

    open spec fn view(&self) -> CommitmentV {
        CommitmentV {
            transfers: self.transfers@.map_values(|t: Transfer| t@),
            bounty_pk: self.bounty_pk@,
            bounty: self.bounty,
        }
    }
}

/// A signature stored apart from the message it signs, paired with the
/// signer's public key.
#[derive(Clone, Debug)]
pub struct DetachedSignature {
    pub public_key: Vec<u8>,
    pub payload: Vec<u8>,
}

/// Ghost image of a `DetachedSignature`.
pub struct DetachedSignatureV {
    pub public_key: Seq<u8>,
    pub payload: Seq<u8>,
}

impl View for DetachedSignature {
    type V = DetachedSignatureV;

    open spec fn view(&self) -> DetachedSignatureV {
        DetachedSignatureV { public_key: self.public_key@, payload: self.payload@ }
    }
}

/// A commitment together with its detached signatures. Holders re-validate
/// it with [`Transaction::verify_signatures`]; no secret material is kept.
#[derive(Clone, Debug)]
pub struct Transaction {
    pub commit: Commitment,
    pub signatures: Vec<DetachedSignature>,
}

/// Ghost image of a `Transaction`.
pub struct TransactionV {
    pub commit: CommitmentV,
    pub signatures: Seq<DetachedSignatureV>,
}

impl View for Transaction {
    type V = TransactionV;

    open spec fn view(&self) -> TransactionV {
        TransactionV {
            commit: self.commit@,
            signatures: self.signatures@.map_values(|s: DetachedSignature| s@),
        }
    }
}

// ---------------------------------------------------------------------------
// Canonical encoding of a commitment
// ---------------------------------------------------------------------------
// Field tags: a field's number shifted left by three, or-ed with its wire
// type (0 for varints, 2 for length-delimited bytes).

/// Transfer field 1, varint: the operation index.
pub const TAG_OP_INDEX: u8 = 0x08;

/// Transfer field 2, varint: the token amount.
pub const TAG_TOKENS: u8 = 0x10;

/// Transfer field 3, bytes: the source public key.
pub const TAG_SOURCE_PK: u8 = 0x1A;

/// Transfer field 4, bytes: the destination public key.
pub const TAG_DESTINATION_PK: u8 = 0x22;

/// Commitment field 1, bytes: one embedded transfer.
pub const TAG_TRANSFER: u8 = 0x0A;

/// Commitment field 2, bytes: the bounty payer's public key.
pub const TAG_BOUNTY_PK: u8 = 0x12;

/// Commitment field 3, varint: the bounty amount.
pub const TAG_BOUNTY: u8 = 0x18;

/// The canonical bytes of one transfer: its four fields, tagged, in order.
pub open spec fn transfer_enc(t: TransferV) -> Seq<u8> {
    uint_field(TAG_OP_INDEX, t.op_index as nat) + uint_field(TAG_TOKENS, t.tokens as nat)
        + bytes_field(TAG_SOURCE_PK, t.source_pk) + bytes_field(TAG_DESTINATION_PK, t.destination_pk)
}

/// The canonical bytes of a transfer list: each transfer as one embedded,
/// length-prefixed field, in list order.
pub open spec fn transfers_enc(ts: Seq<TransferV>) -> Seq<u8>
    decreases ts.len(),
{
    if ts.len() == 0 {
        Seq::empty()
    } else {
        transfers_enc(ts.drop_last()) + bytes_field(TAG_TRANSFER, transfer_enc(ts.last()))
    }
}

/// The canonical bytes of a whole commitment: the transfer list, then — only
/// when a bounty is attached — the bounty payer and the bounty amount. This
/// is a function of the commitment's logical content alone, so the same
/// content always signs and verifies against the same bytes.
pub open spec fn commitment_enc(c: CommitmentV) -> Seq<u8> {
    if c.bounty_pk.len() == 0 {
        transfers_enc(c.transfers)
    } else {
        transfers_enc(c.transfers) + bytes_field(TAG_BOUNTY_PK, c.bounty_pk)
            + uint_field(TAG_BOUNTY, c.bounty as nat)
    }
}

/// Appends the canonical bytes of one transfer's fields to `out`.
fn encode_transfer(out: &mut Vec<u8>, t: &Transfer)
    ensures
        final(out)@ == old(out)@ + transfer_enc(t@),
{
    encode_uint_field(out, TAG_OP_INDEX, t.op_index as u64);
    encode_uint_field(out, TAG_TOKENS, t.tokens);
    encode_bytes_field(out, TAG_SOURCE_PK, &t.source_pk);
    encode_bytes_field(out, TAG_DESTINATION_PK, &t.destination_pk);
    assert(final(out)@ =~= old(out)@ + transfer_enc(t@));
}

impl Commitment {
    /// Serializes the commitment into its canonical byte string — the exact
    /// message that every signer authorizes.
    pub fn encode(&self) -> (r: Vec<u8>)
        ensures
            r@ == commitment_enc(self@),
    {
        let mut out: Vec<u8> = Vec::new();
        let mut i: usize = 0;
        while i < self.transfers.len()
            invariant
                i <= self.transfers@.len(),
                out@ == transfers_enc(self@.transfers.subrange(0, i as int)),
            decreases self.transfers@.len() - i,
        {
            let mut body: Vec<u8> = Vec::new();
            encode_transfer(&mut body, &self.transfers[i]);
            encode_bytes_field(&mut out, TAG_TRANSFER, &body);
            i = i + 1;
            proof {
                let ts = self@.transfers;
                assert(ts.subrange(0, i as int).drop_last() =~= ts.subrange(0, i - 1));
                assert(ts.subrange(0, i as int).last() == ts[i - 1]);
            }
        }
        proof {
            assert(self@.transfers.subrange(0, self.transfers@.len() as int) =~= self@.transfers);
        }
        if self.bounty_pk.len() > 0 {
            encode_bytes_field(&mut out, TAG_BOUNTY_PK, &self.bounty_pk);
            encode_uint_field(&mut out, TAG_BOUNTY, self.bounty);
            assert(out@ =~= commitment_enc(self@));
        }
        out
    }
}

// ---------------------------------------------------------------------------
// Canonical encoding of a whole transaction
// ---------------------------------------------------------------------------

/// Transaction field 1, bytes: the embedded commitment.
pub const TAG_TX_COMMIT: u8 = 0x0A;

/// Transaction field 2, bytes: one embedded detached signature.
pub const TAG_TX_SIGNATURE: u8 = 0x12;

/// DetachedSignature field 1, bytes: the signer's public key.
pub const TAG_SIG_PUBLIC_KEY: u8 = 0x0A;

/// DetachedSignature field 2, bytes: the signature itself.
pub const TAG_SIG_PAYLOAD: u8 = 0x12;

/// The canonical bytes of one detached signature: its two fields, tagged,
/// in order.
pub open spec fn detached_signature_enc(s: DetachedSignatureV) -> Seq<u8> {
    bytes_field(TAG_SIG_PUBLIC_KEY, s.public_key) + bytes_field(TAG_SIG_PAYLOAD, s.payload)
}

/// The canonical bytes of a signature list: each signature as one embedded,
/// length-prefixed field, in list order.
pub open spec fn signatures_enc(ss: Seq<DetachedSignatureV>) -> Seq<u8>
    decreases ss.len(),
{
    if ss.len() == 0 {
        Seq::empty()
    } else {
        signatures_enc(ss.drop_last()) + bytes_field(
            TAG_TX_SIGNATURE,
            detached_signature_enc(ss.last()),
        )
    }
}

/// The canonical bytes of a whole transaction: the embedded commitment,
/// then the detached signatures in order.
pub open spec fn transaction_enc(t: TransactionV) -> Seq<u8> {
    bytes_field(TAG_TX_COMMIT, commitment_enc(t.commit)) + signatures_enc(t.signatures)
}

/// Appends the canonical bytes of one detached signature's fields to `out`.
fn encode_detached_signature(out: &mut Vec<u8>, s: &DetachedSignature)
    ensures
        final(out)@ == old(out)@ + detached_signature_enc(s@),
{
    encode_bytes_field(out, TAG_SIG_PUBLIC_KEY, &s.public_key);
    encode_bytes_field(out, TAG_SIG_PAYLOAD, &s.payload);
    assert(final(out)@ =~= old(out)@ + detached_signature_enc(s@));
}

impl Transaction {
    /// Serializes the whole transaction — commitment and signatures — into
    /// its canonical byte string, the form it travels in between peers.
    pub fn encode(&self) -> (r: Vec<u8>)
        ensures
            r@ == transaction_enc(self@),
    {
        let mut out: Vec<u8> = Vec::new();
        let commit_bytes = self.commit.encode();
        encode_bytes_field(&mut out, TAG_TX_COMMIT, &commit_bytes);
        let ghost head: Seq<u8> = out@;
        let mut i: usize = 0;
        proof {
            assert(self@.signatures.subrange(0, 0) =~= Seq::<DetachedSignatureV>::empty());
        }
        while i < self.signatures.len()
            invariant
                i <= self.signatures@.len(),
                head == bytes_field(TAG_TX_COMMIT, commitment_enc(self@.commit)),
                out@ == head + signatures_enc(self@.signatures.subrange(0, i as int)),
            decreases self.signatures@.len() - i,
        {
            let mut body: Vec<u8> = Vec::new();
            encode_detached_signature(&mut body, &self.signatures[i]);
            encode_bytes_field(&mut out, TAG_TX_SIGNATURE, &body);
            i = i + 1;
            proof {
                let ss = self@.signatures;
                assert(ss.subrange(0, i as int).drop_last() =~= ss.subrange(0, i - 1));
                assert(ss.subrange(0, i as int).last() == ss[i - 1]);
                assert(out@ =~= head + signatures_enc(ss.subrange(0, i as int)));
            }
        }
        proof {
            assert(self@.signatures.subrange(0, self.signatures@.len() as int)
                =~= self@.signatures);
        }
        out
    }
}

/// Reads one transfer from a buffer that must hold exactly its canonical
/// bytes: whatever comes back re-encodes to the very same buffer.
fn decode_transfer(bytes: &Vec<u8>) -> (r: Option<Transfer>)
    ensures
        r matches Some(t) ==> bytes@ == transfer_enc(t@),
{
    match decode_uint_field(bytes, 0, TAG_OP_INDEX) {
        None => None,
        Some((op, p1)) => {
            if op > u32::MAX as u64 {
                return None;
            }
            match decode_uint_field(bytes, p1, TAG_TOKENS) {
                None => None,
                Some((tokens, p2)) => match decode_bytes_field(bytes, p2, TAG_SOURCE_PK) {
                    None => None,
                    Some((source_pk, p3)) => match decode_bytes_field(
                        bytes,
                        p3,
                        TAG_DESTINATION_PK,
                    ) {
                        None => None,
                        Some((destination_pk, p4)) => {
                            if p4 != bytes.len() {
                                return None;
                            }
                            let t = Transfer {
                                op_index: op as u32,
                                tokens,
                                source_pk,
                                destination_pk,
                            };
                            proof {
                                assert(bytes@ =~= bytes@.subrange(0, p1 as int) + bytes@.subrange(
                                    p1 as int,
                                    p2 as int,
                                ) + bytes@.subrange(p2 as int, p3 as int) + bytes@.subrange(
                                    p3 as int,
                                    p4 as int,
                                ));
                                assert(bytes@ =~= transfer_enc(t@));
                            }
                            Some(t)
                        },
                    },
                },
            }
        },
    }
}

/// Reads a commitment from a buffer that must hold exactly its canonical
/// bytes: whatever comes back re-encodes to the very same buffer, and is
/// canonical — a bounty amount only together with a bounty payer.
fn decode_commitment(bytes: &Vec<u8>) -> (r: Option<Commitment>)
    ensures
        r matches Some(c) ==> bytes@ == commitment_enc(c@) && commitment_canonical(c@),
{
    let mut transfers: Vec<Transfer> = Vec::new();
    let mut pos: usize = 0;
    proof {
        assert(transfers@.map_values(|tt: Transfer| tt@) =~= Seq::<TransferV>::empty());
        assert(bytes@.subrange(0, 0) =~= transfers_enc(transfers@.map_values(|tt: Transfer| tt@)));
    }
    while pos < bytes.len() && bytes[pos] == TAG_TRANSFER
        invariant
            pos <= bytes@.len(),
            bytes@.subrange(0, pos as int) == transfers_enc(
                transfers@.map_values(|tt: Transfer| tt@),
            ),
        decreases bytes@.len() - pos,
    {
        match decode_bytes_field(bytes, pos, TAG_TRANSFER) {
            None => {
                return None;
            },
            Some((body, q)) => {
                match decode_transfer(&body) {
                    None => {
                        return None;
                    },
                    Some(t) => {
                        let ghost prev = transfers@.map_values(|tt: Transfer| tt@);
                        transfers.push(t);
                        proof {
                            assert(transfers@.map_values(|tt: Transfer| tt@) =~= prev.push(t@));
                            assert(prev.push(t@).drop_last() =~= prev);
                            assert(bytes@.subrange(0, q as int) =~= bytes@.subrange(0, pos as int)
                                + bytes@.subrange(pos as int, q as int));
                            assert(bytes@.subrange(0, q as int) =~= transfers_enc(prev.push(t@)));
                        }
                        pos = q;
                    },
                }
            },
        }
    }
    if pos == bytes.len() {
        let c = Commitment { transfers, bounty_pk: Vec::new(), bounty: 0 };
        proof {
            assert(bytes@.subrange(0, bytes@.len() as int) =~= bytes@);
            assert(bytes@ =~= commitment_enc(c@));
        }
        return Some(c);
    }
    match decode_bytes_field(bytes, pos, TAG_BOUNTY_PK) {
        None => None,
        Some((bounty_pk, q1)) => {
            if bounty_pk.len() == 0 {
                return None;
            }
            match decode_uint_field(bytes, q1, TAG_BOUNTY) {
                None => None,
                Some((bounty, q2)) => {
                    if q2 != bytes.len() {
                        return None;
                    }
                    let c = Commitment { transfers, bounty_pk, bounty };
                    proof {
                        assert(bytes@ =~= bytes@.subrange(0, pos as int) + bytes@.subrange(
                            pos as int,
                            q1 as int,
                        ) + bytes@.subrange(q1 as int, q2 as int));
                        assert(bytes@ =~= commitment_enc(c@));
                    }
                    Some(c)
                },
            }
        },
    }
}

/// Reads one detached signature from a buffer that must hold exactly its
/// canonical bytes: whatever comes back re-encodes to the very same buffer.
fn decode_detached_signature(bytes: &Vec<u8>) -> (r: Option<DetachedSignature>)
    ensures
        r matches Some(s) ==> bytes@ == detached_signature_enc(s@),
{
    match decode_bytes_field(bytes, 0, TAG_SIG_PUBLIC_KEY) {
        None => None,
        Some((public_key, p1)) => match decode_bytes_field(bytes, p1, TAG_SIG_PAYLOAD) {
            None => None,
            Some((payload, p2)) => {
                if p2 != bytes.len() {
                    return None;
                }
                let s = DetachedSignature { public_key, payload };
                proof {
                    assert(bytes@ =~= bytes@.subrange(0, p1 as int) + bytes@.subrange(
                        p1 as int,
                        p2 as int,
                    ));
                    assert(bytes@ =~= detached_signature_enc(s@));
                }
                Some(s)
            },
        },
    }
}

impl Transaction {
    /// Reads a transaction back from its canonical bytes. Accepts exactly
    /// the strings that [`Transaction::encode`] produces: whatever
    /// transaction comes back re-encodes to the very same bytes.
    pub fn decode(bytes: &Vec<u8>) -> (r: Option<Transaction>)
        ensures
            r matches Some(tx) ==> bytes@ == transaction_enc(tx@) && commitment_canonical(
                tx@.commit,
            ),
    {
        match decode_bytes_field(bytes, 0, TAG_TX_COMMIT) {
            None => None,
            Some((commit_body, p0)) => match decode_commitment(&commit_body) {
                None => None,
                Some(commit) => {
                    let mut signatures: Vec<DetachedSignature> = Vec::new();
                    let mut pos: usize = p0;
                    let ghost head = bytes@.subrange(0, p0 as int);
                    proof {
                        assert(signatures@.map_values(|s: DetachedSignature| s@) =~= Seq::<
                            DetachedSignatureV,
                        >::empty());
                        assert(bytes@.subrange(0, p0 as int) =~= head + signatures_enc(
                            signatures@.map_values(|s: DetachedSignature| s@),
                        ));
                    }
                    while pos < bytes.len()
                        invariant
                            p0 <= pos <= bytes@.len(),
                            head == bytes_field(TAG_TX_COMMIT, commitment_enc(commit@)),
                            commitment_canonical(commit@),
                            bytes@.subrange(0, pos as int) == head + signatures_enc(
                                signatures@.map_values(|s: DetachedSignature| s@),
                            ),
                        decreases bytes@.len() - pos,
                    {
                        match decode_bytes_field(bytes, pos, TAG_TX_SIGNATURE) {
                            None => {
                                return None;
                            },
                            Some((body, q)) => {
                                match decode_detached_signature(&body) {
                                    None => {
                                        return None;
                                    },
                                    Some(s) => {
                                        let ghost prev = signatures@.map_values(
                                            |ss: DetachedSignature| ss@,
                                        );
                                        signatures.push(s);
                                        proof {
                                            assert(signatures@.map_values(
                                                |ss: DetachedSignature| ss@,
                                            ) =~= prev.push(s@));
                                            assert(prev.push(s@).drop_last() =~= prev);
                                            assert(bytes@.subrange(0, q as int) =~= bytes@
                                                .subrange(0, pos as int) + bytes@.subrange(
                                                pos as int,
                                                q as int,
                                            ));
                                            assert(bytes@.subrange(0, q as int) =~= head
                                                + signatures_enc(prev.push(s@)));
                                        }
                                        pos = q;
                                    },
                                }
                            },
                        }
                    }
                    let tx = Transaction { commit, signatures };
                    proof {
                        assert(bytes@.subrange(0, bytes@.len() as int) =~= bytes@);
                        assert(bytes@ =~= transaction_enc(tx@));
                    }
                    Some(tx)
                },
            },
        }
    }
}

// ---------------------------------------------------------------------------
// Signature lookup
// ---------------------------------------------------------------------------

/// The payload registered for `pk` among the detached signatures: the last
/// entry with that public key, as an associative lookup that overwrites
/// earlier entries would hold it.
pub open spec fn sig_lookup(sigs: Seq<DetachedSignatureV>, pk: Seq<u8>) -> Option<Seq<u8>>
    decreases sigs.len(),
{
    if sigs.len() == 0 {
        None
    } else if sigs.last().public_key == pk {
        Some(sigs.last().payload)
    } else {
        sig_lookup(sigs.drop_last(), pk)
    }
}

/// The ghost images of a list of detached signatures.
pub open spec fn sig_views(sigs: Seq<DetachedSignature>) -> Seq<DetachedSignatureV> {
    sigs.map_values(|s: DetachedSignature| s@)
}

/// The public keys of a list of detached signatures, in order.
pub open spec fn sig_pks(sigs: Seq<DetachedSignatureV>) -> Seq<Seq<u8>> {
    sigs.map_values(|s: DetachedSignatureV| s.public_key)
}

/// The source accounts of a list of transfers, in order.
pub open spec fn source_pks(ts: Seq<TransferV>) -> Seq<Seq<u8>> {
    ts.map_values(|t: TransferV| t.source_pk)
}

/// Whether two byte strings hold the same bytes.
fn bytes_eq(a: &Vec<u8>, b: &Vec<u8>) -> (r: bool)
    ensures
        r == (a@ == b@),
{
    if a.len() != b.len() {
        return false;
    }
    let mut i: usize = 0;
    while i < a.len()
        invariant
            a@.len() == b@.len(),
            i <= a@.len(),
            forall|j: int| 0 <= j < i ==> a@[j] == b@[j],
        decreases a@.len() - i,
    {
        if a[i] != b[i] {
            return false;
        }
        i = i + 1;
    }
    proof {
        assert(a@ =~= b@);
    }
    true
}

/// Finds the index of the entry that `sig_lookup` speaks of: the last one
/// whose public key equals `pk`.
fn find_signature(sigs: &Vec<DetachedSignature>, pk: &Vec<u8>) -> (r: Option<usize>)
    ensures
        match r {
            Some(j) => j < sigs@.len() && sigs@[j as int]@.public_key == pk@ && sig_lookup(
                sig_views(sigs@),
                pk@,
            ) == Some(sigs@[j as int]@.payload),
            None => sig_lookup(sig_views(sigs@), pk@) is None,
        },
{
    let ghost sv = sig_views(sigs@);
    let mut j: usize = sigs.len();
    proof {
        assert(sv.subrange(0, j as int) =~= sv);
    }
    while j > 0
        invariant
            j <= sigs@.len(),
            sv == sig_views(sigs@),
            sig_lookup(sv, pk@) == sig_lookup(sv.subrange(0, j as int), pk@),
        decreases j,
    {
        j = j - 1;
        proof {
            assert(sv.subrange(0, j + 1).last() == sv[j as int]);
            assert(sv.subrange(0, j + 1).drop_last() =~= sv.subrange(0, j as int));
        }
        if bytes_eq(&sigs[j].public_key, pk) {
            return Some(j);
        }
    }
    proof {
        assert(sv.subrange(0, 0) =~= Seq::<DetachedSignatureV>::empty());
    }
    None
}

// ---------------------------------------------------------------------------
// Verification
// ---------------------------------------------------------------------------

/// The outcome of checking one transfer against the commitment bytes and
/// the signature list: the source account must have an entry, be a key of
/// the right length, and the entry must validate over the bytes.
pub open spec fn check_transfer(
    bytes: Seq<u8>,
    sigs: Seq<DetachedSignatureV>,
    t: TransferV,
) -> Result<(), SimplesErrorV> {
    match sig_lookup(sigs, t.source_pk) {
        None => Err(SimplesErrorV::MissingSignature(t.source_pk)),
        Some(payload) => if t.source_pk.len() != PUBLIC_KEY_LEN {
            Err(SimplesErrorV::KeyDecodeError)
        } else if !signature_valid(t.source_pk, bytes, payload) {
            Err(SimplesErrorV::InvalidSignature(t.source_pk))
        } else {
            Ok(())
        },
    }
}

/// The outcome of checking every transfer in order: the first failing
/// transfer's error, or success when all pass.
pub open spec fn verify_transfers(
    bytes: Seq<u8>,
    sigs: Seq<DetachedSignatureV>,
    ts: Seq<TransferV>,
) -> Result<(), SimplesErrorV>
    decreases ts.len(),
{
    if ts.len() == 0 {
        Ok(())
    } else {
        match check_transfer(bytes, sigs, ts.first()) {
            Ok(u) => verify_transfers(bytes, sigs, ts.drop_first()),
            Err(e) => Err(e),
        }
    }
}

/// The outcome of verifying a whole transaction: every transfer's source
/// account is checked against the canonical bytes of the commitment. The
/// bounty payer is deliberately not a mandatory signer; only transfer
/// sources are checked.
pub open spec fn verify_tx(t: TransactionV) -> Result<(), SimplesErrorV> {
    verify_transfers(commitment_enc(t.commit), t.signatures, t.commit.transfers)
}

impl Transaction {
    /// Re-validates the transaction from public data alone: serializes the
    /// commitment and requires, for every transfer's source account, a
    /// present and valid detached signature over those exact bytes. A pure
    /// predicate: no state is kept, and re-running it yields the same
    /// result. The bounty payer is not checked — only transfer sources are
    /// mandatory signers.
    pub fn verify_signatures(&self) -> (r: SimplesResult<()>)
        ensures
            result_v(r) == verify_tx(self@),
    {
        let commit_bytes = self.commit.encode();
        let ghost tsv = self@.commit.transfers;
        let ghost sv = self@.signatures;
        let mut i: usize = 0;
        proof {
            assert(tsv.skip(0) =~= tsv);
        }
        while i < self.commit.transfers.len()
            invariant
                i <= tsv.len(),
                tsv == self@.commit.transfers,
                sv == self@.signatures,
                commit_bytes@ == commitment_enc(self@.commit),
                verify_transfers(commit_bytes@, sv, tsv) == verify_transfers(
                    commit_bytes@,
                    sv,
                    tsv.skip(i as int),
                ),
            decreases tsv.len() - i,
        {
            let t = &self.commit.transfers[i];
            proof {
                assert(tsv.skip(i as int).first() == tsv[i as int]);
                assert(tsv.skip(i as int).drop_first() =~= tsv.skip(i + 1));
            }
            match find_signature(&self.signatures, &t.source_pk) {
                None => {
                    return Err(SimplesError::MissingSignature(copy_bytes(&t.source_pk)));
                },
                Some(j) => {
                    if t.source_pk.len() != PUBLIC_KEY_LEN {
                        return Err(SimplesError::KeyDecodeError);
                    }
                    if !verify(&t.source_pk, &commit_bytes, &self.signatures[j].payload) {
                        return Err(SimplesError::InvalidSignature(copy_bytes(&t.source_pk)));
                    }
                },
            }
            i = i + 1;
        }
        proof {
            assert(tsv.skip(tsv.len() as int) =~= Seq::<TransferV>::empty());
        }
        Ok(())
    }
}

// ---------------------------------------------------------------------------
// Building
// ---------------------------------------------------------------------------

/// Accumulates the in-progress commitment and, for each pending transfer,
/// the secret key that will authorize its source account. Secret keys live
/// only here: `build` consumes the builder and the finished transaction
/// holds none of them.
pub struct TransactionBuilder {
    pub transfer_secret_keys: Vec<SecretKey>,
    pub bounty_secret_key: Option<SecretKey>,
    pub commit: Commitment,
}

/// Ghost image of a `TransactionBuilder`.
pub struct BuilderV {
    pub sks: Seq<Seq<u8>>,
    pub bounty_sk: Option<Seq<u8>>,
    pub commit: CommitmentV,
}

impl View for TransactionBuilder {
    type V = BuilderV;

    open spec fn view(&self) -> BuilderV {
        BuilderV {
            sks: self.transfer_secret_keys@.map_values(|k: SecretKey| k@),
            bounty_sk: match self.bounty_secret_key {
                Some(k) => Some(k@),
                None => None,
            },
            commit: self.commit@,
        }
    }
}

/// A builder is well formed when it pairs one secret key with each transfer
/// and all its key material has the scheme's lengths.
pub open spec fn builder_wf(b: BuilderV) -> bool {
    &&& b.sks.len() == b.commit.transfers.len()
    &&& forall|i: int| 0 <= i < b.sks.len() ==> (#[trigger] b.sks[i]).len() == SECRET_KEY_LEN
    &&& forall|i: int|
        0 <= i < b.commit.transfers.len() ==> (#[trigger] b.commit.transfers[i]).source_pk.len()
            == PUBLIC_KEY_LEN
}

/// The signature list that building produces over the commitment bytes:
/// walking the transfers in order, every supplied secret key's fresh
/// signature is checked under the declared source account — the first pair
/// whose signature does not verify aborts the build and is reported — and
/// each source account not yet covered contributes its signature, so one
/// entry is produced per distinct account.
pub open spec fn build_sigs(
    bytes: Seq<u8>,
    ts: Seq<TransferV>,
    sks: Seq<Seq<u8>>,
) -> Result<Seq<DetachedSignatureV>, Seq<u8>>
    decreases ts.len(),
{
    if ts.len() == 0 {
        Ok(Seq::empty())
    } else {
        match build_sigs(bytes, ts.drop_last(), sks.drop_last()) {
            Err(pk) => Err(pk),
            Ok(acc) => {
                let t = ts.last();
                if !signature_valid(t.source_pk, bytes, signature_of(sks.last(), bytes)) {
                    Err(t.source_pk)
                } else if sig_lookup(acc, t.source_pk) is Some {
                    Ok(acc)
                } else {
                    Ok(
                        acc.push(
                            DetachedSignatureV {
                                public_key: t.source_pk,
                                payload: signature_of(sks.last(), bytes),
                            },
                        ),
                    )
                }
            },
        }
    }
}

impl TransactionBuilder {
    /// Well-formedness of the builder's key material.
    pub open spec fn wf(&self) -> bool {
        builder_wf(self@)
    }

    /// An empty builder: no transfers, no keys, no bounty.
    pub fn new() -> (r: TransactionBuilder)
        ensures
            r@.sks.len() == 0,
            r@.bounty_sk is None,
            r@.commit.transfers.len() == 0,
            r@.commit.bounty_pk.len() == 0,
            r@.commit.bounty == 0,
            r.wf(),
    {
        TransactionBuilder {
            transfer_secret_keys: Vec::new(),
            bounty_secret_key: None,
            commit: Commitment { transfers: Vec::new(), bounty_pk: Vec::new(), bounty: 0 },
        }
    }

    /// Appends one transfer to the commitment, remembering the secret key
    /// that will authorize its source account. Operation indices run
    /// sequentially in insertion order, so the caller must pass the next
    /// one; nothing else of the builder changes.
    pub fn add_transfer(
        &mut self,
        sk: &SecretKey,
        source: &PublicKey,
        destination: &PublicKey,
        tokens: u64,
        op_index: u32,
    )
        requires
            old(self).wf(),
            sk.wf(),
            source.wf(),
            destination.wf(),
            op_index == old(self)@.commit.transfers.len(),
        ensures
            final(self).wf(),
            final(self)@.commit.transfers == old(self)@.commit.transfers.push(
                (TransferV { op_index, tokens, source_pk: source@, destination_pk: destination@ }),
            ),
            final(self)@.sks == old(self)@.sks.push(sk@),
            final(self)@.commit.bounty_pk == old(self)@.commit.bounty_pk,
            final(self)@.commit.bounty == old(self)@.commit.bounty,
            final(self)@.bounty_sk == old(self)@.bounty_sk,
    {
        let transfer = Transfer {
            op_index,
            tokens,
            source_pk: copy_bytes(&source.bytes),
            destination_pk: copy_bytes(&destination.bytes),
        };
        self.transfer_secret_keys.push(SecretKey { bytes: copy_bytes(&sk.bytes) });
        self.commit.transfers.push(transfer);
        proof {
            assert(self@.commit.transfers =~= old(self)@.commit.transfers.push(
                (TransferV {
                    op_index,
                    tokens,
                    source_pk: source@,
                    destination_pk: destination@,
                }),
            ));
            assert(self@.sks =~= old(self)@.sks.push(sk@));
        }
    }

    /// Sets the bounty payer and amount. The secret key is remembered with
    /// the builder but — like the bounty account itself — never made a
    /// mandatory signer: verification checks transfer sources only.
    pub fn set_bounty(&mut self, sk: &SecretKey, source: &PublicKey, bounty: u64)
        requires
            old(self).wf(),
            sk.wf(),
            source.wf(),
        ensures
            final(self).wf(),
            final(self)@.commit.bounty_pk == source@,
            final(self)@.commit.bounty == bounty,
            final(self)@.bounty_sk == Some(sk@),
            final(self)@.commit.transfers == old(self)@.commit.transfers,
            final(self)@.sks == old(self)@.sks,
    {
        self.bounty_secret_key = Some(SecretKey { bytes: copy_bytes(&sk.bytes) });
        self.commit.bounty_pk = copy_bytes(&source.bytes);
        self.commit.bounty = bounty;
    }

    /// Consumes the builder: serializes the commitment once, signs those
    /// bytes with every supplied secret key and immediately re-verifies
    /// each fresh signature against the declared source account — aborting
    /// with `InvalidSignature` on the first mismatched key pair, even one
    /// whose account an earlier transfer already covered — keeps one
    /// signature per distinct source account (the first key's), and finally
    /// re-runs full verification on the packaged transaction, so a caller
    /// never receives a transaction that fails its own integrity check.
    pub fn build(self) -> (r: SimplesResult<Transaction>)
        requires
            self.wf(),
        ensures
            ({
                let bytes = commitment_enc(self@.commit);
                let bs = build_sigs(bytes, self@.commit.transfers, self@.sks);
                &&& (r is Ok <==> bs is Ok)
                &&& (r matches Ok(tx) ==> {
                    &&& tx@.commit == self@.commit
                    &&& Ok::<Seq<DetachedSignatureV>, Seq<u8>>(tx@.signatures) == bs
                    &&& verify_tx(tx@) == Ok::<(), SimplesErrorV>(())
                    &&& sig_pks(tx@.signatures).no_duplicates()
                    &&& sig_pks(tx@.signatures).to_set() == source_pks(
                        self@.commit.transfers,
                    ).to_set()
                    &&& tx@.signatures.len() == source_pks(self@.commit.transfers).to_set().len()
                })
                &&& (r matches Err(e) ==> bs matches Err(pk) && e@
                    == SimplesErrorV::InvalidSignature(pk))
            }),
    {
        let TransactionBuilder { transfer_secret_keys: sks, bounty_secret_key: _, commit } = self;
        let commit_bytes = commit.encode();
        let ghost tsv = commit@.transfers;
        let ghost sksv = sks@.map_values(|k: SecretKey| k@);
        proof {
            assert(self@.commit == commit@);
            assert(self@.sks == sksv);
        }
        let mut signatures: Vec<DetachedSignature> = Vec::new();
        let mut i: usize = 0;
        proof {
            assert(tsv.subrange(0, 0) =~= Seq::<TransferV>::empty());
            assert(sksv.subrange(0, 0) =~= Seq::<Seq<u8>>::empty());
            assert(sig_views(signatures@) =~= Seq::<DetachedSignatureV>::empty());
        }
        while i < commit.transfers.len()
            invariant
                i <= tsv.len(),
                tsv == commit@.transfers,
                sksv == sks@.map_values(|k: SecretKey| k@),
                self@.commit == commit@,
                self@.sks == sksv,
                sksv.len() == tsv.len(),
                forall|k: int|
                    0 <= k < tsv.len() ==> (#[trigger] tsv[k]).source_pk.len() == PUBLIC_KEY_LEN,
                forall|k: int| 0 <= k < sksv.len() ==> (#[trigger] sksv[k]).len() == SECRET_KEY_LEN,
                commit_bytes@ == commitment_enc(commit@),
                build_sigs(commit_bytes@, tsv.subrange(0, i as int), sksv.subrange(0, i as int))
                    == Ok::<Seq<DetachedSignatureV>, Seq<u8>>(sig_views(signatures@)),
            decreases tsv.len() - i,
        {
            let t = &commit.transfers[i];
            proof {
                assert(tsv.subrange(0, i + 1).drop_last() =~= tsv.subrange(0, i as int));
                assert(sksv.subrange(0, i + 1).drop_last() =~= sksv.subrange(0, i as int));
                assert(tsv.subrange(0, i + 1).last() == tsv[i as int]);
                assert(sksv.subrange(0, i + 1).last() == sksv[i as int]);
            }
            let sig = sign(&sks[i], &commit_bytes);
            if !verify(&t.source_pk, &commit_bytes, &sig) {
                proof {
                    assert(sksv[i as int] == sks@[i as int]@);
                    assert(tsv[i as int] == commit.transfers@[i as int]@);
                    assert(!signature_valid(
                        tsv[i as int].source_pk,
                        commit_bytes@,
                        signature_of(sksv[i as int], commit_bytes@),
                    ));
                    assert(build_sigs(
                        commit_bytes@,
                        tsv.subrange(0, i + 1),
                        sksv.subrange(0, i + 1),
                    ) == Err::<Seq<DetachedSignatureV>, Seq<u8>>(tsv[i as int].source_pk));
                    lemma_build_sigs_err_extend(commit_bytes@, tsv, sksv, i + 1);
                }
                return Err(SimplesError::InvalidSignature(copy_bytes(&t.source_pk)));
            }
            match find_signature(&signatures, &t.source_pk) {
                Some(_) => {},
                None => {
                    let ghost prev = sig_views(signatures@);
                    signatures.push(
                        DetachedSignature { public_key: copy_bytes(&t.source_pk), payload: sig },
                    );
                    proof {
                        assert(sig_views(signatures@) =~= prev.push(
                            (DetachedSignatureV {
                                public_key: tsv[i as int].source_pk,
                                payload: signature_of(sksv[i as int], commit_bytes@),
                            }),
                        ));
                    }
                },
            }
            i = i + 1;
        }
        proof {
            assert(tsv.subrange(0, tsv.len() as int) =~= tsv);
            assert(sksv.subrange(0, sksv.len() as int) =~= sksv);
        }
        let transaction = Transaction { commit, signatures };
        proof {
            lemma_build_sigs_props(commit_bytes@, tsv, sksv);
            assert forall|k: int| 0 <= k < tsv.len() implies sig_lookup(
                transaction@.signatures,
                (#[trigger] tsv[k]).source_pk,
            ) is Some by {
                assert(source_pks(tsv)[k] == tsv[k].source_pk);
                assert(source_pks(tsv).contains(tsv[k].source_pk));
                assert(sig_pks(transaction@.signatures).to_set().contains(tsv[k].source_pk));
                lemma_sig_lookup_contains(transaction@.signatures, tsv[k].source_pk);
            };
            lemma_verify_all_ok(commit_bytes@, transaction@.signatures, tsv);
            sig_pks(transaction@.signatures).unique_seq_to_set();
        }
        match transaction.verify_signatures() {
            Ok(_) => Ok(transaction),
            Err(e) => Err(e),
        }
    }
}

impl Default for TransactionBuilder {
    /// The same empty builder that [`TransactionBuilder::new`] returns.
    fn default() -> (r: TransactionBuilder)
        ensures
            r@.sks.len() == 0,
            r@.bounty_sk is None,
            r@.commit.transfers.len() == 0,
            r@.commit.bounty_pk.len() == 0,
            r@.commit.bounty == 0,
            r.wf(),
    {
        TransactionBuilder::new()
    }
}

// ---------------------------------------------------------------------------
// Lemmas about lookup, building and verification
// ---------------------------------------------------------------------------

/// A lookup succeeds exactly when the key occurs among the entries.
proof fn lemma_sig_lookup_contains(sigs: Seq<DetachedSignatureV>, pk: Seq<u8>)
    ensures
        (sig_lookup(sigs, pk) is Some) <==> sig_pks(sigs).contains(pk),
    decreases sigs.len(),
{
    if sigs.len() == 0 {
    } else if sigs.last().public_key == pk {
        assert(sig_pks(sigs)[sigs.len() - 1] == pk);
    } else {
        lemma_sig_lookup_contains(sigs.drop_last(), pk);
        if sig_pks(sigs).contains(pk) {
            let k = choose|k: int| 0 <= k < sig_pks(sigs).len() && sig_pks(sigs)[k] == pk;
            assert(sigs[k].public_key == pk);
            assert(k < sigs.len() - 1);
            assert(sig_pks(sigs.drop_last())[k] == pk);
        }
        if sig_pks(sigs.drop_last()).contains(pk) {
            let k = choose|k: int|
                0 <= k < sig_pks(sigs.drop_last()).len() && sig_pks(sigs.drop_last())[k] == pk;
            assert(sig_pks(sigs)[k] == pk);
        }
    }
}

/// What a successful lookup returns is the payload of an entry that carries
/// exactly the key looked up.
proof fn lemma_sig_lookup_entry(sigs: Seq<DetachedSignatureV>, pk: Seq<u8>)
    requires
        sig_lookup(sigs, pk) is Some,
    ensures
        exists|j: int|
            0 <= j < sigs.len() && (#[trigger] sigs[j]).public_key == pk && sigs[j].payload
                == sig_lookup(sigs, pk)->Some_0,
    decreases sigs.len(),
{
    if sigs.last().public_key == pk {
        assert(sigs[sigs.len() - 1].public_key == pk);
    } else {
        lemma_sig_lookup_entry(sigs.drop_last(), pk);
        let j = choose|j: int|
            0 <= j < sigs.drop_last().len() && (#[trigger] sigs.drop_last()[j]).public_key == pk
                && sigs.drop_last()[j].payload == sig_lookup(sigs.drop_last(), pk)->Some_0;
        assert(sigs[j] == sigs.drop_last()[j]);
    }
}

/// Appending an element to a sequence inserts it into the sequence's set.
proof fn lemma_to_set_push(s: Seq<Seq<u8>>, x: Seq<u8>)
    ensures
        s.push(x).to_set() == s.to_set().insert(x),
{
    assert forall|y: Seq<u8>| s.push(x).to_set().contains(y) implies s.to_set().insert(
        x,
    ).contains(y) by {
        let k = choose|k: int| 0 <= k < s.push(x).len() && s.push(x)[k] == y;
        if k < s.len() {
            assert(s[k] == y);
        }
    };
    assert forall|y: Seq<u8>| s.to_set().insert(x).contains(y) implies s.push(
        x,
    ).to_set().contains(y) by {
        if y == x {
            assert(s.push(x)[s.len() as int] == y);
        } else {
            let k = choose|k: int| 0 <= k < s.len() && s[k] == y;
            assert(s.push(x)[k] == y);
        }
    };
    assert(s.push(x).to_set() =~= s.to_set().insert(x));
}

/// Appending a fresh element keeps a duplicate-free sequence duplicate-free.
proof fn lemma_no_dup_push(s: Seq<Seq<u8>>, x: Seq<u8>)
    requires
        s.no_duplicates(),
        !s.contains(x),
    ensures
        s.push(x).no_duplicates(),
{
    assert forall|i: int, j: int|
        0 <= i < s.push(x).len() && 0 <= j < s.push(x).len() && i != j implies s.push(x)[i]
        != s.push(x)[j] by {
        if i == s.len() {
            if s.push(x)[j] == x {
                assert(s[j] == x);
            }
        } else if j == s.len() {
            if s.push(x)[i] == x {
                assert(s[i] == x);
            }
        }
    };
}

/// Once a prefix of the transfer list fails to build, the whole list fails
/// with the same offending account.
proof fn lemma_build_sigs_err_extend(bytes: Seq<u8>, ts: Seq<TransferV>, sks: Seq<Seq<u8>>, k: int)
    requires
        sks.len() == ts.len(),
        0 <= k <= ts.len(),
        build_sigs(bytes, ts.subrange(0, k), sks.subrange(0, k)) is Err,
    ensures
        build_sigs(bytes, ts, sks) == build_sigs(bytes, ts.subrange(0, k), sks.subrange(0, k)),
    decreases ts.len() - k,
{
    if k == ts.len() {
        assert(ts.subrange(0, k) =~= ts);
        assert(sks.subrange(0, k) =~= sks);
    } else {
        assert(ts.subrange(0, k + 1).drop_last() =~= ts.subrange(0, k));
        assert(sks.subrange(0, k + 1).drop_last() =~= sks.subrange(0, k));
        lemma_build_sigs_err_extend(bytes, ts, sks, k + 1);
    }
}

/// Structural facts about a successful build: the produced entries carry
/// pairwise distinct keys, exactly the set of source accounts, and each
/// entry validates over the commitment bytes.
proof fn lemma_build_sigs_props(bytes: Seq<u8>, ts: Seq<TransferV>, sks: Seq<Seq<u8>>)
    requires
        sks.len() == ts.len(),
        build_sigs(bytes, ts, sks) is Ok,
    ensures
        ({
            let sigs = build_sigs(bytes, ts, sks)->Ok_0;
            &&& sig_pks(sigs).no_duplicates()
            &&& sig_pks(sigs).to_set() == source_pks(ts).to_set()
            &&& forall|j: int|
                0 <= j < sigs.len() ==> signature_valid(
                    (#[trigger] sigs[j]).public_key,
                    bytes,
                    sigs[j].payload,
                )
        }),
    decreases ts.len(),
{
    if ts.len() == 0 {
        let sigs = build_sigs(bytes, ts, sks)->Ok_0;
        assert(sig_pks(sigs).to_set() =~= source_pks(ts).to_set());
    } else {
        assert(build_sigs(bytes, ts.drop_last(), sks.drop_last()) is Ok);
        lemma_build_sigs_props(bytes, ts.drop_last(), sks.drop_last());
        let acc = build_sigs(bytes, ts.drop_last(), sks.drop_last())->Ok_0;
        let t = ts.last();
        let sigs = build_sigs(bytes, ts, sks)->Ok_0;
        assert(source_pks(ts).drop_last() =~= source_pks(ts.drop_last()));
        assert(source_pks(ts) =~= source_pks(ts.drop_last()).push(t.source_pk));
        lemma_to_set_push(source_pks(ts.drop_last()), t.source_pk);
        lemma_sig_lookup_contains(acc, t.source_pk);
        if sig_lookup(acc, t.source_pk) is Some {
            assert(sig_pks(acc).to_set().contains(t.source_pk));
            assert(sig_pks(sigs).to_set() =~= source_pks(ts).to_set());
        } else {
            let entry = DetachedSignatureV {
                public_key: t.source_pk,
                payload: signature_of(sks.last(), bytes),
            };
            assert(sigs == acc.push(entry));
            assert(sig_pks(sigs) =~= sig_pks(acc).push(t.source_pk));
            lemma_to_set_push(sig_pks(acc), t.source_pk);
            lemma_no_dup_push(sig_pks(acc), t.source_pk);
            assert forall|j: int| 0 <= j < sigs.len() implies signature_valid(
                (#[trigger] sigs[j]).public_key,
                bytes,
                sigs[j].payload,
            ) by {
                if j < acc.len() {
                    assert(sigs[j] == acc[j]);
                }
            };
        }
    }
}

/// When every secret key matches its declared source account — each fresh
/// signature verifies — building the signature list succeeds.
proof fn lemma_build_sigs_ok(bytes: Seq<u8>, ts: Seq<TransferV>, sks: Seq<Seq<u8>>)
    requires
        sks.len() == ts.len(),
        forall|i: int|
            0 <= i < ts.len() ==> signature_valid(
                (#[trigger] ts[i]).source_pk,
                bytes,
                signature_of(sks[i], bytes),
            ),
    ensures
        build_sigs(bytes, ts, sks) is Ok,
    decreases ts.len(),
{
    if ts.len() == 0 {
    } else {
        assert forall|i: int| 0 <= i < ts.drop_last().len() implies signature_valid(
            (#[trigger] ts.drop_last()[i]).source_pk,
            bytes,
            signature_of(sks.drop_last()[i], bytes),
        ) by {
            assert(ts.drop_last()[i] == ts[i]);
            assert(sks.drop_last()[i] == sks[i]);
        };
        lemma_build_sigs_ok(bytes, ts.drop_last(), sks.drop_last());
        assert(ts[ts.len() - 1] == ts.last());
        assert(sks[ts.len() - 1] == sks.last());
    }
}

/// When every transfer's source account is a key of the right length, has
/// an entry, and every entry validates over the bytes, verification
/// succeeds on the whole list.
proof fn lemma_verify_all_ok(bytes: Seq<u8>, sigs: Seq<DetachedSignatureV>, ts: Seq<TransferV>)
    requires
        forall|k: int| 0 <= k < ts.len() ==> (#[trigger] ts[k]).source_pk.len() == PUBLIC_KEY_LEN,
        forall|k: int|
            0 <= k < ts.len() ==> sig_lookup(sigs, (#[trigger] ts[k]).source_pk) is Some,
        forall|j: int|
            0 <= j < sigs.len() ==> signature_valid(
                (#[trigger] sigs[j]).public_key,
                bytes,
                sigs[j].payload,
            ),
    ensures
        verify_transfers(bytes, sigs, ts) == Ok::<(), SimplesErrorV>(()),
    decreases ts.len(),
{
    if ts.len() == 0 {
    } else {
        let t = ts.first();
        assert(ts[0] == t);
        lemma_sig_lookup_entry(sigs, t.source_pk);
        assert(check_transfer(bytes, sigs, t) == Ok::<(), SimplesErrorV>(()));
        assert forall|k: int| 0 <= k < ts.drop_first().len() implies (#[trigger] ts.drop_first()[k]).source_pk.len()
            == PUBLIC_KEY_LEN && sig_lookup(sigs, ts.drop_first()[k].source_pk) is Some by {
            assert(ts.drop_first()[k] == ts[k + 1]);
        };
        lemma_verify_all_ok(bytes, sigs, ts.drop_first());
    }
}

/// If some transfer's check fails, verifying the whole list fails.
proof fn lemma_some_check_err(bytes: Seq<u8>, sigs: Seq<DetachedSignatureV>, ts: Seq<TransferV>)
    requires
        exists|k: int|
            0 <= k < ts.len() && check_transfer(bytes, sigs, #[trigger] ts[k]) is Err,
    ensures
        verify_transfers(bytes, sigs, ts) is Err,
    decreases ts.len(),
{
    let k = choose|k: int| 0 <= k < ts.len() && check_transfer(bytes, sigs, #[trigger] ts[k]) is Err;
    if check_transfer(bytes, sigs, ts.first()) is Err {
    } else {
        assert(ts.first() == ts[0]);
        assert(k != 0);
        assert(ts.drop_first()[k - 1] == ts[k]);
        lemma_some_check_err(bytes, sigs, ts.drop_first());
    }
}

/// The first failing transfer determines the verification error.
proof fn lemma_verify_first_err(
    bytes: Seq<u8>,
    sigs: Seq<DetachedSignatureV>,
    ts: Seq<TransferV>,
    k: int,
    e: SimplesErrorV,
)
    requires
        0 <= k < ts.len(),
        forall|j: int| 0 <= j < k ==> check_transfer(bytes, sigs, #[trigger] ts[j]) is Ok,
        check_transfer(bytes, sigs, ts[k]) == Err::<(), SimplesErrorV>(e),
    ensures
        verify_transfers(bytes, sigs, ts) == Err::<(), SimplesErrorV>(e),
    decreases k,
{
    assert(ts.first() == ts[0]);
    if k == 0 {
    } else {
        assert forall|j: int| 0 <= j < k - 1 implies check_transfer(
            bytes,
            sigs,
            #[trigger] ts.drop_first()[j],
        ) is Ok by {
            assert(ts.drop_first()[j] == ts[j + 1]);
        };
        assert(ts.drop_first()[k - 1] == ts[k]);
        lemma_verify_first_err(bytes, sigs, ts.drop_first(), k - 1, e);
    }
}

// ---------------------------------------------------------------------------
// Laws
// ---------------------------------------------------------------------------

/// Build-then-verify law. For every well-formed builder whose secret keys
/// match their declared source accounts — the scheme accepts each account's
/// fresh signature over the commitment bytes — building succeeds, and the
/// built transaction passes verification.
pub proof fn lemma_build_then_verify(b: BuilderV)
    requires
        builder_wf(b),
        forall|i: int|
            0 <= i < b.commit.transfers.len() ==> signature_valid(
                (#[trigger] b.commit.transfers[i]).source_pk,
                commitment_enc(b.commit),
                signature_of(b.sks[i], commitment_enc(b.commit)),
            ),
    ensures
        build_sigs(commitment_enc(b.commit), b.commit.transfers, b.sks) is Ok,
        build_sigs(commitment_enc(b.commit), b.commit.transfers, b.sks) matches Ok(sigs)
            ==> verify_tx((TransactionV { commit: b.commit, signatures: sigs }))
            == Ok::<(), SimplesErrorV>(()),
{
    let bytes = commitment_enc(b.commit);
    let ts = b.commit.transfers;
    lemma_build_sigs_ok(bytes, ts, b.sks);
    lemma_build_sigs_props(bytes, ts, b.sks);
    let sigs = build_sigs(bytes, ts, b.sks)->Ok_0;
    assert forall|k: int| 0 <= k < ts.len() implies sig_lookup(
        sigs,
        (#[trigger] ts[k]).source_pk,
    ) is Some by {
        assert(source_pks(ts)[k] == ts[k].source_pk);
        assert(source_pks(ts).contains(ts[k].source_pk));
        assert(sig_pks(sigs).to_set().contains(ts[k].source_pk));
        lemma_sig_lookup_contains(sigs, ts[k].source_pk);
    };
    lemma_verify_all_ok(bytes, sigs, ts);
}

/// Missing-signature law. If some transfer's source account has no entry in
/// a transaction's signature list, verification rejects the transaction;
/// and when every transfer before that one passes its check, the error is
/// `MissingSignature` naming that account.
pub proof fn lemma_missing_signature(t: TransactionV, k: int)
    requires
        0 <= k < t.commit.transfers.len(),
        sig_lookup(t.signatures, t.commit.transfers[k].source_pk) is None,
    ensures
        verify_tx(t) is Err,
        (forall|j: int|
            0 <= j < k ==> check_transfer(
                commitment_enc(t.commit),
                t.signatures,
                #[trigger] t.commit.transfers[j],
            ) is Ok) ==> verify_tx(t) == Err::<(), SimplesErrorV>(
            SimplesErrorV::MissingSignature(t.commit.transfers[k].source_pk),
        ),
{
    let bytes = commitment_enc(t.commit);
    let ts = t.commit.transfers;
    assert(check_transfer(bytes, t.signatures, ts[k]) == Err::<(), SimplesErrorV>(
        SimplesErrorV::MissingSignature(ts[k].source_pk),
    ));
    lemma_some_check_err(bytes, t.signatures, ts);
    if forall|j: int|
        0 <= j < k ==> check_transfer(bytes, t.signatures, #[trigger] ts[j]) is Ok {
        lemma_verify_first_err(
            bytes,
            t.signatures,
            ts,
            k,
            SimplesErrorV::MissingSignature(ts[k].source_pk),
        );
    }
}

/// Signature-count law. A successful build yields exactly one detached
/// signature per distinct source account: with N transfers over K distinct
/// source keys, the list holds exactly K entries.
pub proof fn lemma_signature_count(bytes: Seq<u8>, ts: Seq<TransferV>, sks: Seq<Seq<u8>>)
    requires
        sks.len() == ts.len(),
        build_sigs(bytes, ts, sks) is Ok,
    ensures
        build_sigs(bytes, ts, sks) matches Ok(sigs) ==> sigs.len() == source_pks(
            ts,
        ).to_set().len(),
{
    lemma_build_sigs_props(bytes, ts, sks);
    sig_pks(build_sigs(bytes, ts, sks)->Ok_0).unique_seq_to_set();
}

/// A transfer's bytes frame its fields: equal concatenations that both
/// start with an encoded transfer agree on the transfer and on what
/// follows.
proof fn lemma_transfer_enc_frame(a: TransferV, b: TransferV, u: Seq<u8>, v: Seq<u8>)
    requires
        transfer_enc(a) + u == transfer_enc(b) + v,
    ensures
        a == b,
        u == v,
{
    let ta = uint_field(TAG_TOKENS, a.tokens as nat) + (bytes_field(TAG_SOURCE_PK, a.source_pk) + (
    bytes_field(TAG_DESTINATION_PK, a.destination_pk) + u));
    let tb = uint_field(TAG_TOKENS, b.tokens as nat) + (bytes_field(TAG_SOURCE_PK, b.source_pk) + (
    bytes_field(TAG_DESTINATION_PK, b.destination_pk) + v));
    assert(transfer_enc(a) + u =~= uint_field(TAG_OP_INDEX, a.op_index as nat) + ta);
    assert(transfer_enc(b) + v =~= uint_field(TAG_OP_INDEX, b.op_index as nat) + tb);
    lemma_uint_field_frame(TAG_OP_INDEX, a.op_index as nat, b.op_index as nat, ta, tb);
    lemma_uint_field_frame(
        TAG_TOKENS,
        a.tokens as nat,
        b.tokens as nat,
        bytes_field(TAG_SOURCE_PK, a.source_pk) + (bytes_field(
            TAG_DESTINATION_PK,
            a.destination_pk,
        ) + u),
        bytes_field(TAG_SOURCE_PK, b.source_pk) + (bytes_field(
            TAG_DESTINATION_PK,
            b.destination_pk,
        ) + v),
    );
    lemma_bytes_field_frame(
        TAG_SOURCE_PK,
        a.source_pk,
        b.source_pk,
        bytes_field(TAG_DESTINATION_PK, a.destination_pk) + u,
        bytes_field(TAG_DESTINATION_PK, b.destination_pk) + v,
    );
    lemma_bytes_field_frame(TAG_DESTINATION_PK, a.destination_pk, b.destination_pk, u, v);
    assert(a =~= b);
}

/// The bytes of a nonempty transfer list start with the first transfer's
/// field, followed by the rest of the list.
proof fn lemma_transfers_enc_first(ts: Seq<TransferV>)
    requires
        ts.len() > 0,
    ensures
        transfers_enc(ts) == bytes_field(TAG_TRANSFER, transfer_enc(ts.first()))
            + transfers_enc(ts.drop_first()),
    decreases ts.len(),
{
    if ts.len() == 1 {
        assert(ts.drop_last() =~= Seq::<TransferV>::empty());
        assert(ts.drop_first() =~= Seq::<TransferV>::empty());
        assert(ts.last() == ts.first());
        assert(transfers_enc(ts) =~= bytes_field(TAG_TRANSFER, transfer_enc(ts.first()))
            + transfers_enc(ts.drop_first()));
    } else {
        lemma_transfers_enc_first(ts.drop_last());
        assert(ts.drop_last().first() == ts.first());
        assert(ts.drop_last().drop_first() =~= ts.drop_first().drop_last());
        assert(ts.drop_first().last() == ts.last());
        assert(transfers_enc(ts.drop_first()) == transfers_enc(ts.drop_first().drop_last())
            + bytes_field(TAG_TRANSFER, transfer_enc(ts.drop_first().last())));
        assert(transfers_enc(ts) =~= bytes_field(TAG_TRANSFER, transfer_enc(ts.first()))
            + transfers_enc(ts.drop_first()));
    }
}

/// Transfer lists frame their contents, as long as what follows them does
/// not itself look like another transfer field.
proof fn lemma_transfers_enc_frame(x: Seq<TransferV>, y: Seq<TransferV>, u: Seq<u8>, v: Seq<u8>)
    requires
        transfers_enc(x) + u == transfers_enc(y) + v,
        u.len() == 0 || u[0] != TAG_TRANSFER,
        v.len() == 0 || v[0] != TAG_TRANSFER,
    ensures
        x == y,
        u == v,
    decreases x.len(),
{
    if x.len() == 0 && y.len() == 0 {
        assert(u =~= transfers_enc(x) + u);
        assert(v =~= transfers_enc(y) + v);
    } else if x.len() > 0 && y.len() > 0 {
        lemma_transfers_enc_first(x);
        lemma_transfers_enc_first(y);
        assert(transfers_enc(x) + u =~= bytes_field(TAG_TRANSFER, transfer_enc(x.first())) + (
        transfers_enc(x.drop_first()) + u));
        assert(transfers_enc(y) + v =~= bytes_field(TAG_TRANSFER, transfer_enc(y.first())) + (
        transfers_enc(y.drop_first()) + v));
        lemma_bytes_field_frame(
            TAG_TRANSFER,
            transfer_enc(x.first()),
            transfer_enc(y.first()),
            transfers_enc(x.drop_first()) + u,
            transfers_enc(y.drop_first()) + v,
        );
        assert(transfer_enc(x.first()) + Seq::<u8>::empty() =~= transfer_enc(x.first()));
        assert(transfer_enc(y.first()) + Seq::<u8>::empty() =~= transfer_enc(y.first()));
        lemma_transfer_enc_frame(x.first(), y.first(), Seq::empty(), Seq::empty());
        lemma_transfers_enc_frame(x.drop_first(), y.drop_first(), u, v);
        assert forall|i: int| 0 <= i < x.len() implies x[i] == y[i] by {
            if i > 0 {
                assert(x.drop_first()[i - 1] == x[i]);
                assert(y.drop_first()[i - 1] == y[i]);
            }
        };
        assert(x =~= y);
    } else if x.len() == 0 {
        lemma_transfers_enc_first(y);
        assert((transfers_enc(y) + v)[0] == TAG_TRANSFER);
        assert(transfers_enc(x) + u =~= u);
        assert(u[0] == TAG_TRANSFER);
    } else {
        lemma_transfers_enc_first(x);
        assert((transfers_enc(x) + u)[0] == TAG_TRANSFER);
        assert(transfers_enc(y) + v =~= v);
        assert(v[0] == TAG_TRANSFER);
    }
}

/// A commitment is canonical when a missing bounty payer carries no bounty
/// amount. Freshly built commitments are canonical: the amount is set only
/// together with the payer.
pub open spec fn commitment_canonical(c: CommitmentV) -> bool {
    c.bounty_pk.len() == 0 ==> c.bounty == 0
}

/// Tamper-evidence law, the encoding half. Distinct canonical commitments
/// have distinct canonical bytes, so changing any part of a commitment
/// after signing changes the exact message that every signature is checked
/// against. That a signature over the old bytes then fails over the new
/// ones is the signature scheme's unforgeability, which stays with the
/// external primitive.
pub proof fn lemma_commitment_enc_injective(a: CommitmentV, b: CommitmentV)
    requires
        commitment_canonical(a),
        commitment_canonical(b),
        commitment_enc(a) == commitment_enc(b),
    ensures
        a == b,
{
    if a.bounty_pk.len() == 0 && b.bounty_pk.len() == 0 {
        assert(transfers_enc(a.transfers) + Seq::<u8>::empty() =~= commitment_enc(a));
        assert(transfers_enc(b.transfers) + Seq::<u8>::empty() =~= commitment_enc(b));
        lemma_transfers_enc_frame(a.transfers, b.transfers, Seq::empty(), Seq::empty());
        assert(a.bounty_pk =~= b.bounty_pk);
        assert(a =~= b);
    } else if a.bounty_pk.len() > 0 && b.bounty_pk.len() > 0 {
        let ua = bytes_field(TAG_BOUNTY_PK, a.bounty_pk) + uint_field(TAG_BOUNTY, a.bounty as nat);
        let ub = bytes_field(TAG_BOUNTY_PK, b.bounty_pk) + uint_field(TAG_BOUNTY, b.bounty as nat);
        assert(commitment_enc(a) =~= transfers_enc(a.transfers) + ua);
        assert(commitment_enc(b) =~= transfers_enc(b.transfers) + ub);
        assert(ua[0] == TAG_BOUNTY_PK);
        assert(ub[0] == TAG_BOUNTY_PK);
        lemma_transfers_enc_frame(a.transfers, b.transfers, ua, ub);
        lemma_bytes_field_frame(
            TAG_BOUNTY_PK,
            a.bounty_pk,
            b.bounty_pk,
            uint_field(TAG_BOUNTY, a.bounty as nat),
            uint_field(TAG_BOUNTY, b.bounty as nat),
        );
        lemma_uint_field_frame(
            TAG_BOUNTY,
            a.bounty as nat,
            b.bounty as nat,
            Seq::empty(),
            Seq::empty(),
        );
        assert(a =~= b);
    } else if a.bounty_pk.len() == 0 {
        let ub = bytes_field(TAG_BOUNTY_PK, b.bounty_pk) + uint_field(TAG_BOUNTY, b.bounty as nat);
        assert(commitment_enc(a) =~= transfers_enc(a.transfers) + Seq::<u8>::empty());
        assert(commitment_enc(b) =~= transfers_enc(b.transfers) + ub);
        assert(ub[0] == TAG_BOUNTY_PK);
        lemma_transfers_enc_frame(a.transfers, b.transfers, Seq::empty(), ub);
        assert(ub.len() > 0);
    } else {
        let ua = bytes_field(TAG_BOUNTY_PK, a.bounty_pk) + uint_field(TAG_BOUNTY, a.bounty as nat);
        assert(commitment_enc(a) =~= transfers_enc(a.transfers) + ua);
        assert(commitment_enc(b) =~= transfers_enc(b.transfers) + Seq::<u8>::empty());
        assert(ua[0] == TAG_BOUNTY_PK);
        lemma_transfers_enc_frame(a.transfers, b.transfers, ua, Seq::empty());
        assert(ua.len() > 0);
    }
}

/// Mismatched-key law. If some supplied secret key does not match its
/// declared source account — its fresh signature over the commitment bytes
/// does not verify — and every earlier pair does match, building fails and
/// reports exactly that account, whether or not an earlier transfer
/// already covered it.
pub proof fn lemma_build_rejects_mismatch(
    bytes: Seq<u8>,
    ts: Seq<TransferV>,
    sks: Seq<Seq<u8>>,
    k: int,
)
    requires
        sks.len() == ts.len(),
        0 <= k < ts.len(),
        !signature_valid(ts[k].source_pk, bytes, signature_of(sks[k], bytes)),
        forall|j: int|
            0 <= j < k ==> signature_valid(
                (#[trigger] ts[j]).source_pk,
                bytes,
                signature_of(sks[j], bytes),
            ),
    ensures
        build_sigs(bytes, ts, sks) == Err::<Seq<DetachedSignatureV>, Seq<u8>>(ts[k].source_pk),
{
    assert forall|i: int| 0 <= i < k implies signature_valid(
        (#[trigger] ts.subrange(0, k)[i]).source_pk,
        bytes,
        signature_of(sks.subrange(0, k)[i], bytes),
    ) by {
        assert(ts.subrange(0, k)[i] == ts[i]);
        assert(sks.subrange(0, k)[i] == sks[i]);
    };
    lemma_build_sigs_ok(bytes, ts.subrange(0, k), sks.subrange(0, k));
    assert(ts.subrange(0, k + 1).drop_last() =~= ts.subrange(0, k));
    assert(sks.subrange(0, k + 1).drop_last() =~= sks.subrange(0, k));
    assert(ts.subrange(0, k + 1).last() == ts[k]);
    assert(sks.subrange(0, k + 1).last() == sks[k]);
    assert(build_sigs(bytes, ts.subrange(0, k + 1), sks.subrange(0, k + 1)) == Err::<
        Seq<DetachedSignatureV>,
        Seq<u8>,
    >(ts[k].source_pk));
    lemma_build_sigs_err_extend(bytes, ts, sks, k + 1);
}

/// Tamper-evidence law, the rejection half. When a transaction's
/// commitment no longer matches what was signed — every stored signature
/// fails the scheme over the commitment's current bytes, which is what
/// unforgeability gives after any byte of a signed commitment changed —
/// verification rejects the transaction with `InvalidSignature` naming the
/// first transfer's source, provided that source is still covered by an
/// entry and is a key of the right length.
pub proof fn lemma_tampered_commitment_rejected(t: TransactionV)
    requires
        t.commit.transfers.len() > 0,
        forall|j: int|
            0 <= j < t.signatures.len() ==> !signature_valid(
                (#[trigger] t.signatures[j]).public_key,
                commitment_enc(t.commit),
                t.signatures[j].payload,
            ),
        forall|k: int|
            0 <= k < t.commit.transfers.len() ==> sig_lookup(
                t.signatures,
                (#[trigger] t.commit.transfers[k]).source_pk,
            ) is Some,
        t.commit.transfers[0].source_pk.len() == PUBLIC_KEY_LEN,
    ensures
        verify_tx(t) == Err::<(), SimplesErrorV>(
            SimplesErrorV::InvalidSignature(t.commit.transfers[0].source_pk),
        ),
{
    let bytes = commitment_enc(t.commit);
    let t0 = t.commit.transfers[0];
    lemma_sig_lookup_entry(t.signatures, t0.source_pk);
    assert(check_transfer(bytes, t.signatures, t0) == Err::<(), SimplesErrorV>(
        SimplesErrorV::InvalidSignature(t0.source_pk),
    ));
    lemma_verify_first_err(
        bytes,
        t.signatures,
        t.commit.transfers,
        0,
        SimplesErrorV::InvalidSignature(t0.source_pk),
    );
}

/// Idempotence law. Verification is a pure function of the transaction:
/// any two runs on the same unmodified transaction return the same result.
pub proof fn lemma_verify_idempotent(
    t: TransactionV,
    r1: Result<(), SimplesErrorV>,
    r2: Result<(), SimplesErrorV>,
)
    requires
        r1 == verify_tx(t),
        r2 == verify_tx(t),
    ensures
        r1 == r2,
{
}

} // verus!
