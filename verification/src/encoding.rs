//! Primitives of the canonical wire encoding: little-endian base-128
//! varints and field-tagged values. Every message of the ledger core is
//! encoded with these, so that the same logical content always yields the
//! same bytes — the property signatures depend on.

use vstd::prelude::*;

verus! {

/// The byte string that encodes `n` as a little-endian base-128 varint:
/// seven payload bits per byte, the high bit set on every byte but the last.
pub open spec fn varint(n: nat) -> Seq<u8>
    decreases n,
{
    if n < 128 {
        seq![n as u8]
    } else {
        seq![(n % 128 + 128) as u8] + varint(n / 128)
    }
}

/// The encoding of a field holding the unsigned integer `n`, introduced by
/// the one-byte tag `tag`.
pub open spec fn uint_field(tag: u8, n: nat) -> Seq<u8> {
    seq![tag] + varint(n)
}

/// The encoding of a field holding the byte string `b`, introduced by the
/// one-byte tag `tag`: the tag, then the length as a varint, then the bytes.
pub open spec fn bytes_field(tag: u8, b: Seq<u8>) -> Seq<u8> {
    seq![tag] + varint(b.len()) + b
}

/// Appends the varint encoding of `n` to `out`.
pub fn encode_varint(out: &mut Vec<u8>, n: u64)
    ensures
        final(out)@ == old(out)@ + varint(n as nat),
    decreases n,
{
    if n < 128 {
        out.push(n as u8);
        assert(final(out)@ =~= old(out)@ + varint(n as nat));
    } else {
        let b: u8 = (n % 128 + 128) as u8;
        out.push(b);
        encode_varint(out, n / 128);
        assert(final(out)@ =~= old(out)@ + varint(n as nat));
    }
}

/// Appends the encoding of an unsigned-integer field to `out`.
pub fn encode_uint_field(out: &mut Vec<u8>, tag: u8, n: u64)
    ensures
        final(out)@ == old(out)@ + uint_field(tag, n as nat),
{
    out.push(tag);
    encode_varint(out, n);
    assert(final(out)@ =~= old(out)@ + uint_field(tag, n as nat));
}

/// Appends the encoding of a byte-string field to `out`.
pub fn encode_bytes_field(out: &mut Vec<u8>, tag: u8, b: &Vec<u8>)
    ensures
        final(out)@ == old(out)@ + bytes_field(tag, b@),
{
    out.push(tag);
    encode_varint(out, b.len() as u64);
    let ghost before_payload: Seq<u8> = out@;
    let mut i: usize = 0;
    while i < b.len()
        invariant
            i <= b@.len(),
            out@ == before_payload + b@.subrange(0, i as int),
        decreases b@.len() - i,
    {
        out.push(b[i]);
        i = i + 1;
        assert(out@ =~= before_payload + b@.subrange(0, i as int));
    }
    assert(b@.subrange(0, b@.len() as int) =~= b@);
    assert(final(out)@ =~= old(out)@ + bytes_field(tag, b@));
}

/// Varints are prefix-free: when two of them start the same byte string,
/// they encode the same value and end at the same place.
pub proof fn lemma_varint_prefix_free(m: nat, n: nat, u: Seq<u8>, v: Seq<u8>)
    requires
        varint(m) + u == varint(n) + v,
    ensures
        m == n,
        u == v,
    decreases m,
{
    let s = varint(m) + u;
    assert(s[0] == varint(m)[0]);
    assert(s[0] == varint(n)[0]);
    if m < 128 && n < 128 {
        assert(varint(m)[0] == m as u8);
        assert(varint(n)[0] == n as u8);
        assert(u =~= s.subrange(1, s.len() as int));
        assert(v =~= s.subrange(1, s.len() as int));
    } else if m >= 128 && n >= 128 {
        assert(varint(m)[0] == (m % 128 + 128) as u8);
        assert(varint(n)[0] == (n % 128 + 128) as u8);
        assert(m % 128 == n % 128);
        assert(varint(m) + u =~= seq![(m % 128 + 128) as u8] + (varint(m / 128) + u));
        assert(varint(n) + v =~= seq![(n % 128 + 128) as u8] + (varint(n / 128) + v));
        assert(varint(m / 128) + u =~= (seq![(m % 128 + 128) as u8] + (varint(m / 128)
            + u)).drop_first());
        assert(varint(n / 128) + v =~= (seq![(n % 128 + 128) as u8] + (varint(n / 128)
            + v)).drop_first());
        lemma_varint_prefix_free(m / 128, n / 128, u, v);
    } else if m < 128 {
        assert(varint(m)[0] == m as u8);
        assert(varint(n)[0] == (n % 128 + 128) as u8);
    } else {
        assert(varint(n)[0] == n as u8);
        assert(varint(m)[0] == (m % 128 + 128) as u8);
    }
}

/// Byte-string fields frame their contents: equal concatenations that both
/// start with a field of tag `tag` agree on the field's bytes and on what
/// follows.
pub proof fn lemma_bytes_field_frame(tag: u8, a: Seq<u8>, b: Seq<u8>, u: Seq<u8>, v: Seq<u8>)
    requires
        bytes_field(tag, a) + u == bytes_field(tag, b) + v,
    ensures
        a == b,
        u == v,
{
    assert(bytes_field(tag, a) + u =~= seq![tag] + (varint(a.len()) + (a + u)));
    assert(bytes_field(tag, b) + v =~= seq![tag] + (varint(b.len()) + (b + v)));
    assert(varint(a.len()) + (a + u) =~= (seq![tag] + (varint(a.len()) + (a + u))).drop_first());
    assert(varint(b.len()) + (b + v) =~= (seq![tag] + (varint(b.len()) + (b + v))).drop_first());
    lemma_varint_prefix_free(a.len(), b.len(), a + u, b + v);
    assert(a =~= (a + u).subrange(0, a.len() as int));
    assert(b =~= (b + v).subrange(0, b.len() as int));
    assert(u =~= (a + u).subrange(a.len() as int, (a + u).len() as int));
    assert(v =~= (b + v).subrange(b.len() as int, (b + v).len() as int));
}

/// Unsigned-integer fields frame their value in the same way.
pub proof fn lemma_uint_field_frame(tag: u8, m: nat, n: nat, u: Seq<u8>, v: Seq<u8>)
    requires
        uint_field(tag, m) + u == uint_field(tag, n) + v,
    ensures
        m == n,
        u == v,
{
    assert(uint_field(tag, m) + u =~= seq![tag] + (varint(m) + u));
    assert(uint_field(tag, n) + v =~= seq![tag] + (varint(n) + v));
    assert(varint(m) + u =~= (seq![tag] + (varint(m) + u)).drop_first());
    assert(varint(n) + v =~= (seq![tag] + (varint(n) + v)).drop_first());
    lemma_varint_prefix_free(m, n, u, v);
}

/// Whether the canonical varint of `m` stands at `pos` in `bytes`.
pub open spec fn varint_at(bytes: Seq<u8>, pos: int, m: nat) -> bool {
    &&& pos + varint(m).len() <= bytes.len()
    &&& bytes.subrange(pos, pos + varint(m).len()) == varint(m)
}

/// Reads the varint that begins at `pos`: accepts exactly the canonical
/// encoding of one value that fits sixty-four bits, and tells where the
/// next byte after it stands. Complete as well as sound: whenever some
/// value's varint stands at `pos`, that value is returned.
pub fn decode_varint(bytes: &Vec<u8>, pos: usize) -> (r: Option<(u64, usize)>)
    requires
        pos <= bytes@.len(),
    ensures
        r matches Some(p) ==> pos < p.1 <= bytes@.len() && bytes@.subrange(pos as int, p.1 as int)
            == varint(p.0 as nat),
        forall|m: u64|
            #[trigger] varint_at(bytes@, pos as int, m as nat) ==> (r matches Some(p) && p.0 == m
                && p.1 == pos + varint(m as nat).len()),
    decreases bytes@.len() - pos,
{
    if pos == bytes.len() {
        proof {
            assert forall|m: u64| #[trigger] varint_at(bytes@, pos as int, m as nat) implies false by {
                assert(varint(m as nat).len() >= 1);
            };
        }
        return None;
    }
    let b = bytes[pos];
    if b < 128 {
        proof {
            assert(bytes@.subrange(pos as int, pos + 1) =~= varint(b as nat));
            assert forall|m: u64| #[trigger] varint_at(bytes@, pos as int, m as nat) implies b
                as u64 == m && pos + 1 == pos + varint(m as nat).len() by {
                let mm = m as nat;
                if mm >= 128 {
                    assert(varint(mm)[0] == (mm % 128 + 128) as u8);
                    assert(bytes@.subrange(pos as int, pos + varint(mm).len())[0] == bytes@[pos as int]);
                } else {
                    assert(varint(mm)[0] == mm as u8);
                    assert(bytes@.subrange(pos as int, pos + varint(mm).len())[0] == bytes@[pos as int]);
                }
            };
        }
        Some((b as u64, pos + 1))
    } else {
        let sub = decode_varint(bytes, pos + 1);
        proof {
            assert forall|m: u64|
                #[trigger] varint_at(bytes@, pos as int, m as nat) && m >= 128 implies varint_at(
                bytes@,
                pos + 1,
                (m / 128) as nat,
            ) && bytes@[pos as int] == ((m as nat) % 128 + 128) as u8 by {
                let mm = m as nat;
                assert(varint(mm) =~= seq![(mm % 128 + 128) as u8] + varint(mm / 128));
                assert(bytes@.subrange(pos as int, pos + varint(mm).len())[0] == bytes@[pos as int]);
                assert(bytes@.subrange(pos + 1, pos + 1 + varint(mm / 128).len()) =~= varint(
                    mm / 128,
                )) by {
                    assert forall|i: int| 0 <= i < varint(mm / 128).len() implies #[trigger] bytes@
                        .subrange(pos + 1, pos + 1 + varint(mm / 128).len())[i] == varint(
                        mm / 128,
                    )[i] by {
                        assert(bytes@.subrange(pos as int, pos + varint(mm).len())[i + 1]
                            == varint(mm)[i + 1]);
                    };
                };
                assert((m / 128) as nat == mm / 128);
            };
            assert forall|m: u64|
                #[trigger] varint_at(bytes@, pos as int, m as nat) && m < 128 implies false by {
                assert(varint(m as nat)[0] == m as u8);
                assert(bytes@.subrange(pos as int, pos + varint(m as nat).len())[0] == bytes@[pos as int]);
            };
        }
        match sub {
            None => {
                proof {
                    assert forall|m: u64| #[trigger] varint_at(bytes@, pos as int, m as nat) implies false by {
                        assert(varint_at(bytes@, pos + 1, (m / 128) as nat));
                    };
                }
                None
            },
            Some((rest, end)) => {
                let d: u64 = (b - 128) as u64;
                proof {
                    assert forall|m: u64|
                        #[trigger] varint_at(bytes@, pos as int, m as nat) implies rest == m / 128
                        && d == m % 128 && end == pos + 1 + varint((m / 128) as nat).len() by {
                        assert(varint_at(bytes@, pos + 1, (m / 128) as nat));
                        assert(bytes@[pos as int] == ((m as nat) % 128 + 128) as u8);
                    };
                }
                if rest == 0 {
                    proof {
                        assert forall|m: u64|
                            #[trigger] varint_at(bytes@, pos as int, m as nat) implies false by {
                            assert(m / 128 >= 1);
                        };
                    }
                    None
                } else if rest <= (u64::MAX - d) / 128 {
                    let value: u64 = rest * 128 + d;
                    proof {
                        assert(rest * 128 + d <= u64::MAX) by (nonlinear_arith)
                            requires
                                rest <= (u64::MAX - d) / 128,
                                d < 128,
                        ;
                        assert(value % 128 == d && value / 128 == rest) by (nonlinear_arith)
                            requires
                                value == rest * 128 + d,
                                0 <= d < 128,
                                rest >= 1,
                        ;
                        assert(value >= 128) by (nonlinear_arith)
                            requires
                                value == rest * 128 + d,
                                rest >= 1,
                                d >= 0,
                        ;
                        assert(bytes@.subrange(pos as int, end as int) =~= seq![b] + bytes@
                            .subrange(pos + 1, end as int));
                        assert(bytes@.subrange(pos as int, end as int) =~= varint(value as nat));
                        assert forall|m: u64|
                            #[trigger] varint_at(bytes@, pos as int, m as nat) implies value == m
                            && end == pos + varint(m as nat).len() by {
                            assert(m == 128 * (m / 128) + m % 128) by (nonlinear_arith);
                            assert(value == 128 * (m / 128) + m % 128) by (nonlinear_arith)
                                requires
                                    value == rest * 128 + d,
                                    rest == m / 128,
                                    d == m % 128,
                            ;
                            assert(varint(m as nat).len() == 1 + varint((m as nat) / 128).len());
                        };
                    }
                    Some((value, end))
                } else {
                    proof {
                        assert forall|m: u64|
                            #[trigger] varint_at(bytes@, pos as int, m as nat) implies false by {
                            assert(m == 128 * (m / 128) + m % 128) by (nonlinear_arith);
                            assert(rest <= (u64::MAX - d) / 128) by (nonlinear_arith)
                                requires
                                    rest == m / 128,
                                    d == m % 128,
                                    m == 128 * (m / 128) + m % 128,
                                    m <= u64::MAX,
                                    d < 128,
                            ;
                        };
                    }
                    None
                }
            },
        }
    }
}

/// Whether the encoding of a field with tag `tag` and contents `v` stands
/// at `pos` in `bytes`.
pub open spec fn bytes_field_at(bytes: Seq<u8>, pos: int, tag: u8, v: Seq<u8>) -> bool {
    &&& pos + bytes_field(tag, v).len() <= bytes.len()
    &&& bytes.subrange(pos, pos + bytes_field(tag, v).len()) == bytes_field(tag, v)
}

/// Reads the byte-string field with the one-byte tag `tag` that begins at
/// `pos`: the tag, the length, and that many bytes, handed out as a fresh
/// vector together with the position after the field. Complete as well as
/// sound: whenever such a field stands at `pos`, its contents come back.
pub fn decode_bytes_field(bytes: &Vec<u8>, pos: usize, tag: u8) -> (r: Option<(Vec<u8>, usize)>)
    requires
        pos <= bytes@.len(),
    ensures
        r matches Some(p) ==> pos < p.1 <= bytes@.len() && bytes@.subrange(pos as int, p.1 as int)
            == bytes_field(tag, p.0@),
        forall|v: Seq<u8>|
            #[trigger] bytes_field_at(bytes@, pos as int, tag, v) ==> (r matches Some(p) && p.0@
                == v && p.1 == pos + bytes_field(tag, v).len()),
{
    if pos == bytes.len() {
        proof {
            assert forall|v: Seq<u8>|
                #[trigger] bytes_field_at(bytes@, pos as int, tag, v) implies false by {
                assert(varint(v.len()).len() >= 1);
            };
        }
        return None;
    }
    if bytes[pos] != tag {
        proof {
            assert forall|v: Seq<u8>|
                #[trigger] bytes_field_at(bytes@, pos as int, tag, v) implies false by {
                let f = bytes_field(tag, v);
                assert(f[0] == tag);
                assert(bytes@.subrange(pos as int, pos + f.len())[0] == bytes@[pos as int]);
            };
        }
        return None;
    }
    proof {
        assert forall|v: Seq<u8>|
            #[trigger] bytes_field_at(bytes@, pos as int, tag, v) implies varint_at(
            bytes@,
            pos + 1,
            (v.len() as u64) as nat,
        ) by {
            let f = bytes_field(tag, v);
            let lv = varint(v.len()).len();
            assert forall|i: int| 0 <= i < lv implies #[trigger] bytes@.subrange(
                pos + 1,
                pos + 1 + lv,
            )[i] == varint(v.len())[i] by {
                assert(bytes@.subrange(pos as int, pos + f.len())[i + 1] == f[i + 1]);
                assert(f[i + 1] == varint(v.len())[i]);
            };
            assert(bytes@.subrange(pos + 1, pos + 1 + lv) =~= varint(v.len()));
            assert((v.len() as u64) as nat == v.len());
        };
    }
    match decode_varint(bytes, pos + 1) {
        None => None,
        Some((n, q)) => {
            proof {
                assert forall|v: Seq<u8>|
                    #[trigger] bytes_field_at(bytes@, pos as int, tag, v) implies n as nat
                    == v.len() && q == pos + 1 + varint(v.len()).len() && q + v.len() <= bytes@
                    .len() && bytes@.subrange(q as int, q + v.len()) == v by {
                    let f = bytes_field(tag, v);
                    assert(varint_at(bytes@, pos + 1, (v.len() as u64) as nat));
                    assert forall|i: int| 0 <= i < v.len() implies #[trigger] bytes@.subrange(
                        q as int,
                        q + v.len(),
                    )[i] == v[i] by {
                        assert(bytes@.subrange(pos as int, pos + f.len())[1 + varint(
                            v.len(),
                        ).len() + i] == f[1 + varint(v.len()).len() + i]);
                        assert(f[1 + varint(v.len()).len() + i] == v[i]);
                    };
                    assert(bytes@.subrange(q as int, q + v.len()) =~= v);
                };
            }
            if n <= (bytes.len() - q) as u64 {
                let len: usize = n as usize;
                let end: usize = q + len;
                let mut v: Vec<u8> = Vec::new();
                let mut i: usize = q;
                proof {
                    assert(v@ =~= bytes@.subrange(q as int, q as int));
                }
                while i < end
                    invariant
                        q <= i <= end <= bytes@.len(),
                        v@ == bytes@.subrange(q as int, i as int),
                    decreases end - i,
                {
                    v.push(bytes[i]);
                    i = i + 1;
                    proof {
                        assert(v@ =~= bytes@.subrange(q as int, i as int));
                    }
                }
                proof {
                    assert(bytes@.subrange(pos as int, end as int) =~= seq![tag] + bytes@.subrange(
                        pos + 1,
                        q as int,
                    ) + bytes@.subrange(q as int, end as int));
                    assert(bytes@.subrange(pos as int, end as int) =~= bytes_field(tag, v@));
                    assert forall|vv: Seq<u8>|
                        #[trigger] bytes_field_at(bytes@, pos as int, tag, vv) implies v@ == vv
                        && end == pos + bytes_field(tag, vv).len() by {
                        assert(v@ =~= vv);
                        assert(bytes_field(tag, vv).len() == 1 + varint(vv.len()).len()
                            + vv.len());
                    };
                }
                Some((v, end))
            } else {
                proof {
                    assert forall|v: Seq<u8>|
                        #[trigger] bytes_field_at(bytes@, pos as int, tag, v) implies false by {};
                }
                None
            }
        },
    }
}

/// Reads the unsigned-integer field with the one-byte tag `tag` that
/// begins at `pos`: the tag and a canonical varint.
pub fn decode_uint_field(bytes: &Vec<u8>, pos: usize, tag: u8) -> (r: Option<(u64, usize)>)
    requires
        pos <= bytes@.len(),
    ensures
        r matches Some(p) ==> pos < p.1 <= bytes@.len() && bytes@.subrange(pos as int, p.1 as int)
            == uint_field(tag, p.0 as nat),
{
    if pos == bytes.len() {
        return None;
    }
    if bytes[pos] != tag {
        return None;
    }
    match decode_varint(bytes, pos + 1) {
        None => None,
        Some((n, q)) => {
            proof {
                assert(bytes@.subrange(pos as int, q as int) =~= seq![tag] + bytes@.subrange(
                    pos + 1,
                    q as int,
                ));
                assert(bytes@.subrange(pos as int, q as int) =~= uint_field(tag, n as nat));
            }
            Some((n, q))
        },
    }
}

} // verus!
