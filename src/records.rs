//! The `.stack_sizes` layout: back-to-back records, each a little-endian
//! address of 4 or 8 bytes followed by the stack usage as unsigned LEB128.
use vstd::prelude::*;
use byteorder::{ByteOrder, LittleEndian};
use crate::error::AnalysisError;

verus! {

/// Number of bytes in the address field of a record.
pub open spec fn addr_width(have_32_bit_addresses: bool) -> nat {
    if have_32_bit_addresses { 4 } else { 8 }
}

/// The unsigned integer that the bytes `s` give, least significant first.
pub open spec fn le_value(s: Seq<u8>) -> nat
    decreases s.len(),
{
    if s.len() == 0 {
        0
    } else {
        s[0] as nat + 256 * le_value(s.skip(1))
    }
}

/// Unsigned LEB128 read from byte `j` of `s` on: the value of the bytes from
/// `j` on, and the index just past the last byte. A tenth byte (the one that
/// holds bit 63) other than 0 or 1 overflows 64 bits; running out of bytes
/// before a byte without the continuation bit fails too.
pub open spec fn uleb_from(s: Seq<u8>, j: nat) -> Option<(nat, nat)>
    decreases 10 - j,
{
    if j >= s.len() || j >= 10 {
        None
    } else if j == 9 && s[j as int] > 1 {
        None
    } else if s[j as int] < 128 {
        Some((s[j as int] as nat, j + 1))
    } else {
        match uleb_from(s, j + 1) {
            Some((v, n)) => Some((((s[j as int] - 128) + 128 * v) as nat, n)),
            None => None,
        }
    }
}

/// Decoding the records of `s` from byte `pos` on; `None` where the bytes do
/// not split exactly into whole records.
pub open spec fn records_from(s: Seq<u8>, have_32_bit_addresses: bool, pos: nat) -> Option<
    Seq<(u64, u64)>,
>
    decreases s.len() - pos,
    via records_from_decreases
{
    let w = addr_width(have_32_bit_addresses);
    if pos >= s.len() {
        Some(seq![])
    } else if pos + w > s.len() {
        None
    } else {
        match uleb_from(s.skip((pos + w) as int), 0) {
            None => None,
            Some((v, n)) => match records_from(s, have_32_bit_addresses, pos + w + n) {
                Some(rest) => Some(
                    seq![(le_value(s.subrange(pos as int, (pos + w) as int)) as u64, v as u64)] + rest,
                ),
                None => None,
            },
        }
    }
}

#[via_fn]
proof fn records_from_decreases(s: Seq<u8>, have_32_bit_addresses: bool, pos: nat) {
    let w = addr_width(have_32_bit_addresses);
    if pos < s.len() && pos + w <= s.len() {
        lemma_uleb_len(s.skip((pos + w) as int), 0);
    }
}

/// The records that the whole of `s` decodes to.
pub open spec fn records_of(s: Seq<u8>, have_32_bit_addresses: bool) -> Option<Seq<(u64, u64)>> {
    records_from(s, have_32_bit_addresses, 0)
}

proof fn lemma_uleb_len(s: Seq<u8>, j: nat)
    ensures
        uleb_from(s, j) matches Some((v, n)) ==> j < n <= s.len(),
    decreases 10 - j,
{
    if j < s.len() && j < 10 && !(j == 9 && s[j as int] > 1) && s[j as int] >= 128 {
        lemma_uleb_len(s, j + 1);
    }
}

/// Unsigned LEB128 encoding of `v`: seven bits a byte, least significant
/// first, the continuation bit set on all bytes but the last.
pub open spec fn uleb_bytes(v: nat) -> Seq<u8>
    decreases v,
{
    if v < 128 {
        seq![v as u8]
    } else {
        seq![(v % 128 + 128) as u8] + uleb_bytes(v / 128)
    }
}

/// The `k` bytes of `v`, least significant first.
pub open spec fn le_bytes(v: nat, k: nat) -> Seq<u8>
    decreases k,
{
    if k == 0 {
        seq![]
    } else {
        seq![(v % 256) as u8] + le_bytes(v / 256, (k - 1) as nat)
    }
}

/// The `.stack_sizes` bytes for the records `recs`.
pub open spec fn encode_records(recs: Seq<(u64, u64)>, have_32_bit_addresses: bool) -> Seq<u8>
    decreases recs.len(),
{
    if recs.len() == 0 {
        seq![]
    } else {
        le_bytes(recs[0].0 as nat, addr_width(have_32_bit_addresses)) + uleb_bytes(recs[0].1 as nat)
            + encode_records(recs.skip(1), have_32_bit_addresses)
    }
}

/// Every address of `recs` fits in the address field.
pub open spec fn addresses_fit(recs: Seq<(u64, u64)>, have_32_bit_addresses: bool) -> bool {
    have_32_bit_addresses ==> forall|i: int| 0 <= i < recs.len() ==> recs[i].0 < 0x1_0000_0000u64
}

spec fn byte_room(k: nat) -> nat
    decreases k,
{
    if k == 0 { 1 } else { 256 * byte_room((k - 1) as nat) }
}

spec fn uleb_room(j: nat) -> nat
    decreases 9 - j,
{
    if j >= 9 { 2 } else { 128 * uleb_room(j + 1) }
}

proof fn lemma_le_round(v: nat, k: nat)
    requires
        v < byte_room(k),
    ensures
        le_bytes(v, k).len() == k,
        le_value(le_bytes(v, k)) == v,
    decreases k,
{
    if k > 0 {
        let r = byte_room((k - 1) as nat);
        assert(v / 256 < r) by (nonlinear_arith)
            requires v < 256 * r;
        lemma_le_round(v / 256, (k - 1) as nat);
        let b = le_bytes(v, k);
        assert(b.skip(1) =~= le_bytes(v / 256, (k - 1) as nat));
        assert(v == v % 256 + 256 * (v / 256)) by (nonlinear_arith);
    }
}

proof fn lemma_uleb_round(s: Seq<u8>, j: nat, v: nat)
    requires
        j <= 9,
        v < uleb_room(j),
        j + uleb_bytes(v).len() <= s.len(),
        s.subrange(j as int, (j + uleb_bytes(v).len()) as int) == uleb_bytes(v),
    ensures
        uleb_from(s, j) == Some((v, j + uleb_bytes(v).len())),
    decreases v,
{
    let e = uleb_bytes(v);
    assert(s[j as int] == e[0]);
    if v >= 128 {
        assert(j < 9);
        let r = uleb_room(j + 1);
        assert(v / 128 < r) by (nonlinear_arith)
            requires v < 128 * r;
        assert(v / 128 < v);
        let t = uleb_bytes(v / 128);
        assert(e.skip(1) =~= t);
        assert(s.subrange((j + 1) as int, (j + 1 + t.len()) as int) =~= e.skip(1));
        lemma_uleb_round(s, j + 1, v / 128);
        assert(v == v % 128 + 128 * (v / 128)) by (nonlinear_arith);
    }
}

proof fn lemma_encode_from(p: Seq<u8>, recs: Seq<(u64, u64)>, have_32_bit_addresses: bool)
    requires
        addresses_fit(recs, have_32_bit_addresses),
    ensures
        records_from(p + encode_records(recs, have_32_bit_addresses), have_32_bit_addresses, p.len())
            == Some(recs),
    decreases recs.len(),
{
    let s = p + encode_records(recs, have_32_bit_addresses);
    if recs.len() == 0 {
        assert(s =~= p);
    } else {
        let w = addr_width(have_32_bit_addresses);
        let a = recs[0].0 as nat;
        let v = recs[0].1 as nat;
        reveal_with_fuel(byte_room, 9);
        reveal_with_fuel(uleb_room, 10);
        lemma_le_round(a, w);
        let le = le_bytes(a, w);
        let u = uleb_bytes(v);
        let tail = recs.skip(1);
        assert(addresses_fit(tail, have_32_bit_addresses));
        let rest_prefix = p + le + u;
        assert(s =~= rest_prefix + encode_records(tail, have_32_bit_addresses));
        assert(s.subrange(p.len() as int, (p.len() + w) as int) =~= le);
        let k = s.skip((p.len() + w) as int);
        assert(k.subrange(0, u.len() as int) =~= u);
        lemma_uleb_round(k, 0, v);
        lemma_encode_from(rest_prefix, tail, have_32_bit_addresses);
        assert(seq![(a as u64, v as u64)] + tail =~= recs);
    }
}

/// Encoding records whose addresses fit the address field and decoding the
/// bytes again gives back the same records, for any number of them.
pub proof fn lemma_round_trip(recs: Seq<(u64, u64)>, have_32_bit_addresses: bool)
    requires
        addresses_fit(recs, have_32_bit_addresses),
    ensures
        records_of(encode_records(recs, have_32_bit_addresses), have_32_bit_addresses) == Some(recs),
{
    lemma_encode_from(seq![], recs, have_32_bit_addresses);
    assert(seq![] + encode_records(recs, have_32_bit_addresses) =~= encode_records(
        recs,
        have_32_bit_addresses,
    ));
}

/// The bytes of the one record `r`.
pub open spec fn record_bytes(r: (u64, u64), have_32_bit_addresses: bool) -> Seq<u8> {
    le_bytes(r.0 as nat, addr_width(have_32_bit_addresses)) + uleb_bytes(r.1 as nat)
}

proof fn lemma_uleb_prefix(s: Seq<u8>, j: nat, v: nat, m: nat)
    requires
        j <= 9,
        v < uleb_room(j),
        m < uleb_bytes(v).len(),
        s.len() == j + m,
        s.subrange(j as int, s.len() as int) == uleb_bytes(v).take(m as int),
    ensures
        uleb_from(s, j) is None,
    decreases v,
{
    let e = uleb_bytes(v);
    if m > 0 {
        assert(v >= 128);
        assert(j < 9);
        let r = uleb_room(j + 1);
        assert(v / 128 < r) by (nonlinear_arith)
            requires v < 128 * r;
        let t = uleb_bytes(v / 128);
        assert(e.skip(1) =~= t);
        let c = s.subrange(j as int, s.len() as int);
        assert(c[0] == s[j as int]);
        assert(c[0] == e[0]);
        assert(e.take(m as int).skip(1) =~= t.take(m - 1));
        assert(c.skip(1) =~= t.take(m - 1));
        assert(s.subrange((j + 1) as int, s.len() as int) =~= t.take(m - 1));
        lemma_uleb_prefix(s, j + 1, v / 128, (m - 1) as nat);
    }
}

proof fn lemma_cut_from(
    p: Seq<u8>,
    recs: Seq<(u64, u64)>,
    r: (u64, u64),
    t: Seq<u8>,
    have_32_bit_addresses: bool,
)
    requires
        addresses_fit(recs.push(r), have_32_bit_addresses),
        0 < t.len() < record_bytes(r, have_32_bit_addresses).len(),
        t == record_bytes(r, have_32_bit_addresses).take(t.len() as int),
    ensures
        records_from(p + encode_records(recs, have_32_bit_addresses) + t, have_32_bit_addresses, p.len())
            is None,
    decreases recs.len(),
{
    let w = addr_width(have_32_bit_addresses);
    reveal_with_fuel(byte_room, 9);
    reveal_with_fuel(uleb_room, 10);
    let s = p + encode_records(recs, have_32_bit_addresses) + t;
    if recs.len() == 0 {
        assert(s =~= p + t);
        if t.len() >= w {
            assert(recs.push(r)[0] == r);
            lemma_le_round(r.0 as nat, w);
            let u = uleb_bytes(r.1 as nat);
            let k = s.skip((p.len() + w) as int);
            assert(k =~= u.take(t.len() - w));
            assert(k.subrange(0, k.len() as int) =~= u.take(t.len() - w));
            lemma_uleb_prefix(k, 0, r.1 as nat, (t.len() - w) as nat);
        }
    } else {
        let a = recs[0].0 as nat;
        let v = recs[0].1 as nat;
        assert(recs.push(r)[0] == recs[0]);
        lemma_le_round(a, w);
        let le = le_bytes(a, w);
        let u = uleb_bytes(v);
        let tail = recs.skip(1);
        assert(tail.push(r) =~= recs.push(r).skip(1));
        assert forall|i: int| 0 <= i < tail.push(r).len() && have_32_bit_addresses implies #[trigger] tail.push(r)[i].0 < 0x1_0000_0000u64 by {
            assert(tail.push(r)[i] == recs.push(r)[i + 1]);
        }
        let rest_prefix = p + le + u;
        assert(s =~= rest_prefix + encode_records(tail, have_32_bit_addresses) + t);
        let k = s.skip((p.len() + w) as int);
        assert(k.subrange(0, u.len() as int) =~= u);
        lemma_uleb_round(k, 0, v);
        lemma_cut_from(rest_prefix, tail, r, t, have_32_bit_addresses);
    }
}

/// Decoding takes whole records only: bytes that end inside a record (its
/// address cut short, or its stack usage without a final byte) are rejected,
/// not read as fewer records or past their end.
pub proof fn lemma_truncated_rejected(
    recs: Seq<(u64, u64)>,
    r: (u64, u64),
    t: Seq<u8>,
    have_32_bit_addresses: bool,
)
    requires
        addresses_fit(recs.push(r), have_32_bit_addresses),
        0 < t.len() < record_bytes(r, have_32_bit_addresses).len(),
        t == record_bytes(r, have_32_bit_addresses).take(t.len() as int),
    ensures
        records_of(encode_records(recs, have_32_bit_addresses) + t, have_32_bit_addresses) is None,
{
    lemma_cut_from(seq![], recs, r, t, have_32_bit_addresses);
    assert(seq![] + encode_records(recs, have_32_bit_addresses) + t =~= encode_records(
        recs,
        have_32_bit_addresses,
    ) + t);
}

/// Relies on byteorder's `LittleEndian::read_u32`: the first four bytes of
/// the slice, least significant first.
#[verifier::external_body]
pub(crate) fn read_le_u32(data: &[u8], pos: usize) -> (r: u32)
    requires
        pos + 4 <= data@.len(),
    ensures
        r as nat == le_value(data@.subrange(pos as int, pos + 4)),
{
    LittleEndian::read_u32(&data[pos..])
}

/// Relies on byteorder's `LittleEndian::read_u64`: the first eight bytes of
/// the slice, least significant first.
#[verifier::external_body]
pub(crate) fn read_le_u64(data: &[u8], pos: usize) -> (r: u64)
    requires
        pos + 8 <= data@.len(),
    ensures
        r as nat == le_value(data@.subrange(pos as int, pos + 8)),
{
    LittleEndian::read_u64(&data[pos..])
}

/// Relies on `leb128::read::unsigned`: reads one unsigned LEB128 number from
/// the bytes at `pos` on, and gives it with the count of bytes left after it.
#[verifier::external_body]
fn read_uleb(data: &[u8], pos: usize) -> (r: Option<(u64, usize)>)
    requires
        pos <= data@.len(),
    ensures
        match uleb_from(data@.skip(pos as int), 0) {
            Some((v, n)) => r == Some((v as u64, (data@.len() - pos - n) as usize)),
            None => r is None,
        },
{
    let mut rest = &data[pos..];
    match leb128::read::unsigned(&mut rest) {
        Ok(v) => Some((v, rest.len())),
        Err(_) => None,
    }
}

/// Decodes the contents of a `.stack_sizes` section into its (address,
/// stack bytes) records, in order. Fails with `MalformedInput` exactly when
/// the bytes do not split into whole records.
pub fn decode_stack_sizes(data: &[u8], have_32_bit_addresses: bool) -> (r: Result<
    Vec<(u64, u64)>,
    AnalysisError,
>)
    ensures
        match records_of(data@, have_32_bit_addresses) {
            Some(recs) => r matches Ok(v) && v@ == recs,
            None => r == Err::<Vec<(u64, u64)>, AnalysisError>(AnalysisError::MalformedInput),
        },
{
    let mut out: Vec<(u64, u64)> = Vec::new();
    let mut pos: usize = 0;
    let ghost s = data@;
    while pos < data.len()
        invariant
            s == data@,
            pos <= s.len(),
            records_of(s, have_32_bit_addresses) == (match records_from(
                s,
                have_32_bit_addresses,
                pos as nat,
            ) {
                Some(rest) => Some(out@ + rest),
                None => None,
            }),
        decreases data.len() - pos,
    {
        let w: usize = if have_32_bit_addresses { 4 } else { 8 };
        if data.len() - pos < w {
            return Err(AnalysisError::MalformedInput);
        }
        let addr: u64 = if have_32_bit_addresses {
            read_le_u32(data, pos) as u64
        } else {
            read_le_u64(data, pos)
        };
        proof {
            lemma_uleb_len(s.skip((pos + w) as int), 0);
        }
        match read_uleb(data, pos + w) {
            None => {
                return Err(AnalysisError::MalformedInput);
            },
            Some((stack, left)) => {
                let ghost old_out = out@;
                let ghost n = uleb_from(s.skip((pos + w) as int), 0)->Some_0.1;
                out.push((addr, stack));
                proof {
                    assert(out@ == old_out + seq![(addr, stack)]);
                    match records_from(s, have_32_bit_addresses, (pos + w + n) as nat) {
                        Some(rest) => {
                            assert(old_out + (seq![(addr, stack)] + rest) == out@ + rest);
                        },
                        None => {},
                    }
                }
                pos = data.len() - left;
            },
        }
    }
    proof {
        assert(out@ + seq![] == out@);
    }
    Ok(out)
}

} // verus!
