//! Primitive wire encodings: unsigned varints, length-prefixed byte strings
//! and little-endian fixed-width integers. Every reader takes a buffer and a
//! position and returns the value with the position just past it.
use vstd::prelude::*;
use crate::errors::Error;
use vstd::utf8::*;
use vstd::string::*;

verus! {

/// Longest varint accepted: ten groups of seven bits cover 64 bits.
pub const MAX_VARINT_LEN: usize = 10;

/// Largest length that a byte string may declare.
pub const MAX_STRING_LEN: u64 = 0x1000000;

/// `r` is the spec result `s`, read at `pos`, with positions made absolute.
pub open spec fn decoded<T: View>(
    r: Result<(T, usize), Error>,
    s: Result<(T::V, nat), Error>,
    pos: usize,
) -> bool {
    match r {
        Ok((v, p)) => p >= pos && s == Ok::<(T::V, nat), Error>((v@, (p - pos) as nat)),
        Err(e) => s == Err::<(T::V, nat), Error>(e),
    }
}

pub open spec fn pow128(n: nat) -> nat
    decreases n,
{
    if n == 0 { 1 } else { 128 * pow128((n - 1) as nat) }
}

/// The number carried by the low seven bits of each byte, least significant
/// group first.
pub open spec fn varint_value(s: Seq<u8>) -> nat
    decreases s.len(),
{
    if s.len() == 0 {
        0
    } else {
        (s[0] % 128) as nat + 128 * varint_value(s.drop_first())
    }
}

/// Index of the first byte whose continuation bit is clear.
pub open spec fn first_stop(s: Seq<u8>) -> Option<nat>
    decreases s.len(),
{
    if s.len() == 0 {
        None
    } else if s[0] < 128 {
        Some(0)
    } else {
        match first_stop(s.drop_first()) {
            Some(k) => Some(k + 1),
            None => None,
        }
    }
}

/// A varint at the start of `s`: its value and its length. It is malformed
/// when no terminating byte comes within ten bytes, or when its value does
/// not fit in 64 bits; it is incomplete when `s` ends before either is known.
pub open spec fn spec_read_varint(s: Seq<u8>) -> Result<(u64, nat), Error> {
    match first_stop(s) {
        Some(k) => if k < 10 && varint_value(s.take(k as int + 1)) <= u64::MAX {
            Ok((varint_value(s.take(k as int + 1)) as u64, k + 1))
        } else {
            Err(Error::MalformedPacket)
        },
        None => if s.len() < 10 && varint_value(s) <= u64::MAX {
            Err(Error::Incomplete)
        } else {
            Err(Error::MalformedPacket)
        },
    }
}

/// The shortest encoding of `v`.
pub open spec fn varint_bytes(v: nat) -> Seq<u8>
    decreases v,
{
    if v < 128 {
        seq![v as u8]
    } else {
        seq![(v % 128 + 128) as u8] + varint_bytes(v / 128)
    }
}

proof fn lemma_value_step(s: Seq<u8>, i: nat)
    requires
        i < s.len(),
    ensures
        varint_value(s.take(i as int + 1)) == varint_value(s.take(i as int)) + (s[i as int] % 128) as nat
            * pow128(i),
    decreases i,
{
    let t1 = s.take(i as int + 1);
    let t0 = s.take(i as int);
    assert(t1[0] == s[0]);
    if i > 0 {
        let r = s.drop_first();
        lemma_value_step(r, (i - 1) as nat);
        assert(t1.drop_first() =~= r.take(i as int));
        assert(t0.drop_first() =~= r.take(i - 1));
        assert(t0[0] == s[0]);
        assert(r[i - 1] == s[i as int]);
        let a = varint_value(r.take(i - 1));
        let d = (s[i as int] % 128) as nat;
        assert(varint_value(t1) == (s[0] % 128) as nat + 128 * varint_value(r.take(i as int)));
        assert(varint_value(t0) == (s[0] % 128) as nat + 128 * a);
        assert(varint_value(r.take(i as int)) == a + d * pow128((i - 1) as nat));
        assert(pow128(i) == 128 * pow128((i - 1) as nat));
        assert(128 * (a + d * pow128((i - 1) as nat)) == 128 * a + d * pow128(i))
            by (nonlinear_arith)
            requires pow128(i) == 128 * pow128((i - 1) as nat);
    } else {
        assert(t1.drop_first() =~= Seq::<u8>::empty());
        assert(varint_value(t1) == (s[0] % 128) as nat + 128 * varint_value(t1.drop_first()));
        assert(varint_value(t0) == 0);
        assert(pow128(0) == 1);
        assert(varint_value(t1.drop_first()) == 0);
        let d0 = (s[0] % 128) as nat;
        assert(d0 * pow128(0) == d0) by (nonlinear_arith)
            requires pow128(0) == 1;
    }
}

proof fn lemma_value_mono(s: Seq<u8>, i: nat, j: nat)
    requires
        i <= j <= s.len(),
    ensures
        varint_value(s.take(i as int)) <= varint_value(s.take(j as int)),
    decreases j - i,
{
    if i < j {
        lemma_value_step(s, i);
        lemma_value_mono(s, i + 1, j);
    }
}

proof fn lemma_stop_after(s: Seq<u8>, i: nat)
    requires
        i <= s.len(),
        forall|j: int| 0 <= j < i ==> s[j] >= 128,
    ensures
        match first_stop(s) {
            Some(k) => k >= i,
            None => true,
        },
        i == s.len() ==> first_stop(s) == None::<nat>,
        i < s.len() && s[i as int] < 128 ==> first_stop(s) == Some(i),
    decreases i,
{
    if i > 0 {
        lemma_stop_after(s.drop_first(), (i - 1) as nat);
    }
}

proof fn lemma_first_stop_len(s: Seq<u8>)
    ensures
        first_stop(s) matches Some(k) ==> k < s.len(),
    decreases s.len(),
{
    if s.len() > 0 {
        lemma_first_stop_len(s.drop_first());
    }
}

proof fn lemma_pow128_mono(i: nat, j: nat)
    requires
        i <= j,
    ensures
        pow128(i) <= pow128(j),
    decreases j - i,
{
    if i < j {
        lemma_pow128_mono(i + 1, j);
    }
}

proof fn lemma_pow128_bound(i: nat)
    requires
        i <= 8,
    ensures
        pow128(i) * 128 <= 0x8000000000000000,
{
    reveal_with_fuel(pow128, 10);
    lemma_pow128_mono(i, 8);
}

/// Appends the encoding of `v`.
pub fn write_varint(buf: &mut Vec<u8>, v: u64)
    ensures
        final(buf)@ == old(buf)@ + varint_bytes(v as nat),
{
    let mut x: u64 = v;
    while x >= 128
        invariant
            buf@ + varint_bytes(x as nat) == old(buf)@ + varint_bytes(v as nat),
        decreases x,
    {
        let ghost before = buf@;
        buf.push((x % 128 + 128) as u8);
        assert(before + varint_bytes(x as nat) =~= buf@ + varint_bytes((x / 128) as nat));
        x = x / 128;
    }
    buf.push(x as u8);
}

/// Reads a varint at `pos`.
pub fn read_varint(buf: &[u8], pos: usize) -> (r: Result<(u64, usize), Error>)
    requires
        pos <= buf@.len(),
    ensures
        decoded(r, spec_read_varint(buf@.skip(pos as int)), pos),
        r matches Ok((_, p)) ==> p <= buf@.len(),
{
    let ghost s = buf@.skip(pos as int);
    let mut x: u64 = 0;
    let mut mult: u64 = 1;
    let mut i: usize = 0;
    while i < MAX_VARINT_LEN
        invariant
            s == buf@.skip(pos as int),
            pos <= buf@.len(),
            i <= 10,
            i <= s.len(),
            forall|j: int| 0 <= j < i ==> s[j] >= 128,
            x as nat == varint_value(s.take(i as int)),
            i < 10 ==> mult as nat == pow128(i as nat),
        decreases 10 - i,
    {
        if i == buf.len() - pos {
            proof {
                lemma_stop_after(s, i as nat);
                assert(s.take(i as int) =~= s);
            }
            return Err(Error::Incomplete);
        }
        let b = buf[pos + i];
        proof {
            lemma_value_step(s, i as nat);
            lemma_stop_after(s, i as nat);
            lemma_first_stop_len(s);
        }
        let digit: u64 = (b % 128) as u64;
        let sum = match digit.checked_mul(mult) {
            Some(d) => x.checked_add(d),
            None => None,
        };
        match sum {
            None => {
                proof {
                    assert(digit * mult >= 0) by (nonlinear_arith);
                    if let Some(k) = first_stop(s) {
                        if k < 10 {
                            lemma_value_mono(s, i as nat + 1, k + 1);
                        }
                    } else {
                        lemma_value_mono(s, i as nat + 1, s.len());
                        assert(s.take(s.len() as int) =~= s);
                    }
                }
                return Err(Error::MalformedPacket);
            },
            Some(nx) => {
                x = nx;
            },
        }
        if b < 128 {
            return Ok((x, pos + i + 1));
        }
        if i < 9 {
            proof {
                lemma_pow128_bound(i as nat);
            }
            mult = mult * 128;
        }
        i = i + 1;
    }
    proof {
        lemma_stop_after(s, 10);
    }
    Err(Error::MalformedPacket)
}

proof fn lemma_varint_bytes(v: nat, rest: Seq<u8>)
    ensures
        varint_bytes(v).len() >= 1,
        first_stop(varint_bytes(v) + rest) == Some((varint_bytes(v).len() - 1) as nat),
        (varint_bytes(v) + rest).take(varint_bytes(v).len() as int) == varint_bytes(v),
        varint_value(varint_bytes(v)) == v,
        forall|j: int| 0 <= j < varint_bytes(v).len() - 1 ==> varint_bytes(v)[j] >= 128,
    decreases v,
{
    let e = varint_bytes(v);
    assert((e + rest).take(e.len() as int) =~= e);
    if v >= 128 {
        lemma_varint_bytes(v / 128, rest);
        assert((e + rest).drop_first() =~= varint_bytes(v / 128) + rest);
        assert(e.drop_first() =~= varint_bytes(v / 128));
        assert(e[0] == (v % 128 + 128) as u8);
        assert(e[0] % 128 == v % 128);
        assert(varint_value(e) == (e[0] % 128) as nat + 128 * varint_value(e.drop_first()));
        assert forall|j: int| 0 <= j < e.len() - 1 implies e[j] >= 128 by {
            if j > 0 {
                assert(e[j] == varint_bytes(v / 128)[j - 1]);
            }
        }
    } else {
        assert(e.drop_first() =~= Seq::<u8>::empty());
        assert(varint_value(e) == (e[0] % 128) as nat + 128 * varint_value(e.drop_first()));
    }
}

proof fn lemma_varint_len(v: nat, n: nat)
    requires
        1 <= n,
        v < pow128(n),
    ensures
        varint_bytes(v).len() <= n,
    decreases v,
{
    if v >= 128 {
        reveal_with_fuel(pow128, 2);
        assert(n > 1);
        assert(v / 128 < pow128((n - 1) as nat));
        lemma_varint_len(v / 128, (n - 1) as nat);
    }
}

/// Reading back what [`write_varint`] wrote gives the value and consumes
/// exactly its encoding, whatever follows it.
pub proof fn lemma_varint_round_trip(v: u64, rest: Seq<u8>)
    ensures
        spec_read_varint(varint_bytes(v as nat) + rest) == Ok::<(u64, nat), Error>(
            (v, varint_bytes(v as nat).len()),
        ),
        varint_bytes(v as nat).len() <= 10,
{
    lemma_varint_bytes(v as nat, rest);
    reveal_with_fuel(pow128, 11);
    lemma_varint_len(v as nat, 10);
}

/// A varint cut short anywhere before its last byte is incomplete.
pub proof fn lemma_varint_truncated(v: u64, k: nat)
    requires
        k < varint_bytes(v as nat).len(),
    ensures
        spec_read_varint(varint_bytes(v as nat).take(k as int)) == Err::<(u64, nat), Error>(
            Error::Incomplete,
        ),
{
    let e = varint_bytes(v as nat);
    lemma_varint_bytes(v as nat, Seq::empty());
    lemma_varint_round_trip(v, Seq::empty());
    let p = e.take(k as int);
    lemma_stop_after(p, k);
    lemma_value_mono(e, k, e.len());
    assert(e.take(e.len() as int) =~= e);
    assert(p.take(k as int) =~= p);
    assert(e.take(k as int) =~= p);
}

/// A byte string: a varint length, then that many bytes.
pub open spec fn spec_read_bytes(s: Seq<u8>) -> Result<(Seq<u8>, nat), Error> {
    match spec_read_varint(s) {
        Ok((n, k)) => if n > MAX_STRING_LEN {
            Err(Error::ProtocolLimitExceeded)
        } else if k + n > s.len() {
            Err(Error::Incomplete)
        } else {
            Ok((s.subrange(k as int, k + n), (k + n) as nat))
        },
        Err(e) => Err(e),
    }
}

pub open spec fn bytes_field(b: Seq<u8>) -> Seq<u8> {
    varint_bytes(b.len()) + b
}

/// A byte string cut short anywhere before its end is incomplete.
pub proof fn lemma_bytes_truncated(b: Seq<u8>, k: nat)
    requires
        b.len() <= MAX_STRING_LEN,
        k < bytes_field(b).len(),
    ensures
        spec_read_bytes(bytes_field(b).take(k as int)) == Err::<(Seq<u8>, nat), Error>(
            Error::Incomplete,
        ),
{
    let e = varint_bytes(b.len());
    if k < e.len() {
        assert(bytes_field(b).take(k as int) =~= e.take(k as int));
        lemma_varint_truncated(b.len() as u64, k);
    } else {
        let rest = b.take(k - e.len());
        assert(bytes_field(b).take(k as int) =~= e + rest);
        lemma_varint_round_trip(b.len() as u64, rest);
    }
}

/// A UTF-8 string, written as the byte string of its encoding.
pub open spec fn spec_read_string(s: Seq<u8>) -> Result<(Seq<char>, nat), Error> {
    match spec_read_bytes(s) {
        Ok((b, k)) => if valid_utf8(b) {
            Ok((decode_utf8(b), k))
        } else {
            Err(Error::MalformedPacket)
        },
        Err(e) => Err(e),
    }
}

pub open spec fn string_field(c: Seq<char>) -> Seq<u8> {
    bytes_field(encode_utf8(c))
}

/// Reading back a byte string within the length bound gives it back.
pub proof fn lemma_bytes_round_trip(b: Seq<u8>, rest: Seq<u8>)
    requires
        b.len() <= MAX_STRING_LEN,
    ensures
        spec_read_bytes(bytes_field(b) + rest) == Ok::<(Seq<u8>, nat), Error>(
            (b, bytes_field(b).len()),
        ),
{
    let e = varint_bytes(b.len());
    lemma_varint_round_trip(b.len() as u64, b + rest);
    assert(bytes_field(b) + rest =~= e + (b + rest));
    assert((bytes_field(b) + rest).subrange(e.len() as int, (e.len() + b.len()) as int) =~= b);
}

/// Reading back a string whose encoding is within the length bound gives it
/// back.
pub proof fn lemma_string_round_trip(c: Seq<char>, rest: Seq<u8>)
    requires
        encode_utf8(c).len() <= MAX_STRING_LEN,
    ensures
        spec_read_string(string_field(c) + rest) == Ok::<(Seq<char>, nat), Error>(
            (c, string_field(c).len()),
        ),
{
    lemma_bytes_round_trip(encode_utf8(c), rest);
    encode_utf8_valid_utf8(c);
    encode_utf8_decode_utf8(c);
}

/// Appends `b` as a byte string.
pub fn write_bytes(buf: &mut Vec<u8>, b: &[u8])
    ensures
        final(buf)@ == old(buf)@ + bytes_field(b@),
{
    write_varint(buf, b.len() as u64);
    let ghost mid = buf@;
    let mut i: usize = 0;
    while i < b.len()
        invariant
            i <= b@.len(),
            buf@ == mid + b@.take(i as int),
        decreases b@.len() - i,
    {
        buf.push(b[i]);
        i = i + 1;
        assert(buf@ =~= mid + b@.take(i as int));
    }
    assert(b@.take(i as int) =~= b@);
    assert(buf@ =~= old(buf)@ + bytes_field(b@));
}

/// Appends `s` as the byte string of its UTF-8 encoding.
pub fn write_string(buf: &mut Vec<u8>, s: &str)
    ensures
        final(buf)@ == old(buf)@ + string_field(s@),
{
    write_bytes(buf, s.as_bytes());
}

/// Reads a byte string at `pos`.
pub fn read_bytes(buf: &[u8], pos: usize) -> (r: Result<(Vec<u8>, usize), Error>)
    requires
        pos <= buf@.len(),
    ensures
        decoded(r, spec_read_bytes(buf@.skip(pos as int)), pos),
        r matches Ok((_, p)) ==> p <= buf@.len(),
{
    let ghost s = buf@.skip(pos as int);
    let (n, start) = match read_varint(buf, pos) {
        Ok(v) => v,
        Err(e) => {
            return Err(e);
        },
    };
    if n > MAX_STRING_LEN {
        return Err(Error::ProtocolLimitExceeded);
    }
    if n as usize > buf.len() - start {
        return Err(Error::Incomplete);
    }
    let end: usize = start + n as usize;
    let mut out: Vec<u8> = Vec::new();
    let mut i: usize = start;
    while i < end
        invariant
            start <= i <= end <= buf@.len(),
            out@ == buf@.subrange(start as int, i as int),
        decreases end - i,
    {
        out.push(buf[i]);
        i = i + 1;
        assert(out@ =~= buf@.subrange(start as int, i as int));
    }
    assert(out@ =~= s.subrange((start - pos) as int, (end - pos) as int));
    Ok((out, end))
}

/// Relies on `String::from_utf8`: it accepts exactly the valid UTF-8 byte
/// sequences and keeps the characters they encode.
#[verifier::external_body]
fn string_from_utf8(b: Vec<u8>) -> (r: Option<String>)
    ensures
        match r {
            Some(s) => valid_utf8(b@) && s@ == decode_utf8(b@),
            None => !valid_utf8(b@),
        },
{
    String::from_utf8(b).ok()
}

/// Reads a UTF-8 string at `pos`.
pub fn read_string(buf: &[u8], pos: usize) -> (r: Result<(String, usize), Error>)
    requires
        pos <= buf@.len(),
    ensures
        decoded(r, spec_read_string(buf@.skip(pos as int)), pos),
        r matches Ok((_, p)) ==> p <= buf@.len(),
{
    let (b, end) = match read_bytes(buf, pos) {
        Ok(v) => v,
        Err(e) => {
            return Err(e);
        },
    };
    match string_from_utf8(b) {
        Some(s) => Ok((s, end)),
        None => Err(Error::MalformedPacket),
    }
}

pub open spec fn pow256(n: nat) -> nat
    decreases n,
{
    if n == 0 { 1 } else { 256 * pow256((n - 1) as nat) }
}

/// The number that `s` holds, least significant byte first.
pub open spec fn le_value(s: Seq<u8>) -> nat
    decreases s.len(),
{
    if s.len() == 0 {
        0
    } else {
        s[0] as nat + 256 * le_value(s.drop_first())
    }
}

/// The `n` low bytes of `v`, least significant first.
pub open spec fn le_bytes(v: nat, n: nat) -> Seq<u8>
    decreases n,
{
    if n == 0 {
        Seq::empty()
    } else {
        seq![(v % 256) as u8] + le_bytes(v / 256, (n - 1) as nat)
    }
}

/// An `n`-byte little-endian integer at the start of `s`.
pub open spec fn spec_read_fixed(s: Seq<u8>, n: nat) -> Result<(u64, nat), Error> {
    if s.len() < n {
        Err(Error::Incomplete)
    } else {
        Ok((le_value(s.take(n as int)) as u64, n))
    }
}

proof fn lemma_pow256_mono(i: nat, j: nat)
    requires
        i <= j,
    ensures
        1 <= pow256(i) <= pow256(j),
    decreases j - i,
{
    if i < j {
        lemma_pow256_mono(i + 1, j);
    } else {
        lemma_pow256_pos(i);
    }
}

proof fn lemma_pow256_pos(i: nat)
    ensures
        pow256(i) >= 1,
    decreases i,
{
    if i > 0 {
        lemma_pow256_pos((i - 1) as nat);
    }
}

pub proof fn lemma_pow256_8()
    ensures
        pow256(8) == 0x10000000000000000,
{
    reveal_with_fuel(pow256, 9);
}

proof fn lemma_le_bytes(v: nat, n: nat)
    requires
        v < pow256(n),
    ensures
        le_bytes(v, n).len() == n,
        le_value(le_bytes(v, n)) == v,
    decreases n,
{
    if n > 0 {
        let p = pow256((n - 1) as nat);
        assert(v / 256 < p) by (nonlinear_arith)
            requires v < 256 * p;
        lemma_le_bytes(v / 256, (n - 1) as nat);
        let e = le_bytes(v, n);
        assert(e.drop_first() =~= le_bytes(v / 256, (n - 1) as nat));
    }
}

pub proof fn lemma_le_bytes_len(v: nat, n: nat)
    ensures
        le_bytes(v, n).len() == n,
    decreases n,
{
    if n > 0 {
        lemma_le_bytes_len(v / 256, (n - 1) as nat);
    }
}

/// Reading back an integer written in `n` bytes gives it back.
pub proof fn lemma_fixed_round_trip(v: u64, n: nat, rest: Seq<u8>)
    requires
        (v as nat) < pow256(n),
    ensures
        spec_read_fixed(le_bytes(v as nat, n) + rest, n) == Ok::<(u64, nat), Error>((v, n)),
{
    lemma_le_bytes(v as nat, n);
    assert((le_bytes(v as nat, n) + rest).take(n as int) =~= le_bytes(v as nat, n));
}

/// Appends the `n` low bytes of `v`, least significant first.
pub fn write_fixed(buf: &mut Vec<u8>, v: u64, n: usize)
    ensures
        final(buf)@ == old(buf)@ + le_bytes(v as nat, n as nat),
{
    let mut x: u64 = v;
    let mut i: usize = 0;
    while i < n
        invariant
            i <= n,
            old(buf)@ + le_bytes(v as nat, n as nat) == buf@ + le_bytes(x as nat, (n - i) as nat),
        decreases n - i,
    {
        let ghost before = buf@;
        buf.push((x % 256) as u8);
        assert(before + le_bytes(x as nat, (n - i) as nat) =~= buf@ + le_bytes(
            (x / 256) as nat,
            (n - i - 1) as nat,
        ));
        x = x / 256;
        i = i + 1;
    }
    assert(buf@ + le_bytes(x as nat, 0) =~= buf@);
}

/// Reads an `n`-byte little-endian integer at `pos`.
pub fn read_fixed(buf: &[u8], pos: usize, n: usize) -> (r: Result<(u64, usize), Error>)
    requires
        pos <= buf@.len(),
        n <= 8,
    ensures
        decoded(r, spec_read_fixed(buf@.skip(pos as int), n as nat), pos),
        r matches Ok((_, p)) ==> p <= buf@.len(),
{
    if n > buf.len() - pos {
        return Err(Error::Incomplete);
    }
    let ghost s = buf@.skip(pos as int).take(n as int);
    let end: usize = pos + n;
    let mut x: u64 = 0;
    let mut i: usize = n;
    while i > 0
        invariant
            i <= n <= 8,
            end == pos + n,
            pos + n <= buf@.len(),
            s == buf@.skip(pos as int).take(n as int),
            x as nat == le_value(s.subrange(i as int, n as int)),
            (x as nat) < pow256((n - i) as nat),
        decreases i,
    {
        let b = buf[end - n + (i - 1)];
        proof {
            let t = s.subrange(i - 1, n as int);
            assert(t.drop_first() =~= s.subrange(i as int, n as int));
            assert(t[0] == b);
            lemma_pow256_mono((n - i + 1) as nat, 8);
            lemma_pow256_8();
            let p = pow256((n - i) as nat);
            assert(x * 256 + b < 256 * p) by (nonlinear_arith)
                requires x < p, b < 256;
        }
        x = x * 256 + b as u64;
        i = i - 1;
    }
    assert(s.subrange(0, n as int) =~= s);
    Ok((x, pos + n))
}

/// What a reader gives on the first `m` bytes of an input on which it gives
/// `full`: the same value once the whole field is there, else `Incomplete`.
pub open spec fn cut<T>(full: Result<(T, nat), Error>, m: nat) -> Result<(T, nat), Error> {
    match full {
        Ok((v, n)) => if m >= n {
            Ok((v, n))
        } else {
            Err(Error::Incomplete)
        },
        Err(e) => Err(e),
    }
}

proof fn lemma_first_stop_some(s: Seq<u8>)
    ensures
        first_stop(s) matches Some(k) ==> k < s.len() && s[k as int] < 128 && forall|j: int|
            0 <= j < k ==> s[j] >= 128,
    decreases s.len(),
{
    if s.len() > 0 {
        lemma_first_stop_some(s.drop_first());
        if let Some(k) = first_stop(s) {
            if k > 0 {
                assert forall|j: int| 0 <= j < k implies s[j] >= 128 by {
                    if j > 0 {
                        assert(s[j] == s.drop_first()[j - 1]);
                    }
                }
            }
        }
    }
}

/// A varint read on a prefix of its input: the same, once the prefix holds
/// it, else incomplete.
pub proof fn lemma_varint_prefix(s: Seq<u8>, m: nat)
    requires
        spec_read_varint(s) is Ok,
        m <= s.len(),
    ensures
        spec_read_varint(s.take(m as int)) == cut(spec_read_varint(s), m),
{
    lemma_first_stop_some(s);
    let k = first_stop(s)->Some_0;
    let p = s.take(m as int);
    if m > k {
        lemma_stop_after(p, k);
        assert(p.take(k as int + 1) =~= s.take(k as int + 1));
    } else {
        lemma_stop_after(p, m);
        lemma_value_mono(s, m, k + 1);
        assert(p =~= s.take(m as int));
    }
}

pub proof fn lemma_take_skip(s: Seq<u8>, a: nat, m: nat)
    requires
        a <= m <= s.len(),
    ensures
        s.take(m as int).skip(a as int) == s.skip(a as int).take(m - a),
        s.take(m as int).take(a as int) == s.take(a as int),
{
    assert(s.take(m as int).skip(a as int) =~= s.skip(a as int).take(m - a));
    assert(s.take(m as int).take(a as int) =~= s.take(a as int));
}

/// A byte string read on a prefix of its input.
pub proof fn lemma_bytes_prefix(s: Seq<u8>, m: nat)
    requires
        spec_read_bytes(s) is Ok,
        m <= s.len(),
    ensures
        spec_read_bytes(s.take(m as int)) == cut(spec_read_bytes(s), m),
{
    lemma_varint_prefix(s, m);
    let p = s.take(m as int);
    let (n, k) = spec_read_varint(s)->Ok_0;
    if m >= k {
        if k + n <= m {
            assert(p.subrange(k as int, k + n) =~= s.subrange(k as int, k + n));
        }
    }
}

/// A string read on a prefix of its input.
pub proof fn lemma_string_prefix(s: Seq<u8>, m: nat)
    requires
        spec_read_string(s) is Ok,
        m <= s.len(),
    ensures
        spec_read_string(s.take(m as int)) == cut(spec_read_string(s), m),
{
    lemma_bytes_prefix(s, m);
}

/// A fixed-width integer read on a prefix of its input.
pub proof fn lemma_fixed_prefix(s: Seq<u8>, n: nat, m: nat)
    requires
        spec_read_fixed(s, n) is Ok,
        m <= s.len(),
    ensures
        spec_read_fixed(s.take(m as int), n) == cut(spec_read_fixed(s, n), m),
{
    assert(s.take(m as int).take(n as int) =~= s.take(n as int) || m < n);
}

} // verus!
