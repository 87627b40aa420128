//! A compact, sorted, duplicate-free encoding of a set of KSUIDs.
//!
//! The first KSUID is stored raw; each later one is stored relative to the
//! one before it: raw when nothing smaller fits, as a timestamp delta plus
//! payload when the timestamp grew, or as a delta to the last 8 payload
//! bytes when only those grew.
use vstd::prelude::*;
use vstd::slice::slice_subrange;
use crate::{Error, Ksuid, timestamp_bytes};
use crate::base62::{lemma_bytes_below, lemma_power_values};
use crate::positional::{
    be_value, lemma_be_bound, lemma_be_injective, lemma_power_adds, lemma_power_positive,
    lemma_to_digits_of_value, power, to_digits,
};
use crate::varint::lemma_varint_roundtrip;
use crate::varint::{decode_varint, encode_varint, spec_decode_varint, spec_varint};
use crate::sort::{sort, sorted};
use vstd::arithmetic::div_mod::lemma_div_denominator;

verus! {

/// Tag of an entry that holds a whole KSUID.
pub const RAW_KSUID: u8 = 0x00;

/// Tag of an entry that holds a timestamp delta and a payload.
pub const TIME_DELTA: u8 = 0x40;

/// Tag of an entry that holds a varint delta to the last 8 payload bytes.
pub const PAYLOAD_DELTA: u8 = 0x80;

/// Tag of an entry whose low 6 bits are a delta (1..=63) to the last 8 payload bytes.
pub const PAYLOAD_RANGE: u8 = 0xC0;

/// The bits of an entry's first byte that hold its tag.
pub const TAG_MASK: u8 = 0xC0;

/// The bits of an entry's first byte that hold a small delta.
pub const VALUE_MASK: u8 = 0x3F;

/// The number the 8 bytes at 12..20 of a KSUID spell.
pub open spec fn tail8(k: Seq<u8>) -> nat {
    be_value(k.subrange(12, 20), 256)
}

/// The timestamp the first 4 bytes of a KSUID spell.
pub open spec fn ts_of(k: Seq<u8>) -> nat {
    be_value(k.take(4), 256)
}

/// `k` with `delta` added to its last 8 bytes, modulo 2^64.
pub open spec fn with_tail_added(k: Seq<u8>, delta: nat) -> Seq<u8> {
    k.take(12) + to_digits((tail8(k) + delta) % 18446744073709551616, 256, 8)
}

/// The KSUID whose timestamp is `prev`'s plus `delta` (modulo 2^32) and
/// whose payload is `payload`.
pub open spec fn with_ts_added(prev: Seq<u8>, delta: nat, payload: Seq<u8>) -> Seq<u8> {
    timestamp_bytes((ts_of(prev) + delta) % 4294967296) + payload
}

/// Reading the entry at `pos` after the KSUID `prev`: `Ok(None)` at the end
/// of the data, else the KSUID read and the position after the entry, or
/// `CorruptionDetected` for a truncated entry, a relative entry without a
/// previous KSUID, a bad varint or a zero small delta.
pub open spec fn spec_step(data: Seq<u8>, pos: nat, prev: Option<Seq<u8>>) -> Result<
    Option<(Seq<u8>, nat)>,
    Error,
> {
    if pos >= data.len() {
        Ok(None)
    } else {
        let tag_byte = data[pos as int];
        let tag = tag_byte / 64;
        let p = pos + 1;
        if tag == 0 {
            if p + 20 > data.len() {
                Err(Error::CorruptionDetected)
            } else {
                Ok(Some((data.subrange(p as int, (p + 20) as int), p + 20)))
            }
        } else {
            match prev {
                None => Err(Error::CorruptionDetected),
                Some(pk) => if tag == 3 {
                    let delta = (tag_byte % 64) as nat;
                    if delta == 0 {
                        Err(Error::CorruptionDetected)
                    } else {
                        Ok(Some((with_tail_added(pk, delta), p)))
                    }
                } else {
                    match spec_decode_varint(data.skip(p as int)) {
                        None => Err(Error::CorruptionDetected),
                        Some((delta, used)) => {
                            let q = p + used;
                            if tag == 1 {
                                if q + 16 > data.len() {
                                    Err(Error::CorruptionDetected)
                                } else {
                                    Ok(
                                        Some(
                                            (
                                                with_ts_added(
                                                    pk,
                                                    delta,
                                                    data.subrange(q as int, (q + 16) as int),
                                                ),
                                                q + 16,
                                            ),
                                        ),
                                    )
                                }
                            } else {
                                Ok(Some((with_tail_added(pk, delta), q)))
                            }
                        },
                    }
                },
            }
        }
    }
}

/// Where reading stands after an entry at `pos` is refused: past the tag
/// byte, and past the varint too when a timestamp delta's payload is cut off.
pub open spec fn spec_error_pos(data: Seq<u8>, pos: nat, prev: Option<Seq<u8>>) -> nat {
    let p = pos + 1;
    if data[pos as int] / 64 == 1 && prev is Some {
        match spec_decode_varint(data.skip(p as int)) {
            Some((delta, used)) => p + used,
            None => p,
        }
    } else {
        p
    }
}

/// Reading an entry consumes at least one byte and stays within the data.
pub proof fn lemma_step_advances(data: Seq<u8>, pos: nat, prev: Option<Seq<u8>>)
    ensures
        spec_step(data, pos, prev) matches Ok(Some((k, q))) ==> pos < q <= data.len(),
{
    if pos < data.len() {
        let p = pos + 1;
        if let Some((delta, used)) = spec_decode_varint(data.skip(p as int)) {
            crate::varint::lemma_varint_len_bound(data.skip(p as int));
        }
    }
}

/// Reads the 8 bytes at `at` as a big-endian number.
fn read_u64_be(b: &[u8; 20], at: usize) -> (r: u64)
    requires
        at + 8 <= 20,
    ensures
        r == be_value(b@.subrange(at as int, at + 8), 256),
{
    let mut r: u64 = 0;
    let mut j: usize = 0;
    while j < 8
        invariant
            j <= 8,
            at + 8 <= 20,
            r == be_value(b@.subrange(at as int, at + j), 256),
        decreases 8 - j,
    {
        proof {
            let s = b@.subrange(at as int, at + j);
            lemma_bytes_below(s);
            lemma_be_bound(s, 256);
            lemma_power_positive(256, j as nat);
            lemma_power_values();
            if j < 7 {
                vstd::arithmetic::power::lemma_pow_increases(256, j as nat, 7);
                lemma_power_matches_pow(256, j as nat);
                lemma_power_matches_pow(256, 7);
            }
            assert(power(256, 7) == 72057594037927936) by {
                lemma_power_adds(256, 4, 3);
            }
            assert(r * 256 + 255 < 18446744073709551616) by (nonlinear_arith)
                requires
                    r < power(256, j as nat),
                    power(256, j as nat) <= 72057594037927936,
            ;
            assert(b@.subrange(at as int, at + j + 1).drop_last() =~= s);
        }
        r = r * 256 + b[at + j] as u64;
        j += 1;
    }
    r
}

/// `power` agrees with vstd's `pow`.
pub proof fn lemma_power_matches_pow(b: nat, e: nat)
    ensures
        power(b, e) == vstd::arithmetic::power::pow(b as int, e),
    decreases e,
{
    vstd::arithmetic::power::lemma_pow0(b as int);
    if e > 0 {
        lemma_power_matches_pow(b, (e - 1) as nat);
        vstd::arithmetic::power::lemma_pow_adds(b as int, 1, (e - 1) as nat);
        vstd::arithmetic::power::lemma_pow1(b as int);
        assert((1 + (e - 1) as nat) as nat == e);
    }
}

/// Writes `v` as 8 big-endian bytes at `at`.
fn write_u64_be(b: &mut [u8; 20], at: usize, v: u64)
    requires
        at + 8 <= 20,
    ensures
        final(b)@ == old(b)@.take(at as int) + to_digits(v as nat, 256, 8) + old(b)@.skip(at + 8),
{
    let mut x = v;
    let mut k: usize = 0;
    proof {
        assert(power(256, 0) == 1);
    }
    while k < 8
        invariant
            k <= 8,
            at + 8 <= 20,
            x as nat == v as nat / power(256, k as nat),
            forall|i: int| 0 <= i < at || at + 8 <= i < 20 ==> b@[i] == old(b)@[i],
            forall|i: int|
                at + 8 - k <= i < at + 8 ==> #[trigger] b@[i] == to_digits(v as nat, 256, 8)[i - at],
        decreases 8 - k,
    {
        b[at + 7 - k] = (x % 256) as u8;
        proof {
            lemma_power_positive(256, k as nat);
            lemma_div_denominator(v as int, power(256, k as nat) as int, 256);
            lemma_power_adds(256, k as nat, 1);
            assert(power(256, 1) == 256 * power(256, 0));
            assert(power(256, 0) == 1);
        }
        x = x / 256;
        k += 1;
    }
    assert(b@ =~= old(b)@.take(at as int) + to_digits(v as nat, 256, 8) + old(b)@.skip(at + 8));
}

/// `k` with `delta` added to its last 8 bytes, wrapping at 2^64.
fn add_to_tail(k: &Ksuid, delta: u64) -> (r: Ksuid)
    ensures
        r@ == with_tail_added(k@, delta as nat),
{
    let mut bytes = *k.bytes();
    proof {
        k.lemma_view(*k);
    }
    let tail = read_u64_be(&bytes, 12);
    let new_tail = tail.wrapping_add(delta);
    write_u64_be(&mut bytes, 12, new_tail);
    proof {
        assert(bytes@.skip(20) =~= Seq::<u8>::empty());
        assert(bytes@ =~= with_tail_added(k@, delta as nat));
    }
    Ksuid::from_bytes(&bytes)
}

/// Reading all entries from `pos` on, after the KSUID `prev`: the KSUIDs
/// read, or the first error met.
pub open spec fn spec_decode_all(data: Seq<u8>, pos: nat, prev: Option<Seq<u8>>) -> Result<
    Seq<Seq<u8>>,
    Error,
>
    decreases data.len() - pos,
{
    if pos >= data.len() {
        Ok(Seq::empty())
    } else {
        match spec_step(data, pos, prev) {
            Err(e) => Err(e),
            Ok(None) => Ok(Seq::empty()),
            Ok(Some((k, q))) => {
                proof {
                    lemma_step_advances(data, pos, prev);
                }
                match spec_decode_all(data, q, Some(k)) {
                    Ok(rest) => Ok(seq![k] + rest),
                    Err(e) => Err(e),
                }
            },
        }
    }
}

/// The bytes of each KSUID.
pub open spec fn views(s: Seq<Ksuid>) -> Seq<Seq<u8>> {
    s.map_values(|k: Ksuid| k@)
}

/// A compressed set of KSUIDs using delta encoding.
///
/// KSUIDs are sorted and stored as deltas from the previous value,
/// using varint encoding for compact representation.
pub struct CompressedSet {
    data: Vec<u8>,
}

/// Iterator over a CompressedSet.
pub struct CompressedSetIter<'a> {
    data: &'a [u8],
    pos: usize,
    prev: Option<Ksuid>,
}

impl<'a> CompressedSetIter<'a> {
    #[verifier::type_invariant]
    spec fn within(self) -> bool {
        self.pos <= self.data@.len()
    }

    /// The bytes being read.
    pub closed spec fn spec_data(&self) -> Seq<u8> {
        self.data@
    }

    /// Where the next entry starts.
    pub closed spec fn spec_pos(&self) -> nat {
        self.pos as nat
    }

    /// The KSUID read last, if any.
    pub closed spec fn spec_prev(&self) -> Option<Seq<u8>> {
        match self.prev {
            Some(k) => Some(k@),
            None => None,
        }
    }

    /// Get the next KSUID from the compressed set.
    pub fn next_id(&mut self) -> (r: Result<Option<Ksuid>, Error>)
        ensures
            final(self).spec_data() == old(self).spec_data(),
            r matches Ok(None) ==> spec_step(
                old(self).spec_data(),
                old(self).spec_pos(),
                old(self).spec_prev(),
            ) == Ok::<Option<(Seq<u8>, nat)>, Error>(None) && final(self).spec_pos() == old(
                self,
            ).spec_pos() && final(self).spec_prev() == old(self).spec_prev(),
            r matches Ok(Some(k)) ==> spec_step(
                old(self).spec_data(),
                old(self).spec_pos(),
                old(self).spec_prev(),
            ) == Ok::<Option<(Seq<u8>, nat)>, Error>(Some((k@, final(self).spec_pos())))
                && final(self).spec_prev() == Some(k@),
            r matches Err(e) ==> spec_step(
                old(self).spec_data(),
                old(self).spec_pos(),
                old(self).spec_prev(),
            ) == Err::<Option<(Seq<u8>, nat)>, Error>(e) && final(self).spec_prev() == old(
                self,
            ).spec_prev() && final(self).spec_pos() == spec_error_pos(
                old(self).spec_data(),
                old(self).spec_pos(),
                old(self).spec_prev(),
            ),
    {
        proof {
            use_type_invariant(&*self);
        }
        let ghost data = self.data@;
        let ghost pos0 = self.pos as int;
        let ghost prev0 = self.spec_prev();
        if self.pos >= self.data.len() {
            return Ok(None);
        }
        let tag_byte = self.data[self.pos];
        let tag = tag_byte & TAG_MASK;
        proof {
            assert(tag_byte & 0xC0 == (tag_byte / 64) * 64) by (bit_vector);
            assert(tag_byte & 0x3F == tag_byte % 64) by (bit_vector);
            assert(tag_byte / 64 < 4);
        }
        self.pos += 1;
        let ksuid = if tag == RAW_KSUID {
            if self.data.len() - self.pos < 20 {
                return Err(Error::CorruptionDetected);
            }
            let mut bytes = [0u8; 20];
            let mut i: usize = 0;
            while i < 20
                invariant
                    i <= 20,
                    self.pos + 20 <= self.data.len(),
                    forall|j: int| 0 <= j < i ==> bytes[j] == self.data@[self.pos + j],
                decreases 20 - i,
            {
                bytes[i] = self.data[self.pos + i];
                i += 1;
            }
            assert(bytes@ =~= data.subrange(pos0 + 1, pos0 + 21));
            self.pos += 20;
            Ksuid::from_bytes(&bytes)
        } else if tag == PAYLOAD_RANGE {
            let prev = match self.prev {
                Some(p) => p,
                None => {
                    return Err(Error::CorruptionDetected);
                },
            };
            let delta = (tag_byte & VALUE_MASK) as u64;
            if delta == 0 {
                return Err(Error::CorruptionDetected);
            }
            add_to_tail(&prev, delta)
        } else {
            let prev = match self.prev {
                Some(p) => p,
                None => {
                    return Err(Error::CorruptionDetected);
                },
            };
            let rest = slice_subrange(self.data, self.pos, self.data.len());
            assert(rest@ =~= data.skip(pos0 + 1));
            let (delta, consumed) = match decode_varint(rest) {
                Some(v) => v,
                None => {
                    return Err(Error::CorruptionDetected);
                },
            };
            proof {
                crate::varint::lemma_varint_len_bound(rest@);
            }
            self.pos += consumed;
            if tag == TIME_DELTA {
                if self.data.len() - self.pos < 16 {
                    return Err(Error::CorruptionDetected);
                }
                let d32 = (delta % 4294967296) as u32;
                let new_ts = prev.timestamp().wrapping_add(d32);
                let mut payload = [0u8; 16];
                let mut i: usize = 0;
                while i < 16
                    invariant
                        i <= 16,
                        self.pos + 16 <= self.data.len(),
                        forall|j: int| 0 <= j < i ==> payload[j] == self.data@[self.pos + j],
                    decreases 16 - i,
                {
                    payload[i] = self.data[self.pos + i];
                    i += 1;
                }
                let ghost q = self.pos as int;
                assert(payload@ =~= data.subrange(q, q + 16));
                proof {
                    assert(new_ts as nat == (prev.spec_timestamp() + delta as nat) % 4294967296)
                        by (nonlinear_arith)
                        requires
                            new_ts as nat == (prev.spec_timestamp() + d32 as nat) % 4294967296,
                            d32 as nat == delta as nat % 4294967296,
                    ;
                }
                self.pos += 16;
                Ksuid::from_parts(new_ts, &payload)
            } else {
                add_to_tail(&prev, delta)
            }
        };
        self.prev = Some(ksuid);
        Ok(Some(ksuid))
    }
}

impl CompressedSet {
    /// The compressed bytes.
    pub closed spec fn spec_data(&self) -> Seq<u8> {
        self.data@
    }

    /// Decompress a CompressedSet from raw bytes.
    ///
    /// The bytes are accepted exactly when every entry in them reads.
    pub fn from_bytes(data: &[u8]) -> (r: Result<Self, Error>)
        ensures
            r matches Ok(set) ==> set.spec_data() == data@ && spec_decode_all(data@, 0, None) is Ok,
            r matches Err(e) ==> spec_decode_all(data@, 0, None) == Err::<Seq<Seq<u8>>, Error>(e),
    {
        let set = Self { data: slice_to_vec(data) };
        match set.to_vec() {
            Ok(_) => Ok(set),
            Err(e) => Err(e),
        }
    }

    /// Returns the raw compressed bytes.
    pub fn to_bytes(&self) -> (b: &[u8])
        ensures
            b@ == self.spec_data(),
    {
        self.data.as_slice()
    }

    /// Decompress all KSUIDs into a Vec.
    pub fn to_vec(&self) -> (r: Result<Vec<Ksuid>, Error>)
        ensures
            r matches Ok(v) ==> spec_decode_all(self.spec_data(), 0, None) == Ok::<
                Seq<Seq<u8>>,
                Error,
            >(views(v@)),
            r matches Err(e) ==> spec_decode_all(self.spec_data(), 0, None) == Err::<
                Seq<Seq<u8>>,
                Error,
            >(e),
    {
        let mut result: Vec<Ksuid> = Vec::new();
        let mut iter = self.iter();
        let ghost data = self.data@;
        let ghost all = spec_decode_all(data, 0, None);
        proof {
            assert(views(result@) =~= Seq::<Seq<u8>>::empty());
            assert(Seq::<Seq<u8>>::empty() + Seq::<Seq<u8>>::empty() =~= Seq::<Seq<u8>>::empty());
        }
        loop
            invariant
                iter.spec_data() == data,
                data == self.spec_data(),
                all == spec_decode_all(data, 0, None),
                all matches Ok(a) ==> (spec_decode_all(data, iter.spec_pos(), iter.spec_prev())
                    matches Ok(rest) && a == views(result@) + rest),
                all matches Err(e) ==> spec_decode_all(data, iter.spec_pos(), iter.spec_prev())
                    == Err::<Seq<Seq<u8>>, Error>(e),
            decreases data.len() - iter.spec_pos(),
        {
            proof {
                use_type_invariant(&iter);
            }
            let ghost pos = iter.spec_pos();
            let ghost prev = iter.spec_prev();
            match iter.next_id() {
                Err(e) => {
                    proof {
                        assert(spec_decode_all(data, pos, prev) == Err::<Seq<Seq<u8>>, Error>(e));
                    }
                    return Err(e);
                },
                Ok(None) => {
                    proof {
                        assert(spec_decode_all(data, pos, prev) == Ok::<Seq<Seq<u8>>, Error>(
                            Seq::empty(),
                        ));
                        assert(views(result@) + Seq::<Seq<u8>>::empty() =~= views(result@));
                    }
                    return Ok(result);
                },
                Ok(Some(id)) => {
                    proof {
                        lemma_step_advances(data, pos, prev);
                        assert(views(result@.push(id)) =~= views(result@).push(id@));
                        if let Ok(a) = all {
                            let rest = spec_decode_all(data, iter.spec_pos(), iter.spec_prev())->Ok_0;
                            assert(a =~= views(result@.push(id)) + rest);
                        }
                    }
                    result.push(id);
                },
            }
        }
    }

    /// Returns an iterator over the compressed KSUIDs.
    pub fn iter(&self) -> (it: CompressedSetIter<'_>)
        ensures
            it.spec_data() == self.spec_data(),
            it.spec_pos() == 0,
            it.spec_prev() is None,
    {
        CompressedSetIter { data: self.data.as_slice(), pos: 0, prev: None }
    }

    /// Returns true if the compressed set is empty.
    pub fn is_empty(&self) -> (b: bool)
        ensures
            b == (self.spec_data().len() == 0),
    {
        self.data.len() == 0
    }

    /// Returns the length of the compressed data in bytes.
    pub fn len(&self) -> (n: usize)
        ensures
            n == self.spec_data().len(),
    {
        self.data.len()
    }
}

/// A copy of the bytes of a slice.
fn slice_to_vec(s: &[u8]) -> (v: Vec<u8>)
    ensures
        v@ == s@,
{
    let mut v: Vec<u8> = Vec::with_capacity(s.len());
    let mut i: usize = 0;
    while i < s.len()
        invariant
            i <= s@.len(),
            v@ == s@.take(i as int),
        decreases s@.len() - i,
    {
        v.push(s[i]);
        proof {
            assert(s@.take(i + 1) =~= s@.take(i as int).push(s@[i as int]));
        }
        i += 1;
    }
    assert(s@.take(s@.len() as int) =~= s@);
    v
}

/// The entry that stores `curr` after `prev`.
pub open spec fn spec_entry(prev: Seq<u8>, curr: Seq<u8>) -> Seq<u8> {
    let pt = ts_of(prev);
    let ct = ts_of(curr);
    if pt == ct {
        if prev.subrange(4, 12) == curr.subrange(4, 12) && tail8(curr) >= tail8(prev) {
            let d = (tail8(curr) - tail8(prev)) as nat;
            if 0 < d && d <= 63 {
                seq![(192 + d) as u8]
            } else {
                seq![128u8] + spec_varint(d)
            }
        } else {
            seq![0u8] + curr
        }
    } else if ct > pt {
        seq![64u8] + spec_varint((ct - pt) as nat) + curr.skip(4)
    } else {
        seq![0u8] + curr
    }
}

/// The entries that store `rest`, each after the one before it, the first
/// after `prev`.
pub open spec fn spec_encode_from(prev: Seq<u8>, rest: Seq<Seq<u8>>) -> Seq<u8>
    decreases rest.len(),
{
    if rest.len() == 0 {
        Seq::empty()
    } else {
        spec_entry(prev, rest[0]) + spec_encode_from(rest[0], rest.drop_first())
    }
}

/// The compressed form of the KSUIDs `ks`, in their order: the first raw,
/// each later one after the one before it.
pub open spec fn spec_encode_list(ks: Seq<Seq<u8>>) -> Seq<u8> {
    if ks.len() == 0 {
        Seq::empty()
    } else {
        seq![0u8] + ks[0] + spec_encode_from(ks[0], ks.drop_first())
    }
}

/// Every KSUID of `s` is below every later one.
pub open spec fn strictly_sorted(s: Seq<Ksuid>) -> bool {
    forall|i: int, j: int| 0 <= i < j < s.len() ==> s[i].value() < s[j].value()
}

/// Appending one KSUID appends one entry.
pub proof fn lemma_encode_from_push(prev: Seq<u8>, rest: Seq<Seq<u8>>, x: Seq<u8>)
    ensures
        spec_encode_from(prev, rest.push(x)) == spec_encode_from(prev, rest) + spec_entry(
            if rest.len() == 0 {
                prev
            } else {
                rest.last()
            },
            x,
        ),
    decreases rest.len(),
{
    if rest.len() == 0 {
        assert(rest.push(x).drop_first() =~= Seq::<Seq<u8>>::empty());
        assert(rest.push(x)[0] == x);
        assert(spec_encode_from(x, Seq::<Seq<u8>>::empty()) == Seq::<u8>::empty());
        assert(spec_encode_from(prev, rest.push(x)) =~= spec_entry(prev, x));
    } else {
        let t = rest.drop_first();
        lemma_encode_from_push(rest[0], t, x);
        assert(rest.push(x).drop_first() =~= t.push(x));
        if t.len() > 0 {
            assert(t.last() == rest.last());
        }
        assert(spec_encode_from(prev, rest.push(x)) =~= spec_encode_from(prev, rest) + spec_entry(
            rest.last(),
            x,
        ));
    }
}

/// Appends `b[from..to]` to `data`.
fn push_bytes(data: &mut Vec<u8>, b: &[u8; 20], from: usize, to: usize)
    requires
        from <= to <= 20,
    ensures
        final(data)@ == old(data)@ + b@.subrange(from as int, to as int),
{
    let mut i = from;
    while i < to
        invariant
            from <= i <= to <= 20,
            data@ == old(data)@ + b@.subrange(from as int, i as int),
        decreases to - i,
    {
        data.push(b[i]);
        proof {
            assert(b@.subrange(from as int, i + 1) =~= b@.subrange(from as int, i as int).push(
                b@[i as int],
            ));
        }
        i += 1;
    }
}

/// Whether `a[from..to]` and `b[from..to]` hold the same bytes.
fn same_bytes(a: &[u8; 20], b: &[u8; 20], from: usize, to: usize) -> (r: bool)
    requires
        from <= to <= 20,
    ensures
        r == (a@.subrange(from as int, to as int) == b@.subrange(from as int, to as int)),
{
    let mut i = from;
    while i < to
        invariant
            from <= i <= to <= 20,
            forall|j: int| from <= j < i ==> a@[j] == b@[j],
        decreases to - i,
    {
        if a[i] != b[i] {
            assert(a@.subrange(from as int, to as int)[i - from] != b@.subrange(
                from as int,
                to as int,
            )[i - from]);
            return false;
        }
        i += 1;
    }
    assert(a@.subrange(from as int, to as int) =~= b@.subrange(from as int, to as int));
    true
}

/// Appends the entry that stores `curr` after `prev`.
fn encode_entry(data: &mut Vec<u8>, prev: &Ksuid, curr: &Ksuid)
    ensures
        final(data)@ == old(data)@ + spec_entry(prev@, curr@),
{
    proof {
        prev.lemma_view(*prev);
        curr.lemma_view(*curr);
        assert(curr@.subrange(0, 20) =~= curr@);
        assert(curr@.subrange(4, 20) =~= curr@.skip(4));
    }
    let prev_ts = prev.timestamp();
    let curr_ts = curr.timestamp();
    let pb = prev.bytes();
    let cb = curr.bytes();
    if prev_ts == curr_ts {
        // Same timestamp: check whether only the last 8 payload bytes grew.
        let prev_tail = read_u64_be(pb, 12);
        let curr_tail = read_u64_be(cb, 12);
        let prefix_same = same_bytes(pb, cb, 4, 12);
        if prefix_same && curr_tail >= prev_tail {
            let delta = curr_tail - prev_tail;
            if delta <= 0x3F && delta > 0 {
                let d = delta as u8;
                proof {
                    assert(d < 64 ==> PAYLOAD_RANGE | d == 192 + d) by (bit_vector);
                }
                data.push(PAYLOAD_RANGE | d);
                assert(data@ =~= old(data)@ + spec_entry(prev@, curr@));
            } else {
                data.push(PAYLOAD_DELTA);
                encode_varint(data, delta);
                assert(data@ =~= old(data)@ + spec_entry(prev@, curr@));
            }
        } else {
            data.push(RAW_KSUID);
            push_bytes(data, cb, 0, 20);
            assert(data@ =~= old(data)@ + spec_entry(prev@, curr@));
        }
    } else if curr_ts > prev_ts {
        let ts_delta = (curr_ts - prev_ts) as u64;
        data.push(TIME_DELTA);
        encode_varint(data, ts_delta);
        push_bytes(data, cb, 4, 20);
        assert(data@ =~= old(data)@ + spec_entry(prev@, curr@));
    } else {
        data.push(RAW_KSUID);
        push_bytes(data, cb, 0, 20);
        assert(data@ =~= old(data)@ + spec_entry(prev@, curr@));
    }
}

impl CompressedSet {
    /// Compress a slice of KSUIDs into a CompressedSet.
    ///
    /// The input is sorted and deduplicated automatically.
    pub fn compress(ids: &[Ksuid]) -> (set: Self)
        ensures
            exists|s: Seq<Ksuid>|
                strictly_sorted(s) && (forall|k: Ksuid| s.contains(k) <==> ids@.contains(k))
                    && set.spec_data() == spec_encode_list(#[trigger] views(s)),
    {
        if ids.len() == 0 {
            let set = Self { data: Vec::new() };
            assert(set.spec_data() =~= spec_encode_list(views(Seq::<Ksuid>::empty())));
            return set;
        }
        // Sort and deduplicate
        let mut sorted_ids: Vec<Ksuid> = Vec::with_capacity(ids.len());
        let mut i: usize = 0;
        while i < ids.len()
            invariant
                i <= ids@.len(),
                sorted_ids@ == ids@.take(i as int),
            decreases ids@.len() - i,
        {
            sorted_ids.push(ids[i]);
            proof {
                assert(ids@.take(i + 1) =~= ids@.take(i as int).push(ids@[i as int]));
            }
            i += 1;
        }
        proof {
            assert(ids@.take(ids@.len() as int) =~= ids@);
        }
        sort(sorted_ids.as_mut_slice());
        proof {
            broadcast use vstd::seq_lib::group_to_multiset_ensures;

            assert forall|k: Ksuid| sorted_ids@.contains(k) <==> ids@.contains(k) by {
                assert(sorted_ids@.to_multiset().count(k) == ids@.to_multiset().count(k));
            }
            assert(sorted_ids@.to_multiset().len() == ids@.to_multiset().len());
            assert(sorted_ids@.len() == ids@.len());
        }
        let n = sorted_ids.len();
        let mut uniq: Vec<Ksuid> = Vec::new();
        let mut j: usize = 0;
        while j < n
            invariant
                n == sorted_ids@.len(),
                j <= n,
                sorted(sorted_ids@),
                strictly_sorted(uniq@),
                forall|k: Ksuid| uniq@.contains(k) <==> sorted_ids@.take(j as int).contains(k),
                j > 0 ==> uniq@.len() > 0 && uniq@.last() == sorted_ids@[j - 1],
                j == 0 ==> uniq@.len() == 0,
            decreases n - j,
        {
            let x = sorted_ids[j];
            let ghost before = uniq@;
            let keep = if uniq.len() == 0 {
                true
            } else {
                uniq[uniq.len() - 1].less_than(&x)
            };
            if keep {
                uniq.push(x);
            }
            proof {
                assert(sorted_ids@.take(j + 1) =~= sorted_ids@.take(j as int).push(x));
                if !keep {
                    assert(j > 0);
                    assert(before.last().value() <= x.value());
                    crate::lemma_same_value(before.last(), x);
                    assert(before.contains(x)) by {
                        assert(before[before.len() - 1] == x);
                    }
                }
                assert forall|k: Ksuid| uniq@.contains(k) <==> sorted_ids@.take(j + 1).contains(
                    k,
                ) by {
                    vstd::seq_lib::lemma_seq_contains_after_push(sorted_ids@.take(j as int), x, k);
                    if keep {
                        assert(uniq@ == before.push(x));
                        vstd::seq_lib::lemma_seq_contains_after_push(before, x, k);
                    }
                }
                if keep {
                    assert forall|a: int, b: int| 0 <= a < b < uniq@.len() implies uniq@[a].value()
                        < uniq@[b].value() by {
                        if b == uniq@.len() - 1 && a < b {
                            if a < before.len() - 1 {
                                assert(before[a].value() < before.last().value());
                            }
                        }
                    }
                }
            }
            j += 1;
        }
        proof {
            assert(sorted_ids@.take(n as int) =~= sorted_ids@);
            assert(n > 0);
        }
        // Write first KSUID as raw, then each later one as an entry.
        let mut data: Vec<u8> = Vec::new();
        data.push(RAW_KSUID);
        push_bytes(&mut data, uniq[0].bytes(), 0, 20);
        proof {
            uniq@[0].lemma_view(uniq@[0]);
            assert(uniq@[0]@.subrange(0, 20) =~= uniq@[0]@);
            assert(views(uniq@.take(1)).drop_first() =~= Seq::<Seq<u8>>::empty());
            assert(data@ =~= spec_encode_list(views(uniq@.take(1))));
        }
        let m = uniq.len();
        let mut k: usize = 1;
        while k < m
            invariant
                m == uniq@.len(),
                1 <= k <= m,
                data@ == spec_encode_list(views(uniq@.take(k as int))),
            decreases m - k,
        {
            let ghost before = data@;
            encode_entry(&mut data, &uniq[k - 1], &uniq[k]);
            proof {
                let vs = views(uniq@.take(k as int));
                let vs1 = views(uniq@.take(k + 1));
                assert(vs1 =~= vs.push(uniq@[k as int]@));
                assert(vs1.drop_first() =~= vs.drop_first().push(uniq@[k as int]@));
                assert(vs1[0] == vs[0]);
                lemma_encode_from_push(vs[0], vs.drop_first(), uniq@[k as int]@);
                if vs.drop_first().len() > 0 {
                    assert(vs.drop_first().last() == uniq@[k - 1]@);
                } else {
                    assert(vs[0] == uniq@[k - 1]@);
                }
                assert(data@ =~= spec_encode_list(vs1));
            }
            k += 1;
        }
        proof {
            assert(uniq@.take(m as int) =~= uniq@);
        }
        Self { data }
    }
}

/// Adding the difference of the last 8 bytes to a KSUID that agrees with
/// `curr` on its first 12 bytes gives `curr`.
proof fn lemma_tail_added_is_curr(prev: Seq<u8>, curr: Seq<u8>)
    requires
        prev.len() == 20,
        curr.len() == 20,
        prev.take(12) == curr.take(12),
        tail8(curr) >= tail8(prev),
    ensures
        with_tail_added(prev, (tail8(curr) - tail8(prev)) as nat) == curr,
{
    let t = curr.subrange(12, 20);
    lemma_bytes_below(t);
    lemma_be_bound(t, 256);
    lemma_power_values();
    lemma_power_adds(256, 4, 4);
    assert(t.len() == 8);
    vstd::arithmetic::div_mod::lemma_small_mod(tail8(curr), 18446744073709551616);
    lemma_to_digits_of_value(t, 256);
    assert(curr.take(12) + t =~= curr);
}

/// Reading the entry that stores `curr` after `prev` gives `curr` and the
/// position after the entry.
pub proof fn lemma_decode_entry(data: Seq<u8>, pos: nat, prev: Seq<u8>, curr: Seq<u8>)
    requires
        prev.len() == 20,
        curr.len() == 20,
        pos + spec_entry(prev, curr).len() <= data.len(),
        data.subrange(pos as int, (pos + spec_entry(prev, curr).len()) as int) == spec_entry(prev, curr),
    ensures
        spec_step(data, pos, Some(prev)) == Ok::<Option<(Seq<u8>, nat)>, Error>(
            Some((curr, pos + spec_entry(prev, curr).len())),
        ),
{
    let e = spec_entry(prev, curr);
    let pt = ts_of(prev);
    let ct = ts_of(curr);
    let p = pos + 1;
    assert(data[pos as int] == e[0]);
    lemma_bytes_below(prev.take(4));
    lemma_bytes_below(curr.take(4));
    if pt == ct && prev.subrange(4, 12) == curr.subrange(4, 12) && tail8(curr) >= tail8(prev) {
        let d = (tail8(curr) - tail8(prev)) as nat;
        lemma_be_injective(prev.take(4), curr.take(4), 256);
        assert(prev.take(12) =~= prev.take(4) + prev.subrange(4, 12));
        assert(curr.take(12) =~= curr.take(4) + curr.subrange(4, 12));
        lemma_tail_added_is_curr(prev, curr);
        if 0 < d && d <= 63 {
            assert(e[0] == (192 + d) as u8);
        } else {
            let t = curr.subrange(12, 20);
            lemma_bytes_below(t);
            lemma_be_bound(t, 256);
            lemma_power_values();
            lemma_power_adds(256, 4, 4);
            let v = spec_varint(d);
            let after = data.skip(p as int);
            assert(after =~= v + data.skip((pos + e.len()) as int)) by {
                assert(e =~= seq![128u8] + v);
                assert forall|i: int| 0 <= i < v.len() implies after[i] == v[i] by {
                    assert(after[i] == data[p + i]);
                    assert(data.subrange(pos as int, (pos + e.len()) as int)[1 + i] == e[1 + i]);
                }
            }
            lemma_varint_roundtrip(d as u64, data.skip((pos + e.len()) as int));
        }
    } else if pt != ct && ct > pt {
        let d = (ct - pt) as nat;
        lemma_be_bound(curr.take(4), 256);
        lemma_power_values();
        let v = spec_varint(d);
        assert(e =~= seq![64u8] + v + curr.skip(4));
        let after = data.skip(p as int);
        let q = p + v.len();
        assert(after =~= v + data.skip(q as int)) by {
            assert forall|i: int| 0 <= i < v.len() implies after[i] == v[i] by {
                assert(after[i] == data[p + i]);
                assert(data.subrange(pos as int, (pos + e.len()) as int)[1 + i] == e[1 + i]);
            }
        }
        lemma_varint_roundtrip(d as u64, data.skip(q as int));
        assert(data.subrange(q as int, (q + 16) as int) =~= curr.skip(4)) by {
            assert forall|i: int| 0 <= i < 16 implies data.subrange(q as int, (q + 16) as int)[i] == curr.skip(4)[i] by {
                assert(data.subrange(pos as int, (pos + e.len()) as int)[1 + v.len() + i] == e[1 + v.len() + i]);
            }
        }
        vstd::arithmetic::div_mod::lemma_small_mod(ct, 4294967296);
        lemma_to_digits_of_value(curr.take(4), 256);
        assert(curr.take(4) + curr.skip(4) =~= curr);
    } else {
        assert(e =~= seq![0u8] + curr);
        assert(data.subrange(p as int, (p + 20) as int) =~= curr) by {
            assert forall|i: int| 0 <= i < 20 implies data.subrange(p as int, (p + 20) as int)[i] == curr[i] by {
                assert(data.subrange(pos as int, (pos + e.len()) as int)[1 + i] == e[1 + i]);
            }
        }
    }
}

/// Every KSUID's bytes are 20 bytes long.
pub open spec fn all_20(ks: Seq<Seq<u8>>) -> bool {
    forall|i: int| 0 <= i < ks.len() ==> (#[trigger] ks[i]).len() == 20
}

/// Reading the entries written after `prev` gives back the KSUIDs they store.
pub proof fn lemma_decode_from(data: Seq<u8>, pos: nat, prev: Seq<u8>, rest: Seq<Seq<u8>>)
    requires
        prev.len() == 20,
        all_20(rest),
        pos <= data.len(),
        data.skip(pos as int) == spec_encode_from(prev, rest),
    ensures
        spec_decode_all(data, pos, Some(prev)) == Ok::<Seq<Seq<u8>>, Error>(rest),
    decreases rest.len(),
{
    if rest.len() == 0 {
        assert(data.skip(pos as int).len() == 0);
        assert(rest =~= Seq::<Seq<u8>>::empty());
    } else {
        let e = spec_entry(prev, rest[0]);
        let tail = spec_encode_from(rest[0], rest.drop_first());
        assert(e.len() > 0);
        assert(data.skip(pos as int) == e + tail);
        assert(data.subrange(pos as int, (pos + e.len()) as int) =~= e) by {
            assert forall|i: int| 0 <= i < e.len() implies data.subrange(
                pos as int,
                (pos + e.len()) as int,
            )[i] == e[i] by {
                assert(data.skip(pos as int)[i] == (e + tail)[i]);
            }
        }
        lemma_decode_entry(data, pos, prev, rest[0]);
        let q = pos + e.len();
        assert(data.skip(q as int) =~= tail) by {
            assert forall|i: int| 0 <= i < tail.len() implies data.skip(q as int)[i] == tail[i] by {
                assert(data.skip(pos as int)[e.len() + i] == (e + tail)[e.len() + i]);
            }
        }
        assert(all_20(rest.drop_first())) by {
            assert forall|i: int| 0 <= i < rest.drop_first().len() implies (
            #[trigger] rest.drop_first()[i]).len() == 20 by {
                assert(rest.drop_first()[i] == rest[i + 1]);
            }
        }
        lemma_decode_from(data, q, rest[0], rest.drop_first());
        assert(seq![rest[0]] + rest.drop_first() =~= rest);
    }
}

/// Law: the compressed form of any list of KSUIDs reads back as that list.
pub proof fn lemma_encode_list_roundtrip(ks: Seq<Ksuid>)
    ensures
        spec_decode_all(spec_encode_list(views(ks)), 0, None) == Ok::<Seq<Seq<u8>>, Error>(
            views(ks),
        ),
{
    let vs = views(ks);
    let data = spec_encode_list(vs);
    assert(all_20(vs)) by {
        assert forall|i: int| 0 <= i < vs.len() implies (#[trigger] vs[i]).len() == 20 by {
            ks[i].lemma_view(ks[i]);
        }
    }
    if vs.len() == 0 {
        assert(data.len() == 0);
        assert(vs =~= Seq::<Seq<u8>>::empty());
    } else {
        let tail = spec_encode_from(vs[0], vs.drop_first());
        assert(data == seq![0u8] + vs[0] + tail);
        assert(data[0] == 0u8);
        assert(data.subrange(1, 21) =~= vs[0]) by {
            assert forall|i: int| 0 <= i < 20 implies data.subrange(1, 21)[i] == vs[0][i] by {
                assert(data[1 + i] == (seq![0u8] + vs[0])[1 + i]);
            }
        }
        assert(data.skip(21) =~= tail);
        assert(all_20(vs.drop_first())) by {
            assert forall|i: int| 0 <= i < vs.drop_first().len() implies (
            #[trigger] vs.drop_first()[i]).len() == 20 by {
                assert(vs.drop_first()[i] == vs[i + 1]);
            }
        }
        lemma_decode_from(data, 21, vs[0], vs.drop_first());
        assert(seq![vs[0]] + vs.drop_first() =~= vs);
    }
}

/// Law: a compressed set reads back as the KSUIDs it was made from, sorted
/// and without duplicates.
pub proof fn lemma_compress_roundtrip(set: CompressedSet, ids: Seq<Ksuid>)
    requires
        exists|s: Seq<Ksuid>|
            strictly_sorted(s) && (forall|k: Ksuid| s.contains(k) <==> ids.contains(k))
                && set.spec_data() == spec_encode_list(#[trigger] views(s)),
    ensures
        exists|s: Seq<Ksuid>|
            strictly_sorted(s) && (forall|k: Ksuid| s.contains(k) <==> ids.contains(k))
                && spec_decode_all(set.spec_data(), 0, None) == Ok::<Seq<Seq<u8>>, Error>(
                #[trigger] views(s),
            ),
{
    let s = choose|s: Seq<Ksuid>|
        strictly_sorted(s) && (forall|k: Ksuid| s.contains(k) <==> ids.contains(k))
            && set.spec_data() == spec_encode_list(#[trigger] views(s));
    lemma_encode_list_roundtrip(s);
}

} // verus!
