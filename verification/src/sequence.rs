//! A generator of up to 65,536 ordered KSUIDs from one seed.
use vstd::prelude::*;
use crate::{Error, Ksuid};
use crate::base62::lemma_bytes_below;
use crate::positional::{
    be_value, lemma_be_append, lemma_be_bound, lemma_to_digits_value, power, to_digits,
};
use vstd::arithmetic::div_mod::lemma_small_mod;

verus! {

/// The number of IDs one seed yields.
pub open spec fn sequence_len() -> nat {
    65536
}

/// The 16-bit number in the last two bytes of `seed`.
pub open spec fn tail16(seed: Seq<u8>) -> nat {
    be_value(seed.subrange(18, 20), 256)
}

/// The 18 bytes of `seed` before its last two, read as one number.
pub open spec fn head18(seed: Seq<u8>) -> nat {
    be_value(seed.take(18), 256)
}

/// The ID a sequence hands out at position `counter` (below 2^16): the seed
/// with the counter written, big-endian, into its last two bytes.
pub open spec fn id_at(seed: Seq<u8>, counter: nat) -> Seq<u8> {
    seed.take(18) + to_digits(counter, 256, 2)
}

/// Monotonic KSUID generator that increments the payload for sequential IDs.
///
/// Generates up to 65,536 ordered KSUIDs from a single seed. The sequence
/// writes a 16-bit counter into the last 2 bytes of the payload.
pub struct Sequence {
    seed: Ksuid,
    counter: u32,
}

impl Sequence {
    /// The seed.
    pub closed spec fn spec_seed(&self) -> Ksuid {
        self.seed
    }

    /// How many IDs have been handed out since the last (re)seeding.
    pub closed spec fn spec_count(&self) -> nat {
        self.counter as nat
    }

    /// Create a new Sequence seeded with a fresh KSUID.
    ///
    /// Fails as `Ksuid::new` does: when the clock reads before 1970 or the
    /// operating system supplies no random bytes.
    pub fn new() -> (r: Result<Self, Error>)
        ensures
            r matches Ok(s) ==> s.spec_count() == 0,
            r matches Err(e) ==> e == Error::ClockBeforeEpoch || e == Error::RandomUnavailable,
    {
        Self::from_generated(Ksuid::new())
    }

    /// A new Sequence seeded with the outcome of generating a KSUID: its
    /// seed when there is one, else the error.
    pub fn from_generated(generated: Result<Ksuid, Error>) -> (r: Result<Self, Error>)
        ensures
            generated matches Ok(seed) ==> (r matches Ok(s) && s.spec_seed() == seed
                && s.spec_count() == 0),
            generated matches Err(e) ==> r == Err::<Self, Error>(e),
    {
        match generated {
            Ok(seed) => Ok(Self { seed, counter: 0 }),
            Err(e) => Err(e),
        }
    }

    /// Create a new Sequence from a specific seed KSUID.
    pub fn from_seed(seed: Ksuid) -> (s: Self)
        ensures
            s.spec_seed() == seed,
            s.spec_count() == 0,
    {
        Self { seed, counter: 0 }
    }

    /// Generate the next KSUID in the sequence.
    ///
    /// Returns `Err(Error::SequenceExhausted)` if 65,536 IDs have been generated.
    /// Use `reseed()` to start a new sequence.
    pub fn next(&mut self) -> (r: Result<Ksuid, Error>)
        ensures
            old(self).spec_count() >= sequence_len() ==> r == Err::<Ksuid, Error>(
                Error::SequenceExhausted,
            ) && final(self).spec_seed() == old(self).spec_seed() && final(self).spec_count()
                == old(self).spec_count(),
            old(self).spec_count() < sequence_len() ==> (r matches Ok(k) && k@ == id_at(
                old(self).spec_seed()@,
                old(self).spec_count(),
            )) && final(self).spec_seed() == old(self).spec_seed() && final(self).spec_count()
                == old(self).spec_count() + 1,
    {
        if self.counter >= 65_536 {
            return Err(Error::SequenceExhausted);
        }
        let k = id_for(&self.seed, self.counter);
        self.counter += 1;
        Ok(k)
    }

    /// Returns the number of IDs generated so far.
    pub fn count(&self) -> (c: u32)
        ensures
            c == self.spec_count(),
    {
        self.counter
    }

    /// Returns true if the sequence has been exhausted (65,536 IDs generated).
    pub fn is_exhausted(&self) -> (b: bool)
        ensures
            b == (self.spec_count() >= sequence_len()),
    {
        self.counter >= 65_536
    }

    /// Reset the counter to 0 with a new random seed.
    ///
    /// When no fresh seed can be made (as `Ksuid::new` fails), the sequence
    /// is left as it was and the error returned.
    pub fn reseed(&mut self) -> (r: Result<(), Error>)
        ensures
            r is Ok ==> final(self).spec_count() == 0,
            r matches Err(e) ==> (e == Error::ClockBeforeEpoch || e == Error::RandomUnavailable)
                && final(self).spec_seed() == old(self).spec_seed() && final(self).spec_count()
                == old(self).spec_count(),
    {
        self.reseed_from(Ksuid::new())
    }

    /// Reset the counter to 0 with the outcome of generating a KSUID as the
    /// new seed; on an error the sequence is left as it was.
    pub fn reseed_from(&mut self, generated: Result<Ksuid, Error>) -> (r: Result<(), Error>)
        ensures
            generated matches Ok(seed) ==> r is Ok && final(self).spec_seed() == seed
                && final(self).spec_count() == 0,
            generated matches Err(e) ==> r == Err::<(), Error>(e) && final(self).spec_seed()
                == old(self).spec_seed() && final(self).spec_count() == old(self).spec_count(),
    {
        match generated {
            Ok(seed) => {
                self.seed = seed;
                self.counter = 0;
                Ok(())
            },
            Err(e) => Err(e),
        }
    }

    /// Reset the counter to 0 with a specific seed.
    pub fn reseed_with(&mut self, seed: Ksuid)
        ensures
            final(self).spec_seed() == seed,
            final(self).spec_count() == 0,
    {
        self.seed = seed;
        self.counter = 0;
    }

    /// Returns the seed KSUID.
    pub fn seed(&self) -> (k: Ksuid)
        ensures
            k == self.spec_seed(),
    {
        self.seed
    }

    /// Returns the bounds (min, max) of the remaining sequence values: the
    /// next ID (the seed once exhausted) and the ID at the last position.
    pub fn bounds(&self) -> (b: (Ksuid, Ksuid))
        ensures
            b.0@ == lower_bound(*self),
            b.1@ == id_at(self.spec_seed()@, 65535),
    {
        let min = if self.counter < 65_536 {
            id_for(&self.seed, self.counter)
        } else {
            self.seed
        };
        let max = id_for(&self.seed, 65535);
        (min, max)
    }
}

/// The ID at position `counter` of the sequence seeded with `seed`.
fn id_for(seed: &Ksuid, counter: u32) -> (k: Ksuid)
    requires
        counter < 65536,
    ensures
        k@ == id_at(seed@, counter as nat),
{
    let mut bytes = *seed.bytes();
    bytes[18] = (counter / 256) as u8;
    bytes[19] = (counter % 256) as u8;
    proof {
        seed.lemma_view(*seed);
        let d = to_digits(counter as nat, 256, 2);
        assert(power(256, 0) == 1);
        assert(power(256, 1) == 256 * power(256, 0));
        assert(counter as nat / 1 == counter as nat);
        assert(d[0] == bytes[18]);
        assert(d[1] == bytes[19]);
        assert(bytes@ =~= seed@.take(18) + d);
    }
    Ksuid::from_bytes(&bytes)
}

/// A seed's value is its first 18 bytes shifted up by 16 bits, plus its last
/// two; the ID at a position is the same with the position in place of the
/// last two.
pub proof fn lemma_id_at_value(seed: Seq<u8>, counter: nat)
    requires
        seed.len() == 20,
        counter < 65536,
    ensures
        be_value(id_at(seed, counter), 256) == head18(seed) * 65536 + counter,
        be_value(seed, 256) == head18(seed) * 65536 + tail16(seed),
        tail16(seed) < 65536,
{
    let head = seed.take(18);
    let tail = seed.subrange(18, 20);
    assert(head + tail =~= seed);
    lemma_be_append(head, tail, 256);
    let d = to_digits(counter, 256, 2);
    lemma_be_append(head, d, 256);
    lemma_to_digits_value(counter, 256, 2);
    assert(power(256, 0) == 1);
    assert(power(256, 1) == 256 * power(256, 0));
    assert(power(256, 2) == 256 * power(256, 1));
    lemma_small_mod(counter, 65536);
    lemma_bytes_below(seed);
    assert(crate::positional::digits_below(tail, 256)) by {
        assert forall|i: int| 0 <= i < tail.len() implies (#[trigger] tail[i]) < 256 by {
            assert(tail[i] == seed[18 + i]);
        }
    }
    lemma_be_bound(tail, 256);
}

/// Law: the IDs a sequence hands out strictly increase, whatever the seed.
pub proof fn lemma_sequence_increasing(seed: Ksuid, c1: nat, c2: nat)
    requires
        c1 < c2 < sequence_len(),
    ensures
        be_value(id_at(seed@, c1), 256) < be_value(id_at(seed@, c2), 256),
{
    seed.lemma_view(seed);
    lemma_id_at_value(seed@, c1);
    lemma_id_at_value(seed@, c2);
}

/// The lower bound that `bounds` gives: the next ID, or the seed once the
/// sequence is exhausted.
pub open spec fn lower_bound(s: Sequence) -> Seq<u8> {
    if s.spec_count() < sequence_len() {
        id_at(s.spec_seed()@, s.spec_count())
    } else {
        s.spec_seed()@
    }
}

/// Law: `bounds` gives a lower bound no greater than its upper bound, and
/// every ID the sequence has yet to hand out lies between them, whatever the
/// seed.
pub proof fn lemma_bounds_bracket(s: Sequence, c: nat)
    requires
        s.spec_count() <= c < sequence_len(),
    ensures
        be_value(lower_bound(s), 256) <= be_value(id_at(s.spec_seed()@, c), 256),
        be_value(id_at(s.spec_seed()@, c), 256) <= be_value(id_at(s.spec_seed()@, 65535), 256),
{
    let seed = s.spec_seed();
    seed.lemma_view(seed);
    lemma_id_at_value(seed@, s.spec_count());
    lemma_id_at_value(seed@, c);
    lemma_id_at_value(seed@, 65535);
}

/// Law: the lower bound of `bounds` never exceeds its upper bound.
pub proof fn lemma_bounds_ordered(s: Sequence)
    ensures
        be_value(lower_bound(s), 256) <= be_value(id_at(s.spec_seed()@, 65535), 256),
{
    let seed = s.spec_seed();
    seed.lemma_view(seed);
    lemma_id_at_value(seed@, 65535);
    if s.spec_count() < sequence_len() {
        lemma_id_at_value(seed@, s.spec_count());
    }
}


/// Law: every ID a sequence hands out keeps the seed's first 18 bytes (its
/// timestamp and all but the last two payload bytes), so sequences whose
/// seeds differ there (as a fresh seed after `reseed` does) never hand out
/// the same ID.
pub proof fn lemma_ids_follow_seed(seed1: Ksuid, c1: nat, seed2: Ksuid, c2: nat)
    requires
        c1 < sequence_len(),
        c2 < sequence_len(),
    ensures
        id_at(seed1@, c1).take(18) == seed1@.take(18),
        id_at(seed1@, c1).take(4) == seed1@.take(4),
        seed1@.take(18) != seed2@.take(18) ==> id_at(seed1@, c1) != id_at(seed2@, c2),
        id_at(seed1@, c1) == id_at(seed2@, c2) ==> c1 == c2,
{
    seed1.lemma_view(seed1);
    seed2.lemma_view(seed2);
    assert(id_at(seed1@, c1).take(18) =~= seed1@.take(18));
    assert(id_at(seed2@, c2).take(18) =~= seed2@.take(18));
    assert(id_at(seed1@, c1).take(4) =~= seed1@.take(4));
    if id_at(seed1@, c1) == id_at(seed2@, c2) {
        let d1 = to_digits(c1, 256, 2);
        let d2 = to_digits(c2, 256, 2);
        assert(id_at(seed1@, c1).skip(18) =~= d1);
        assert(id_at(seed2@, c2).skip(18) =~= d2);
        lemma_to_digits_value(c1, 256, 2);
        lemma_to_digits_value(c2, 256, 2);
        assert(power(256, 0) == 1);
        assert(power(256, 1) == 256 * power(256, 0));
        assert(power(256, 2) == 256 * power(256, 1));
        lemma_small_mod(c1, 65536);
        lemma_small_mod(c2, 65536);
    }
}
} // verus!
