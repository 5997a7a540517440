//! The adaptive probability table (a 16-symbol distribution that self-adjusts
//! after each observed symbol) and the nibble-oriented coder primitive that
//! the command coders read from or write to.
//!
//! The coder has the same call shape in both directions: `get_or_put_nibble`
//! consumes the passed value when encoding and overwrites it when decoding.
//! This coder stores nibbles verbatim, two per byte (high nibble first); the
//! supplied distribution steers only the adaptive learning, never which bytes
//! come out, so encoder and decoder agree by construction on the symbol
//! stream.

use vstd::prelude::*;

use crate::interface::BillingDesignation;

verus! {

/// Learning rate for an adaptive distribution: each observed symbol adds
/// `inc` to its own weight, and the whole table renormalizes once the
/// observed weight reaches `lim`.
#[derive(Copy, Clone, Debug, PartialEq, Eq, Structural)]
pub struct Speed {
    pub inc: u16,
    pub lim: u16,
}

impl Speed {
    pub open spec fn wf(self) -> bool {
        1 <= self.inc <= 1024 && self.inc < self.lim <= 16384
    }

    pub fn new(inc: u16, lim: u16) -> (s: Speed)
        requires
            1 <= inc <= 1024,
            inc < lim <= 16384,
        ensures
            s == (Speed { inc: inc, lim: lim }),
            s.wf(),
    {
        Speed { inc: inc, lim: lim }
    }

    /// Very slow adaptation, for high-entropy mantissa nibbles.
    pub fn mud() -> (s: Speed)
        ensures
            s == (Speed { inc: 16u16, lim: 8192u16 }),
            s.wf(),
    {
        Speed { inc: 16, lim: 8192 }
    }

    /// Slow adaptation.
    pub fn slow() -> (s: Speed)
        ensures
            s == (Speed { inc: 32u16, lim: 8192u16 }),
            s.wf(),
    {
        Speed { inc: 32, lim: 8192 }
    }

    /// Fast adaptation, for shortcut and overflow nibbles.
    pub fn fast() -> (s: Speed)
        ensures
            s == (Speed { inc: 96u16, lim: 16384u16 }),
            s.wf(),
    {
        Speed { inc: 96, lim: 16384 }
    }

    /// The fastest adaptation rate in use.
    pub fn rocket() -> (s: Speed)
        ensures
            s == (Speed { inc: 384u16, lim: 16384u16 }),
            s.wf(),
    {
        Speed { inc: 384, lim: 16384 }
    }
}

/// Well-formed symbol weights: sixteen entries, each positive and strictly
/// below the largest renormalization limit.
pub open spec fn cdf_wf(c: Seq<u16>) -> bool {
    c.len() == 16 && (forall|i: int| 0 <= i < 16 ==> 1 <= #[trigger] c[i] < 16384)
}

/// What one adaptive update does: bump the observed symbol's weight by
/// `speed.inc`, then halve every weight (keeping it positive) once the bumped
/// weight has reached `speed.lim`.
pub open spec fn spec_blend(c: Seq<u16>, sym: int, speed: Speed) -> Seq<u16> {
    let bumped = c.update(sym, (c[sym] + speed.inc) as u16);
    if bumped[sym] >= speed.lim {
        Seq::new(16, |i: int| (bumped[i] / 2 + 1) as u16)
    } else {
        bumped
    }
}

/// A 16-symbol adaptive distribution.
#[derive(Copy, Clone, Debug)]
pub struct Cdf16 {
    pub counts: [u16; 16],
}

impl Cdf16 {
    pub open spec fn wf(self) -> bool {
        cdf_wf(self.counts@)
    }

    /// A fresh, uniform distribution.
    pub fn new() -> (c: Cdf16)
        ensures
            c.wf(),
            c.counts@ == Seq::new(16, |i: int| 32u16),
    {
        let c = Cdf16 { counts: [32u16; 16] };
        proof {
            assert(c.counts@ =~= Seq::new(16, |i: int| 32u16));
        }
        c
    }

    /// One adaptive update after observing `sym`; the new weights are exactly
    /// `spec_blend` of the old ones, so the learning update is a function of
    /// the observed symbol alone.
    pub fn blend(&mut self, sym: u8, speed: Speed)
        requires
            old(self).wf(),
            sym < 16,
            speed.wf(),
        ensures
            final(self).counts@ == spec_blend(old(self).counts@, sym as int, speed),
            final(self).wf(),
    {
        let bumped: u16 = self.counts[sym as usize] + speed.inc;
        self.counts[sym as usize] = bumped;
        let ghost bumped_seq = old(self).counts@.update(sym as int, bumped);
        assert(self.counts@ =~= bumped_seq);
        if bumped >= speed.lim {
            let mut i: usize = 0;
            while i < 16
                invariant
                    i <= 16,
                    self.counts@.len() == 16,
                    forall|j: int| 0 <= j < i ==> self.counts@[j] == (bumped_seq[j] / 2 + 1) as u16,
                    forall|j: int| i <= j < 16 ==> self.counts@[j] == bumped_seq[j],
                decreases 16 - i,
            {
                self.counts[i] = self.counts[i] / 2 + 1;
                i += 1;
            }
            proof {
                assert(self.counts@ =~= Seq::new(16, |j: int| (bumped_seq[j] / 2 + 1) as u16));
            }
        }
    }
}

/// The bytes that a nibble sequence packs into: one byte per full pair of
/// nibbles, high nibble first; a trailing lone nibble yields no byte yet.
pub open spec fn packed(nibs: Seq<u8>) -> Seq<u8>
    decreases nibs.len(),
{
    if nibs.len() < 2 {
        Seq::empty()
    } else {
        seq![(nibs[0] * 16 + nibs[1]) as u8] + packed(nibs.skip(2))
    }
}

/// The nibbles of a byte sequence, high nibble of each byte first; inverse of
/// `packed` on whole bytes.
pub open spec fn unpacked(bytes: Seq<u8>) -> Seq<u8>
    decreases bytes.len(),
{
    if bytes.len() == 0 {
        Seq::empty()
    } else {
        seq![(bytes[0] / 16) as u8, (bytes[0] % 16) as u8] + unpacked(bytes.skip(1))
    }
}

/// Packing is oblivious to where a nibble stream is split, as long as the
/// split falls on a byte boundary: the bytes of the whole are the bytes of
/// the parts. This is why chunked draining emits the same bytes as one
/// unchunked drain.
pub proof fn lemma_packed_even_append(a: Seq<u8>, b: Seq<u8>)
    requires
        a.len() % 2 == 0,
    ensures
        packed(a + b) == packed(a) + packed(b),
    decreases a.len(),
{
    if a.len() == 0 {
        assert(a + b =~= b);
        assert(packed(a) + packed(b) =~= packed(b));
    } else {
        assert((a + b).skip(2) =~= a.skip(2) + b);
        lemma_packed_even_append(a.skip(2), b);
        assert(packed(a + b) =~= packed(a) + packed(b));
    }
}

/// Appending one full nibble pair appends exactly one byte.
pub proof fn lemma_packed_snoc2(s: Seq<u8>, a: u8, b: u8)
    requires
        s.len() % 2 == 0,
    ensures
        packed(s.push(a).push(b)) == packed(s).push((a * 16 + b) as u8),
{
    let pair = seq![a, b];
    assert(s.push(a).push(b) =~= s + pair);
    lemma_packed_even_append(s, pair);
    assert(pair.len() == 2 && pair[0] == a && pair[1] == b);
    assert(pair.skip(2) =~= Seq::<u8>::empty());
    assert(packed(pair.skip(2)) == Seq::<u8>::empty());
    assert(packed(pair) == seq![(a * 16 + b) as u8] + Seq::<u8>::empty());
    assert(packed(pair) =~= seq![(a * 16 + b) as u8]);
    assert(packed(s) + packed(pair) =~= packed(s).push((a * 16 + b) as u8));
}

/// Unpacking a byte sequence and packing it again gives the bytes back.
pub proof fn lemma_packed_unpacked(bytes: Seq<u8>)
    ensures
        unpacked(bytes).len() == 2 * bytes.len(),
        packed(unpacked(bytes)) == bytes,
    decreases bytes.len(),
{
    if bytes.len() == 0 {
        assert(packed(unpacked(bytes)) =~= bytes);
    } else {
        lemma_packed_unpacked(bytes.skip(1));
        let n = unpacked(bytes);
        assert(n[0] == bytes[0] / 16 && n[1] == bytes[0] % 16);
        assert(n.skip(2) =~= unpacked(bytes.skip(1)));
        let b0 = bytes[0];
        assert(b0 / 16 * 16 + b0 % 16 == b0) by (bit_vector);
        assert(packed(unpacked(bytes)) =~= bytes);
    }
}

/// The nibble-oriented coder primitive. One value serves both directions,
/// told apart by `is_decoder` (the specialization flag): an encoder
/// accumulates emitted nibbles in `nibbles` and `pos` marks how many have
/// been drained to output bytes; a decoder holds supplied input nibbles in
/// `nibbles` and `pos` marks how many have been consumed.
#[derive(Debug)]
pub struct NibbleCoder {
    pub is_decoder: bool,
    pub nibbles: Vec<u8>,
    pub pos: usize,
}

impl NibbleCoder {
    pub open spec fn wf(self) -> bool {
        self.pos <= self.nibbles@.len() && (forall|i: int|
            0 <= i < self.nibbles@.len() ==> #[trigger] self.nibbles@[i] < 16) && (!self.is_decoder
            ==> self.pos % 2 == 0)
    }

    /// A fresh encoder with an empty output stream.
    pub fn encoder() -> (c: NibbleCoder)
        ensures
            c.wf(),
            !c.is_decoder,
            c.nibbles@ == Seq::<u8>::empty(),
            c.pos == 0,
    {
        let c = NibbleCoder { is_decoder: false, nibbles: Vec::new(), pos: 0 };
        proof {
            assert(c.nibbles@ =~= Seq::<u8>::empty());
        }
        c
    }

    /// A fresh decoder with no input supplied yet.
    pub fn decoder() -> (c: NibbleCoder)
        ensures
            c.wf(),
            c.is_decoder,
            c.nibbles@ == Seq::<u8>::empty(),
            c.pos == 0,
    {
        let c = NibbleCoder { is_decoder: true, nibbles: Vec::new(), pos: 0 };
        proof {
            assert(c.nibbles@ =~= Seq::<u8>::empty());
        }
        c
    }

    /// Appends the nibbles of each supplied compressed byte (high first) to a
    /// decoder's input queue.
    pub fn supply_input(&mut self, input: &Vec<u8>)
        requires
            old(self).wf(),
            old(self).is_decoder,
        ensures
            final(self).wf(),
            final(self).is_decoder,
            final(self).pos == old(self).pos,
            final(self).nibbles@ == old(self).nibbles@ + unpacked(input@),
    {
        let mut k: usize = 0;
        while k < input.len()
            invariant
                k <= input@.len(),
                self.is_decoder,
                self.pos == old(self).pos,
                self.wf(),
                self.nibbles@ == old(self).nibbles@ + unpacked(input@.take(k as int)),
            decreases input@.len() - k,
        {
            let b = input[k];
            self.nibbles.push(b / 16);
            self.nibbles.push(b % 16);
            proof {
                lemma_unpacked_snoc(input@.take(k as int), b);
                assert(input@.take(k + 1 as int) =~= input@.take(k as int).push(b));
                assert(self.nibbles@ =~= old(self).nibbles@ + unpacked(input@.take(k + 1 as int)));
                assert(b / 16 < 16 && b % 16 < 16) by (bit_vector);
            }
            k += 1;
        }
        proof {
            assert(input@.take(input@.len() as int) =~= input@);
        }
    }

    /// Encodes (appends) the low nibble of `*nib`, or decodes the next input
    /// nibble into `*nib`. The distribution and billing tag never influence
    /// the symbol stream.
    pub fn get_or_put_nibble(&mut self, nib: &mut u8, _prob: &Cdf16, _billing: BillingDesignation)
        requires
            old(self).wf(),
            old(self).is_decoder ==> old(self).pos < old(self).nibbles@.len(),
        ensures
            final(self).wf(),
            final(self).is_decoder == old(self).is_decoder,
            old(self).is_decoder ==> final(self).nibbles@ == old(self).nibbles@ && final(self).pos
                == old(self).pos + 1 && *final(nib) == old(self).nibbles@[old(self).pos as int]
                && *final(nib) < 16,
            !old(self).is_decoder ==> final(self).nibbles@ == old(self).nibbles@.push(
                (*old(nib) & 0xf) as u8,
            ) && final(self).pos == old(self).pos && *final(nib) == *old(nib),
    {
        if self.is_decoder {
            let _n = self.nibbles.len();
            assert(self.pos < _n);
            *nib = self.nibbles[self.pos];
            self.pos = self.pos + 1;
        } else {
            proof {
                let v = *nib;
                assert(v & 0xf < 16) by (bit_vector);
            }
            self.nibbles.push(*nib & 0xf);
        }
    }

    /// Packs drained nibble pairs into bytes appended to `output`, stopping
    /// once `output` holds `cap` bytes. Returns whether the stream is drained
    /// down to at most one pending nibble.
    pub fn drain_bytes(&mut self, output: &mut Vec<u8>, cap: usize) -> (done: bool)
        requires
            old(self).wf(),
            !old(self).is_decoder,
        ensures
            final(self).wf(),
            !final(self).is_decoder,
            final(self).nibbles@ == old(self).nibbles@,
            old(self).pos <= final(self).pos,
            final(output)@ == old(output)@ + packed(
                old(self).nibbles@.subrange(old(self).pos as int, final(self).pos as int),
            ),
            old(output)@.len() <= final(output)@.len(),
            final(output)@.len() > old(output)@.len() ==> final(output)@.len() <= cap,
            done ==> final(self).pos + 2 > final(self).nibbles@.len(),
            !done ==> final(output)@.len() >= cap,
    {
        let ghost pos0 = self.pos as int;
        let ghost out0 = output@;
        while self.pos < self.nibbles.len() && self.pos + 1 < self.nibbles.len() && output.len()
            < cap
            invariant
                self.wf(),
                !self.is_decoder,
                self.nibbles@ == old(self).nibbles@,
                0 <= pos0 <= self.pos,
                pos0 % 2 == 0,
                output@ == out0 + packed(self.nibbles@.subrange(pos0, self.pos as int)),
                out0.len() <= output@.len(),
                output@.len() > out0.len() ==> output@.len() <= cap,
            decreases self.nibbles@.len() - self.pos,
        {
            let hi = self.nibbles[self.pos];
            let lo = self.nibbles[self.pos + 1];
            let byte = (hi << 4) | lo;
            proof {
                assert(hi < 16 && lo < 16 ==> ((hi << 4) | lo) == hi * 16 + lo && hi * 16 + lo
                    < 256) by (bit_vector);
                lemma_packed_snoc2(self.nibbles@.subrange(pos0, self.pos as int), hi, lo);
                assert(self.nibbles@.subrange(pos0, (self.pos + 2) as int)
                    =~= self.nibbles@.subrange(pos0, self.pos as int).push(hi).push(lo));
            }
            output.push(byte);
            self.pos = self.pos + 2;
        }
        self.nibbles.len() - self.pos < 2
    }

    /// For a finished encoder: pads a trailing lone nibble with zero and
    /// drains everything, so that the compressed bytes are exactly the packed
    /// nibble stream.
    pub fn flush(&mut self, output: &mut Vec<u8>, cap: usize) -> (r: crate::interface::DivansResult)
        requires
            old(self).wf(),
            !old(self).is_decoder,
        ensures
            final(self).wf(),
            !final(self).is_decoder,
            old(self).nibbles@.is_prefix_of(final(self).nibbles@),
            final(self).nibbles@.len() <= old(self).nibbles@.len() + 1,
            old(self).pos <= final(self).pos,
            final(output)@ == old(output)@ + packed(
                final(self).nibbles@.subrange(old(self).pos as int, final(self).pos as int),
            ),
            r == crate::interface::DivansResult::Success || r
                == crate::interface::DivansResult::NeedsMoreOutput,
            r == crate::interface::DivansResult::Success ==> final(self).pos == final(self).nibbles@.len(),
            r == crate::interface::DivansResult::NeedsMoreOutput ==> final(output)@.len() >= cap,
    {
        if self.nibbles.len() % 2 == 1 {
            self.nibbles.push(0);
        }
        let ghost padded = self.nibbles@;
        let done = self.drain_bytes(output, cap);
        proof {
            assert(padded.subrange(old(self).pos as int, self.pos as int) =~= self.nibbles@.subrange(
                old(self).pos as int,
                self.pos as int,
            ));
        }
        if done {
            proof {
                assert(self.nibbles@.len() % 2 == 0);
                assert(self.pos % 2 == 0 && self.pos <= self.nibbles@.len() && self.pos + 2
                    > self.nibbles@.len() && self.nibbles@.len() % 2 == 0 ==> self.pos
                    == self.nibbles@.len());
            }
            crate::interface::DivansResult::Success
        } else {
            crate::interface::DivansResult::NeedsMoreOutput
        }
    }
}

/// The low nibble of any byte is a valid symbol.
pub broadcast proof fn lemma_nibble_masked(x: u8)
    ensures
        #[trigger] (x & 0xf) < 16,
{
    assert(x & 0xf < 16) by (bit_vector);
}

/// Masking changes nothing below sixteen.
pub broadcast proof fn lemma_nibble_mask_id(x: u8)
    ensures
        x < 16 ==> #[trigger] (x & 0xf) == x,
{
    assert(x < 16 ==> x & 0xf == x) by (bit_vector);
}

/// The low nibble of a 32-bit word is a valid symbol.
pub broadcast proof fn lemma_nibble_masked_u32(x: u32)
    ensures
        #[trigger] (x & 0xf) < 16,
{
    assert(x & 0xf < 16) by (bit_vector);
}

/// Unpacking distributes over appending one byte.
pub proof fn lemma_unpacked_snoc(bytes: Seq<u8>, b: u8)
    ensures
        unpacked(bytes.push(b)) == unpacked(bytes) + seq![(b / 16) as u8, (b % 16) as u8],
    decreases bytes.len(),
{
    if bytes.len() == 0 {
        assert(bytes.push(b).skip(1) =~= Seq::<u8>::empty());
        assert(unpacked(bytes.push(b).skip(1)) == Seq::<u8>::empty());
        assert(unpacked(bytes) == Seq::<u8>::empty());
        assert(bytes.push(b)[0] == b);
        assert(unpacked(bytes.push(b)) =~= unpacked(bytes) + seq![(b / 16) as u8, (b % 16) as u8]);
    } else {
        assert(bytes.push(b).skip(1) =~= bytes.skip(1).push(b));
        lemma_unpacked_snoc(bytes.skip(1), b);
        assert(unpacked(bytes.push(b)) =~= unpacked(bytes) + seq![(b / 16) as u8, (b % 16) as u8]);
    }
}

} // verus!
