//! The color-map capability: a pure per-pixel quantizer that rounds a pixel
//! to an entry of a fixed palette. The diffusion passes consult it; the
//! ordered and stochastic passes accept one for interface uniformity but
//! ignore it.

use vstd::prelude::*;

verus! {

/// A pure quantization capability, `map(pixel) -> pixel`. The ditherer never
/// inspects the palette; it only relies on the contract below: the executable
/// map agrees with the mathematical `map_spec`, `map_spec` preserves the
/// channel count, and a map that declares itself bilevel emits only 0 and 255.
pub trait ColorMap {
    /// The mathematical value of the quantizer on one pixel.
    spec fn map_spec(&self, p: Seq<u8>) -> Seq<u8>;

    /// Whether every output channel of this map is exactly 0 or 255.
    spec fn is_bilevel(&self) -> bool;

    /// Quantization never changes the number of channels of a pixel.
    proof fn lemma_map_spec_len(&self, p: Seq<u8>)
        ensures
            self.map_spec(p).len() == p.len(),
    ;

    /// A bilevel map emits only the two extreme channel values.
    proof fn lemma_bilevel(&self, p: Seq<u8>)
        requires
            self.is_bilevel(),
        ensures
            forall|i: int|
                0 <= i < self.map_spec(p).len() ==> self.map_spec(p)[i] == 0 || self.map_spec(
                    p,
                )[i] == 255,
    ;

    /// Quantizes one pixel in place.
    fn map_color(&self, pixel: &mut Vec<u8>)
        ensures
            final(pixel)@ == self.map_spec(old(pixel)@),
    ;
}

/// The black/white palette: a channel brighter than 127 rounds to 255,
/// anything else to 0.
pub struct BiLevel;

impl ColorMap for BiLevel {
    open spec fn map_spec(&self, p: Seq<u8>) -> Seq<u8> {
        Seq::new(p.len(), |i: int| if p[i] > 127 { 255u8 } else { 0u8 })
    }

    open spec fn is_bilevel(&self) -> bool {
        true
    }

    proof fn lemma_map_spec_len(&self, p: Seq<u8>) {
    }

    proof fn lemma_bilevel(&self, p: Seq<u8>) {
    }

    fn map_color(&self, pixel: &mut Vec<u8>) {
        let n = pixel.len();
        let mut i: usize = 0;
        while i < n
            invariant
                n == old(pixel)@.len(),
                pixel@.len() == n,
                i <= n,
                forall|k: int| 0 <= k < i ==> pixel@[k] == self.map_spec(old(pixel)@)[k],
                forall|k: int| i <= k < n ==> pixel@[k] == old(pixel)@[k],
            decreases n - i,
        {
            let v: u8 = if pixel[i] > 127 {
                255
            } else {
                0
            };
            pixel.set(i, v);
            i = i + 1;
        }
        proof {
            assert(pixel@ =~= self.map_spec(old(pixel)@));
        }
    }
}

/// The inverted black/white palette (white-on-black): a channel brighter
/// than 127 rounds to 0, anything else to 255.
pub struct InvertedBiLevel;

impl ColorMap for InvertedBiLevel {
    open spec fn map_spec(&self, p: Seq<u8>) -> Seq<u8> {
        Seq::new(p.len(), |i: int| if p[i] > 127 { 0u8 } else { 255u8 })
    }

    open spec fn is_bilevel(&self) -> bool {
        true
    }

    proof fn lemma_map_spec_len(&self, p: Seq<u8>) {
    }

    proof fn lemma_bilevel(&self, p: Seq<u8>) {
    }

    fn map_color(&self, pixel: &mut Vec<u8>) {
        let n = pixel.len();
        let mut i: usize = 0;
        while i < n
            invariant
                n == old(pixel)@.len(),
                pixel@.len() == n,
                i <= n,
                forall|k: int| 0 <= k < i ==> pixel@[k] == self.map_spec(old(pixel)@)[k],
                forall|k: int| i <= k < n ==> pixel@[k] == old(pixel)@[k],
            decreases n - i,
        {
            let v: u8 = if pixel[i] > 127 {
                0
            } else {
                255
            };
            pixel.set(i, v);
            i = i + 1;
        }
        proof {
            assert(pixel@ =~= self.map_spec(old(pixel)@));
        }
    }
}

} // verus!
