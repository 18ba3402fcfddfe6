//! Pixel layouts: channel-interleaved (`HWC`, as image files store pixels)
//! and channel-planar (`CHW`, as the models take them).
use vstd::prelude::*;
use vstd::arithmetic::div_mod::{
    lemma_fundamental_div_mod, lemma_fundamental_div_mod_converse, lemma_mod_bound,
};
use vstd::arithmetic::mul::{lemma_mul_inequality, lemma_mul_is_commutative};

verus! {

/// The planes of an interleaved image of `pixels` pixels with `channels`
/// channels: channel `ch` of pixel `p` moves from `p * channels + ch` to
/// `ch * pixels + p`.
pub open spec fn planar_of_interleaved(s: Seq<u8>, pixels: nat, channels: nat) -> Seq<u8> {
    Seq::new(channels * pixels, |i: int| s[(i % pixels as int) * channels + i / pixels as int])
}

/// The inverse rearrangement: channel `ch` of pixel `p` moves from
/// `ch * pixels + p` to `p * channels + ch`.
pub open spec fn interleaved_of_planar(s: Seq<u8>, pixels: nat, channels: nat) -> Seq<u8> {
    Seq::new(pixels * channels, |j: int| s[(j % channels as int) * pixels + j / channels as int])
}

proof fn lemma_index_bound(p: int, ch: int, pixels: int, channels: int)
    requires
        0 <= p < pixels,
        0 <= ch < channels,
    ensures
        0 <= p * channels + ch < pixels * channels,
        0 <= ch * pixels + p < channels * pixels,
        pixels * channels == channels * pixels,
{
    assert(0 <= p * channels + ch < pixels * channels) by (nonlinear_arith)
        requires
            0 <= p < pixels,
            0 <= ch < channels,
    ;
    assert(0 <= ch * pixels + p < channels * pixels) by (nonlinear_arith)
        requires
            0 <= p < pixels,
            0 <= ch < channels,
    ;
    lemma_mul_is_commutative(pixels, channels);
}

/// Rearranges interleaved pixels into planes, channel by channel.
pub fn interleaved_to_planar(s: &[u8], pixels: usize, channels: usize) -> (r: Vec<u8>)
    requires
        s@.len() == pixels * channels,
    ensures
        r@ == planar_of_interleaved(s@, pixels as nat, channels as nat),
{
    let n = s.len();
    let mut out: Vec<u8> = Vec::new();
    let mut ch: usize = 0;
    while ch < channels
        invariant
            n == s@.len(),
            s@.len() == pixels * channels,
            ch <= channels,
            out@.len() == ch * pixels,
            forall|c: int, p: int|
                0 <= c < ch && 0 <= p < pixels ==> #[trigger] out@[c * pixels + p] == s@[p
                    * channels + c],
        decreases channels - ch,
    {
        let mut p: usize = 0;
        while p < pixels
            invariant
                n == s@.len(),
                s@.len() == pixels * channels,
                ch < channels,
                p <= pixels,
                out@.len() == ch * pixels + p,
                forall|c: int, q: int|
                    0 <= c < ch && 0 <= q < pixels ==> #[trigger] out@[c * pixels + q] == s@[q
                        * channels + c],
                forall|q: int| 0 <= q < p ==> #[trigger] out@[ch * pixels + q] == s@[q * channels + ch],
            decreases pixels - p,
        {
            proof {
                lemma_index_bound(p as int, ch as int, pixels as int, channels as int);
            }
            let ghost prev = out@;
            out.push(s[p * channels + ch]);
            assert forall|c: int, q: int|
                0 <= c < ch && 0 <= q < pixels implies #[trigger] out@[c * pixels + q] == s@[q
                * channels + c] by {
                assert(c * pixels + q < ch * pixels) by (nonlinear_arith)
                    requires
                        0 <= c < ch,
                        0 <= q < pixels,
                ;
                assert(out@[c * pixels + q] == prev[c * pixels + q]);
            }
            p = p + 1;
        }
        assert((ch + 1) * pixels == ch * pixels + pixels) by (nonlinear_arith);
        ch = ch + 1;
    }
    assert forall|i: int| 0 <= i < channels * pixels implies out@[i] == planar_of_interleaved(
        s@,
        pixels as nat,
        channels as nat,
    )[i] by {
        let q = i / pixels as int;
        let p = i % pixels as int;
        lemma_fundamental_div_mod(i, pixels as int);
        lemma_mod_bound(i, pixels as int);
        assert(q * pixels < channels * pixels);
        assert(0 <= q < channels) by (nonlinear_arith)
            requires
                q * pixels < channels * pixels,
                0 <= i,
                i == pixels * q + p,
                0 <= p < pixels,
        ;
        assert(out@[q * pixels + p] == s@[p * channels + q]);
        assert(pixels * q == q * pixels) by (nonlinear_arith);
    }
    assert(out@.len() == channels * pixels);
    out
}

/// Rearranges planes into interleaved pixels, pixel by pixel.
pub fn planar_to_interleaved(s: &[u8], pixels: usize, channels: usize) -> (r: Vec<u8>)
    requires
        s@.len() >= channels * pixels,
    ensures
        r@ == interleaved_of_planar(s@, pixels as nat, channels as nat),
{
    let n = s.len();
    let mut out: Vec<u8> = Vec::new();
    let mut p: usize = 0;
    while p < pixels
        invariant
            n == s@.len(),
            s@.len() >= channels * pixels,
            p <= pixels,
            out@.len() == p * channels,
            forall|q: int, c: int|
                0 <= q < p && 0 <= c < channels ==> #[trigger] out@[q * channels + c] == s@[c
                    * pixels + q],
        decreases pixels - p,
    {
        let mut ch: usize = 0;
        while ch < channels
            invariant
                n == s@.len(),
                s@.len() >= channels * pixels,
                p < pixels,
                ch <= channels,
                out@.len() == p * channels + ch,
                forall|q: int, c: int|
                    0 <= q < p && 0 <= c < channels ==> #[trigger] out@[q * channels + c] == s@[c
                        * pixels + q],
                forall|c: int| 0 <= c < ch ==> #[trigger] out@[p * channels + c] == s@[c * pixels + p],
            decreases channels - ch,
        {
            proof {
                lemma_index_bound(p as int, ch as int, pixels as int, channels as int);
            }
            let ghost prev = out@;
            out.push(s[ch * pixels + p]);
            assert forall|q: int, c: int|
                0 <= q < p && 0 <= c < channels implies #[trigger] out@[q * channels + c] == s@[c
                * pixels + q] by {
                assert(q * channels + c < p * channels) by (nonlinear_arith)
                    requires
                        0 <= q < p,
                        0 <= c < channels,
                ;
                assert(out@[q * channels + c] == prev[q * channels + c]);
            }
            ch = ch + 1;
        }
        assert((p + 1) * channels == p * channels + channels) by (nonlinear_arith);
        p = p + 1;
    }
    assert forall|j: int| 0 <= j < pixels * channels implies out@[j] == interleaved_of_planar(
        s@,
        pixels as nat,
        channels as nat,
    )[j] by {
        let q = j / channels as int;
        let c = j % channels as int;
        lemma_fundamental_div_mod(j, channels as int);
        lemma_mod_bound(j, channels as int);
        assert(0 <= q < pixels) by (nonlinear_arith)
            requires
                0 <= j < pixels * channels,
                j == channels * q + c,
                0 <= c < channels,
        ;
        assert(out@[q * channels + c] == s@[c * pixels + q]);
        assert(channels * q == q * channels) by (nonlinear_arith);
    }
    out
}

/// Value `c` of pixel `p` sits at `p * channels + c` in the interleaved layout
/// and at `c * pixels + p` in the planar one, and both layouts hold exactly
/// `pixels * channels` values.
pub proof fn lemma_layout_positions(s: Seq<u8>, pixels: nat, channels: nat, p: int, c: int)
    requires
        0 <= p < pixels,
        0 <= c < channels,
    ensures
        planar_of_interleaved(s, pixels, channels).len() == pixels * channels,
        interleaved_of_planar(s, pixels, channels).len() == pixels * channels,
        planar_of_interleaved(s, pixels, channels)[c * pixels + p] == s[p * channels + c],
        interleaved_of_planar(s, pixels, channels)[p * channels + c] == s[c * pixels + p],
{
    lemma_index_bound(p, c, pixels as int, channels as int);
    lemma_fundamental_div_mod_converse(c * pixels + p, pixels as int, c, p);
    lemma_fundamental_div_mod_converse(p * channels + c, channels as int, p, c);
}

/// Interleaving the planes of an interleaved image gives the image back.
pub proof fn lemma_interleave_planar_round_trip(s: Seq<u8>, pixels: nat, channels: nat)
    requires
        s.len() == pixels * channels,
    ensures
        interleaved_of_planar(planar_of_interleaved(s, pixels, channels), pixels, channels) == s,
{
    let t = planar_of_interleaved(s, pixels, channels);
    let u = interleaved_of_planar(t, pixels, channels);
    assert forall|j: int| 0 <= j < s.len() implies u[j] == s[j] by {
        assert(channels > 0) by (nonlinear_arith)
            requires
                0 <= j < pixels * channels,
        ;
        let c = j % channels as int;
        let p = j / channels as int;
        lemma_fundamental_div_mod(j, channels as int);
        lemma_mod_bound(j, channels as int);
        assert(0 <= p < pixels) by (nonlinear_arith)
            requires
                0 <= j < pixels * channels,
                j == channels * p + c,
                0 <= c < channels,
        ;
        let i = c * pixels + p;
        lemma_index_bound(p, c, pixels as int, channels as int);
        lemma_fundamental_div_mod_converse(i, pixels as int, c, p);
        assert(u[j] == t[i]);
        assert(t[i] == s[p * channels + c]);
        assert(channels * p == p * channels) by (nonlinear_arith);
    }
    assert(u =~= s);
}

/// Taking the planes of an interleaved image made from planes gives the
/// planes back.
pub proof fn lemma_planar_interleave_round_trip(s: Seq<u8>, pixels: nat, channels: nat)
    requires
        s.len() == channels * pixels,
    ensures
        planar_of_interleaved(interleaved_of_planar(s, pixels, channels), pixels, channels) == s,
{
    let t = interleaved_of_planar(s, pixels, channels);
    let u = planar_of_interleaved(t, pixels, channels);
    assert forall|i: int| 0 <= i < s.len() implies u[i] == s[i] by {
        assert(pixels > 0) by (nonlinear_arith)
            requires
                0 <= i < channels * pixels,
        ;
        let p = i % pixels as int;
        let c = i / pixels as int;
        lemma_fundamental_div_mod(i, pixels as int);
        lemma_mod_bound(i, pixels as int);
        assert(0 <= c < channels) by (nonlinear_arith)
            requires
                0 <= i < channels * pixels,
                i == pixels * c + p,
                0 <= p < pixels,
        ;
        let j = p * channels + c;
        lemma_index_bound(p, c, pixels as int, channels as int);
        lemma_fundamental_div_mod_converse(j, channels as int, p, c);
        assert(u[i] == t[j]);
        assert(t[j] == s[c * pixels + p]);
        assert(pixels * c == c * pixels) by (nonlinear_arith);
    }
    assert(u =~= s);
}

} // verus!
