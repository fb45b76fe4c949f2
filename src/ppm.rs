use vstd::prelude::*;

verus! {

/// The decimal digits of `v`, in ASCII, most significant first.
pub open spec fn decimal(v: nat) -> Seq<u8>
    decreases v,
{
    if v < 10 {
        seq![(48 + v) as u8]
    } else {
        decimal(v / 10).push((48 + v % 10) as u8)
    }
}

/// The header of a binary PPM image of `side` by `side` pixels:
/// `P6\n{side} {side} 255\n`.
pub open spec fn ppm_header(side: nat) -> Seq<u8> {
    seq![80u8, 54u8, 10u8] + decimal(side) + seq![32u8] + decimal(side) + seq![
        32u8,
        50u8,
        53u8,
        53u8,
        10u8,
    ]
}

/// The red, green and blue bytes of a colour packed as `0xRRGGBB`.
pub open spec fn rgb(p: u32) -> Seq<u8> {
    seq![((p >> 16u32) & 0xffu32) as u8, ((p >> 8u32) & 0xffu32) as u8, (p & 0xffu32) as u8]
}

/// The bytes of each pixel in turn.
pub open spec fn rgb_bytes(pixels: Seq<u32>) -> Seq<u8>
    decreases pixels.len(),
{
    if pixels.len() == 0 {
        Seq::empty()
    } else {
        rgb_bytes(pixels.drop_last()) + rgb(pixels.last())
    }
}

proof fn lemma_rgb_bytes_len(pixels: Seq<u32>)
    ensures
        rgb_bytes(pixels).len() == 3 * pixels.len(),
    decreases pixels.len(),
{
    if pixels.len() > 0 {
        lemma_rgb_bytes_len(pixels.drop_last());
    }
}

fn push_decimal(out: &mut Vec<u8>, v: usize)
    ensures
        final(out)@ == old(out)@ + decimal(v as nat),
    decreases v,
{
    if v >= 10 {
        push_decimal(out, v / 10);
    }
    out.push(48u8 + (v % 10) as u8);
    proof {
        if v < 10 {
            assert(v % 10 == v);
        }
    }
    assert(final(out)@ =~= old(out)@ + decimal(v as nat));
}

/// The whole binary PPM (P6) file of a `side` by `side` image stored row by
/// row as packed `0xRRGGBB` colours.
pub fn ppm_bytes(pixels: &Vec<u32>, side: usize) -> (r: Vec<u8>)
    requires
        pixels@.len() == side * side,
    ensures
        r@ == ppm_header(side as nat) + rgb_bytes(pixels@),
        r@.len() == ppm_header(side as nat).len() + 3 * pixels@.len(),
{
    let mut out: Vec<u8> = Vec::new();
    out.push(80u8);
    out.push(54u8);
    out.push(10u8);
    push_decimal(&mut out, side);
    out.push(32u8);
    push_decimal(&mut out, side);
    out.push(32u8);
    out.push(50u8);
    out.push(53u8);
    out.push(53u8);
    out.push(10u8);
    let ghost header = out@;
    assert(header =~= ppm_header(side as nat));
    let mut i: usize = 0;
    while i < pixels.len()
        invariant
            i <= pixels@.len(),
            out@ == header + rgb_bytes(pixels@.subrange(0, i as int)),
        decreases pixels@.len() - i,
    {
        let p = pixels[i];
        out.push(((p >> 16u32) & 0xffu32) as u8);
        out.push(((p >> 8u32) & 0xffu32) as u8);
        out.push((p & 0xffu32) as u8);
        proof {
            let s1 = pixels@.subrange(0, i + 1);
            assert(s1.drop_last() =~= pixels@.subrange(0, i as int));
            assert(s1.last() == p);
            assert(out@ =~= header + rgb_bytes(s1));
        }
        i = i + 1;
    }
    assert(pixels@.subrange(0, pixels@.len() as int) =~= pixels@);
    proof {
        lemma_rgb_bytes_len(pixels@);
    }
    out
}

} // verus!
