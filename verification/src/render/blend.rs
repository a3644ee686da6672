use vstd::prelude::*;
use crate::model::blend_mode::BlendMode;

verus! {

/// The colour channel the blend mode makes of a background and a foreground
/// channel, before the foreground's coverage is applied.
pub open spec fn mix_channel(mode: BlendMode, b: int, f: int) -> int {
    match mode {
        BlendMode::Normal => f,
        BlendMode::Multiply => (b * f) / 255,
        BlendMode::Screen => 255 - ((255 - b) * (255 - f)) / 255,
        BlendMode::Add => if b + f < 255 {
            b + f
        } else {
            255
        },
    }
}

/// The foreground's coverage: its alpha scaled by the layer's opacity.
pub open spec fn coverage(fg_alpha: u8, opacity: u8) -> int {
    (fg_alpha * opacity) / 255
}

/// One channel of the result: the mixed channel weighted by the coverage over
/// the background channel weighted by the rest.
pub open spec fn blend_channel(mode: BlendMode, b: int, f: int, a: int) -> u8 {
    ((mix_channel(mode, b, f) * a + b * (255 - a)) / 255) as u8
}

/// `fg` drawn over `bg`: the background unchanged where the coverage is zero,
/// else the blended channels with full alpha.
pub open spec fn blended(bg: Seq<u8>, fg: Seq<u8>, mode: BlendMode, opacity: u8) -> Seq<u8> {
    let a = coverage(fg[3], opacity);
    if a == 0 {
        bg
    } else {
        seq![
            blend_channel(mode, bg[0] as int, fg[0] as int, a),
            blend_channel(mode, bg[1] as int, fg[1] as int, a),
            blend_channel(mode, bg[2] as int, fg[2] as int, a),
            255u8,
        ]
    }
}

proof fn lemma_mix_range(mode: BlendMode, b: int, f: int)
    requires
        0 <= b <= 255,
        0 <= f <= 255,
    ensures
        0 <= mix_channel(mode, b, f) <= 255,
{
    assert(0 <= b * f <= 255 * 255) by (nonlinear_arith)
        requires
            0 <= b <= 255,
            0 <= f <= 255,
    ;
    assert(0 <= (255 - b) * (255 - f) <= 255 * 255) by (nonlinear_arith)
        requires
            0 <= b <= 255,
            0 <= f <= 255,
    ;
}

fn mix(mode: BlendMode, b: u32, f: u32) -> (m: u32)
    requires
        b <= 255,
        f <= 255,
    ensures
        m == mix_channel(mode, b as int, f as int),
        m <= 255,
{
    proof {
        lemma_mix_range(mode, b as int, f as int);
        assert(b * f <= 255 * 255) by (nonlinear_arith)
            requires
                b <= 255,
                f <= 255,
        ;
        assert((255 - b) * (255 - f) <= 255 * 255) by (nonlinear_arith)
            requires
                b <= 255,
                f <= 255,
        ;
    }
    match mode {
        BlendMode::Normal => f,
        BlendMode::Multiply => (b * f) / 255,
        BlendMode::Screen => 255 - ((255 - b) * (255 - f)) / 255,
        BlendMode::Add => if b + f < 255 {
            b + f
        } else {
            255
        },
    }
}

fn channel(m: u32, b: u32, a: u32) -> (c: u8)
    requires
        m <= 255,
        b <= 255,
        1 <= a <= 255,
    ensures
        c == ((m * a + b * (255 - a)) / 255) as u8,
{
    proof {
        assert(m * a + b * (255 - a) <= 255 * 255) by (nonlinear_arith)
            requires
                m <= 255,
                b <= 255,
                a <= 255,
        ;
    }
    ((m * a + b * (255 - a)) / 255) as u8
}

/// Draws the pixel `fg` over `bg` with the given blend mode, its alpha scaled by
/// `global_opacity`.
pub fn blend_pixels(bg: [u8; 4], fg: [u8; 4], mode: BlendMode, global_opacity: u8) -> (r: [u8; 4])
    ensures
        r@ == blended(bg@, fg@, mode, global_opacity),
{
    proof {
        assert(fg[3] as u32 * global_opacity as u32 <= 255 * 255) by (nonlinear_arith)
            requires
                fg[3] <= 255,
                global_opacity <= 255,
        ;
    }
    let src_a = (fg[3] as u32 * global_opacity as u32) / 255;
    if src_a == 0 {
        return bg;
    }
    let b0 = bg[0] as u32;
    let b1 = bg[1] as u32;
    let b2 = bg[2] as u32;
    let m0 = mix(mode, b0, fg[0] as u32);
    let m1 = mix(mode, b1, fg[1] as u32);
    let m2 = mix(mode, b2, fg[2] as u32);
    let r = [channel(m0, b0, src_a), channel(m1, b1, src_a), channel(m2, b2, src_a), 255u8];
    assert(r@ =~= blended(bg@, fg@, mode, global_opacity));
    r
}

/// At full coverage (an opaque foreground drawn at full opacity) each colour
/// channel of the result is the blend mode's formula applied to the two
/// channels: Normal takes the foreground, Multiply the product over 255,
/// Screen the inverted product of the inverses, Add the sum capped at 255;
/// the result is opaque.
pub proof fn law_blend_full_coverage(bg: Seq<u8>, fg: Seq<u8>, mode: BlendMode)
    requires
        bg.len() == 4,
        fg.len() == 4,
        fg[3] == 255,
    ensures
        ({
            let r = blended(bg, fg, mode, 255);
            &&& r.len() == 4
            &&& r[3] == 255
            &&& forall|k: int|
                0 <= k < 3 ==> #[trigger] r[k] as int == match mode {
                    BlendMode::Normal => fg[k] as int,
                    BlendMode::Multiply => (bg[k] * fg[k]) / 255,
                    BlendMode::Screen => 255 - ((255 - bg[k]) * (255 - fg[k])) / 255,
                    BlendMode::Add => if bg[k] + fg[k] < 255 {
                        bg[k] + fg[k]
                    } else {
                        255
                    },
                }
        }),
{
    assert(coverage(255, 255) == 255);
    assert forall|k: int| 0 <= k < 3 implies #[trigger] blended(bg, fg, mode, 255)[k] as int == match mode {
        BlendMode::Normal => fg[k] as int,
        BlendMode::Multiply => (bg[k] * fg[k]) / 255,
        BlendMode::Screen => 255 - ((255 - bg[k]) * (255 - fg[k])) / 255,
        BlendMode::Add => if bg[k] + fg[k] < 255 {
            bg[k] + fg[k]
        } else {
            255
        },
    } by {
        let b = bg[k] as int;
        let f = fg[k] as int;
        lemma_mix_range(mode, b, f);
        let m = mix_channel(mode, b, f);
        assert((m * 255 + b * (255 - 255)) / 255 == m) by (nonlinear_arith)
            requires
                0 <= m <= 255,
        ;
        assert(b * f == bg[k] * fg[k]);
    }
}

/// An opaque foreground in Normal mode at layer opacity `o` covers the
/// background by `o`: each channel is the foreground weighted by `o` plus the
/// background weighted by `255 - o`, over 255; at opacity 0 the background is
/// left as it was.
pub proof fn law_blend_normal_opacity(bg: Seq<u8>, fg: Seq<u8>, o: u8)
    requires
        bg.len() == 4,
        fg.len() == 4,
        fg[3] == 255,
    ensures
        o == 0 ==> blended(bg, fg, BlendMode::Normal, o) == bg,
        o > 0 ==> {
            let r = blended(bg, fg, BlendMode::Normal, o);
            &&& r.len() == 4
            &&& r[3] == 255
            &&& forall|k: int|
                0 <= k < 3 ==> #[trigger] r[k] as int == (fg[k] * o + bg[k] * (255 - o)) / 255
        },
{
    assert(coverage(255, o) == o) by (nonlinear_arith);
    assert forall|k: int| 0 <= k < 3 && o > 0 implies #[trigger] blended(bg, fg, BlendMode::Normal, o)[k] as int
        == (fg[k] * o + bg[k] * (255 - o)) / 255 by {
        let b = bg[k] as int;
        let f = fg[k] as int;
        assert(0 <= (f * o + b * (255 - o)) / 255 <= 255) by (nonlinear_arith)
            requires
                0 <= f <= 255,
                0 <= b <= 255,
                0 <= o <= 255,
        ;
    }
}

} // verus!
