use vstd::prelude::*;

verus! {

use vstd::multiset::Multiset;

use crate::caster::FP;

/// Fisheye correction: the raw distance scaled by the magnitude of the
/// cosine of the ray's offset from the view center (fixed point), with
/// the same small positive floor the renderer applies to avoid a zero
/// divisor downstream.
pub open spec fn spec_corrected(dist: int, cos_off: int) -> int {
    let c = if cos_off < 0 {
        -cos_off
    } else {
        cos_off
    };
    let c1 = if c < 1 {
        1int
    } else {
        c
    };
    dist * c1 / (FP as int)
}

/// Projected wall strip height in pixels: cell size over corrected
/// distance, times the projection-plane distance.
pub open spec fn spec_wall_height(block: int, corrected: int, proj: int) -> int {
    block * (FP as int) * proj / corrected
}

pub fn corrected_distance(dist: i64, cos_off: i64) -> (r: i64)
    requires
        0 <= dist <= 30_000_000_000_000,
        -FP <= cos_off <= FP,
    ensures
        r == spec_corrected(dist as int, cos_off as int),
        0 <= r <= dist,
{
    let c: i64 = if cos_off < 0 {
        -cos_off
    } else {
        cos_off
    };
    let c1: i64 = if c < 1 {
        1
    } else {
        c
    };
    proof {
        assert(0 <= dist * c1 <= 30_000_000_000_000i64 * 1024) by (nonlinear_arith)
            requires
                0 <= dist <= 30_000_000_000_000i64,
                1 <= c1 <= 1024,
        ;
        vstd::arithmetic::div_mod::lemma_div_pos_is_pos(dist as int * c1, FP as int);
        vstd::arithmetic::mul::lemma_mul_inequality(c1 as int, FP as int, dist as int);
        assert(dist as int * c1 == c1 * dist && dist as int * (FP as int) == (FP as int) * dist)
            by (nonlinear_arith);
        vstd::arithmetic::div_mod::lemma_div_is_ordered(
            dist as int * c1,
            dist as int * (FP as int),
            FP as int,
        );
        vstd::arithmetic::div_mod::lemma_div_multiples_vanish(dist as int, FP as int);
    }
    dist * c1 / FP
}

pub fn wall_height(block_size: usize, corrected: i64, proj: i64) -> (h: i64)
    requires
        1 <= block_size <= 10000,
        1 <= corrected,
        0 <= proj <= 1_000_000,
    ensures
        h == spec_wall_height(block_size as int, corrected as int, proj as int),
        h >= 0,
{
    let b: i64 = block_size as i64;
    proof {
        assert(0 <= b * FP * proj <= 10_240_000i64 * 1_000_000) by (nonlinear_arith)
            requires
                1 <= b <= 10000,
                0 <= proj <= 1_000_000,
        ;
        vstd::arithmetic::div_mod::lemma_div_pos_is_pos(
            b as int * (FP as int) * proj,
            corrected as int,
        );
    }
    b * FP * proj / corrected
}

/// Two rays symmetric about the view center that strike walls at the
/// same raw distance get the same corrected distance, hence the same
/// projected wall height: the fisheye correction cancels the offset's
/// sign.
pub proof fn lemma_fisheye_symmetry(dist: int, cos_off: int, block: int, proj: int)
    ensures
        spec_corrected(dist, cos_off) == spec_corrected(dist, -cos_off),
        spec_wall_height(block, spec_corrected(dist, cos_off), proj) == spec_wall_height(
            block,
            spec_corrected(dist, -cos_off),
            proj,
        ),
{
}

/// A sprite is drawn in a column only when its corrected distance does
/// not exceed the wall distance recorded for that column.
pub fn sprite_visible(corrected: i64, wall_dist: i64) -> (b: bool)
    ensures
        b == (corrected <= wall_dist),
{
    corrected <= wall_dist
}

/// A pickup marker appears on the minimap once its cell is revealed, or
/// while the binoculars are active, and only while it has not been
/// taken.
pub fn pickup_marker_visible(taken: bool, revealed: bool, binocular_us: u32) -> (b: bool)
    ensures
        b == (!taken && (revealed || binocular_us > 0)),
{
    !taken && (revealed || binocular_us > 0)
}

/// An enemy marker appears once its cell is revealed, or while the
/// binoculars are active.
pub fn enemy_marker_visible(revealed: bool, binocular_us: u32) -> (b: bool)
    ensures
        b == (revealed || binocular_us > 0),
{
    revealed || binocular_us > 0
}

/// The minimap color of one cell, RGB: unrevealed cells stay black;
/// revealed walls are dark gray, the spawn marker red, a locked door
/// brown, the goal green, and open floor white.
pub open spec fn spec_minimap_color(cell: char, revealed: bool) -> (u8, u8, u8) {
    if !revealed {
        (0, 0, 0)
    } else if cell == '+' || cell == '-' || cell == '|' {
        (80, 80, 80)
    } else if cell == 'p' {
        (230, 41, 55)
    } else if cell == 'D' {
        (150, 75, 0)
    } else if cell == 'g' {
        (0, 228, 48)
    } else {
        (255, 255, 255)
    }
}

pub fn minimap_cell_color(cell: char, revealed: bool) -> (rgb: (u8, u8, u8))
    ensures
        rgb == spec_minimap_color(cell, revealed),
{
    if !revealed {
        (0, 0, 0)
    } else if cell == '+' || cell == '-' || cell == '|' {
        (80, 80, 80)
    } else if cell == 'p' {
        (230, 41, 55)
    } else if cell == 'D' {
        (150, 75, 0)
    } else if cell == 'g' {
        (0, 228, 48)
    } else {
        (255, 255, 255)
    }
}

/// The filled width of a HUD bar: the fraction `current / max` of the
/// bar width, rounded down.
pub fn bar_fill(current: u32, max: u32, bar_w: u32) -> (fill: u32)
    requires
        1 <= max,
        current <= max,
        bar_w <= 10000,
    ensures
        fill == current as int * bar_w / max as int,
        fill <= bar_w,
{
    proof {
        assert(0 <= current as int * bar_w <= 4_294_967_295i64 * 10000) by (nonlinear_arith)
            requires
                0 <= current <= 4_294_967_295u32,
                bar_w <= 10000,
        ;
        vstd::arithmetic::mul::lemma_mul_inequality(current as int, max as int, bar_w as int);
        vstd::arithmetic::div_mod::lemma_div_is_ordered(
            current as int * bar_w,
            max as int * bar_w,
            max as int,
        );
        vstd::arithmetic::mul::lemma_mul_is_commutative(max as int, bar_w as int);
        vstd::arithmetic::div_mod::lemma_div_multiples_vanish(bar_w as int, max as int);
        vstd::arithmetic::div_mod::lemma_div_pos_is_pos(current as int * bar_w, max as int);
    }
    let f: u64 = (current as u64) * (bar_w as u64) / (max as u64);
    f as u32
}

/// Sort sprite entries, each an index with its corrected distance, into
/// descending distance order: the painter's algorithm draws the
/// farthest first so nearer sprites overdraw farther ones. The result
/// is a permutation of the input.
pub fn sort_sprites_by_depth(v: Vec<(usize, i64)>) -> (out: Vec<(usize, i64)>)
    ensures
        out@.len() == v@.len(),
        out@.to_multiset() == v@.to_multiset(),
        forall|i: int, j: int| 0 <= i <= j < out@.len() ==> (#[trigger] out@[i]).1 >= (#[trigger] out@[j]).1,
{
    let ghost orig = v@;
    let mut rest: Vec<(usize, i64)> = v;
    let mut out: Vec<(usize, i64)> = Vec::new();
    proof {
        vstd::seq_lib::lemma_multiset_commutative(out@, rest@);
        assert(out@ + rest@ =~= rest@);
    }
    while rest.len() > 0
        invariant
            out@.len() + rest@.len() == orig.len(),
            out@.to_multiset().add(rest@.to_multiset()) == orig.to_multiset(),
            forall|i: int, j: int|
                0 <= i <= j < out@.len() ==> (#[trigger] out@[i]).1 >= (#[trigger] out@[j]).1,
            forall|i: int, k: int|
                0 <= i < out@.len() && 0 <= k < rest@.len() ==> (#[trigger] out@[i]).1 >= (
                #[trigger] rest@[k]).1,
        decreases rest@.len(),
    {
        // Find the farthest remaining entry.
        let mut best: usize = 0;
        let mut s: usize = 1;
        while s < rest.len()
            invariant
                rest@.len() > 0,
                best < rest@.len(),
                s <= rest@.len(),
                forall|k: int| 0 <= k < s ==> (#[trigger] rest@[k]).1 <= rest@[best as int].1,
            decreases rest@.len() - s,
        {
            if rest[s].1 > rest[best].1 {
                best = s;
            }
            s = s + 1;
        }
        let ghost rest_old = rest@;
        let ghost out_old = out@;
        let x: (usize, i64) = rest.remove(best);
        out.push(x);
        proof {
            broadcast use vstd::seq_lib::group_to_multiset_ensures;

            assert(rest_old[best as int] == x);
            assert(rest_old.contains(x));
            broadcast use vstd::multiset::group_multiset_axioms;

            assert(rest_old.to_multiset().count(x) > 0);
            assert(rest@.to_multiset() =~= rest_old.to_multiset().remove(x));
            assert(out@.to_multiset() =~= out_old.to_multiset().insert(x));
            assert forall|e: (usize, i64)|
                #[trigger] out@.to_multiset().count(e) + rest@.to_multiset().count(e)
                == orig.to_multiset().count(e) by {
                assert(out_old.to_multiset().count(e) + rest_old.to_multiset().count(e)
                    == orig.to_multiset().count(e));
            }
            assert(out@.to_multiset().add(rest@.to_multiset()) =~= orig.to_multiset());
            assert forall|i: int, k: int|
                0 <= i < out@.len() && 0 <= k < rest@.len() implies (#[trigger] out@[i]).1 >= (
            #[trigger] rest@[k]).1 by {
                if k < best {
                    assert(rest@[k] == rest_old[k]);
                } else {
                    assert(rest@[k] == rest_old[k + 1]);
                }
                if i < out@.len() - 1 {
                    assert(out@[i] == out_old[i]);
                } else {
                    assert(out@[i] == x);
                }
            }
        }
    }
    proof {
        broadcast use vstd::seq_lib::group_to_multiset_ensures;
        broadcast use vstd::multiset::group_multiset_axioms;

        assert forall|e: (usize, i64)| #[trigger] rest@.to_multiset().count(e) == 0 by {
            if rest@.to_multiset().count(e) > 0 {
                assert(rest@.contains(e));
            }
        }
        assert(rest@.to_multiset() =~= Multiset::<(usize, i64)>::empty());
        assert(out@.to_multiset().add(Multiset::<(usize, i64)>::empty()) =~= out@.to_multiset());
    }
    out
}


/// Scale texture dimensions down so that the larger side fits
/// `max_dim`, keeping the aspect ratio, never below one pixel; small
/// textures pass through unchanged.
pub fn clamp_texture_dims(w: u32, h: u32, max_dim: u32) -> (r: (u32, u32))
    requires
        1 <= w <= 1_000_000,
        1 <= h <= 1_000_000,
        1 <= max_dim <= 100_000,
    ensures
        w <= max_dim && h <= max_dim ==> r == (w, h),
        !(w <= max_dim && h <= max_dim) ==> {
            let big = vstd::math::max(w as int, h as int);
            &&& r.0 == vstd::math::max(w as int * max_dim / big, 1)
            &&& r.1 == vstd::math::max(h as int * max_dim / big, 1)
        },
{
    if w <= max_dim && h <= max_dim {
        (w, h)
    } else {
        let big: u64 = if w > h {
            w as u64
        } else {
            h as u64
        };
        proof {
            assert(0 <= w as int * max_dim as int <= 1_000_000int * 100_000 && 0 <= h as int
                * max_dim as int <= 1_000_000int * 100_000) by (nonlinear_arith)
                requires
                    1 <= w <= 1_000_000,
                    1 <= h <= 1_000_000,
                    1 <= max_dim <= 100_000,
            ;
        }
        let nw64: u64 = (w as u64) * (max_dim as u64) / big;
        let nh64: u64 = (h as u64) * (max_dim as u64) / big;
        proof {
            vstd::arithmetic::div_mod::lemma_div_pos_is_pos(
                w as int * max_dim as int,
                big as int,
            );
            vstd::arithmetic::div_mod::lemma_div_pos_is_pos(
                h as int * max_dim as int,
                big as int,
            );
            vstd::arithmetic::mul::lemma_mul_inequality(w as int, big as int, max_dim as int);
            vstd::arithmetic::mul::lemma_mul_inequality(h as int, big as int, max_dim as int);
            assert(w as int * max_dim == max_dim as int * w && big as int * max_dim == max_dim as int
                * big && h as int * max_dim == max_dim as int * h) by (nonlinear_arith);
            vstd::arithmetic::div_mod::lemma_div_is_ordered(
                w as int * max_dim as int,
                big as int * max_dim as int,
                big as int,
            );
            vstd::arithmetic::div_mod::lemma_div_is_ordered(
                h as int * max_dim as int,
                big as int * max_dim as int,
                big as int,
            );
            vstd::arithmetic::div_mod::lemma_div_multiples_vanish(max_dim as int, big as int);
        }
        let nw: u32 = if nw64 < 1 {
            1
        } else {
            nw64 as u32
        };
        let nh: u32 = if nh64 < 1 {
            1
        } else {
            nh64 as u32
        };
        (nw, nh)
    }
}


/// The texture u-coordinate of a wall hit, as a fixed-point fraction in
/// [0, FP): the position along the struck edge, read from whichever
/// local coordinate runs along the wall. A hit within one world unit of
/// a vertical cell edge samples along y; otherwise it samples along x.
pub open spec fn spec_texture_u(hit_x: int, hit_y: int, block_fp: int) -> int {
    let lx = hit_x % block_fp;
    let ly = hit_y % block_fp;
    if lx < FP || lx > block_fp - FP {
        ly * (FP as int) / block_fp
    } else {
        lx * (FP as int) / block_fp
    }
}

pub fn wall_texture_u(hit_x: i64, hit_y: i64, block_size: usize) -> (u: i64)
    requires
        0 <= hit_x <= 1_024_000_000,
        0 <= hit_y <= 1_024_000_000,
        1 <= block_size <= 10000,
    ensures
        u == spec_texture_u(hit_x as int, hit_y as int, block_size as int * (FP as int)),
        0 <= u < FP,
{
    let block_fp: i64 = (block_size as i64) * FP;
    let lx: i64 = hit_x % block_fp;
    let ly: i64 = hit_y % block_fp;
    proof {
        vstd::arithmetic::div_mod::lemma_mod_division_less_than_divisor(
            hit_x as int,
            block_fp as int,
        );
        vstd::arithmetic::div_mod::lemma_mod_division_less_than_divisor(
            hit_y as int,
            block_fp as int,
        );
        vstd::arithmetic::div_mod::lemma_remainder_lower(hit_x as int, block_fp as int);
        vstd::arithmetic::div_mod::lemma_remainder_lower(hit_y as int, block_fp as int);
        lemma_fraction_in_unit(lx as int, block_fp as int);
        lemma_fraction_in_unit(ly as int, block_fp as int);
    }
    if lx < FP || lx > block_fp - FP {
        ly * FP / block_fp
    } else {
        lx * FP / block_fp
    }
}

/// A local offset strictly inside a cell scales to a fraction in
/// [0, FP).
proof fn lemma_fraction_in_unit(l: int, block_fp: int)
    requires
        0 <= l < block_fp,
        1024 <= block_fp,
    ensures
        0 <= l * (FP as int) / block_fp < FP,
{
    vstd::arithmetic::mul::lemma_mul_nonnegative(l, FP as int);
    vstd::arithmetic::div_mod::lemma_div_pos_is_pos(l * (FP as int), block_fp);
    vstd::arithmetic::div_mod::lemma_multiply_divide_lt(l * (FP as int), block_fp, FP as int);
    assert(l * (FP as int) < block_fp * (FP as int)) by (nonlinear_arith)
        requires
            0 <= l < block_fp,
    ;
}

/// The screen column a sprite projects to: its angular offset from the
/// view center, scaled into the column range around the center column.
pub open spec fn spec_sprite_col(rel_urad: int, fov_urad: int, num_cols: int) -> int {
    if rel_urad < 0 {
        num_cols / 2 - (-rel_urad) * num_cols / fov_urad
    } else {
        num_cols / 2 + rel_urad * num_cols / fov_urad
    }
}

pub fn sprite_screen_col(rel_urad: i64, fov_urad: i64, num_cols: usize) -> (col: i64)
    requires
        -4_000_000 <= rel_urad <= 4_000_000,
        1 <= fov_urad <= 6_300_000,
        1 <= num_cols <= 100_000,
    ensures
        col == spec_sprite_col(rel_urad as int, fov_urad as int, num_cols as int),
{
    let mag: i64 = if rel_urad < 0 {
        -rel_urad
    } else {
        rel_urad
    };
    proof {
        assert(0 <= mag * (num_cols as i64) <= 4_000_000i64 * 100_000) by (nonlinear_arith)
            requires
                0 <= mag <= 4_000_000,
                1 <= num_cols <= 100_000,
        ;
        vstd::arithmetic::div_mod::lemma_div_pos_is_pos(
            mag as int * num_cols as int,
            fov_urad as int,
        );
        vstd::arithmetic::div_mod::lemma_div_nonincreasing(
            mag as int * num_cols as int,
            fov_urad as int,
        );
    }
    let off: i64 = mag * (num_cols as i64) / fov_urad;
    if rel_urad < 0 {
        (num_cols as i64) / 2 - off
    } else {
        (num_cols as i64) / 2 + off
    }
}


/// Nearest-neighbor texel lookup: map fixed-point texture coordinates
/// in [0, FP) to a pixel index in a `tex_w` by `tex_h` RGBA byte
/// buffer (four bytes per pixel).
pub fn texel_index(u: i64, v: i64, tex_w: usize, tex_h: usize) -> (idx: usize)
    requires
        0 <= u < FP,
        0 <= v < FP,
        1 <= tex_w <= 16384,
        1 <= tex_h <= 16384,
    ensures
        idx == ((v as int * (tex_h - 1) + (FP as int) / 2) / (FP as int) * tex_w + (u as int
            * (tex_w - 1) + (FP as int) / 2) / (FP as int)) * 4,
        idx + 3 < tex_w * tex_h * 4,
{
    proof {
        lemma_rounded_fraction(u as int, tex_w as int);
        lemma_rounded_fraction(v as int, tex_h as int);
    }
    let tx: i64 = (u * (tex_w as i64 - 1) + FP / 2) / FP;
    let ty: i64 = (v * (tex_h as i64 - 1) + FP / 2) / FP;
    proof {
        crate::grid::lemma_flat_index_bound(ty as int, tx as int, tex_h as int, tex_w as int);
        assert(ty * tex_w + tx <= 16384i64 * 16384) by (nonlinear_arith)
            requires
                0 <= tx < 16384,
                0 <= ty < 16384,
                1 <= tex_w <= 16384,
        ;
        assert((ty * tex_w + tx) * 4 + 3 < tex_h * tex_w * 4 && tex_h * tex_w == tex_w * tex_h
            && tex_h * tex_w <= 16384 * 16384) by (nonlinear_arith)
            requires
                0 <= ty * tex_w + tx < tex_h * tex_w,
                1 <= tex_w <= 16384,
                1 <= tex_h <= 16384,
        ;
    }
    ((ty as usize) * tex_w + (tx as usize)) * 4
}

/// Rounding a fixed-point fraction of `n - 1` stays below `n`.
proof fn lemma_rounded_fraction(u: int, n: int)
    requires
        0 <= u < FP,
        1 <= n <= 100_000,
    ensures
        0 <= u * (n - 1) + (FP as int) / 2 < n * (FP as int),
        0 <= (u * (n - 1) + (FP as int) / 2) / (FP as int) < n,
{
    assert(0 <= u * (n - 1) + 512 && u * (n - 1) + 512 < n * 1024) by (nonlinear_arith)
        requires
            0 <= u < 1024,
            1 <= n,
    ;
    vstd::arithmetic::div_mod::lemma_div_pos_is_pos(u * (n - 1) + 512, FP as int);
    vstd::arithmetic::div_mod::lemma_multiply_divide_lt(u * (n - 1) + 512, FP as int, n);
}

} // verus!
