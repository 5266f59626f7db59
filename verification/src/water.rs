//! The water plugin's integer decisions: the FFT size a scene's map size lands
//! on, the per-cascade seed of the wave spectrum, how many cascades the shader
//! can address, and the triangle topology of the bounded grid mesh.

use vstd::prelude::*;

verus! {

/// How many cascades the GPU uniform and the shader can address.
pub const MAX_CASCADES: usize = 8;

/// The map size a requested one snaps to: the FFT kernels are specialised
/// per size, so anything an inspector or a hand-edited scene holds lands on
/// 128, 256, 512 or 1024.
pub open spec fn map_size_spec(map_size: u32) -> u32 {
    if map_size <= 191 {
        128
    } else if map_size <= 383 {
        256
    } else if map_size <= 767 {
        512
    } else {
        1024
    }
}

/// `map_size` snapped to a supported power of two.
pub fn clamped_map_size(map_size: u32) -> (r: u32)
    ensures
        r == map_size_spec(map_size),
{
    if map_size <= 191 {
        128
    } else if map_size <= 383 {
        256
    } else if map_size <= 767 {
        512
    } else {
        1024
    }
}

/// How many of `n` cascades are simulated: no more than the shader can
/// address.
pub fn active_cascade_count(n: usize) -> (r: usize)
    ensures
        r == if n < MAX_CASCADES {
            n
        } else {
            MAX_CASCADES
        },
{
    if n < MAX_CASCADES {
        n
    } else {
        MAX_CASCADES
    }
}

pub const SEED_STEP: u32 = 0x9E37_79B9;

pub const SEED_MIX: u32 = 0x85EB_CA6B;

pub const SEED_SPLIT: u32 = 2_654_435_761;

/// The seed mixed with the cascade index, before it is split in two.
pub open spec fn seed_mixed(seed: u32, cascade_index: usize) -> u32 {
    seed.wrapping_add((cascade_index as u32).wrapping_mul(SEED_STEP)).wrapping_mul(SEED_MIX)
}

/// The lattice offset of a cascade's spectrum hash: the mixed seed, and the
/// mixed seed times a second odd constant, each read as a signed integer.
pub open spec fn seed_spec(seed: u32, cascade_index: usize) -> (i32, i32) {
    let m = seed_mixed(seed, cascade_index);
    (m as i32, m.wrapping_mul(SEED_SPLIT) as i32)
}

/// Split a user-facing seed into the 2D lattice offset the spectrum hash
/// takes, per cascade, so that cascades with the same parameters still draw
/// different random fields.
pub fn spectrum_seed(seed: u32, cascade_index: usize) -> (r: (i32, i32))
    ensures
        r == seed_spec(seed, cascade_index),
{
    let mixed = seed.wrapping_add((cascade_index as u32).wrapping_mul(SEED_STEP)).wrapping_mul(
        SEED_MIX,
    );
    (mixed as i32, mixed.wrapping_mul(SEED_SPLIT) as i32)
}

/// The triangles of quad `(x, z)` of a grid `s` quads on a side: top-left,
/// bottom-left, top-right, then top-right, bottom-left, bottom-right.
pub open spec fn quad_indices(s: int, x: int, z: int) -> Seq<int> {
    let edge = s + 1;
    let tl = z * edge + x;
    let tr = tl + 1;
    let bl = tl + edge;
    let br = bl + 1;
    seq![tl, bl, tr, tr, bl, br]
}

/// The index buffer of a flat grid `s` quads on a side, vertices numbered row
/// by row: quad after quad, row after row.
pub open spec fn grid_index_spec(s: int, quads: int) -> Seq<int>
    decreases quads,
{
    if quads <= 0 || s <= 0 {
        Seq::empty()
    } else {
        let q = quads - 1;
        grid_index_spec(s, q) + quad_indices(s, q % s, q / s)
    }
}

/// The grid's quad count on a side: at least one.
pub open spec fn subdivisions_of(subdivisions: u32) -> int {
    if subdivisions == 0 {
        1
    } else {
        subdivisions as int
    }
}

/// The index buffer of the bounded grid mesh: `subdivisions` quads on a side
/// (at least one), `(subdivisions + 1)²` vertices numbered row by row, and
/// six indices per quad.
pub fn grid_indices(subdivisions: u32) -> (idx: Vec<u32>)
    requires
        subdivisions < 0xffff,
    ensures
        idx@.len() == 6 * (subdivisions_of(subdivisions) * subdivisions_of(subdivisions)),
        forall|i: int|
            0 <= i < idx@.len() ==> idx@[i] as int == grid_index_spec(
                subdivisions_of(subdivisions),
                subdivisions_of(subdivisions) * subdivisions_of(subdivisions),
            )[i],
{
    let s: u32 = if subdivisions == 0 {
        1
    } else {
        subdivisions
    };
    let edge: u32 = s + 1;
    let ghost si = s as int;
    let mut idx: Vec<u32> = Vec::new();
    let mut z: u32 = 0;
    while z < s
        invariant
            si == s as int,
            si == subdivisions_of(subdivisions),
            1 <= s < 0xffff,
            edge == s + 1,
            z <= s,
            idx@.len() == 6 * (z * si),
            forall|i: int|
                0 <= i < idx@.len() ==> idx@[i] as int == grid_index_spec(si, z * si)[i],
        decreases s - z,
    {
        let mut x: u32 = 0;
        while x < s
            invariant
                si == s as int,
                1 <= s < 0xffff,
                edge == s + 1,
                z < s,
                x <= s,
                idx@.len() == 6 * (z * si + x),
                forall|i: int|
                    0 <= i < idx@.len() ==> idx@[i] as int == grid_index_spec(si, z * si + x)[i],
            decreases s - x,
        {
            proof {
                assert(z * edge + x + edge + 1 < edge * edge) by (nonlinear_arith)
                    requires
                        z < s,
                        x < s,
                        edge == s + 1,
                ;
                assert(edge * edge < 0x1_0000_0000) by (nonlinear_arith)
                    requires
                        edge == s + 1,
                        s < 0xffff,
                ;
                assert(0 <= z * edge) by (nonlinear_arith);
            }
            let tl = z * edge + x;
            let tr = tl + 1;
            let bl = tl + edge;
            let br = bl + 1;
            let ghost before = idx@;
            let ghost q = z * si + x;
            proof {
                assert(q % si == x && q / si == z) by (nonlinear_arith)
                    requires
                        q == z * si + x,
                        0 <= x < si,
                        0 <= z,
                ;
                assert(grid_index_spec(si, q + 1) == grid_index_spec(si, q) + quad_indices(
                    si,
                    x as int,
                    z as int,
                ));
                lemma_grid_len(si, q);
                lemma_grid_len(si, q + 1);
            }
            idx.push(tl);
            idx.push(bl);
            idx.push(tr);
            idx.push(tr);
            idx.push(bl);
            idx.push(br);
            proof {
                let g = grid_index_spec(si, q + 1);
                assert forall|i: int| 0 <= i < idx@.len() implies idx@[i] as int == g[i] by {
                    if i < before.len() {
                        assert(idx@[i] == before[i]);
                    }
                }
            }
            x = x + 1;
        }
        proof {
            assert(z * si + si == (z + 1) * si) by (nonlinear_arith);
        }
        z = z + 1;
    }
    idx
}

/// The lattice position `(x, z)` of the bounded grid's vertex `i`, vertices
/// numbered row by row, `e` to a row.
pub open spec fn lattice_point(i: int, e: int) -> (u32, u32) {
    ((i % e) as u32, (i / e) as u32)
}

/// The vertices of the bounded grid mesh as lattice positions: `x` across a
/// row and `z` from row to row, each from `0` to the quad count on a side
/// (at least one), so `(subdivisions + 1)²` of them. A vertex's place in
/// the list is the number the index buffer calls it by.
pub fn grid_vertices(subdivisions: u32) -> (v: Vec<(u32, u32)>)
    requires
        subdivisions < 0xffff,
    ensures
        v@.len() == (subdivisions_of(subdivisions) + 1) * (subdivisions_of(subdivisions) + 1),
        forall|i: int|
            0 <= i < v@.len() ==> v@[i] == lattice_point(i, subdivisions_of(subdivisions) + 1),
{
    let s: u32 = if subdivisions == 0 {
        1
    } else {
        subdivisions
    };
    let edge: u32 = s + 1;
    let ghost e = edge as int;
    let mut v: Vec<(u32, u32)> = Vec::new();
    let mut z: u32 = 0;
    while z < edge
        invariant
            e == edge as int,
            e == subdivisions_of(subdivisions) + 1,
            2 <= edge <= 0xffff,
            z <= edge,
            v@.len() == z * e,
            forall|i: int| 0 <= i < v@.len() ==> v@[i] == lattice_point(i, e),
        decreases edge - z,
    {
        let mut x: u32 = 0;
        while x < edge
            invariant
                e == edge as int,
                2 <= edge <= 0xffff,
                z < edge,
                x <= edge,
                v@.len() == z * e + x,
                forall|i: int| 0 <= i < v@.len() ==> v@[i] == lattice_point(i, e),
            decreases edge - x,
        {
            proof {
                vstd::arithmetic::div_mod::lemma_fundamental_div_mod_converse(
                    z * e + x,
                    e,
                    z as int,
                    x as int,
                );
            }
            v.push((x, z));
            x = x + 1;
        }
        proof {
            assert(z * e + e == (z + 1) * e) by (nonlinear_arith);
        }
        z = z + 1;
    }
    v
}

proof fn lemma_grid_len(s: int, quads: int)
    requires
        1 <= s,
        0 <= quads,
    ensures
        grid_index_spec(s, quads).len() == 6 * quads,
    decreases quads,
{
    if quads > 0 {
        lemma_grid_len(s, quads - 1);
    }
}

/// Every index of the grid names one of its `(s + 1)²` vertices.
pub proof fn law_grid_indices_in_range(s: int, quads: int)
    requires
        1 <= s,
        0 <= quads <= s * s,
    ensures
        forall|i: int|
            0 <= i < grid_index_spec(s, quads).len() ==> 0 <= #[trigger] grid_index_spec(s, quads)[i] < (
            s + 1) * (s + 1),
        grid_index_spec(s, quads).len() == 6 * quads,
    decreases quads,
{
    if quads > 0 {
        let q = quads - 1;
        law_grid_indices_in_range(s, q);
        let x = q % s;
        let z = q / s;
        assert(0 <= x < s && 0 <= z < s) by (nonlinear_arith)
            requires
                0 <= q < s * s,
                1 <= s,
                x == q % s,
                z == q / s,
        ;
        assert(z * (s + 1) + x + (s + 1) + 1 < (s + 1) * (s + 1)) by (nonlinear_arith)
            requires
                0 <= x < s,
                0 <= z < s,
        ;
        assert(0 <= z * (s + 1) + x) by (nonlinear_arith)
            requires
                0 <= x,
                0 <= z,
                1 <= s,
        ;
        let g = grid_index_spec(s, quads);
        let prev = grid_index_spec(s, q);
        assert forall|i: int| 0 <= i < g.len() implies 0 <= #[trigger] g[i] < (s + 1) * (s + 1) by {
            if i < prev.len() {
                assert(g[i] == prev[i]);
            }
        }
    }
}

proof fn lemma_odd_mul_injective(a: u32, b: u32, c: u32)
    requires
        c == SEED_STEP || c == SEED_MIX,
        a.wrapping_mul(c) == b.wrapping_mul(c),
    ensures
        a == b,
{
    let x = a as u64;
    let y = b as u64;
    let k = c as u64;
    assert(x * k < 0x1_0000_0000_0000_0000) by (nonlinear_arith)
        requires
            x < 0x1_0000_0000,
            k < 0x1_0000_0000,
    ;
    assert(y * k < 0x1_0000_0000_0000_0000) by (nonlinear_arith)
        requires
            y < 0x1_0000_0000,
            k < 0x1_0000_0000,
    ;
    if c == SEED_STEP {
        assert(x < 0x1_0000_0000 && y < 0x1_0000_0000 && (x * 0x9E37_79B9u64) % 0x1_0000_0000 == (y
            * 0x9E37_79B9u64) % 0x1_0000_0000 ==> x == y) by (bit_vector);
    } else {
        assert(x < 0x1_0000_0000 && y < 0x1_0000_0000 && (x * 0x85EB_CA6Bu64) % 0x1_0000_0000 == (y
            * 0x85EB_CA6Bu64) % 0x1_0000_0000 ==> x == y) by (bit_vector);
    }
}

/// Two cascades of one seed get different mixed seeds, so they draw
/// different random fields: the index is spread by an odd multiplier and the
/// sum is spread by another, and multiplying by an odd number loses nothing.
pub proof fn law_cascade_seeds_differ(seed: u32, i: usize, j: usize)
    requires
        i as u32 != j as u32,
    ensures
        seed_mixed(seed, i) != seed_mixed(seed, j),
{
    let a = (i as u32).wrapping_mul(SEED_STEP);
    let b = (j as u32).wrapping_mul(SEED_STEP);
    if seed_mixed(seed, i) == seed_mixed(seed, j) {
        lemma_odd_mul_injective(seed.wrapping_add(a), seed.wrapping_add(b), SEED_MIX);
        assert(a == b);
        lemma_odd_mul_injective(i as u32, j as u32, SEED_STEP);
    }
}

/// One compute stage of the wave simulation.
#[derive(Clone, Copy, PartialEq, Eq, Debug, Structural)]
pub enum SimPass {
    /// The FFT's twiddle table, built once.
    Butterfly,
    /// The initial spectrum, rebuilt when the sea state changes.
    Spectrum,
    /// The spectrum advanced to this frame's time.
    Modulate,
    /// One direction of the inverse FFT.
    Fft,
    Transpose,
    /// The transformed fields into the displacement and normal maps.
    Unpack,
}

/// A compute dispatch: which stage, and its workgroup counts.
#[derive(Clone, Copy, PartialEq, Eq, Debug, Structural)]
pub struct Dispatch {
    pub pass: SimPass,
    pub x: u32,
    pub y: u32,
    pub z: u32,
}

/// Spectra transformed per cascade: displacement and its derivatives.
pub const NUM_SPECTRA: u32 = 4;

/// Texels per workgroup side.
pub const TILE: u32 = 16;

pub open spec fn div_ceil(a: int, b: int) -> int {
    (a + b - 1) / b
}

/// Trailing zero bits of `n`, as `u32::trailing_zeros` counts them: 32 for 0.
pub open spec fn trailing_zeros_of(n: u32) -> nat
    decreases n,
{
    if n == 0 {
        32
    } else if n % 2 == 1 {
        0
    } else {
        1 + trailing_zeros_of(n / 2)
    }
}

pub open spec fn dispatch(pass: SimPass, x: int, y: int, z: int) -> Dispatch {
    Dispatch { pass, x: x as u32, y: y as u32, z: z as u32 }
}

/// The dispatches of one frame. Nothing when there is nothing to step and no
/// spectrum or twiddle table to build. Otherwise, in order: the twiddle
/// table if it is not built yet; the spectrum if asked for or on that first
/// frame; and when stepping, modulate, a row FFT, a transpose, a second row
/// FFT and the unpack.
pub open spec fn sim_plan(step: bool, regenerate: bool, ready: bool, map_size: u32, cascades: u32) -> Seq<Dispatch> {
    let tiles = div_ceil(map_size as int, TILE as int);
    let stages = trailing_zeros_of(map_size) as int;
    let spectra = NUM_SPECTRA * cascades;
    if !step && !regenerate && ready {
        Seq::empty()
    } else {
        (if !ready {
            seq![dispatch(SimPass::Butterfly, div_ceil((map_size / 2) as int, 64), stages, 1)]
        } else {
            Seq::empty()
        }) + (if regenerate || !ready {
            seq![dispatch(SimPass::Spectrum, tiles, tiles, cascades as int)]
        } else {
            Seq::empty()
        }) + (if step {
            seq![
                dispatch(SimPass::Modulate, tiles, tiles, cascades as int),
                dispatch(SimPass::Fft, 1, map_size as int, spectra),
                dispatch(SimPass::Transpose, tiles, tiles, spectra),
                dispatch(SimPass::Fft, 1, map_size as int, spectra),
                dispatch(SimPass::Unpack, tiles, tiles, cascades as int),
            ]
        } else {
            Seq::empty()
        })
    }
}

/// `2^k`.
pub open spec fn two_to(k: nat) -> int
    decreases k,
{
    if k == 0 {
        1
    } else {
        2 * two_to((k - 1) as nat)
    }
}

/// A positive number below `2^k` has fewer than `k` trailing zeros.
proof fn lemma_trailing_zeros_below(n: u32, k: nat)
    requires
        0 < n,
        n < two_to(k),
    ensures
        trailing_zeros_of(n) < k,
    decreases n,
{
    if n % 2 == 0 {
        assert(k > 0);
        lemma_trailing_zeros_below(n / 2, (k - 1) as nat);
    }
}

fn trailing_zeros(n: u32) -> (t: u32)
    ensures
        t == trailing_zeros_of(n),
{
    if n == 0 {
        return 32;
    }
    let mut m = n;
    let mut t: u32 = 0;
    proof {
        reveal_with_fuel(two_to, 33);
        assert(two_to(32) == 0x1_0000_0000);
        lemma_trailing_zeros_below(n, 32);
    }
    while m % 2 == 0
        invariant
            m > 0,
            t + trailing_zeros_of(m) == trailing_zeros_of(n),
            trailing_zeros_of(n) < 32,
        decreases m,
    {
        m = m / 2;
        t = t + 1;
    }
    t
}

/// Whether the twiddle table is built once this frame's pass has been
/// recorded: it was already, or a pass ran, and a pass that runs on a frame
/// without the table builds it first.
pub open spec fn ready_after(step: bool, regenerate: bool, ready: bool, map_size: u32, cascades: u32) -> bool {
    ready || sim_plan(step, regenerate, ready, map_size, cascades).len() > 0
}

/// One frame of the wave simulation: its dispatches, in order, and whether
/// the twiddle table counts as built afterwards.
pub struct SimFrame {
    pub dispatches: Vec<Dispatch>,
    pub butterfly_ready: bool,
}

/// Which compute stages the wave simulation runs this frame, in order, with
/// their workgroup counts, and the twiddle table's state once they are
/// recorded. `step` is whether time advances, `regenerate` whether the
/// spectrum's parameters changed, `ready` whether the twiddle table is
/// already built.
pub fn sim_dispatches(step: bool, regenerate: bool, ready: bool, map_size: u32, cascades: u32) -> (f: SimFrame)
    requires
        NUM_SPECTRA * cascades <= u32::MAX,
    ensures
        f.dispatches@ == sim_plan(step, regenerate, ready, map_size, cascades),
        f.butterfly_ready == ready_after(step, regenerate, ready, map_size, cascades),
{
    let mut d: Vec<Dispatch> = Vec::new();
    if !step && !regenerate && ready {
        assert(d@ =~= sim_plan(step, regenerate, ready, map_size, cascades));
        return SimFrame { dispatches: d, butterfly_ready: ready };
    }
    let tiles = map_size / TILE + if map_size % TILE == 0 {
        0
    } else {
        1
    };
    proof {
        assert(tiles == div_ceil(map_size as int, TILE as int));
    }
    let stages = trailing_zeros(map_size);
    let spectra = NUM_SPECTRA * cascades;
    let half = map_size / 2;
    let groups = half / 64 + if half % 64 == 0 {
        0
    } else {
        1
    };
    proof {
        assert(groups == div_ceil((map_size / 2) as int, 64));
    }
    if !ready {
        d.push(Dispatch { pass: SimPass::Butterfly, x: groups, y: stages, z: 1 });
    }
    if regenerate || !ready {
        d.push(Dispatch { pass: SimPass::Spectrum, x: tiles, y: tiles, z: cascades });
    }
    if step {
        d.push(Dispatch { pass: SimPass::Modulate, x: tiles, y: tiles, z: cascades });
        d.push(Dispatch { pass: SimPass::Fft, x: 1, y: map_size, z: spectra });
        d.push(Dispatch { pass: SimPass::Transpose, x: tiles, y: tiles, z: spectra });
        d.push(Dispatch { pass: SimPass::Fft, x: 1, y: map_size, z: spectra });
        d.push(Dispatch { pass: SimPass::Unpack, x: tiles, y: tiles, z: cascades });
    }
    assert(d@ =~= sim_plan(step, regenerate, ready, map_size, cascades));
    SimFrame { dispatches: d, butterfly_ready: true }
}

/// The twiddle table is built at most once: after any frame the table counts
/// as built, so no later frame dispatches it again.
pub proof fn law_twiddles_built_once(
    step: bool,
    regenerate: bool,
    ready: bool,
    map_size: u32,
    cascades: u32,
    next_step: bool,
    next_regenerate: bool,
)
    ensures
        ready_after(step, regenerate, ready, map_size, cascades),
        forall|i: int|
            0 <= i < sim_plan(next_step, next_regenerate, ready_after(step, regenerate, ready, map_size, cascades), map_size, cascades).len()
                ==> (#[trigger] sim_plan(next_step, next_regenerate, ready_after(step, regenerate, ready, map_size, cascades), map_size, cascades)[i]).pass
                != SimPass::Butterfly,
{
    assert(ready_after(step, regenerate, ready, map_size, cascades));
}


/// What a frame dispatches follows from its inputs: the twiddle table exactly
/// when it is not built yet; the spectrum, over `⌈map_size / 16⌉²` tiles per
/// cascade, exactly when its parameters changed or on that first frame,
/// whether or not the frame steps; and the time step (modulate first, the
/// unpack into the maps last) exactly when time advances.
pub proof fn law_dispatches_follow_the_frame(step: bool, regenerate: bool, ready: bool, map_size: u32, cascades: u32)
    ensures
        (exists|k: int|
            0 <= k < sim_plan(step, regenerate, ready, map_size, cascades).len() && #[trigger] sim_plan(
                step,
                regenerate,
                ready,
                map_size,
                cascades,
            )[k] == Dispatch {
                pass: SimPass::Spectrum,
                x: ((map_size + 15) / 16) as u32,
                y: ((map_size + 15) / 16) as u32,
                z: cascades,
            }) <== (regenerate || !ready),
        (forall|k: int|
            0 <= k < sim_plan(step, regenerate, ready, map_size, cascades).len() ==> (#[trigger] sim_plan(
                step,
                regenerate,
                ready,
                map_size,
                cascades,
            )[k]).pass != SimPass::Spectrum) <== !(regenerate || !ready),
        (exists|k: int|
            0 <= k < sim_plan(step, regenerate, ready, map_size, cascades).len() && (#[trigger] sim_plan(
                step,
                regenerate,
                ready,
                map_size,
                cascades,
            )[k]).pass == SimPass::Butterfly) <==> !ready,
        step ==> sim_plan(step, regenerate, ready, map_size, cascades).len() >= 5 && sim_plan(
            step,
            regenerate,
            ready,
            map_size,
            cascades,
        ).last().pass == SimPass::Unpack,
        !step ==> forall|k: int|
            0 <= k < sim_plan(step, regenerate, ready, map_size, cascades).len() ==> (#[trigger] sim_plan(
                step,
                regenerate,
                ready,
                map_size,
                cascades,
            )[k]).pass != SimPass::Unpack && sim_plan(step, regenerate, ready, map_size, cascades)[k].pass
                != SimPass::Modulate,
{
    let plan = sim_plan(step, regenerate, ready, map_size, cascades);
    let sp = Dispatch {
        pass: SimPass::Spectrum,
        x: ((map_size + 15) / 16) as u32,
        y: ((map_size + 15) / 16) as u32,
        z: cascades,
    };
    if !ready {
        assert(plan[0].pass == SimPass::Butterfly);
        assert(plan[1] == sp);
    } else if regenerate {
        assert(plan[0] == sp);
    }
}

} // verus!
