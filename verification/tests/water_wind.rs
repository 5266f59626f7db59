use renzora_plugins::water::{
    active_cascade_count, clamped_map_size, grid_indices, grid_vertices, sim_dispatches, spectrum_seed, Dispatch, SimPass,
    MAX_CASCADES,
};
use renzora_plugins::wind::{ParamKind, WindScriptExtension};

#[test]
fn map_sizes_snap_to_a_supported_power_of_two() {
    assert_eq!(clamped_map_size(0), 128);
    assert_eq!(clamped_map_size(191), 128);
    assert_eq!(clamped_map_size(192), 256);
    assert_eq!(clamped_map_size(383), 256);
    assert_eq!(clamped_map_size(384), 512);
    assert_eq!(clamped_map_size(767), 512);
    assert_eq!(clamped_map_size(768), 1024);
    assert_eq!(clamped_map_size(u32::MAX), 1024);
}

#[test]
fn cascades_are_capped_at_what_the_shader_addresses() {
    assert_eq!(active_cascade_count(3), 3);
    assert_eq!(active_cascade_count(MAX_CASCADES + 4), MAX_CASCADES);
}

#[test]
fn grid_mesh_has_expected_topology() {
    let verts = grid_vertices(4);
    assert_eq!(verts.len(), 25);
    assert_eq!(verts[0], (0, 0));
    assert_eq!(verts[6], (1, 1));
    assert_eq!(verts[24], (4, 4));
    let idx = grid_indices(4);
    assert_eq!(idx.len(), 4 * 4 * 6);
    assert_eq!(*idx.iter().max().unwrap() as usize, verts.len() - 1, "every vertex is used");
    assert_eq!(&idx[..6], &[0, 5, 1, 1, 5, 6]);
    assert_eq!(grid_indices(0).len(), 6, "at least one quad");
    assert_eq!(grid_vertices(0).len(), 4);
}

#[test]
fn cascade_seeds_differ_per_index() {
    let seeds: Vec<(i32, i32)> = (0..MAX_CASCADES).map(|i| spectrum_seed(1234, i)).collect();
    for i in 0..seeds.len() {
        for j in i + 1..seeds.len() {
            assert_ne!(seeds[i].0, seeds[j].0, "cascades {i} and {j} share a seed");
        }
    }
}

#[test]
fn spectrum_seed_is_reproducible() {
    assert_eq!(spectrum_seed(1234, 2), spectrum_seed(1234, 2));
    let mixed = 1234u32.wrapping_add(2u32.wrapping_mul(0x9E37_79B9)).wrapping_mul(0x85EB_CA6B);
    assert_eq!(spectrum_seed(1234, 2), (mixed as i32, mixed.wrapping_mul(2_654_435_761) as i32));
}

#[test]
fn the_wind_declares_its_two_actions() {
    let ext = WindScriptExtension;
    assert_eq!(ext.name(), "wind");
    let b = ext.bindings();
    assert_eq!(b.len(), 2);
    assert_eq!(b[0].name, "set_wind");
    assert_eq!(b[0].args.iter().map(|a| a.0).collect::<Vec<_>>(), ["speed", "direction"]);
    assert_eq!(b[1].name, "set_wind_gusts");
    assert_eq!(b[1].args.iter().map(|a| a.0).collect::<Vec<_>>(), ["strength", "frequency", "turbulence"]);
    assert!(b.iter().all(|x| x.args.iter().all(|a| a.1 == ParamKind::Float)));
}

fn d(pass: SimPass, x: u32, y: u32, z: u32) -> Dispatch {
    Dispatch { pass, x, y, z }
}

#[test]
fn an_idle_sea_dispatches_nothing() {
    let f = sim_dispatches(false, false, true, 256, 3);
    assert!(f.dispatches.is_empty());
    assert!(f.butterfly_ready);
}

#[test]
fn the_first_frame_builds_the_tables() {
    let f = sim_dispatches(false, false, false, 256, 3);
    assert_eq!(f.dispatches, vec![d(SimPass::Butterfly, 2, 8, 1), d(SimPass::Spectrum, 16, 16, 3)]);
    assert!(f.butterfly_ready, "the table is built once the pass is recorded");
    let next = sim_dispatches(true, false, f.butterfly_ready, 256, 3);
    assert!(next.dispatches.iter().all(|x| x.pass != SimPass::Butterfly), "and never again");
}

#[test]
fn a_step_transforms_every_spectrum_of_every_cascade() {
    assert_eq!(
        sim_dispatches(true, false, true, 256, 3).dispatches,
        vec![
            d(SimPass::Modulate, 16, 16, 3),
            d(SimPass::Fft, 1, 256, 12),
            d(SimPass::Transpose, 16, 16, 12),
            d(SimPass::Fft, 1, 256, 12),
            d(SimPass::Unpack, 16, 16, 3),
        ]
    );
    assert_eq!(sim_dispatches(true, true, true, 100, 1).dispatches[0], d(SimPass::Spectrum, 7, 7, 1));
}
