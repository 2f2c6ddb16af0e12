use thermal_rs::codec::decode_chunk;
use thermal_rs::grid::{CellBox, Grid};
use thermal_rs::material::{Material, UNITS_PER_ONE};
use thermal_rs::volume::AABBVolume;
use thermal_rs::world::{
    SimState, SimStateOppError, SimWorld, SimWorldBuildError, SimWorldBuilder, MAX_MATERIALS,
};

fn metal() -> Material {
    Material {
        density: 8_960_000_000_000,
        specific_heat: 385_000_000_000,
        thermal_conductivity: (0, 0, 401_000_000_000),
    }
}

/// A 3 x 3 x 3 world: water on the plane x = 0, then metal on the row y = 1, z = 0.
fn painted_world(chunk_size: usize) -> SimWorld {
    SimWorldBuilder::new(3, 3, 3)
        .with_material(Material::water(), AABBVolume::new(0, 0, 0, 0, 2, 2))
        .with_material(metal(), AABBVolume::new(0, 1, 0, 2, 1, 0))
        .build(1, chunk_size)
        .unwrap()
}

const PAINTED: [u8; 27] = [
    1, 0, 0, 2, 2, 2, 1, 0, 0, //
    1, 0, 0, 1, 0, 0, 1, 0, 0, //
    1, 0, 0, 1, 0, 0, 1, 0, 0,
];

#[test]
fn cell_counts_are_extent_over_resolution_rounded_up() {
    let world = SimWorldBuilder::<AABBVolume>::new(10, 9, 1).build(3, 2).unwrap();
    assert_eq!(world.get_x_size(), 4);
    assert_eq!(world.get_y_size(), 3);
    assert_eq!(world.get_z_size(), 1);
    assert_eq!(world.get_cell_count(), 12);
    assert_eq!(world.get_cell_length(), 3);
    assert_eq!(world.get_chunk_size(), 2);
    assert_eq!(world.get_grid(), Grid { x_size: 4, y_size: 3, z_size: 1 });
}

#[test]
fn unpainted_world_is_blank() {
    let world = SimWorldBuilder::<AABBVolume>::new(3, 3, 3).build(1, 3).unwrap();
    assert_eq!(world.get_materials(), &[0u8; 27][..]);
    assert_eq!(world.get_material_map(), &[Material::blank()][..]);
}

#[test]
fn world_without_extent_has_no_cells() {
    let world = SimWorldBuilder::<AABBVolume>::new(0, 5, 5)
        .with_material(Material::water(), AABBVolume::new(0, 0, 0, 5, 5, 5))
        .build(1, 2)
        .unwrap();
    assert_eq!(world.get_cell_count(), 0);
    assert_eq!(world.get_materials(), &[0u8; 0][..]);
    assert_eq!(world.get_material_map().len(), 2);
    assert_eq!(world.encode_chunks(), Vec::<Vec<u8>>::new());
    let negative = SimWorldBuilder::<AABBVolume>::new(-3, 5, 5).build(1, 2).unwrap();
    assert_eq!(negative.get_cell_count(), 0);
}

#[test]
fn brushes_write_their_material_index() {
    let world = painted_world(3);
    assert_eq!(world.get_materials(), &PAINTED[..]);
    assert_eq!(world.get_material_map(), &[Material::blank(), Material::water(), metal()][..]);
}

#[test]
fn equal_materials_share_one_entry() {
    let same_as_water = Material {
        density: 1_000_000_000_000,
        specific_heat: 4_000_000_000_000,
        thermal_conductivity: (-6_454, 5_208_000, -368_600_000),
    };
    let world = SimWorldBuilder::new(3, 3, 3)
        .with_material(Material::water(), AABBVolume::new(0, 0, 0, 0, 0, 0))
        .with_material(same_as_water, AABBVolume::new(2, 2, 2, 2, 2, 2))
        .build(1, 3)
        .unwrap();
    assert_eq!(world.get_material_map(), &[Material::blank(), Material::water()][..]);
    assert_eq!(world.get_materials()[0], 1);
    assert_eq!(world.get_materials()[26], 1);
}

#[test]
fn painting_the_blank_material_adds_no_entry() {
    let world = SimWorldBuilder::new(2, 1, 1)
        .with_material(Material::water(), AABBVolume::new(0, 0, 0, 1, 0, 0))
        .with_material(Material::blank(), AABBVolume::new(1, 0, 0, 1, 0, 0))
        .build(1, 1)
        .unwrap();
    assert_eq!(world.get_material_map(), &[Material::blank(), Material::water()][..]);
    assert_eq!(world.get_materials(), &[1u8, 0][..]);
}

#[test]
fn materials_are_listed_in_the_order_of_first_use() {
    let world = SimWorldBuilder::new(1, 1, 1)
        .with_material(metal(), AABBVolume::new(5, 5, 5, 5, 5, 5))
        .with_material(Material::water(), AABBVolume::new(5, 5, 5, 5, 5, 5))
        .with_material(metal(), AABBVolume::new(5, 5, 5, 5, 5, 5))
        .build(1, 1)
        .unwrap();
    assert_eq!(world.get_material_map(), &[Material::blank(), metal(), Material::water()][..]);
    assert_eq!(world.get_materials(), &[0u8][..]);
}

#[test]
fn later_operation_wins_where_two_overlap() {
    let world = SimWorldBuilder::new(3, 1, 1)
        .with_material(Material::water(), AABBVolume::new(0, 0, 0, 1, 0, 0))
        .with_material(metal(), AABBVolume::new(1, 0, 0, 2, 0, 0))
        .build(1, 3)
        .unwrap();
    assert_eq!(world.get_materials(), &[1u8, 2, 2][..]);
    assert_eq!(world.get_voxel_material(1, 0, 0), Some(&metal()));
    let swapped = SimWorldBuilder::new(3, 1, 1)
        .with_material(metal(), AABBVolume::new(1, 0, 0, 2, 0, 0))
        .with_material(Material::water(), AABBVolume::new(0, 0, 0, 1, 0, 0))
        .build(1, 3)
        .unwrap();
    assert_eq!(swapped.get_materials(), &[2u8, 2, 1][..]);
    assert_eq!(swapped.get_voxel_material(1, 0, 0), Some(&Material::water()));
}

#[test]
fn chunk_size_does_not_change_the_world() {
    let whole = painted_world(3);
    for chunk_size in [1, 2, 4, 27, usize::MAX] {
        let world = painted_world(chunk_size);
        assert_eq!(world.get_materials(), whole.get_materials());
        assert_eq!(world.get_material_map(), whole.get_material_map());
        assert_eq!(world.get_chunk_size(), chunk_size);
    }
}

#[test]
fn brush_is_cut_off_at_the_edge_of_the_world() {
    let world = SimWorldBuilder::new(2, 2, 1)
        .with_material(Material::water(), AABBVolume::new(-5, 1, 0, 50, 9, 9))
        .build(1, 1)
        .unwrap();
    assert_eq!(world.get_materials(), &[0u8, 0, 1, 1][..]);
}

#[test]
fn brush_is_measured_in_cells_of_the_resolution() {
    let world = SimWorldBuilder::new(40, 10, 10)
        .with_material(Material::water(), AABBVolume::new(15, 0, 0, 25, 0, 0))
        .build(10, 2)
        .unwrap();
    assert_eq!(world.get_x_size(), 4);
    assert_eq!(world.get_materials(), &[0u8, 1, 1, 0][..]);
}

fn numbered(i: i64) -> Material {
    Material { density: i, specific_heat: 1, thermal_conductivity: (0, 0, 0) }
}

fn builder_with(distinct: i64) -> SimWorldBuilder<AABBVolume> {
    let mut builder = SimWorldBuilder::new(1, 1, 1);
    for i in 1..=distinct {
        builder = builder.with_material(numbered(i), AABBVolume::new(0, 0, 0, 0, 0, 0));
    }
    builder
}

#[test]
fn world_holds_up_to_256_materials() {
    assert_eq!(MAX_MATERIALS, 256);
    let world = builder_with(255).build(1, 1).unwrap();
    assert_eq!(world.get_material_map().len(), 256);
    assert_eq!(world.get_material_map()[255], numbered(255));
    assert_eq!(world.get_materials(), &[255u8][..]);
}

#[test]
fn more_than_256_materials_are_refused() {
    assert_eq!(builder_with(256).build(1, 1).unwrap_err(), SimWorldBuildError::TooManyMaterials);
    assert_eq!(builder_with(300).build(1, 1).unwrap_err(), SimWorldBuildError::TooManyMaterials);
}

#[test]
fn repeated_materials_do_not_count_twice() {
    let mut builder = builder_with(255);
    for i in 1..=255 {
        builder = builder.with_material(numbered(i), AABBVolume::new(0, 0, 0, 0, 0, 0));
    }
    let world = builder.with_material(Material::blank(), AABBVolume::new(0, 0, 0, 0, 0, 0));
    assert_eq!(world.build(1, 1).unwrap().get_material_map().len(), 256);
}

#[test]
fn resolution_must_be_positive() {
    let builder = || SimWorldBuilder::<AABBVolume>::new(3, 3, 3);
    assert_eq!(builder().build(0, 1).unwrap_err(), SimWorldBuildError::InvalidResolution);
    assert_eq!(builder().build(-1, 1).unwrap_err(), SimWorldBuildError::InvalidResolution);
    assert_eq!(builder().build(0, 0).unwrap_err(), SimWorldBuildError::InvalidResolution);
}

#[test]
fn chunk_size_must_be_positive() {
    let builder = SimWorldBuilder::<AABBVolume>::new(3, 3, 3);
    assert_eq!(builder.build(1, 0).unwrap_err(), SimWorldBuildError::InvalidChunkSize);
    assert_eq!(builder_with(256).build(1, 0).unwrap_err(), SimWorldBuildError::InvalidChunkSize);
}

#[test]
fn world_with_too_many_cells_is_refused() {
    let builder = SimWorldBuilder::<AABBVolume>::new(i64::MAX, i64::MAX, i64::MAX);
    assert_eq!(builder.build(1, 16).unwrap_err(), SimWorldBuildError::WorldTooLarge);
    let mut many = SimWorldBuilder::new(i64::MAX, i64::MAX, i64::MAX);
    for i in 1..=256 {
        many = many.with_material(numbered(i), AABBVolume::new(0, 0, 0, 0, 0, 0));
    }
    assert_eq!(many.build(1, 16).unwrap_err(), SimWorldBuildError::TooManyMaterials);
}

#[test]
fn voxel_material_is_that_of_the_cell() {
    let world = painted_world(2);
    assert_eq!(world.get_voxel_material(0, 0, 0), Some(&Material::water()));
    assert_eq!(world.get_voxel_material(1, 0, 0), Some(&Material::blank()));
    assert_eq!(world.get_voxel_material(0, 1, 0), Some(&metal()));
    assert_eq!(world.get_voxel_material(2, 1, 0), Some(&metal()));
    assert_eq!(world.get_voxel_material(0, 2, 2), Some(&Material::water()));
    assert_eq!(world.get_voxel_material(2, 2, 2), Some(&Material::blank()));
}

#[test]
fn voxel_material_is_none_out_of_bounds() {
    let world = painted_world(2);
    assert_eq!(world.get_voxel_material(3, 0, 0), None);
    assert_eq!(world.get_voxel_material(0, 3, 0), None);
    assert_eq!(world.get_voxel_material(0, 0, 3), None);
    assert_eq!(world.get_voxel_material(usize::MAX, usize::MAX, usize::MAX), None);
}

#[test]
fn pos_index_of_world_is_row_major() {
    let world = SimWorldBuilder::<AABBVolume>::new(3, 4, 5).build(1, 2).unwrap();
    assert_eq!(world.get_pos_index(1, 2, 3), Some(43));
    assert_eq!(world.get_pos_index(0, 3, 0), Some(9));
    assert_eq!(world.get_pos_index(3, 0, 0), None);
    assert_eq!(world.get_pos_index(0, 4, 0), None);
    assert_eq!(world.get_pos_index(0, 0, 5), None);
    assert_eq!(world.get_ipos_index(1, 2, 3), Some(43));
    assert_eq!(world.get_ipos_index(-1, 2, 3), None);
    assert_eq!(world.neighbor_indices(0, 0, 0), vec![1, 3, 12]);
}

#[test]
fn sample_material_takes_the_cell_that_holds_the_point() {
    let world = SimWorldBuilder::new(30, 10, 10)
        .with_material(Material::water(), AABBVolume::new(20, 0, 0, 20, 0, 0))
        .build(10, 1)
        .unwrap();
    assert_eq!(world.sample_material(0, 0, 0), Some(&Material::blank()));
    assert_eq!(world.sample_material(19, 9, 9), Some(&Material::blank()));
    assert_eq!(world.sample_material(20, 0, 0), Some(&Material::water()));
    assert_eq!(world.sample_material(29, 9, 9), Some(&Material::water()));
}

#[test]
fn sample_index_is_that_of_the_cell_that_holds_the_point() {
    let world = SimWorldBuilder::<AABBVolume>::new(30, 20, 10).build(10, 1).unwrap();
    assert_eq!(world.sample_index(0, 0, 0), Some(0));
    assert_eq!(world.sample_index(9, 9, 9), Some(0));
    assert_eq!(world.sample_index(10, 0, 0), Some(1));
    assert_eq!(world.sample_index(29, 19, 9), Some(5));
    assert_eq!(world.sample_index(5, 15, 5), Some(3));
    assert_eq!(world.sample_index(30, 0, 0), None);
    assert_eq!(world.sample_index(0, 20, 0), None);
    assert_eq!(world.sample_index(-1, 0, 0), None);
}

#[test]
fn sample_material_is_none_out_of_bounds() {
    let world = SimWorldBuilder::<AABBVolume>::new(30, 10, 10).build(10, 1).unwrap();
    assert_eq!(world.sample_material(30, 0, 0), None);
    assert_eq!(world.sample_material(0, 10, 0), None);
    assert_eq!(world.sample_material(0, 0, 10), None);
    assert_eq!(world.sample_material(-1, 0, 0), None);
    assert_eq!(world.sample_material(0, -1, 0), None);
    assert_eq!(world.sample_material(0, 0, i64::MIN), None);
    assert_eq!(world.sample_material(i64::MAX, 0, 0), None);
}

#[test]
fn state_is_valid_when_it_has_one_energy_per_cell() {
    let world = painted_world(3);
    assert!(world.is_state_valid(&SimState::new(vec![0u8; 27])));
    assert!(!world.is_state_valid(&SimState::new(vec![0u8; 26])));
    assert!(!world.is_state_valid(&SimState::new(vec![0u8; 28])));
    assert!(!world.is_state_valid(&SimState::<u8>::new(vec![])));
}

#[test]
fn blank_state_has_no_energy_in_any_cell() {
    let world = painted_world(3);
    let state = world.get_blank_sim_state(0.0f32);
    assert_eq!(state.len(), 27);
    assert_eq!(state.get_energies(), &[0.0f32; 27][..]);
    assert!(world.is_state_valid(&state));
    let empty = SimWorldBuilder::<AABBVolume>::new(0, 1, 1).build(1, 1).unwrap();
    assert_eq!(empty.get_blank_sim_state(0.0f64).len(), 0);
}

/// The energy of a cubic meter of a material at a temperature in kelvin.
fn energy_of(kelvin: f64, material: Material) -> f64 {
    let unit = UNITS_PER_ONE as f64;
    kelvin * (material.density as f64 / unit) * (material.specific_heat as f64 / unit)
}

#[test]
fn temperature_is_set_with_the_material_of_each_cell() {
    let world = painted_world(3);
    let blank = world.get_blank_sim_state(0.0f64);
    let brush = AABBVolume::new(0, 0, 0, 1, 1, 0);
    let state = world.set_sim_state_temperature(blank, 300.0, &brush, &energy_of).unwrap();
    let water = 300.0 * 1000.0 * 4000.0;
    let metal = 300.0 * 8960.0 * 385.0;
    let none = 300.0 * 1000.0 * 1000.0;
    let mut expected = vec![0.0; 27];
    expected[0] = water;
    expected[1] = none;
    expected[3] = metal;
    expected[4] = metal;
    assert_eq!(state.get_energies(), &expected[..]);
}

#[test]
fn temperature_is_set_only_within_the_brush_and_the_world() {
    let world = painted_world(3);
    let start = SimState::new((0..27).map(|i| i as f64).collect());
    let corner = AABBVolume::new(2, 2, 2, 5, 2, 2);
    let state = world.set_sim_state_temperature(start.clone(), 1.0, &corner, &energy_of).unwrap();
    let mut expected: Vec<f64> = (0..27).map(|i| i as f64).collect();
    expected[26] = 1_000_000.0;
    assert_eq!(state.get_energies(), &expected[..]);
    let outside = AABBVolume::new(3, 0, 0, 9, 0, 0);
    let state = world.set_sim_state_temperature(start.clone(), 1.0, &outside, &energy_of).unwrap();
    assert_eq!(state, start);
}

#[test]
fn setting_a_temperature_twice_keeps_the_later_one() {
    let world = painted_world(3);
    let all = AABBVolume::new(0, 0, 0, 2, 2, 2);
    let one = AABBVolume::new(1, 1, 1, 1, 1, 1);
    let state = world.get_blank_sim_state(0.0f64);
    let state = world.set_sim_state_temperature(state, 300.0, &all, &energy_of).unwrap();
    let state = world.set_sim_state_temperature(state, 350.0, &one, &energy_of).unwrap();
    assert_eq!(state.get_energy(13), 350.0 * 1000.0 * 1000.0);
    assert_eq!(state.get_energy(12), 300.0 * 1000.0 * 4000.0);
    assert_eq!(state.get_energy(14), 300.0 * 1000.0 * 1000.0);
}

#[test]
fn setting_a_temperature_refuses_a_state_of_another_size() {
    let world = painted_world(3);
    let brush = AABBVolume::new(0, 0, 0, 0, 0, 0);
    for len in [0, 26, 28] {
        let state = SimState::new(vec![0.0f64; len]);
        assert_eq!(
            world.set_sim_state_temperature(state, 300.0, &brush, &energy_of),
            Err(SimStateOppError::StateSizeMissmatch)
        );
    }
}

/// The temperature in kelvin of a cubic meter of a material that holds an energy.
fn temperature_of(energy: f64, material: Material) -> f64 {
    energy / energy_of(1.0, material)
}

#[test]
fn voxel_temperature_is_energy_over_heat_capacity() {
    let world = painted_world(3);
    let all = AABBVolume::new(0, 0, 0, 2, 2, 2);
    let state = world.get_blank_sim_state(0.0f64);
    let state = world.set_sim_state_temperature(state, 300.0, &all, &energy_of).unwrap();
    for (x, y, z) in [(0, 0, 0), (1, 0, 0), (0, 1, 0), (2, 2, 2)] {
        let sample = world.sample_voxel_temperature(&state, x, y, z, &temperature_of);
        assert_eq!(sample, Some(300.0));
    }
    let raw = SimState::new((0..27).map(|i| i as f64 * 4.0e6).collect());
    assert_eq!(world.sample_voxel_temperature(&raw, 0, 2, 2, &temperature_of), Some(24.0));
    assert_eq!(world.sample_voxel_temperature(&raw, 1, 0, 0, &temperature_of), Some(4.0));
}

#[test]
fn voxel_temperature_is_none_out_of_bounds_or_for_another_size() {
    let world = painted_world(3);
    let state = world.get_blank_sim_state(0.0f64);
    assert_eq!(world.sample_voxel_temperature(&state, 3, 0, 0, &temperature_of), None);
    assert_eq!(world.sample_voxel_temperature(&state, 0, 3, 0, &temperature_of), None);
    assert_eq!(world.sample_voxel_temperature(&state, 0, 0, 3, &temperature_of), None);
    let short = SimState::new(vec![0.0f64; 26]);
    assert_eq!(world.sample_voxel_temperature(&short, 0, 0, 0, &temperature_of), None);
}

#[test]
fn deltas_are_added_cell_by_cell() {
    let state = SimState::new(vec![1.0f64, 2.0, 3.0]);
    let plus = |a: f64, b: f64| a + b;
    assert_eq!(state.clone().apply_deltas(&vec![0.5, -2.0, 10.0], &plus).get_energies(), &[1.5, 0.0, 13.0][..]);
    assert_eq!(state.clone().apply_deltas(&vec![0.5], &plus).get_energies(), &[1.5, 2.0, 3.0][..]);
    assert_eq!(state.clone().apply_deltas(&vec![1.0; 5], &plus).get_energies(), &[2.0, 3.0, 4.0][..]);
    assert_eq!(state.clone().apply_deltas(&vec![], &plus), state);
}

#[test]
fn index_material_and_position_follow_the_cell_order() {
    let world = painted_world(3);
    assert_eq!(world.get_index_material(0), &Material::water());
    assert_eq!(world.get_index_material(4), &metal());
    assert_eq!(world.get_index_material(26), &Material::blank());
    assert_eq!(world.get_index_pos(0), Some((0, 0, 0)));
    assert_eq!(world.get_index_pos(5), Some((2, 1, 0)));
    assert_eq!(world.get_index_pos(13), Some((1, 1, 1)));
    assert_eq!(world.get_index_pos(26), Some((2, 2, 2)));
    assert_eq!(world.get_index_pos(27), None);
    let copy = world.clone();
    assert_eq!(copy, world);
}

#[test]
fn cell_buffer_lists_a_box_in_row_major_order() {
    let world = painted_world(3);
    let b = CellBox { min: (0, 0, 0), max: (1, 1, 1) };
    assert_eq!(world.get_cell_buffer(&b), vec![1, 0, 2, 2, 1, 0, 1, 0]);
    let whole = CellBox { min: (0, 0, 0), max: (2, 2, 2) };
    assert_eq!(world.get_cell_buffer(&whole), PAINTED.to_vec());
}

#[test]
fn blank_world_is_stored_as_one_run() {
    let world = SimWorldBuilder::<AABBVolume>::new(3, 3, 3).build(1, 3).unwrap();
    assert_eq!(world.encode_chunks(), vec![b"1b00".to_vec()]);
}

#[test]
fn world_is_stored_chunk_by_chunk() {
    let whole = painted_world(3).encode_chunks();
    let expected = format!("010102000302{}", "01010200".repeat(7));
    assert_eq!(whole, vec![expected.into_bytes()]);
    let chunks = painted_world(2).encode_chunks();
    assert_eq!(chunks.len(), 8);
    assert_eq!(chunks[0], b"0101010002020101010001010100".to_vec());
    assert_eq!(chunks[1], b"0101010001010100".to_vec());
    assert_eq!(chunks[7], b"0100".to_vec());
}

#[test]
fn stored_chunks_decode_to_their_cell_buffers() {
    for chunk_size in [1, 2, 3] {
        let world = painted_world(chunk_size);
        let layout =
            thermal_rs::chunk::ChunkLayout::new(world.get_grid(), world.get_chunk_size()).unwrap();
        let chunks = world.encode_chunks();
        assert_eq!(chunks.len(), layout.len());
        let mut cells = 0;
        for (k, text) in chunks.iter().enumerate() {
            let buffer = decode_chunk(text).unwrap();
            assert_eq!(buffer, world.get_cell_buffer(&layout.chunk(k)));
            cells += buffer.len();
        }
        assert_eq!(cells, 27);
    }
}

#[test]
fn large_uniform_chunk_is_split_into_full_runs() {
    let world = SimWorldBuilder::new(10, 10, 10)
        .with_material(Material::water(), AABBVolume::new(0, 0, 0, 9, 9, 9))
        .build(1, 10)
        .unwrap();
    let chunks = world.encode_chunks();
    assert_eq!(chunks.len(), 1);
    let expected = format!("{}eb01", "ff01".repeat(3));
    assert_eq!(chunks[0], expected.into_bytes());
    assert_eq!(decode_chunk(&chunks[0]), Some(vec![1u8; 1000]));
}

fn parts_of(world: &SimWorld) -> (Grid, i64, usize, Vec<Material>, Vec<Vec<u8>>) {
    (
        world.get_grid(),
        world.get_cell_length(),
        world.get_chunk_size(),
        world.get_material_map().to_vec(),
        world.encode_chunks(),
    )
}

#[test]
fn stored_world_loads_back() {
    for chunk_size in [1, 2, 3, 5, usize::MAX] {
        let world = painted_world(chunk_size);
        let (grid, cell_size, chunk_size, materials, chunks) = parts_of(&world);
        assert_eq!(SimWorld::from_chunks(grid, cell_size, chunk_size, materials, &chunks), Some(world));
    }
    let large = SimWorldBuilder::new(10, 10, 10)
        .with_material(Material::water(), AABBVolume::new(0, 0, 0, 9, 9, 4))
        .build(1, 10)
        .unwrap();
    let (grid, cell_size, chunk_size, materials, chunks) = parts_of(&large);
    assert_eq!(chunks, vec![b"ff01f501ff00f500".to_vec()]);
    assert_eq!(SimWorld::from_chunks(grid, cell_size, chunk_size, materials, &chunks), Some(large));
    let empty = SimWorldBuilder::<AABBVolume>::new(0, 4, 4).build(2, 1).unwrap();
    let (grid, cell_size, chunk_size, materials, chunks) = parts_of(&empty);
    assert_eq!(SimWorld::from_chunks(grid, cell_size, chunk_size, materials, &chunks), Some(empty));
}

#[test]
fn loaded_world_holds_the_cells_of_its_chunks() {
    let grid = Grid { x_size: 3, y_size: 1, z_size: 1 };
    let materials = vec![Material::blank(), Material::water()];
    let chunks = vec![b"01000101".to_vec(), b"0101".to_vec()];
    let world = SimWorld::from_chunks(grid, 5, 2, materials.clone(), &chunks).unwrap();
    assert_eq!(world.get_materials(), &[0u8, 1, 1][..]);
    assert_eq!(world.get_material_map(), &materials[..]);
    assert_eq!(world.get_cell_length(), 5);
    assert_eq!(world.get_chunk_size(), 2);
    assert_eq!(world.get_grid(), grid);
    let other_runs = vec![b"010001010001".to_vec(), b"00000101".to_vec()];
    assert_eq!(SimWorld::from_chunks(grid, 5, 2, materials, &other_runs), Some(world));
}

#[test]
fn parts_that_no_world_has_are_refused() {
    let world = painted_world(2);
    let (grid, cell_size, chunk_size, materials, chunks) = parts_of(&world);
    let load = |grid: Grid, cell_size: i64, chunk_size: usize, materials: &Vec<Material>, chunks: &Vec<Vec<u8>>| {
        SimWorld::from_chunks(grid, cell_size, chunk_size, materials.clone(), chunks)
    };
    assert_eq!(load(grid, cell_size, chunk_size, &materials, &chunks), Some(world));
    assert_eq!(load(grid, 0, chunk_size, &materials, &chunks), None);
    assert_eq!(load(grid, -1, chunk_size, &materials, &chunks), None);
    assert_eq!(load(grid, cell_size, 0, &materials, &chunks), None);
    assert_eq!(load(grid, cell_size, 3, &materials, &chunks), None);
    let wider = Grid { x_size: 4, ..grid };
    assert_eq!(load(wider, cell_size, chunk_size, &materials, &chunks), None);
    let huge = Grid { x_size: usize::MAX, y_size: usize::MAX, z_size: 2 };
    assert_eq!(load(huge, cell_size, chunk_size, &materials, &chunks), None);

    assert_eq!(load(grid, cell_size, chunk_size, &vec![], &chunks), None);
    let two = materials[..2].to_vec();
    assert_eq!(load(grid, cell_size, chunk_size, &two, &chunks), None);
    let mut no_blank = materials.clone();
    no_blank.swap(0, 1);
    assert_eq!(load(grid, cell_size, chunk_size, &no_blank, &chunks), None);
    let mut twice = materials.clone();
    twice.push(Material::water());
    assert_eq!(load(grid, cell_size, chunk_size, &twice, &chunks), None);
    let mut many = vec![Material::blank()];
    many.extend((1..=256).map(numbered));
    assert_eq!(load(grid, cell_size, chunk_size, &many, &chunks), None);
    many.pop();
    assert!(load(grid, cell_size, chunk_size, &many, &chunks).is_some());

    let mut missing = chunks.clone();
    missing.pop();
    assert_eq!(load(grid, cell_size, chunk_size, &materials, &missing), None);
    let mut extra = chunks.clone();
    extra.push(b"0100".to_vec());
    assert_eq!(load(grid, cell_size, chunk_size, &materials, &extra), None);
    for bad in [&b"010"[..], b"01", b"zz00", b"0200", b"", b"0103", b"0100 "] {
        let mut broken = chunks.clone();
        broken[7] = bad.to_vec();
        assert_eq!(load(grid, cell_size, chunk_size, &materials, &broken), None);
    }
    let mut swapped = chunks.clone();
    swapped.swap(0, 7);
    assert_eq!(load(grid, cell_size, chunk_size, &materials, &swapped), None);
}

#[test]
fn default_builder_builds_a_world_without_cells() {
    let world = SimWorldBuilder::<AABBVolume>::default().build(1, 1).unwrap();
    assert_eq!(world.get_cell_count(), 0);
    assert_eq!(world.get_material_map(), &[Material::blank()][..]);
}
