use ireland_dino_finder::grid::idx;
use ireland_dino_finder::solver::visual_output_config;
use ireland_dino_finder::scenarios::{
    region_at, scenario_names, select_scenarios, visual_regions, visual_scenarios, MaterialCase,
    Region, VisualScenario,
};

#[test]
fn scenario_names_list_visual_all_then_each_scenario() {
    assert_eq!(
        scenario_names(),
        vec![
            "visual-all",
            "visual_lossless_uniform",
            "visual_lossless_slow_block",
            "visual_lossless_fast_target",
            "visual_damped_slow_block",
            "visual_sls_slow_block",
            "visual_fractional_constant_q_slow_block",
            "visual_biot_sand_target",
        ]
    );
}

#[test]
fn every_listed_name_selects() {
    for name in scenario_names() {
        let chosen = select_scenarios(name).ok().unwrap();
        if name == "visual-all" {
            assert_eq!(chosen, visual_scenarios());
        } else {
            assert_eq!(chosen.len(), 1);
            assert_eq!(chosen[0].name(), name);
        }
    }
}

#[test]
fn unknown_scenario_is_refused() {
    match select_scenarios("visual_missing") {
        Err(e) => assert_eq!(e.name, "visual_missing"),
        Ok(_) => panic!("unknown scenario accepted"),
    }
}

#[test]
fn scenario_layouts() {
    assert_eq!(VisualScenario::LosslessUniform.material_case(), MaterialCase::Uniform);
    assert_eq!(VisualScenario::SlsSlowBlock.material_case(), MaterialCase::SlowBlock);
    assert_eq!(VisualScenario::BiotSandTarget.material_case(), MaterialCase::FastTarget);
}

#[test]
fn slow_block_layout() {
    assert_eq!(region_at(MaterialCase::SlowBlock, 52, 22, 120, 80), Region::SlowBlock);
    assert_eq!(region_at(MaterialCase::SlowBlock, 76, 58, 120, 80), Region::SlowBlock);
    assert_eq!(region_at(MaterialCase::SlowBlock, 77, 30, 120, 80), Region::Background);
    assert_eq!(region_at(MaterialCase::SlowBlock, 60, 59, 120, 80), Region::Background);
    assert_eq!(region_at(MaterialCase::Uniform, 60, 40, 120, 80), Region::Background);
}

#[test]
fn fast_target_layout() {
    assert_eq!(region_at(MaterialCase::FastTarget, 70, 40, 120, 80), Region::FastTarget);
    assert_eq!(region_at(MaterialCase::FastTarget, 79, 40, 120, 80), Region::FastTarget);
    assert_eq!(region_at(MaterialCase::FastTarget, 80, 40, 120, 80), Region::SandLikeBackground);
    assert_eq!(region_at(MaterialCase::FastTarget, 76, 46, 120, 80), Region::FastTarget);
    assert_eq!(region_at(MaterialCase::FastTarget, 77, 47, 120, 80), Region::SandLikeBackground);
    assert_eq!(region_at(MaterialCase::FastTarget, 38, 16, 120, 80), Region::SandLikeBackground);
    assert_eq!(region_at(MaterialCase::FastTarget, 37, 16, 120, 80), Region::Background);
    assert_eq!(Region::FastTarget.material_id(), "fast_bone_like_target");
}

#[test]
fn region_maps_are_row_major() {
    let (nx, nz) = (120, 80);
    let map = visual_regions(MaterialCase::FastTarget, nx, nz);
    assert_eq!(map.len(), nx * nz);
    let targets = map.iter().filter(|r| **r == Region::FastTarget).count();
    // Lattice points with dx^2 + dz^2 <= 81.
    assert_eq!(targets, 253);
    assert_eq!(map[idx(70, 40, nx)], Region::FastTarget);
    assert_eq!(map[idx(99, 64, nx)], Region::SandLikeBackground);
    assert_eq!(map[idx(100, 64, nx)], Region::Background);
}

#[test]
fn visual_outputs_follow_the_scenario_name() {
    let c = visual_output_config(VisualScenario::DampedSlowBlock);
    assert_eq!(c.csv_path.as_deref(), Some("output/visual/visual_damped_slow_block.csv"));
    assert_eq!(c.hdf5_path.as_deref(), Some("output/visual/visual_damped_slow_block.h5"));
    assert_eq!(
        c.image_frame_dir.as_deref(),
        Some("output/visual/visual_damped_slow_block_frames")
    );
    assert_eq!(c.frame_interval, 2);
}
