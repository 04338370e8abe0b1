use vstd::prelude::*;

use crate::grid::{cell_index, lemma_idx_in_bounds};
use crate::materials::{column_position, position_from};

verus! {

/// The named visual sanity scenarios, each a wave model run on a material layout.
#[derive(Clone, Copy, Debug, PartialEq, Eq, Structural)]
pub enum VisualScenario {
    LosslessUniform,
    LosslessSlowBlock,
    LosslessFastTarget,
    DampedSlowBlock,
    SlsSlowBlock,
    FractionalConstantQSlowBlock,
    BiotSandTarget,
}

/// The material layout of a visual scenario.
#[derive(Clone, Copy, Debug, PartialEq, Eq, Structural)]
pub enum MaterialCase {
    /// One material everywhere.
    Uniform,
    /// A slow rectangular block in the background material.
    SlowBlock,
    /// A slow sand-like region holding a fast circular target.
    FastTarget,
}

/// Every visual scenario, in the order they are listed and run.
pub open spec fn all_visual_scenarios() -> Seq<VisualScenario> {
    seq![
        VisualScenario::LosslessUniform,
        VisualScenario::LosslessSlowBlock,
        VisualScenario::LosslessFastTarget,
        VisualScenario::DampedSlowBlock,
        VisualScenario::SlsSlowBlock,
        VisualScenario::FractionalConstantQSlowBlock,
        VisualScenario::BiotSandTarget,
    ]
}

impl VisualScenario {
    /// The scenario's name.
    pub open spec fn name_text(self) -> Seq<char> {
        match self {
            VisualScenario::LosslessUniform => "visual_lossless_uniform"@,
            VisualScenario::LosslessSlowBlock => "visual_lossless_slow_block"@,
            VisualScenario::LosslessFastTarget => "visual_lossless_fast_target"@,
            VisualScenario::DampedSlowBlock => "visual_damped_slow_block"@,
            VisualScenario::SlsSlowBlock => "visual_sls_slow_block"@,
            VisualScenario::FractionalConstantQSlowBlock => "visual_fractional_constant_q_slow_block"@,
            VisualScenario::BiotSandTarget => "visual_biot_sand_target"@,
        }
    }

    /// The scenario's material layout.
    pub open spec fn layout(self) -> MaterialCase {
        match self {
            VisualScenario::LosslessUniform => MaterialCase::Uniform,
            VisualScenario::LosslessFastTarget => MaterialCase::FastTarget,
            VisualScenario::BiotSandTarget => MaterialCase::FastTarget,
            _ => MaterialCase::SlowBlock,
        }
    }

    /// The scenario's name, as given on the command line.
    pub fn name(&self) -> (n: &'static str)
        ensures
            n@ == self.name_text(),
    {
        match self {
            VisualScenario::LosslessUniform => "visual_lossless_uniform",
            VisualScenario::LosslessSlowBlock => "visual_lossless_slow_block",
            VisualScenario::LosslessFastTarget => "visual_lossless_fast_target",
            VisualScenario::DampedSlowBlock => "visual_damped_slow_block",
            VisualScenario::SlsSlowBlock => "visual_sls_slow_block",
            VisualScenario::FractionalConstantQSlowBlock => "visual_fractional_constant_q_slow_block",
            VisualScenario::BiotSandTarget => "visual_biot_sand_target",
        }
    }

    /// The scenario's material layout.
    pub fn material_case(&self) -> (c: MaterialCase)
        ensures
            c == self.layout(),
    {
        match self {
            VisualScenario::LosslessUniform => MaterialCase::Uniform,
            VisualScenario::LosslessFastTarget => MaterialCase::FastTarget,
            VisualScenario::BiotSandTarget => MaterialCase::FastTarget,
            _ => MaterialCase::SlowBlock,
        }
    }
}

/// Whether `s` ends with `suffix`.
pub open spec fn ends_with(s: Seq<char>, suffix: Seq<char>) -> bool {
    suffix.len() <= s.len() && s.skip(s.len() - suffix.len()) == suffix
}

/// A scenario's layout is the one its name ends with: `_uniform` runs on one
/// material, `_slow_block` on the slow block, `_target` on the sand region
/// with the fast target.
pub proof fn lemma_layout_follows_name(s: VisualScenario)
    ensures
        s.layout() == MaterialCase::Uniform <==> ends_with(s.name_text(), "_uniform"@),
        s.layout() == MaterialCase::SlowBlock <==> ends_with(s.name_text(), "_slow_block"@),
        s.layout() == MaterialCase::FastTarget <==> ends_with(s.name_text(), "_target"@),
{
    reveal_strlit("_uniform");
    reveal_strlit("_slow_block");
    reveal_strlit("_target");
    reveal_strlit("visual_lossless_uniform");
    reveal_strlit("visual_lossless_slow_block");
    reveal_strlit("visual_lossless_fast_target");
    reveal_strlit("visual_damped_slow_block");
    reveal_strlit("visual_sls_slow_block");
    reveal_strlit("visual_fractional_constant_q_slow_block");
    reveal_strlit("visual_biot_sand_target");
    let n = s.name_text();
    let u = "_uniform"@;
    let b = "_slow_block"@;
    let t = "_target"@;
    match s {
        VisualScenario::LosslessUniform => {
            assert(n.skip(n.len() - u.len()) =~= u);
            assert(n[n.len() - 1] != b[b.len() - 1]);
            assert(n[n.len() - 1] != t[t.len() - 1]);
            assert(n.skip(n.len() - b.len())[b.len() - 1] == n[n.len() - 1]);
            assert(n.skip(n.len() - t.len())[t.len() - 1] == n[n.len() - 1]);
        },
        VisualScenario::LosslessFastTarget | VisualScenario::BiotSandTarget => {
            assert(n.skip(n.len() - t.len()) =~= t);
            assert(n[n.len() - 1] != u[u.len() - 1]);
            assert(n[n.len() - 1] != b[b.len() - 1]);
            assert(n.skip(n.len() - u.len())[u.len() - 1] == n[n.len() - 1]);
            assert(n.skip(n.len() - b.len())[b.len() - 1] == n[n.len() - 1]);
        },
        _ => {
            assert(n.skip(n.len() - b.len()) =~= b);
            assert(n[n.len() - 1] != u[u.len() - 1]);
            assert(n[n.len() - 1] != t[t.len() - 1]);
            assert(n.skip(n.len() - u.len())[u.len() - 1] == n[n.len() - 1]);
            assert(n.skip(n.len() - t.len())[t.len() - 1] == n[n.len() - 1]);
        },
    }
}

/// Every visual scenario, in the order they are listed and run.
pub fn visual_scenarios() -> (v: Vec<VisualScenario>)
    ensures
        v@ == all_visual_scenarios(),
{
    let v = vec![
        VisualScenario::LosslessUniform,
        VisualScenario::LosslessSlowBlock,
        VisualScenario::LosslessFastTarget,
        VisualScenario::DampedSlowBlock,
        VisualScenario::SlsSlowBlock,
        VisualScenario::FractionalConstantQSlowBlock,
        VisualScenario::BiotSandTarget,
    ];
    assert(v@ =~= all_visual_scenarios());
    v
}

/// The name that runs every visual scenario.
pub open spec fn run_all_name() -> Seq<char> {
    "visual-all"@
}

/// The names of the visual scenarios, in order.
pub open spec fn visual_names() -> Seq<Seq<char>> {
    all_visual_scenarios().map_values(|s: VisualScenario| s.name_text())
}

/// The names a user may ask for: `visual-all` first, then each scenario.
pub open spec fn listed_names() -> Seq<Seq<char>> {
    seq![run_all_name()] + visual_names()
}

/// The names a user may ask for: `visual-all` first, then each visual scenario.
pub fn scenario_names() -> (names: Vec<&'static str>)
    ensures
        names@.map_values(|s: &str| s@) == listed_names(),
{
    let scenarios = visual_scenarios();
    let mut names: Vec<&'static str> = Vec::new();
    names.push("visual-all");
    let mut i: usize = 0;
    while i < scenarios.len()
        invariant
            i <= scenarios.len(),
            scenarios@ == all_visual_scenarios(),
            names@.map_values(|s: &str| s@) == seq![run_all_name()] + visual_names().take(
                i as int,
            ),
        decreases scenarios.len() - i,
    {
        let n = scenarios[i].name();
        let ghost before = names@.map_values(|s: &str| s@);
        names.push(n);
        assert(names@.map_values(|s: &str| s@) =~= before.push(n@));
        assert(visual_names().take(i + 1) =~= visual_names().take(i as int).push(
            visual_names()[i as int],
        ));
        i = i + 1;
    }
    assert(visual_names().take(7) =~= visual_names());
    names
}

/// The scenarios that a request by `name` runs: every one for `visual-all`,
/// else the scenario of that name; `None` for an unknown name.
pub open spec fn selected_scenarios(name: Seq<char>) -> Option<Seq<VisualScenario>> {
    if name == run_all_name() {
        Some(all_visual_scenarios())
    } else {
        match column_position(visual_names(), name) {
            Some(k) => Some(seq![all_visual_scenarios()[k]]),
            None => None,
        }
    }
}

proof fn lemma_names_distinct()
    ensures
        forall|a: int, b: int|
            0 <= a < b < 7 ==> visual_names()[a] != visual_names()[b],
        forall|a: int| 0 <= a < 7 ==> visual_names()[a] != run_all_name(),
{
    reveal_strlit("visual-all");
    reveal_strlit("visual_lossless_uniform");
    reveal_strlit("visual_lossless_slow_block");
    reveal_strlit("visual_lossless_fast_target");
    reveal_strlit("visual_damped_slow_block");
    reveal_strlit("visual_sls_slow_block");
    reveal_strlit("visual_fractional_constant_q_slow_block");
    reveal_strlit("visual_biot_sand_target");
    let n = visual_names();
    assert(n[0][7] != n[6][7]);
    assert(n[1].len() == 26 && n[0].len() == 23 && n[2].len() == 27 && n[3].len() == 24);
    assert(n[4].len() == 21 && n[5].len() == 39 && n[6].len() == 23);
    assert(run_all_name().len() == 10);
}

proof fn lemma_position_of_distinct(s: Seq<Seq<char>>, k: int, i: int)
    requires
        0 <= i <= k < s.len(),
        forall|a: int, b: int| 0 <= a < b < s.len() ==> s[a] != s[b],
    ensures
        position_from(s, s[k], i) == Some(k),
    decreases k - i,
{
    if i < k {
        lemma_position_of_distinct(s, k, i + 1);
    }
}

/// Every name offered by `scenario_names` is accepted: `visual-all` selects
/// every scenario, and each scenario's name selects that scenario alone.
pub proof fn lemma_listed_names_select()
    ensures
        forall|i: int|
            0 <= i < listed_names().len() ==> (#[trigger] selected_scenarios(listed_names()[i])) is Some,
        selected_scenarios(run_all_name()) == Some(all_visual_scenarios()),
        forall|k: int|
            0 <= k < all_visual_scenarios().len() ==> #[trigger] selected_scenarios(
                all_visual_scenarios()[k].name_text(),
            ) == Some(seq![all_visual_scenarios()[k]]),
{
    lemma_names_distinct();
    assert forall|k: int| 0 <= k < all_visual_scenarios().len() implies #[trigger] selected_scenarios(
        all_visual_scenarios()[k].name_text(),
    ) == Some(seq![all_visual_scenarios()[k]]) by {
        assert(visual_names()[k] == all_visual_scenarios()[k].name_text());
        lemma_position_of_distinct(visual_names(), k, 0);
    }
    assert forall|i: int| 0 <= i < listed_names().len() implies (#[trigger] selected_scenarios(
        listed_names()[i],
    )) is Some by {
        if i > 0 {
            assert(listed_names()[i] == visual_names()[i - 1]);
            assert(visual_names()[i - 1] == all_visual_scenarios()[i - 1].name_text());
        }
    }
}

/// A request for a scenario that does not exist.
pub struct UnknownScenario {
    pub name: String,
}

/// Chooses the scenarios to run for the command-line name `name`: all of
/// them for `visual-all`, else the one of that name.
pub fn select_scenarios(name: &str) -> (r: Result<Vec<VisualScenario>, UnknownScenario>)
    ensures
        match selected_scenarios(name@) {
            Some(s) => r matches Ok(v) && v@ == s,
            None => r matches Err(e) && e.name@ == name@,
        },
{
    let wanted = name.to_owned();
    let all_name = "visual-all".to_owned();
    if wanted == all_name {
        return Ok(visual_scenarios());
    }
    let scenarios = visual_scenarios();
    let mut i: usize = 0;
    assert(visual_names().len() == 7);
    while i < scenarios.len()
        invariant
            i <= scenarios.len(),
            scenarios@ == all_visual_scenarios(),
            wanted@ == name@,
            name@ != run_all_name(),
            position_from(visual_names(), name@, i as int) == column_position(
                visual_names(),
                name@,
            ),
        decreases scenarios.len() - i,
    {
        let candidate = scenarios[i].name().to_owned();
        assert(visual_names()[i as int] == scenarios@[i as int].name_text());
        if candidate == wanted {
            assert(visual_names()[i as int] == name@);
            let mut one: Vec<VisualScenario> = Vec::new();
            one.push(scenarios[i]);
            assert(one@ =~= seq![all_visual_scenarios()[i as int]]);
            return Ok(one);
        }
        i = i + 1;
    }
    Err(UnknownScenario { name: wanted })
}


/// The material regions of the visual layouts.
#[derive(Clone, Copy, Debug, PartialEq, Eq, Structural)]
pub enum Region {
    Background,
    SlowBlock,
    SandLikeBackground,
    FastTarget,
}

impl Region {
    pub open spec fn id_text(self) -> Seq<char> {
        match self {
            Region::Background => "background"@,
            Region::SlowBlock => "slow_block"@,
            Region::SandLikeBackground => "sand_like_slow_background"@,
            Region::FastTarget => "fast_bone_like_target"@,
        }
    }

    /// The material id of the region.
    pub fn material_id(&self) -> (id: &'static str)
        ensures
            id@ == self.id_text(),
    {
        match self {
            Region::Background => "background",
            Region::SlowBlock => "slow_block",
            Region::SandLikeBackground => "sand_like_slow_background",
            Region::FastTarget => "fast_bone_like_target",
        }
    }
}

/// Whether cell `(x, z)` lies in the circular target: radius 9 around
/// `(70, nz / 2)`.
pub open spec fn in_target(x: int, z: int, nz: int) -> bool {
    (x - 70) * (x - 70) + (z - nz / 2) * (z - nz / 2) <= 81
}

/// The region of cell `(x, z)` in layout `case` on a grid with `nz` rows.
pub open spec fn visual_region(case: MaterialCase, x: int, z: int, nz: int) -> Region {
    match case {
        MaterialCase::Uniform => Region::Background,
        MaterialCase::SlowBlock => if 52 <= x < 77 && 22 <= z < 59 {
            Region::SlowBlock
        } else {
            Region::Background
        },
        MaterialCase::FastTarget => if in_target(x, z, nz) {
            Region::FastTarget
        } else if 38 <= x < 100 && 16 <= z < 65 {
            Region::SandLikeBackground
        } else {
            Region::Background
        },
    }
}

/// The larger of `a` and `b`.
pub open spec fn larger(a: int, b: int) -> int {
    if a >= b {
        a
    } else {
        b
    }
}

/// Whether layout `case` fits an `nx` by `nz` grid: its rectangles lie inside
/// the grid, and the target's distance test stays within `i32`.
pub open spec fn layout_fits(case: MaterialCase, nx: int, nz: int) -> bool {
    match case {
        MaterialCase::Uniform => true,
        MaterialCase::SlowBlock => nx >= 77 && nz >= 59,
        MaterialCase::FastTarget => {
            let far_x = larger(70, nx - 71);
            let far_z = larger(nz / 2, nz - 1 - nz / 2);
            &&& nx >= 100
            &&& nz >= 65
            &&& nx <= i32::MAX
            &&& nz <= i32::MAX
            &&& far_x * far_x + far_z * far_z <= i32::MAX
        },
    }
}

/// The slow block is the rectangle of columns 52 to 76 and rows 22 to 58:
/// a cell is slow exactly there and background everywhere else.
pub proof fn lemma_slow_block_rectangle(x: int, z: int, nz: int)
    ensures
        visual_region(MaterialCase::SlowBlock, x, z, nz) == Region::SlowBlock <==> (52 <= x && x
            <= 76 && 22 <= z && z <= 58),
        visual_region(MaterialCase::SlowBlock, x, z, nz) != Region::SlowBlock ==> visual_region(
            MaterialCase::SlowBlock,
            x,
            z,
            nz,
        ) == Region::Background,
        x < 52 ==> visual_region(MaterialCase::SlowBlock, x, z, nz) == Region::Background,
{
}

/// The fast target is the disc of radius 9 around `(70, nz / 2)`; the sand
/// region is the rectangle of columns 38 to 99 and rows 16 to 64 around it;
/// every other cell is background.
pub proof fn lemma_fast_target_layout(x: int, z: int, nz: int)
    ensures
        visual_region(MaterialCase::FastTarget, x, z, nz) == Region::FastTarget <==> (x - 70) * (x
            - 70) + (z - nz / 2) * (z - nz / 2) <= 81,
        visual_region(MaterialCase::FastTarget, x, z, nz) == Region::SandLikeBackground <==> ((x
            - 70) * (x - 70) + (z - nz / 2) * (z - nz / 2) > 81 && 38 <= x && x <= 99 && 16 <= z
            && z <= 64),
        visual_region(MaterialCase::FastTarget, x, z, nz) != Region::SlowBlock,
{
}

/// The source column of the visual scenarios, 15, lies in background
/// material in every layout, whatever the row.
pub proof fn lemma_source_column_in_background(case: MaterialCase, z: int, nz: int)
    ensures
        visual_region(case, 15, z, nz) == Region::Background,
{
    assert((15 - 70) * (15 - 70) == 3025);
    assert((z - nz / 2) * (z - nz / 2) >= 0) by (nonlinear_arith);
}

/// The uniform layout is background material in every cell.
pub proof fn lemma_uniform_layout(x: int, z: int, nz: int)
    ensures
        visual_region(MaterialCase::Uniform, x, z, nz) == Region::Background,
{
}

/// Whether layout `case` fits an `nx` by `nz` grid.
pub fn fits_layout(case: MaterialCase, nx: usize, nz: usize) -> (ok: bool)
    ensures
        ok == layout_fits(case, nx as int, nz as int),
{
    match case {
        MaterialCase::Uniform => true,
        MaterialCase::SlowBlock => nx >= 77 && nz >= 59,
        MaterialCase::FastTarget => {
            if nx < 100 || nz < 65 || nx > 0x7fff_ffff || nz > 0x7fff_ffff {
                return false;
            }
            let far_x: u64 = if 70 >= nx - 71 {
                70
            } else {
                (nx - 71) as u64
            };
            let half = nz / 2;
            let far_z: u64 = if half >= nz - 1 - half {
                half as u64
            } else {
                (nz - 1 - half) as u64
            };
            assert(far_x * far_x <= 0x7fff_ffff * 0x7fff_ffff) by (nonlinear_arith)
                requires
                    far_x <= 0x7fff_ffff,
            ;
            assert(far_z * far_z <= 0x7fff_ffff * 0x7fff_ffff) by (nonlinear_arith)
                requires
                    far_z <= 0x7fff_ffff,
            ;
            far_x * far_x + far_z * far_z <= 0x7fff_ffff
        },
    }
}

/// The region of cell `(x, z)` in layout `case` on a grid with `nz` rows.
pub fn region_at(case: MaterialCase, x: usize, z: usize, nx: usize, nz: usize) -> (r: Region)
    requires
        x < nx,
        z < nz,
        layout_fits(case, nx as int, nz as int),
    ensures
        r == visual_region(case, x as int, z as int, nz as int),
{
    match case {
        MaterialCase::Uniform => Region::Background,
        MaterialCase::SlowBlock => {
            if 52 <= x && x < 77 && 22 <= z && z < 59 {
                Region::SlowBlock
            } else {
                Region::Background
            }
        },
        MaterialCase::FastTarget => {
            let cx: i32 = 70;
            let cz: i32 = (nz as i32) / 2;
            let dx: i32 = x as i32 - cx;
            let dz: i32 = z as i32 - cz;
            let ghost far_x = larger(70, nx as int - 71);
            let ghost far_z = larger(nz as int / 2, nz as int - 1 - nz as int / 2);
            assert(-far_x <= dx <= far_x);
            assert(-far_z <= dz <= far_z);
            assert(dx * dx <= far_x * far_x) by (nonlinear_arith)
                requires
                    -far_x <= dx <= far_x,
            ;
            assert(dz * dz <= far_z * far_z) by (nonlinear_arith)
                requires
                    -far_z <= dz <= far_z,
            ;
            assert(0 <= dx * dx) by (nonlinear_arith);
            assert(0 <= dz * dz) by (nonlinear_arith);
            if dx * dx + dz * dz <= 81 {
                Region::FastTarget
            } else if 38 <= x && x < 100 && 16 <= z && z < 65 {
                Region::SandLikeBackground
            } else {
                Region::Background
            }
        },
    }
}

/// The region of every cell of an `nx` by `nz` grid in layout `case`, row after row.
pub fn visual_regions(case: MaterialCase, nx: usize, nz: usize) -> (v: Vec<Region>)
    requires
        nx * nz <= usize::MAX,
        layout_fits(case, nx as int, nz as int),
    ensures
        v.len() == nx * nz,
        forall|x: int, z: int|
            0 <= x < nx && 0 <= z < nz ==> #[trigger] v@[cell_index(x, z, nx as int)]
                == visual_region(case, x, z, nz as int),
{
    let mut v: Vec<Region> = Vec::new();
    let mut z: usize = 0;
    while z < nz
        invariant
            z <= nz,
            nx * nz <= usize::MAX,
            layout_fits(case, nx as int, nz as int),
            v.len() == z * nx,
            forall|x2: int, z2: int|
                0 <= x2 < nx && 0 <= z2 < z ==> #[trigger] v@[cell_index(x2, z2, nx as int)]
                    == visual_region(case, x2, z2, nz as int),
        decreases nz - z,
    {
        let mut x: usize = 0;
        assert(z * nx + nx <= nx * nz) by (nonlinear_arith)
            requires
                z < nz,
        ;
        while x < nx
            invariant
                x <= nx,
                z < nz,
                nx * nz <= usize::MAX,
                z * nx + nx <= nx * nz,
                layout_fits(case, nx as int, nz as int),
                v.len() == z * nx + x,
                forall|x2: int, z2: int|
                    0 <= x2 < nx && 0 <= z2 <= z && (z2 < z || x2 < x) ==> #[trigger] v@[cell_index(
                        x2,
                        z2,
                        nx as int,
                    )] == visual_region(case, x2, z2, nz as int),
            decreases nx - x,
        {
            let r = region_at(case, x, z, nx, nz);
            let ghost before = v@;
            v.push(r);
            assert forall|x2: int, z2: int|
                0 <= x2 < nx && 0 <= z2 <= z && (z2 < z || x2 < x + 1) implies #[trigger] v@[cell_index(
                x2,
                z2,
                nx as int,
            )] == visual_region(case, x2, z2, nz as int) by {
                if z2 == z && x2 == x {
                } else {
                    lemma_idx_in_bounds(x2, z2, nx as int, z as int + 1);
                    assert(cell_index(x2, z2, nx as int) < z * nx + x) by (nonlinear_arith)
                        requires
                            0 <= x2 < nx,
                            0 <= z2 <= z,
                            z2 < z || x2 < x,
                            x <= nx,
                    {
                        if z2 < z {
                            assert(z2 * nx + nx <= z * nx);
                        }
                    }
                    assert(v@[cell_index(x2, z2, nx as int)] == before[cell_index(x2, z2, nx as int)]);
                }
            }
            x = x + 1;
        }
        assert((z + 1) * nx == z * nx + nx) by (nonlinear_arith);
        z = z + 1;
    }
    assert(nz * nx == nx * nz) by (nonlinear_arith);
    v
}

} // verus!
