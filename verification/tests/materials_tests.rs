use ireland_dino_finder::materials::{
    catalog_rows_from_csv, check_cell_speeds, find_column, material_ids_from_csv, trimmed,
    CatalogColumn, CatalogError, CatalogRow, CellsError,
};

fn velocity_of(rows: &[CatalogRow], id: &str) -> Option<f32> {
    rows.iter()
        .rev()
        .find(|row| row.material_id == id)
        .and_then(|row| row.velocity.as_ref())
        .and_then(|v| {
            let t = v.trim();
            if t.is_empty() {
                None
            } else {
                t.parse().ok()
            }
        })
}

#[test]
fn material_catalog_and_id_map_load_from_csv() {
    let properties = "material_id,p_wave_velocity_m_s,notes\nwater,1.0,\"quoted, note\"\nbone,2.0,\n";
    let map_text = "water,bone,water\nbone,water,bone\nwater,bone,water\n";

    let rows = catalog_rows_from_csv(properties).ok().unwrap();
    let ids = material_ids_from_csv(map_text);
    let c: Vec<f32> = ids
        .iter()
        .map(|id| velocity_of(&rows, id).unwrap_or(1.5))
        .collect();
    let positive: Vec<bool> = c.iter().map(|v| *v > 0.0).collect();
    assert!(check_cell_speeds(&ids, &positive, 3 * 3).is_ok());

    assert_eq!(c, vec![1.0, 2.0, 1.0, 2.0, 1.0, 2.0, 1.0, 2.0, 1.0]);
    assert_eq!(ids[1], "bone");
}

#[test]
fn catalog_rows_keep_raw_velocity_text() {
    let rows = catalog_rows_from_csv(
        "notes,material_id,p_wave_velocity_m_s\r\nx, water ,1480\r\n\r\ny,sand\n  \nz,rock,\n",
    )
    .ok()
    .unwrap();
    assert_eq!(rows.len(), 3);
    assert_eq!(rows[0].material_id, "water");
    assert_eq!(rows[0].velocity.as_deref(), Some("1480"));
    assert_eq!(rows[1].material_id, "sand");
    assert_eq!(rows[1].velocity, None);
    assert_eq!(rows[2].material_id, "rock");
    assert_eq!(rows[2].velocity.as_deref(), Some(""));
}

#[test]
fn catalog_errors() {
    assert!(matches!(catalog_rows_from_csv(""), Err(CatalogError::Empty)));
    assert!(matches!(
        catalog_rows_from_csv("id,p_wave_velocity_m_s\n"),
        Err(CatalogError::MissingColumn(CatalogColumn::MaterialId))
    ));
    assert!(matches!(
        catalog_rows_from_csv("material_id,speed\n"),
        Err(CatalogError::MissingColumn(CatalogColumn::PWaveVelocity))
    ));
    // Line 3 of the file has no field in the material_id column.
    assert!(matches!(
        catalog_rows_from_csv("a,material_id,p_wave_velocity_m_s\nx,water,1\ny\nz,rock,2\n"),
        Err(CatalogError::MissingMaterialId { line: 3 })
    ));
}

#[test]
fn find_column_returns_first_match() {
    let cols: Vec<String> = vec!["a".into(), "b".into(), "a".into()];
    assert_eq!(find_column(&cols, "a"), Some(0));
    assert_eq!(find_column(&cols, "b"), Some(1));
    assert_eq!(find_column(&cols, "c"), None);
}

#[test]
fn trimming_uses_unicode_blanks() {
    let s = String::from("\u{3000}\t water\u{a0}\u{2009}\n");
    assert_eq!(trimmed(&s), "water");
    assert_eq!(trimmed(&String::from(" \t ")), "");
}

#[test]
fn material_map_cells_skip_blank_lines_and_trim() {
    let ids = material_ids_from_csv("a, b\n\n   \r\n\"c,d\" ,e\r\n");
    assert_eq!(ids, vec!["a", "b", "c,d", "e"]);
}

#[test]
fn cell_check_reports_first_bad_speed_then_count() {
    let ids: Vec<String> = vec!["water".into(), "void".into(), "ghost".into()];
    match check_cell_speeds(&ids, &vec![true, false, false], 3) {
        Err(CellsError::NonPositiveSpeed(id)) => assert_eq!(id, "void"),
        _ => panic!("expected a non-positive speed error"),
    }
    match check_cell_speeds(&ids, &vec![true, true, true], 4) {
        Err(CellsError::CellCount { found, expected }) => {
            assert_eq!(found, 3);
            assert_eq!(expected, 4);
        }
        _ => panic!("expected a cell count error"),
    }
    assert!(check_cell_speeds(&ids, &vec![true, true, true], 3).is_ok());
}
