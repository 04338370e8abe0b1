use ireland_dino_finder::ppm::{
    material_ids_from_ppm, parse_ppm_color, parse_ppm_usize, parse_usize_chars, ppm_tokens,
    ColorMaterial, MaskError, PpmField,
};

fn chars(s: &str) -> Vec<char> {
    s.chars().collect()
}

fn colors(speed_ok: bool) -> Vec<ColorMaterial> {
    vec![
        ColorMaterial { rgb: (0, 0, 0), material_id: "water".into(), speed_positive: true },
        ColorMaterial { rgb: (255, 255, 255), material_id: "bone".into(), speed_positive: speed_ok },
    ]
}

#[test]
fn ppm_mask_loads_material_ids_from_colors() {
    let mask = "P3\n# water black, bone white\n3 3\n255\n0 0 0 255 255 255 0 0 0\n255 255 255 0 0 0 255 255 255\n0 0 0 255 255 255 0 0 0\n";
    let ids = material_ids_from_ppm(mask, 3, 3, &colors(true)).ok().unwrap();
    assert_eq!(
        ids,
        vec!["water", "bone", "water", "bone", "water", "bone", "water", "bone", "water"]
    );
}

#[test]
fn ppm_tokens_drop_comments_and_blanks() {
    let toks = ppm_tokens("P3 # comment 1 2\n  4\t5#x\r\n#only comment\n\n6");
    assert_eq!(toks, vec!["P3", "4", "5", "6"]);
}

#[test]
fn usize_text_follows_std_parse() {
    for s in ["0", "42", "+7", "007", "18446744073709551615"] {
        assert_eq!(parse_usize_chars(&chars(s)), s.parse::<usize>().ok(), "{s}");
    }
    for s in ["", "+", "-0", "1a", "++1", "18446744073709551616", " 1"] {
        assert_eq!(parse_usize_chars(&chars(s)), None, "{s}");
        assert!(s.parse::<usize>().is_err());
    }
}

#[test]
fn ppm_number_errors() {
    assert_eq!(parse_ppm_usize(None, PpmField::Width), Err(MaskError::Missing(PpmField::Width)));
    assert_eq!(
        parse_ppm_usize(Some(&chars("x")), PpmField::Height),
        Err(MaskError::Invalid(PpmField::Height))
    );
    assert_eq!(parse_ppm_usize(Some(&chars("12")), PpmField::MaxValue), Ok(12));
}

#[test]
fn ppm_channels_rescale_to_bytes() {
    assert_eq!(parse_ppm_color(Some(&chars("0")), 15, PpmField::Red), Ok(0));
    assert_eq!(parse_ppm_color(Some(&chars("15")), 15, PpmField::Red), Ok(255));
    // (7 * 255 + 7) / 15 = 119
    assert_eq!(parse_ppm_color(Some(&chars("7")), 15, PpmField::Green), Ok(119));
    assert_eq!(parse_ppm_color(Some(&chars("1")), 1, PpmField::Blue), Ok(255));
    assert_eq!(
        parse_ppm_color(Some(&chars("16")), 15, PpmField::Blue),
        Err(MaskError::ChannelTooLarge { field: PpmField::Blue, raw: 16, max_value: 15 })
    );
}

fn mask_err(text: &str, nx: usize, nz: usize, speed_ok: bool) -> MaskError {
    match material_ids_from_ppm(text, nx, nz, &colors(speed_ok)) {
        Err(e) => e,
        Ok(_) => panic!("mask should be refused: {text:?}"),
    }
}

#[test]
fn ppm_mask_errors() {
    assert_eq!(mask_err("  # nothing\n", 1, 1, true), MaskError::Empty);
    assert_eq!(mask_err("P6 1 1 255", 1, 1, true), MaskError::NotPlainPpm);
    assert_eq!(mask_err("P3", 1, 1, true), MaskError::Missing(PpmField::Width));
    assert_eq!(mask_err("P3 1 x 255", 1, 1, true), MaskError::Invalid(PpmField::Height));
    assert_eq!(
        mask_err("P3 2 1 255 0 0 0 0 0 0", 1, 1, true),
        MaskError::SizeMismatch { width: 2, height: 1, nx: 1, nz: 1 }
    );
    assert_eq!(mask_err("P3 1 1 0 0 0 0", 1, 1, true), MaskError::BadMaxValue);
    assert_eq!(mask_err("P3 1 1 256 0 0 0", 1, 1, true), MaskError::BadMaxValue);
    assert_eq!(mask_err("P3 1 1 255 0 0", 1, 1, true), MaskError::Missing(PpmField::Blue));
    assert_eq!(
        mask_err("P3 2 1 255 0 0 0 1 2 3", 2, 1, true),
        MaskError::UnmappedColor { r: 1, g: 2, b: 3, pixel: 1 }
    );
    assert_eq!(
        mask_err("P3 1 1 255 255 255 255", 1, 1, false),
        MaskError::NonPositiveSpeed { entry: 1 }
    );
    assert_eq!(mask_err("P3 1 1 255 0 0 0 0", 1, 1, true), MaskError::ExtraData);
}

#[test]
fn later_colour_entries_override_earlier_ones() {
    let table = vec![
        ColorMaterial { rgb: (1, 1, 1), material_id: "first".into(), speed_positive: true },
        ColorMaterial { rgb: (1, 1, 1), material_id: "second".into(), speed_positive: true },
    ];
    let ids = material_ids_from_ppm("P3 1 1 255 1 1 1", 1, 1, &table).ok().unwrap();
    assert_eq!(ids, vec!["second"]);
}
