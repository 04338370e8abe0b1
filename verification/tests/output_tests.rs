use ireland_dino_finder::metadata::material_id_metadata;
use ireland_dino_finder::solver::{
    hdf5_frame_due, hdf5_output_path, image_frame_path, OutputConfig, OutputError,
};

#[test]
fn demo_output_config() {
    let c = OutputConfig::demo();
    assert_eq!(c.csv_path.as_deref(), Some("output/pressure_final.csv"));
    assert_eq!(c.hdf5_path.as_deref(), Some("output/wavefield.h5"));
    assert_eq!(c.image_frame_dir, None);
    assert_eq!(c.frame_interval, 20);
}

fn config(interval: usize) -> OutputConfig {
    OutputConfig {
        csv_path: None,
        hdf5_path: Some("w.h5".to_string()),
        image_frame_dir: Some("frames".to_string()),
        frame_interval: interval,
    }
}

#[test]
fn hdf5_output_needs_a_frame_interval() {
    assert_eq!(hdf5_output_path(None), Ok(None));
    let c = config(3);
    assert_eq!(hdf5_output_path(Some(&c)).unwrap().map(|s| s.as_str()), Some("w.h5"));
    assert_eq!(hdf5_output_path(Some(&config(0))), Err(OutputError::Hdf5FrameIntervalZero));
    let mut no_path = config(0);
    no_path.hdf5_path = None;
    assert_eq!(hdf5_output_path(Some(&no_path)), Ok(None));
}

#[test]
fn hdf5_frames_every_interval() {
    let c = config(3);
    let due: Vec<usize> = (0..10).filter(|s| hdf5_frame_due(Some(&c), true, *s)).collect();
    assert_eq!(due, vec![0, 3, 6, 9]);
    assert!(!hdf5_frame_due(Some(&c), false, 0));
    assert!(!hdf5_frame_due(None, false, 0));
}

#[test]
fn image_frames_are_numbered_consecutively() {
    let c = config(2);
    assert_eq!(image_frame_path(Some(&c), 0), Ok(Some("frames/frame_000000.ppm".to_string())));
    assert_eq!(image_frame_path(Some(&c), 1), Ok(None));
    assert_eq!(image_frame_path(Some(&c), 246), Ok(Some("frames/frame_000123.ppm".to_string())));
    assert_eq!(
        image_frame_path(Some(&c), 2 * 1_234_567),
        Ok(Some("frames/frame_1234567.ppm".to_string()))
    );
    assert_eq!(image_frame_path(Some(&config(0)), 4), Err(OutputError::ImageFrameIntervalZero));
    assert_eq!(image_frame_path(None, 4), Ok(None));
}

#[test]
fn material_metadata_indexes_first_occurrences() {
    let ids: Vec<String> = ["water", "bone", "water", "sand", "bone"]
        .iter()
        .map(|s| s.to_string())
        .collect();
    let (indices, table, rows, width) = material_id_metadata(&ids);
    assert_eq!(indices, vec![0, 1, 0, 2, 1]);
    assert_eq!(rows, 3);
    assert_eq!(width, 5);
    assert_eq!(table, b"waterbone\0sand\0".to_vec());
}

#[test]
fn material_metadata_of_nothing_has_one_empty_row() {
    let (indices, table, rows, width) = material_id_metadata(&Vec::new());
    assert!(indices.is_empty());
    assert_eq!((rows, width), (1, 1));
    assert_eq!(table, vec![0u8]);
}

#[test]
fn material_metadata_counts_utf8_bytes() {
    let ids: Vec<String> = vec!["é".to_string(), "a".to_string()];
    let (indices, table, rows, width) = material_id_metadata(&ids);
    assert_eq!(indices, vec![0, 1]);
    assert_eq!((rows, width), (2, 2));
    assert_eq!(table, vec![0xc3, 0xa9, b'a', 0]);
}
