use vstd::prelude::*;

use crate::scenarios::VisualScenario;

pub use crate::metadata::material_id_metadata;

verus! {

/// Where a simulation writes its results: the final pressure as CSV, the
/// wavefield frames as HDF5, image frames into a directory, and every how
/// many steps a frame is taken.
#[derive(Clone, Debug)]
pub struct OutputConfig {
    pub csv_path: Option<String>,
    pub hdf5_path: Option<String>,
    pub image_frame_dir: Option<String>,
    pub frame_interval: usize,
}

/// The text of an optional string.
pub open spec fn opt_text(s: Option<String>) -> Option<Seq<char>> {
    match s {
        Some(t) => Some(t@),
        None => None,
    }
}

impl OutputConfig {
    /// The output of the default demo run: final pressure and HDF5 frames
    /// under `output/`, no image frames, a frame every 20 steps.
    pub fn demo() -> (c: Self)
        ensures
            opt_text(c.csv_path) == Some("output/pressure_final.csv"@),
            opt_text(c.hdf5_path) == Some("output/wavefield.h5"@),
            c.image_frame_dir is None,
            c.frame_interval == 20,
    {
        OutputConfig {
            csv_path: Some("output/pressure_final.csv".to_owned()),
            hdf5_path: Some("output/wavefield.h5".to_owned()),
            image_frame_dir: None,
            frame_interval: 20,
        }
    }
}

/// The directory that visual scenarios write into.
pub open spec fn visual_dir() -> Seq<char> {
    "output/visual/"@
}

/// The output of a visual scenario: `output/visual/<name>.csv`,
/// `output/visual/<name>.h5` and image frames in
/// `output/visual/<name>_frames`, a frame every 2 steps.
pub fn visual_output_config(scenario: VisualScenario) -> (c: OutputConfig)
    ensures
        opt_text(c.csv_path) == Some(visual_dir() + scenario.name_text() + ".csv"@),
        opt_text(c.hdf5_path) == Some(visual_dir() + scenario.name_text() + ".h5"@),
        opt_text(c.image_frame_dir) == Some(visual_dir() + scenario.name_text() + "_frames"@),
        c.frame_interval == 2,
{
    let name = scenario.name();
    let mut csv = "output/visual/".to_owned();
    csv.append(name);
    csv.append(".csv");
    let mut h5 = "output/visual/".to_owned();
    h5.append(name);
    h5.append(".h5");
    let mut frames = "output/visual/".to_owned();
    frames.append(name);
    frames.append("_frames");
    OutputConfig {
        csv_path: Some(csv),
        hdf5_path: Some(h5),
        image_frame_dir: Some(frames),
        frame_interval: 2,
    }
}

/// Why an output configuration was refused.
#[derive(Clone, Copy, Debug, PartialEq, Eq, Structural)]
pub enum OutputError {
    /// HDF5 frames are asked for with a frame interval of 0.
    Hdf5FrameIntervalZero,
    /// Image frames are asked for with a frame interval of 0.
    ImageFrameIntervalZero,
}

/// The HDF5 file to create, if the configuration asks for one.
pub fn hdf5_output_path(config: Option<&OutputConfig>) -> (r: Result<Option<&String>, OutputError>)
    ensures
        match config {
            None => r == Ok::<Option<&String>, OutputError>(None),
            Some(c) => match c.hdf5_path {
                None => r == Ok::<Option<&String>, OutputError>(None),
                Some(p) => if c.frame_interval == 0 {
                    r == Err::<Option<&String>, OutputError>(OutputError::Hdf5FrameIntervalZero)
                } else {
                    r matches Ok(Some(q)) && q@ == p@
                },
            },
        },
{
    match config {
        None => Ok(None),
        Some(c) => match &c.hdf5_path {
            None => Ok(None),
            Some(p) => {
                if c.frame_interval == 0 {
                    Err(OutputError::Hdf5FrameIntervalZero)
                } else {
                    Ok(Some(p))
                }
            },
        },
    }
}

/// Whether step `step` appends a frame to an open HDF5 wavefield.
pub fn hdf5_frame_due(config: Option<&OutputConfig>, writer_open: bool, step: usize) -> (due: bool)
    requires
        writer_open ==> (config matches Some(c) && c.frame_interval > 0),
    ensures
        due == (writer_open && (config matches Some(c) && step % c.frame_interval == 0)),
{
    if !writer_open {
        return false;
    }
    match config {
        None => false,
        Some(c) => step % c.frame_interval == 0,
    }
}

/// The character of decimal digit `d`.
pub open spec fn digit_char(d: nat) -> char {
    ((48 + d) as u8) as char
}

/// The decimal digits of `n`, without leading zeros.
pub open spec fn decimal_text(n: nat) -> Seq<char>
    decreases n,
{
    if n < 10 {
        seq![digit_char(n)]
    } else {
        decimal_text(n / 10).push(digit_char(n % 10))
    }
}

/// The decimal digits of `n`, with zeros in front up to `width` characters.
pub open spec fn zero_padded(n: nat, width: nat) -> Seq<char> {
    let d = decimal_text(n);
    if d.len() < width {
        Seq::new((width - d.len()) as nat, |i: int| '0') + d
    } else {
        d
    }
}

/// The number of decimal digits of `n`.
fn decimal_len(n: usize) -> (len: usize)
    ensures
        len as nat == decimal_text(n as nat).len(),
        1 <= len <= n as nat + 1,
    decreases n,
{
    if n < 10 {
        1
    } else {
        1 + decimal_len(n / 10)
    }
}

/// Appends the decimal digits of `n`.
fn push_decimal(s: &mut String, n: usize)
    ensures
        final(s)@ == old(s)@ + decimal_text(n as nat),
    decreases n,
{
    if n >= 10 {
        push_decimal(s, n / 10);
    }
    let d = (n % 10) as u8;
    s.push((48u8 + d) as char);
}

/// Appends `n` in decimal, padded with zeros to at least `width` digits.
pub fn push_zero_padded(s: &mut String, n: usize, width: usize)
    ensures
        final(s)@ == old(s)@ + zero_padded(n as nat, width as nat),
{
    let len = decimal_len(n);
    let ghost start = s@;
    let mut k = len;
    while k < width
        invariant
            len <= k,
            k <= width || k == len,
            len as nat == decimal_text(n as nat).len(),
            s@ == start + Seq::new((k - len) as nat, |i: int| '0'),
        decreases width - k,
    {
        s.push('0');
        assert(Seq::new((k + 1 - len) as nat, |i: int| '0') =~= Seq::new(
            (k - len) as nat,
            |i: int| '0',
        ).push('0'));
        k = k + 1;
    }
    push_decimal(s, n);
    if len >= width {
        assert(Seq::new((k - len) as nat, |i: int| '0') =~= Seq::<char>::empty());
        assert(start + Seq::<char>::empty() =~= start);
    }
    assert(start + Seq::new((k - len) as nat, |i: int| '0') + decimal_text(n as nat) =~= start
        + zero_padded(n as nat, width as nat));
}

/// The image file of frame number `index` in directory `dir`:
/// `<dir>/frame_<index, six digits at least>.ppm`.
pub open spec fn frame_file(dir: Seq<char>, index: nat) -> Seq<char> {
    dir + "/frame_"@ + zero_padded(index, 6) + ".ppm"@
}

/// The image file to write at step `step`, if the configuration asks for
/// image frames and a frame falls on this step; frame `k` is taken at step
/// `k * frame_interval`.
pub fn image_frame_path(config: Option<&OutputConfig>, step: usize) -> (r: Result<
    Option<String>,
    OutputError,
>)
    ensures
        match config {
            None => r matches Ok(None),
            Some(c) => match c.image_frame_dir {
                None => r matches Ok(None),
                Some(dir) => if c.frame_interval == 0 {
                    r == Err::<Option<String>, OutputError>(OutputError::ImageFrameIntervalZero)
                } else if step % c.frame_interval != 0 {
                    r matches Ok(None)
                } else {
                    r matches Ok(Some(p)) && p@ == frame_file(
                        dir@,
                        (step / c.frame_interval) as nat,
                    )
                },
            },
        },
{
    match config {
        None => Ok(None),
        Some(c) => match &c.image_frame_dir {
            None => Ok(None),
            Some(dir) => {
                if c.frame_interval == 0 {
                    return Err(OutputError::ImageFrameIntervalZero);
                }
                if step % c.frame_interval != 0 {
                    return Ok(None);
                }
                let index = step / c.frame_interval;
                let mut path = dir.clone();
                path.append("/frame_");
                push_zero_padded(&mut path, index, 6);
                path.append(".ppm");
                Ok(Some(path))
            },
        },
    }
}

/// Frames are numbered consecutively: step `k * frame_interval` takes frame
/// `k`, and no other step takes a frame.
pub proof fn lemma_frame_numbering(k: nat, frame_interval: nat, step: nat)
    requires
        frame_interval > 0,
    ensures
        (k * frame_interval) % frame_interval == 0,
        (k * frame_interval) / frame_interval == k,
        step % frame_interval == 0 ==> step == (step / frame_interval) * frame_interval,
{
    vstd::arithmetic::div_mod::lemma_fundamental_div_mod_converse(
        (k * frame_interval) as int,
        frame_interval as int,
        k as int,
        0,
    );
    vstd::arithmetic::div_mod::lemma_fundamental_div_mod(step as int, frame_interval as int);
    assert(frame_interval * (step / frame_interval) == (step / frame_interval) * frame_interval)
        by (nonlinear_arith);
}

} // verus!
