use crate::image::ImageData;
use vstd::prelude::*;
use vstd::string::StrSliceExecFns;

verus! {

/// The fixed column of pixels that is sampled.
pub const SAMPLE_COLUMN: usize = 7;

/// The fixed number of rows that are sampled.
pub const SAMPLE_ROWS: usize = 440;

/// Horizontal step between two samples, in thousandths of a plotting unit
/// (one row advances the x-coordinate by 0.265 units).
pub const X_STEP_MILLI: u32 = 265;

/// A failure of the extraction pipeline.
#[derive(Clone, Copy, Debug, PartialEq, Eq, Structural)]
pub enum ErrorKind {
    /// The image has too few rows or columns for the sampled region.
    OutOfBounds,
}

/// One plotted point. The x-coordinate is kept in thousandths of a plotting
/// unit and the y-coordinate as the exact rational `y_num / y_den`, so both
/// are free of rounding.
#[derive(Clone, Copy, Debug, PartialEq, Eq, Structural)]
pub struct Point {
    /// x-coordinate in thousandths of a plotting unit.
    pub x_milli: u32,
    /// Numerator of the normalized y-coordinate.
    pub y_num: u32,
    /// Denominator of the normalized y-coordinate.
    pub y_den: u32,
}

impl View for Point {
    type V = (int, int, int);

    open spec fn view(&self) -> (int, int, int) {
        (self.x_milli as int, self.y_num as int, self.y_den as int)
    }
}

/// The ordered sequence of points extracted from one image column.
#[derive(Clone, Debug, PartialEq, Eq)]
pub struct Signal {
    /// The points, in sampling order.
    pub points: Vec<Point>,
}

impl View for Signal {
    type V = Seq<(int, int, int)>;

    open spec fn view(&self) -> Seq<(int, int, int)> {
        self.points@.map_values(|p: Point| p@)
    }
}

/// The raw channel values sampled down the fixed column: the red channel for
/// selector `"r"`, the green channel for `"g"`, and nothing for any other
/// selector.
pub open spec fn raw_seq(img: ImageData, ch: Seq<char>) -> Seq<u8> {
    if ch == seq!['r'] {
        Seq::new(SAMPLE_ROWS as nat, |i: int| img.spec_pixel(SAMPLE_COLUMN as int, i).0)
    } else if ch == seq!['g'] {
        Seq::new(SAMPLE_ROWS as nat, |i: int| img.spec_pixel(SAMPLE_COLUMN as int, i).1)
    } else {
        Seq::empty()
    }
}

/// Least value among the first `n` raw samples, scanned down from an initial
/// bound of 255 (so an empty scan stays at 255).
pub open spec fn min_scan(s: Seq<u8>, n: int) -> int
    decreases n,
{
    if n <= 0 {
        255
    } else {
        let m = min_scan(s, n - 1);
        if (s[n - 1] as int) < m {
            s[n - 1] as int
        } else {
            m
        }
    }
}

/// Greatest value among the first `n` raw samples, scanned up from an initial
/// bound of 0 (so an empty scan stays at 0).
pub open spec fn max_scan(s: Seq<u8>, n: int) -> int
    decreases n,
{
    if n <= 0 {
        0
    } else {
        let m = max_scan(s, n - 1);
        if (s[n - 1] as int) > m {
            s[n - 1] as int
        } else {
            m
        }
    }
}

/// The chart-ready signal derived from a sequence of raw channel values:
/// point `i` has x-coordinate `265 * i` thousandths and, once the raw range
/// is non-degenerate, the exact normalized y-coordinate
/// `(raw - min) / (max - min)`. A degenerate sequence — every raw value
/// equal — maps every y-coordinate to the midpoint one half.
pub open spec fn signal_of(raws: Seq<u8>) -> Seq<(int, int, int)> {
    let lo = min_scan(raws, raws.len() as int);
    let hi = max_scan(raws, raws.len() as int);
    Seq::new(
        raws.len(),
        |i: int|
            if lo < hi {
                ((X_STEP_MILLI as int) * i, raws[i] - lo, hi - lo)
            } else {
                ((X_STEP_MILLI as int) * i, 1int, 2int)
            },
    )
}

/// Whether the selector is exactly the one-character string holding `c`.
fn channel_is(s: &str, c: char) -> (r: bool)
    ensures
        r <==> s@ == seq![c],
{
    let r = s.unicode_len() == 1 && s.get_char(0) == c;
    proof {
        if r {
            assert(s@ =~= seq![c]);
        }
    }
    r
}

/// Samples the fixed column of the image and selects one channel value per
/// row, exactly when the image is wide and tall enough for the sampled
/// region; a selector other than `"r"` or `"g"` contributes nothing.
pub fn sample_column(image: &ImageData, color_channel: &str) -> (r: Result<Vec<u8>, ErrorKind>)
    requires
        image.wf(),
    ensures
        r is Ok <==> (image.width > SAMPLE_COLUMN && image.height >= SAMPLE_ROWS),
        r is Ok ==> r->Ok_0@ == raw_seq(*image, color_channel@),
        r is Err ==> r->Err_0 == ErrorKind::OutOfBounds,
{
    if image.width <= SAMPLE_COLUMN || image.height < SAMPLE_ROWS {
        return Err(ErrorKind::OutOfBounds);
    }
    let is_r = channel_is(color_channel, 'r');
    let is_g = channel_is(color_channel, 'g');
    let mut raws: Vec<u8> = Vec::new();
    if !is_r && !is_g {
        proof {
            assert(raw_seq(*image, color_channel@) =~= raws@);
        }
        return Ok(raws);
    }
    let ghost target = raw_seq(*image, color_channel@);
    let mut y: usize = 0;
    while y < SAMPLE_ROWS
        invariant
            image.wf(),
            image.width > SAMPLE_COLUMN,
            image.height >= SAMPLE_ROWS,
            y <= SAMPLE_ROWS,
            is_r || is_g,
            is_r <==> color_channel@ == seq!['r'],
            is_g <==> color_channel@ == seq!['g'],
            target == raw_seq(*image, color_channel@),
            target.len() == SAMPLE_ROWS,
            raws@.len() == y,
            forall|k: int| 0 <= k < y ==> raws@[k] == target[k],
        decreases SAMPLE_ROWS - y,
    {
        let c = image.get_pixel(SAMPLE_COLUMN, y).unwrap();
        let v = if is_r {
            c.0
        } else {
            c.1
        };
        raws.push(v);
        y += 1;
    }
    proof {
        assert(raws@ =~= target);
    }
    Ok(raws)
}

/// The scanned minimum never exceeds any scanned sample.
proof fn lemma_min_scan_le(s: Seq<u8>, n: int, k: int)
    requires
        0 <= k < n <= s.len(),
    ensures
        min_scan(s, n) <= s[k],
    decreases n,
{
    if k < n - 1 {
        lemma_min_scan_le(s, n - 1, k);
    }
}

/// The scanned maximum is at least every scanned sample.
proof fn lemma_max_scan_ge(s: Seq<u8>, n: int, k: int)
    requires
        0 <= k < n <= s.len(),
    ensures
        max_scan(s, n) >= s[k],
    decreases n,
{
    if k < n - 1 {
        lemma_max_scan_ge(s, n - 1, k);
    }
}

/// A non-empty scan's minimum is one of the scanned samples.
proof fn lemma_min_scan_attained(s: Seq<u8>, n: int)
    requires
        0 < n <= s.len(),
    ensures
        exists|k: int| 0 <= k < n && s[k] == min_scan(s, n),
    decreases n,
{
    if n == 1 {
        assert(min_scan(s, 0) == 255);
        assert(s[0] == min_scan(s, 1));
    } else {
        lemma_min_scan_attained(s, n - 1);
        let k = choose|k: int| 0 <= k < n - 1 && s[k] == min_scan(s, n - 1);
        if (s[n - 1] as int) < min_scan(s, n - 1) {
            assert(s[n - 1] == min_scan(s, n));
        } else {
            assert(s[k] == min_scan(s, n));
        }
    }
}

/// A non-empty scan's maximum is one of the scanned samples.
proof fn lemma_max_scan_attained(s: Seq<u8>, n: int)
    requires
        0 < n <= s.len(),
    ensures
        exists|k: int| 0 <= k < n && s[k] == max_scan(s, n),
    decreases n,
{
    if n == 1 {
        assert(max_scan(s, 0) == 0);
        assert(s[0] == max_scan(s, 1));
    } else {
        lemma_max_scan_attained(s, n - 1);
        let k = choose|k: int| 0 <= k < n - 1 && s[k] == max_scan(s, n - 1);
        if (s[n - 1] as int) > max_scan(s, n - 1) {
            assert(s[n - 1] == max_scan(s, n));
        } else {
            assert(s[k] == max_scan(s, n));
        }
    }
}

/// Minimum of the raw samples, scanned down from 255 as the extraction
/// algorithm does.
fn min_raw(raws: &Vec<u8>) -> (m: u8)
    ensures
        m as int == min_scan(raws@, raws@.len() as int),
{
    let mut m: u8 = 255;
    let n = raws.len();
    let mut i: usize = 0;
    while i < n
        invariant
            i <= n,
            n == raws@.len(),
            m as int == min_scan(raws@, i as int),
        decreases n - i,
    {
        if raws[i] < m {
            m = raws[i];
        }
        i += 1;
    }
    m
}

/// Maximum of the raw samples, scanned up from 0 as the extraction
/// algorithm does.
fn max_raw(raws: &Vec<u8>) -> (m: u8)
    ensures
        m as int == max_scan(raws@, raws@.len() as int),
{
    let mut m: u8 = 0;
    let n = raws.len();
    let mut i: usize = 0;
    while i < n
        invariant
            i <= n,
            n == raws@.len(),
            m as int == max_scan(raws@, i as int),
        decreases n - i,
    {
        if raws[i] > m {
            m = raws[i];
        }
        i += 1;
    }
    m
}

/// Builds the plotted signal from the raw channel values: x-coordinates step
/// by 265 thousandths per sample, and the y-coordinates are normalized
/// jointly so the least raw value maps to 0 and the greatest to 1. When the
/// raw range is degenerate — every value equal — every y-coordinate becomes
/// the midpoint one half.
pub fn normalize_points(raws: &Vec<u8>) -> (sig: Signal)
    requires
        265 * raws@.len() <= u32::MAX,
    ensures
        sig@ == signal_of(raws@),
{
    let lo = min_raw(raws);
    let hi = max_raw(raws);
    let n = raws.len();
    let mut points: Vec<Point> = Vec::new();
    let mut i: usize = 0;
    while i < n
        invariant
            i <= n,
            n == raws@.len(),
            265 * raws@.len() <= u32::MAX,
            lo as int == min_scan(raws@, n as int),
            hi as int == max_scan(raws@, n as int),
            points@.len() == i,
            forall|k: int| 0 <= k < i ==> points@[k]@ == signal_of(raws@)[k],
        decreases n - i,
    {
        let x_milli: u32 = X_STEP_MILLI * (i as u32);
        let p = if lo < hi {
            let raw = raws[i];
            proof {
                lemma_min_scan_le(raws@, n as int, i as int);
                lemma_max_scan_ge(raws@, n as int, i as int);
            }
            Point { x_milli, y_num: (raw - lo) as u32, y_den: (hi - lo) as u32 }
        } else {
            Point { x_milli, y_num: 1, y_den: 2 }
        };
        points.push(p);
        i += 1;
    }
    let sig = Signal { points };
    proof {
        assert(sig@ =~= signal_of(raws@));
    }
    sig
}

/// Extracts the plotted signal from an image: samples the fixed column,
/// selects the channel named by `color_channel`, and normalizes the values
/// to the unit interval. Fails exactly when the image has too few columns
/// or rows for the sampled region.
pub fn get_points(image: &ImageData, color_channel: &str) -> (r: Result<Signal, ErrorKind>)
    requires
        image.wf(),
    ensures
        r is Ok <==> (image.width > SAMPLE_COLUMN && image.height >= SAMPLE_ROWS),
        r is Ok ==> r->Ok_0@ == signal_of(raw_seq(*image, color_channel@)),
        r is Err ==> r->Err_0 == ErrorKind::OutOfBounds,
{
    match sample_column(image, color_channel) {
        Ok(raws) => Ok(normalize_points(&raws)),
        Err(e) => Err(e),
    }
}

/// Law: for every image and a recognized selector, the extracted signal has
/// exactly one point per sampled row, the x-coordinate of point `i` is
/// `265 * i` thousandths of a plotting unit, and the x-coordinates are
/// strictly increasing in sampling order.
pub proof fn lemma_extracted_shape(img: ImageData, ch: Seq<char>)
    requires
        ch == seq!['r'] || ch == seq!['g'],
    ensures
        signal_of(raw_seq(img, ch)).len() == SAMPLE_ROWS,
        forall|i: int|
            0 <= i < SAMPLE_ROWS ==> #[trigger] signal_of(raw_seq(img, ch))[i].0 == 265 * i,
        forall|i: int, j: int|
            0 <= i < j < SAMPLE_ROWS ==> signal_of(raw_seq(img, ch))[i].0 < signal_of(
                raw_seq(img, ch),
            )[j].0,
{
    let sig = signal_of(raw_seq(img, ch));
    assert forall|i: int, j: int| 0 <= i < j < SAMPLE_ROWS implies sig[i].0 < sig[j].0 by {
        assert(265 * i < 265 * j) by (nonlinear_arith)
            requires
                i < j,
        ;
    }
}

/// Law: normalizing a non-degenerate sequence of raw values — one where at
/// least two values differ — yields y-coordinates that all lie in the unit
/// interval, reach 0 at a least raw value and 1 at a greatest raw value, and
/// share one positive denominator.
pub proof fn lemma_normalized_range(raws: Seq<u8>)
    requires
        raws.len() > 0,
        exists|p: int, q: int|
            0 <= p < raws.len() && 0 <= q < raws.len() && raws[p] != raws[q],
    ensures
        forall|i: int|
            0 <= i < raws.len() ==> 0 <= #[trigger] signal_of(raws)[i].1
                && signal_of(raws)[i].1 <= signal_of(raws)[i].2,
        forall|i: int|
            0 <= i < raws.len() ==> #[trigger] signal_of(raws)[i].2 == max_scan(
                raws,
                raws.len() as int,
            ) - min_scan(raws, raws.len() as int),
        forall|i: int| 0 <= i < raws.len() ==> #[trigger] signal_of(raws)[i].2 > 0,
        exists|i: int| 0 <= i < raws.len() && #[trigger] signal_of(raws)[i].1 == 0,
        exists|i: int|
            0 <= i < raws.len() && #[trigger] signal_of(raws)[i].1 == signal_of(raws)[i].2,
{
    let n = raws.len() as int;
    let lo = min_scan(raws, n);
    let hi = max_scan(raws, n);
    assert(lo < hi) by {
        let (p, q) = choose|p: int, q: int| 0 <= p < n && 0 <= q < n && raws[p] != raws[q];
        lemma_min_scan_le(raws, n, p);
        lemma_min_scan_le(raws, n, q);
        lemma_max_scan_ge(raws, n, p);
        lemma_max_scan_ge(raws, n, q);
    }
    assert forall|i: int| 0 <= i < raws.len() implies 0 <= #[trigger] signal_of(raws)[i].1
        && signal_of(raws)[i].1 <= signal_of(raws)[i].2 by {
        lemma_min_scan_le(raws, n, i);
        lemma_max_scan_ge(raws, n, i);
    }
    lemma_min_scan_attained(raws, n);
    let kmin = choose|k: int| 0 <= k < n && raws[k] == min_scan(raws, n);
    assert(signal_of(raws)[kmin].1 == 0);
    lemma_max_scan_attained(raws, n);
    let kmax = choose|k: int| 0 <= k < n && raws[k] == max_scan(raws, n);
    assert(signal_of(raws)[kmax].1 == signal_of(raws)[kmax].2);
}

/// Law: normalizing a degenerate sequence of raw values — all equal — does
/// not divide by the empty range; every point instead takes the midpoint
/// y-coordinate one half.
pub proof fn lemma_degenerate_midpoint(raws: Seq<u8>)
    requires
        raws.len() > 0,
        forall|k: int| 0 <= k < raws.len() ==> #[trigger] raws[k] == raws[0],
    ensures
        forall|i: int|
            0 <= i < raws.len() ==> #[trigger] signal_of(raws)[i] == (265 * i, 1int, 2int),
{
    let n = raws.len() as int;
    lemma_min_scan_attained(raws, n);
    lemma_max_scan_attained(raws, n);
    lemma_min_scan_le(raws, n, 0);
    lemma_max_scan_ge(raws, n, 0);
    assert(min_scan(raws, n) == raws[0]);
    assert(max_scan(raws, n) == raws[0]);
}

/// Law: a selector other than `"r"` or `"g"` contributes nothing — the
/// extracted signal is empty.
pub proof fn lemma_unknown_selector_empty(img: ImageData, ch: Seq<char>)
    requires
        ch != seq!['r'],
        ch != seq!['g'],
    ensures
        signal_of(raw_seq(img, ch)).len() == 0,
{
}

/// Law: extraction is deterministic — any two signals drawn from the same
/// pixels with the same selector are equal, point for point.
pub proof fn lemma_extraction_deterministic(img: ImageData, ch: Seq<char>, s1: Signal, s2: Signal)
    requires
        s1@ == signal_of(raw_seq(img, ch)),
        s2@ == signal_of(raw_seq(img, ch)),
    ensures
        s1@ == s2@,
{
}

} // verus!
