//! Preview waveforms from pictures of a sound's waveform.
use crate::model::{WaveformBinary256, WAVEFORM_BAR_COUNT};
use crate::text::{chars_of, decimal, decimal_text, is_white_space, trim, trimmed};
use vstd::prelude::*;

verus! {

broadcast use vstd::string::group_string_axioms;

/// The height of the picture from which a waveform is made.
pub const WAVEFORM_IMAGE_HEIGHT: usize = 256;

/// A picture of a waveform with unexpected dimensions.
#[derive(Debug, Clone, Copy, PartialEq, Eq, Structural)]
pub struct UnexpectedDimensions;

/// The number of pixels in the column `x` of the first `rows` rows that are not black.
pub open spec fn column_count(pixels: Seq<u8>, x: int, rows: int) -> int
    decreases rows,
{
    if rows <= 0 {
        0
    } else {
        column_count(pixels, x, rows - 1) + if pixels[(rows - 1) * WAVEFORM_BAR_COUNT + x] > 0 {
            1int
        } else {
            0int
        }
    }
}

/// The largest of the first `n` of `counts`, or nothing.
pub open spec fn largest(counts: spec_fn(int) -> int, n: int) -> int
    decreases n,
{
    if n <= 0 {
        0
    } else {
        let before = largest(counts, n - 1);
        if counts(n - 1) > before {
            counts(n - 1)
        } else {
            before
        }
    }
}

/// The height of a bar for `count` out of `most` pixels: the nearest of 255 steps, one half up, and
/// at least one step for a pixel.
pub open spec fn bar_height(count: int, most: int) -> int {
    if count <= 0 {
        0
    } else {
        let nearest = (510 * count + most) / (2 * most);
        if nearest < 1 {
            1
        } else {
            nearest
        }
    }
}

/// The height of the bar `x` for a picture with `height` rows. A picture in which no column has more
/// than one pixel shows silence.
pub open spec fn bar_of(pixels: Seq<u8>, height: int, x: int) -> int {
    let counts = |i: int| column_count(pixels, i, height);
    let most = largest(counts, WAVEFORM_BAR_COUNT as int);
    if most <= 1 {
        0
    } else {
        bar_height(counts(x), most)
    }
}

proof fn lemma_column_count(pixels: Seq<u8>, x: int, rows: int)
    requires
        rows >= 0,
    ensures
        0 <= column_count(pixels, x, rows) <= rows,
    decreases rows,
{
    if rows > 0 {
        lemma_column_count(pixels, x, rows - 1);
    }
}

proof fn lemma_largest(counts: spec_fn(int) -> int, n: int, x: int)
    requires
        0 <= x < n,
    ensures
        counts(x) <= largest(counts, n),
    decreases n,
{
    if x < n - 1 {
        lemma_largest(counts, n - 1, x);
    }
}

proof fn lemma_bar_height(count: int, most: int)
    requires
        0 <= count <= most,
        1 <= most,
    ensures
        0 <= bar_height(count, most) <= 255,
        0 < count ==> 0 <= (510 * count + most) / (2 * most) <= 255,
{
    if count > 0 {
        assert(0 <= (510 * count + most) / (2 * most) <= 255) by (nonlinear_arith)
            requires
                0 < count <= most,
                1 <= most,
        {}
    }
}

/// The waveform that a picture with `height` rows of bytes shows.
pub fn waveform_from_image_pixels(pixels: &[u8], height: usize) -> (r: Result<
    WaveformBinary256,
    UnexpectedDimensions,
>)
    ensures
        r is Err <==> height == 0 || pixels@.len() != WAVEFORM_BAR_COUNT * height,
        r matches Ok(waveform) ==> forall|x: int|
            0 <= x < WAVEFORM_BAR_COUNT ==> #[trigger] waveform@[x] == bar_of(
                pixels@,
                height as int,
                x,
            ),
{
    if height == 0 || pixels.len() % 256 != 0 || pixels.len() / 256 != height {
        return Err(UnexpectedDimensions);
    }
    let ghost counted = |i: int| column_count(pixels@, i, height as int);
    let mut counts: Vec<usize> = Vec::new();
    let mut most: usize = 0;
    let mut x: usize = 0;
    while x < 256
        invariant
            x <= 256,
            pixels@.len() == 256 * height,
            counted == (|i: int| column_count(pixels@, i, height as int)),
            counts@.len() == x,
            forall|i: int| 0 <= i < x ==> #[trigger] counts@[i] == counted(i),
            most == largest(counted, x as int),
            most <= height,
        decreases 256 - x,
    {
        let mut count: usize = 0;
        let mut y: usize = 0;
        while y < height
            invariant
                y <= height,
                x < 256,
                pixels@.len() == 256 * height,
                count <= y,
                count == column_count(pixels@, x as int, y as int),
            decreases height - y,
        {
            assert(y * 256 + x < pixels@.len()) by (nonlinear_arith)
                requires
                    y < height,
                    x < 256,
                    pixels@.len() == 256 * height,
            ;
            assert(y * 256 + x <= usize::MAX && y * 256 <= usize::MAX) by {
                assert(pixels@.len() == pixels.len());
            }
            if pixels[y * 256 + x] > 0 {
                count += 1;
            }
            y += 1;
        }
        counts.push(count);
        if count > most {
            most = count;
        }
        x += 1;
    }
    let mut waveform: WaveformBinary256 = [0u8; 256];
    if most <= 1 {
        return Ok(waveform);
    }
    let mut x: usize = 0;
    while x < 256
        invariant
            x <= 256,
            1 < most <= height,
            counts@.len() == 256,
            counted == (|i: int| column_count(pixels@, i, height as int)),
            most == largest(counted, 256),
            forall|i: int| 0 <= i < 256 ==> #[trigger] counts@[i] == counted(i),
            forall|i: int|
                0 <= i < x ==> #[trigger] waveform@[i] == bar_height(counted(i), most as int),
            forall|i: int| x <= i < 256 ==> #[trigger] waveform@[i] == 0,
        decreases 256 - x,
    {
        let count: usize = counts[x];
        proof {
            lemma_largest(counted, 256, x as int);
            lemma_column_count(pixels@, x as int, height as int);
            assert(counts@[x as int] == counted(x as int));
            lemma_bar_height(count as int, most as int);
        }
        if count > 0 {
            let nearest: u128 = (510 * (count as u128) + (most as u128)) / (2 * (most as u128));
            let height_of_bar: u8 = if nearest < 1 {
                1
            } else {
                nearest as u8
            };
            waveform[x] = height_of_bar;
        }
        x += 1;
    }
    Ok(waveform)
}

/// A waveform that shows a sound has a bar of full height, and every column with a pixel a bar.
pub proof fn lemma_bars(pixels: Seq<u8>, height: int, x: int)
    requires
        0 < height,
        0 <= x < WAVEFORM_BAR_COUNT,
        largest(|i: int| column_count(pixels, i, height), WAVEFORM_BAR_COUNT as int) > 1,
    ensures
        column_count(pixels, x, height) > 0 <==> bar_of(pixels, height, x) > 0,
        column_count(pixels, x, height) == largest(
            |i: int| column_count(pixels, i, height),
            WAVEFORM_BAR_COUNT as int,
        ) ==> bar_of(pixels, height, x) == 255,
        0 <= bar_of(pixels, height, x) <= 255,
{
    let counts = |i: int| column_count(pixels, i, height);
    let most = largest(counts, WAVEFORM_BAR_COUNT as int);
    lemma_column_count(pixels, x, height);
    lemma_largest(counts, WAVEFORM_BAR_COUNT as int, x);
    lemma_bar_height(counts(x), most);
    assert((510 * most + most) / (2 * most) == 255) by (nonlinear_arith)
        requires
            most > 1,
    ;
}

/// The arguments with which the converter draws the waveform of a sound.
pub open spec fn picture_args(path: Seq<char>) -> Seq<Seq<char>> {
    seq![
        "-hide_banner"@,
        "-loglevel"@,
        "error"@,
        "-i"@,
        path,
        "-filter_complex"@,
        "showwavespic=s=256x256:split_channels=0:colors=white:scale=lin:draw=full:filter=average"@,
        "-frames:v"@,
        "1"@,
        "-pix_fmt"@,
        "gray"@,
        "-f"@,
        "rawvideo"@,
        "pipe:1"@,
    ]
}

/// The arguments with which the converter draws the waveform of a sound.
pub fn waveform_image_args(path: &str) -> (r: Vec<String>)
    ensures
        r.deep_view() == picture_args(path@),
{
    let args: Vec<String> = vec![
        "-hide_banner".to_owned(),
        "-loglevel".to_owned(),
        "error".to_owned(),
        "-i".to_owned(),
        path.to_owned(),
        "-filter_complex".to_owned(),
        "showwavespic=s=256x256:split_channels=0:colors=white:scale=lin:draw=full:filter=average".to_owned(),
        "-frames:v".to_owned(),
        "1".to_owned(),
        "-pix_fmt".to_owned(),
        "gray".to_owned(),
        "-f".to_owned(),
        "rawvideo".to_owned(),
        "pipe:1".to_owned(),
    ];
    assert(args.deep_view() =~= picture_args(path@));
    args
}

/// The arguments with which the converter decodes a sound into samples.
pub open spec fn decode_args(path: Seq<char>, channels: nat) -> Seq<Seq<char>> {
    seq![
        "-hide_banner"@,
        "-loglevel"@,
        "error"@,
        "-i"@,
        path,
        "-vn"@,
        "-ac"@,
        decimal(channels),
        "-f"@,
        "f32le"@,
        "-acodec"@,
        "pcm_f32le"@,
        "pipe:1"@,
    ]
}

/// The arguments with which the converter decodes a sound into samples.
pub fn waveform_sample_args(path: &str, channels: usize) -> (r: Vec<String>)
    ensures
        r.deep_view() == decode_args(path@, channels as nat),
{
    let count = decimal_text(channels as u128);
    let args: Vec<String> = vec![
        "-hide_banner".to_owned(),
        "-loglevel".to_owned(),
        "error".to_owned(),
        "-i".to_owned(),
        path.to_owned(),
        "-vn".to_owned(),
        "-ac".to_owned(),
        count,
        "-f".to_owned(),
        "f32le".to_owned(),
        "-acodec".to_owned(),
        "pcm_f32le".to_owned(),
        "pipe:1".to_owned(),
    ];
    assert(args.deep_view() =~= decode_args(path@, channels as nat));
    args
}

/// The arguments with which the prober tells the channels of a sound.
pub open spec fn channel_args(path: Seq<char>) -> Seq<Seq<char>> {
    seq![
        "-v"@,
        "error"@,
        "-select_streams"@,
        "a:0"@,
        "-show_entries"@,
        "stream=channels"@,
        "-of"@,
        "default=noprint_wrappers=1:nokey=1"@,
        path,
    ]
}

/// The arguments with which the prober tells the channels of a sound.
pub fn channel_probe_args(path: &str) -> (r: Vec<String>)
    ensures
        r.deep_view() == channel_args(path@),
{
    let args: Vec<String> = vec![
        "-v".to_owned(),
        "error".to_owned(),
        "-select_streams".to_owned(),
        "a:0".to_owned(),
        "-show_entries".to_owned(),
        "stream=channels".to_owned(),
        "-of".to_owned(),
        "default=noprint_wrappers=1:nokey=1".to_owned(),
        path.to_owned(),
    ];
    assert(args.deep_view() =~= channel_args(path@));
    args
}

/// The number that decimal digits give, or nothing where a character is none.
pub open spec fn digits_value(digits: Seq<char>) -> Option<nat>
    decreases digits.len(),
{
    if digits.len() == 0 {
        Some(0)
    } else {
        let c = digits.last();
        match digits_value(digits.drop_last()) {
            Some(front) => if '0' <= c && c <= '9' {
                Some(front * 10 + (c as nat - '0' as nat) as nat)
            } else {
                None
            },
            None => None,
        }
    }
}

/// The number that a text gives: digits, after a plus sign or not, white space around them aside.
pub open spec fn count_in(text: Seq<char>) -> Option<nat> {
    let bare = trimmed(text);
    let digits = if bare.len() > 0 && bare[0] == '+' {
        bare.skip(1)
    } else {
        bare
    };
    if digits.len() == 0 {
        None
    } else {
        digits_value(digits)
    }
}

proof fn lemma_digits_grow(digits: Seq<char>, i: int)
    requires
        0 <= i <= digits.len(),
    ensures
        digits_value(digits) is Some ==> digits_value(digits.take(i)) is Some && digits_value(
            digits.take(i),
        ).unwrap() <= digits_value(digits).unwrap(),
    decreases digits.len(),
{
    if i < digits.len() {
        lemma_digits_grow(digits.drop_last(), i);
        assert(digits.drop_last().take(i) =~= digits.take(i));
    } else {
        assert(digits.take(i) =~= digits);
    }
}

/// The number of channels that the prober told.
pub fn parse_audio_channels(text: &str) -> (r: Option<usize>)
    ensures
        r is Some <==> (count_in(text@) is Some && count_in(text@).unwrap() <= usize::MAX),
        r matches Some(n) ==> count_in(text@) == Some(n as nat),
{
    let bare = trim(text);
    let chars = chars_of(bare);
    let start: usize = if chars.len() > 0 && chars[0] == '+' {
        1
    } else {
        0
    };
    if start == chars.len() {
        return None;
    }
    let ghost digits = chars@.skip(start as int);
    assert(start == 1 ==> digits =~= trimmed(text@).skip(1));
    assert(start == 0 ==> digits =~= trimmed(text@));
    let mut n: usize = 0;
    let mut i: usize = start;
    assert(digits.take(0) =~= seq![]);
    while i < chars.len()
        invariant
            start <= i <= chars@.len(),
            digits == chars@.skip(start as int),
            count_in(text@) == digits_value(digits),
            digits_value(digits.take(i - start)) == Some(n as nat),
        decreases chars.len() - i,
    {
        let c = chars[i];
        proof {
            let next = digits.take(i - start + 1);
            assert(next.drop_last() =~= digits.take(i - start));
            assert(next.last() == c);
            lemma_digits_grow(digits, i - start + 1);
        }
        if c < '0' || c > '9' {
            return None;
        }
        let digit: usize = (c as u32 - '0' as u32) as usize;
        if n > (usize::MAX - digit) / 10 {
            return None;
        }
        n = n * 10 + digit;
        i += 1;
    }
    assert(digits.take(i - start) =~= digits);
    Some(n)
}

/// The number of channels to decode: as many as the prober told, two where it told none, and one at
/// least.
pub fn decoded_channels(probed: Option<usize>) -> (r: usize)
    ensures
        r == match probed {
            Some(n) => if n == 0 {
                1
            } else {
                n
            },
            None => 2,
        },
{
    match probed {
        Some(n) => if n == 0 {
            1
        } else {
            n
        },
        None => 2,
    }
}

/// The bar that the sound's frame `frame` of `frames` belongs to.
pub open spec fn bar_of_frame(frame: int, frames: int) -> int {
    frame * WAVEFORM_BAR_COUNT / frames
}

/// The bar that the sound's frame `frame` of `frames` belongs to.
pub fn waveform_bar_index(frame: usize, frames: usize) -> (r: usize)
    requires
        frame < frames,
    ensures
        r == bar_of_frame(frame as int, frames as int),
        r < WAVEFORM_BAR_COUNT,
{
    assert(0 <= frame * 256 / (frames as int) < 256 && frame * 256 <= u128::MAX) by (nonlinear_arith)
        requires
            0 <= frame < frames <= u64::MAX,
    {}
    ((frame as u128 * 256) / frames as u128) as usize
}

/// Later frames never belong to earlier bars, and the first one belongs to the first bar.
pub proof fn lemma_bars_ascend(a: int, b: int, frames: int)
    requires
        0 <= a <= b < frames,
    ensures
        bar_of_frame(a, frames) <= bar_of_frame(b, frames) < WAVEFORM_BAR_COUNT,
        bar_of_frame(0, frames) == 0,
{
    assert(a * 256 / frames <= b * 256 / frames && b * 256 / frames < 256 && 0int * 256 / frames == 0)
        by (nonlinear_arith)
        requires
            0 <= a <= b < frames,
    {}
}

/// The rows of a picture in which the column `x` is not black.
pub open spec fn lit_rows(pixels: Seq<u8>, x: int, rows: int) -> Set<int> {
    Set::new(|y: int| 0 <= y < rows && pixels[y * WAVEFORM_BAR_COUNT + x] > 0)
}

/// The pixels that are counted in a column are those that are not black, each once.
pub proof fn lemma_column_is_counted(pixels: Seq<u8>, x: int, rows: int)
    requires
        rows >= 0,
    ensures
        lit_rows(pixels, x, rows).finite(),
        lit_rows(pixels, x, rows).len() == column_count(pixels, x, rows),
    decreases rows,
{
    let all = lit_rows(pixels, x, rows);
    if rows == 0 {
        assert(all =~= Set::<int>::empty());
    } else {
        lemma_column_is_counted(pixels, x, rows - 1);
        let before = lit_rows(pixels, x, rows - 1);
        if pixels[(rows - 1) * WAVEFORM_BAR_COUNT + x] > 0 {
            assert(all =~= before.insert(rows - 1));
        } else {
            assert(all =~= before);
        }
    }
}

/// The largest of some counts is one of them and not below any, unless they are all below zero.
pub proof fn lemma_largest_is_reached(counts: spec_fn(int) -> int, n: int)
    requires
        n >= 0,
    ensures
        forall|x: int| 0 <= x < n ==> #[trigger] counts(x) <= largest(counts, n),
        largest(counts, n) >= 0,
        largest(counts, n) > 0 ==> exists|x: int|
            0 <= x < n && #[trigger] counts(x) == largest(counts, n),
    decreases n,
{
    if n > 0 {
        lemma_largest_is_reached(counts, n - 1);
        if largest(counts, n) > 0 {
            if counts(n - 1) == largest(counts, n) {
            } else {
                let x = choose|x: int|
                    0 <= x < n - 1 && #[trigger] counts(x) == largest(counts, n - 1);
                assert(counts(x) == largest(counts, n));
            }
        }
        assert forall|x: int| 0 <= x < n implies #[trigger] counts(x) <= largest(counts, n) by {
            lemma_largest(counts, n, x);
        }
    }
}

/// Bars grow with their columns and in proportion to them: a bar is the nearest of 255 steps, which
/// the highest column has all of, and at least one step for a pixel.
pub proof fn lemma_bars_are_in_proportion(a: int, b: int, most: int)
    requires
        0 <= a <= b <= most,
        1 <= most,
    ensures
        bar_height(a, most) <= bar_height(b, most),
        a == 0 <==> bar_height(a, most) == 0,
        0 < a ==> bar_height(a, most) == 1 || 510 * a - most <= 2 * most * bar_height(a, most)
            <= 510 * a + most,
        0 < a ==> 510 * a - most <= 2 * most * bar_height(a, most),
        bar_height(most, most) == 255,
{
    if 0 < a {
        let near = (510 * a + most) / (2 * most);
        let far = (510 * b + most) / (2 * most);
        assert(near <= far && 2 * most * near <= 510 * a + most && 510 * a - most <= 2 * most * near)
            by (nonlinear_arith)
            requires
                near == (510 * a + most) / (2 * most),
                far == (510 * b + most) / (2 * most),
                0 < a <= b,
                1 <= most,
        {
            let x = 510 * a + most;
            let y = 510 * b + most;
            let d = 2 * most;
            assert(x == d * (x / d) + x % d && 0 <= x % d < d);
            assert(y == d * (y / d) + y % d && 0 <= y % d < d);
        }
        if near < 1 {
            assert(2 * most * near <= 0 && 2 * most * 1 == 2 * most) by (nonlinear_arith)
                requires
                    near < 1,
                    1 <= most,
            ;
        }
    }
    if 0 < b {
        assert(0 <= (510 * b + most) / (2 * most)) by (nonlinear_arith)
            requires
                0 < b,
                1 <= most,
        ;
    }
    assert((510 * most + most) / (2 * most) == 255) by (nonlinear_arith)
        requires
            1 <= most,
    ;
}

/// A picture's columns make bars in the order of their pixels: a column with no more pixels than
/// another has no higher bar, and each bar is the nearest step to its share of the highest column.
/// Where no column has more than one pixel, there are no bars.
pub proof fn lemma_bars_show_columns(pixels: Seq<u8>, height: int, x: int, y: int)
    requires
        0 < height,
        0 <= x < WAVEFORM_BAR_COUNT,
        0 <= y < WAVEFORM_BAR_COUNT,
    ensures
        ({
            let low = lit_rows(pixels, x, height).len();
            let high = lit_rows(pixels, y, height).len();
            &&& low <= high ==> bar_of(pixels, height, x) <= bar_of(pixels, height, y)
            &&& 1 < high && (forall|i: int|
                0 <= i < WAVEFORM_BAR_COUNT ==> (#[trigger] lit_rows(pixels, i, height)).len()
                    <= high) ==> {
                &&& bar_of(pixels, height, y) == 255
                &&& low == 0 ==> bar_of(pixels, height, x) == 0
                &&& 0 < low ==> bar_of(pixels, height, x) == 1 || 510 * low - high <= 2 * high
                    * bar_of(pixels, height, x) <= 510 * low + high
                &&& 0 < low ==> 510 * low - high <= 2 * high * bar_of(pixels, height, x)
            }
            &&& (forall|i: int|
                0 <= i < WAVEFORM_BAR_COUNT ==> (#[trigger] lit_rows(pixels, i, height)).len() <= 1)
                ==> bar_of(pixels, height, x) == 0
        }),
{
    let counts = |i: int| column_count(pixels, i, height);
    let most = largest(counts, WAVEFORM_BAR_COUNT as int);
    let low = lit_rows(pixels, x, height).len();
    let high = lit_rows(pixels, y, height).len();
    lemma_largest_is_reached(counts, WAVEFORM_BAR_COUNT as int);
    lemma_column_is_counted(pixels, x, height);
    lemma_column_is_counted(pixels, y, height);
    assert(counts(x) == low && counts(y) == high);
    if low <= high && most > 1 {
        lemma_bars_are_in_proportion(low as int, high as int, most);
    }
    if most > 0 {
        let top = choose|i: int| 0 <= i < WAVEFORM_BAR_COUNT && #[trigger] counts(i) == most;
        lemma_column_is_counted(pixels, top, height);
        assert(lit_rows(pixels, top, height).len() == most);
        if 1 < most {
            lemma_bars_are_in_proportion(low as int, most, most);
        }
    }
}

/// The converter is told to draw the whole sound at a path as one gray picture that is as wide as
/// there are bars, and to decode it into samples of the number of channels that is asked for; the
/// prober is asked for the channels of its first stream of sound.
pub proof fn lemma_waveform_tools_are_told(path: Seq<char>, channels: nat)
    ensures
        ({
            let picture = picture_args(path);
            let samples = decode_args(path, channels);
            let probe = channel_args(path);
            &&& picture[3] == "-i"@ && picture[4] == path
            &&& picture[5] == "-filter_complex"@ && picture[6]
                == "showwavespic=s=256x256:split_channels=0:colors=white:scale=lin:draw=full:filter=average"@
            &&& picture[7] == "-frames:v"@ && picture[8] == "1"@
            &&& picture[9] == "-pix_fmt"@ && picture[10] == "gray"@
            &&& picture[11] == "-f"@ && picture[12] == "rawvideo"@
            &&& picture[13] == "pipe:1"@ && picture.len() == 14
            &&& samples[3] == "-i"@ && samples[4] == path && samples[5] == "-vn"@
            &&& samples[6] == "-ac"@ && samples[7] == decimal(channels)
            &&& samples[8] == "-f"@ && samples[9] == "f32le"@
            &&& samples[10] == "-acodec"@ && samples[11] == "pcm_f32le"@
            &&& samples[12] == "pipe:1"@ && samples.len() == 13
            &&& picture[1] == "-loglevel"@ && picture[2] == "error"@
            &&& samples[1] == "-loglevel"@ && samples[2] == "error"@
            &&& probe[2] == "-select_streams"@ && probe[3] == "a:0"@
            &&& probe[4] == "-show_entries"@ && probe[5] == "stream=channels"@
            &&& probe[7] == "default=noprint_wrappers=1:nokey=1"@
            &&& probe[8] == path && probe.len() == 9
        }),
{
}

/// A number is read back from its decimal digits, with a plus sign before them or not.
pub proof fn lemma_count_is_read(n: nat)
    ensures
        digits_value(decimal(n)) == Some(n),
        count_in(decimal(n)) == Some(n),
        count_in(seq!['+'] + decimal(n)) == Some(n),
{
    lemma_digits_are_read(n);
    let digits = decimal(n);
    let signed = seq!['+'] + digits;
    assert(!is_white_space(digits[0]) && !is_white_space(digits.last()));
    assert(signed.last() == digits.last());
    lemma_ends_stay(digits);
    lemma_ends_stay(signed);
    assert(signed.skip(1) =~= digits);
}

proof fn lemma_ends_stay(s: Seq<char>)
    requires
        s.len() > 0,
        !is_white_space(s[0]),
        !is_white_space(s.last()),
    ensures
        trimmed(s) == s,
{
}

proof fn lemma_digits_are_read(n: nat)
    ensures
        decimal(n).len() > 0,
        digits_value(decimal(n)) == Some(n),
        '0' <= decimal(n)[0] <= '9',
        '0' <= decimal(n).last() <= '9',
    decreases n,
{
    if n >= 10 {
        lemma_digits_are_read(n / 10);
        assert(decimal(n).drop_last() =~= decimal(n / 10));
        assert(decimal(n)[0] == decimal(n / 10)[0]);
    } else {
        assert(decimal(n).drop_last() =~= Seq::<char>::empty());
        assert(digits_value(Seq::<char>::empty()) == Some(0nat));
    }
}

/// A frame belongs to the bar in whose share of the sound it lies: the shares of all bars are alike.
pub proof fn lemma_bar_has_its_share(frame: int, frames: int)
    requires
        0 <= frame < frames,
    ensures
        ({
            let bar = bar_of_frame(frame, frames);
            bar * frames <= frame * WAVEFORM_BAR_COUNT < (bar + 1) * frames
        }),
{
    assert({
        let bar = frame * 256 / frames;
        bar * frames <= frame * 256 < (bar + 1) * frames
    }) by (nonlinear_arith)
        requires
            0 <= frame < frames,
    {
        let x = frame * 256;
        assert(x == frames * (x / frames) + x % frames && 0 <= x % frames < frames);
    }
}

/// A sound is decoded into the channels that it was said to have, and into some in any case.
pub proof fn lemma_decoded_channels(probed: Option<usize>, channels: usize)
    requires
        call_ensures(decoded_channels, (probed,), channels),
    ensures
        channels > 0,
        probed matches Some(n) ==> n > 0 ==> channels == n,
        probed is None ==> channels == 2,
{
}

} // verus!
