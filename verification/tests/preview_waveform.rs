use lowcat::model::WAVEFORM_BAR_COUNT;
use lowcat::preview_waveform::{
    channel_probe_args, decoded_channels, parse_audio_channels, waveform_bar_index,
    waveform_from_image_pixels, waveform_image_args, waveform_sample_args, UnexpectedDimensions,
};

#[test]
fn waveform_image_pixels_normalize_column_heights() {
    let height = 4;
    let mut pixels = vec![0u8; WAVEFORM_BAR_COUNT * height];
    pixels[3 * WAVEFORM_BAR_COUNT] = 255;
    for y in 2..4 {
        pixels[y * WAVEFORM_BAR_COUNT + 1] = 255;
    }
    for y in 0..4 {
        pixels[y * WAVEFORM_BAR_COUNT + 2] = 255;
    }

    let waveform = waveform_from_image_pixels(&pixels, height).unwrap();

    assert!(waveform[0] > 0);
    assert!(waveform[1] > waveform[0]);
    assert_eq!(waveform[2], 255);
    assert_eq!(waveform[3], 0);
}

#[test]
fn waveform_image_pixels_treat_single_pixel_line_as_silence() {
    let height = 4;
    let mut pixels = vec![0u8; WAVEFORM_BAR_COUNT * height];
    for x in 0..WAVEFORM_BAR_COUNT {
        pixels[2 * WAVEFORM_BAR_COUNT + x] = 255;
    }

    let waveform = waveform_from_image_pixels(&pixels, height).unwrap();

    assert!(waveform.iter().all(|bar| *bar == 0));
}

#[test]
fn bars_take_the_nearest_step() {
    let height = 256;
    let mut pixels = vec![0u8; WAVEFORM_BAR_COUNT * height];
    for y in 0..256 {
        pixels[y * WAVEFORM_BAR_COUNT] = 1;
    }
    for y in 0..100 {
        pixels[y * WAVEFORM_BAR_COUNT + 1] = 1;
    }
    pixels[2] = 1;
    let waveform = waveform_from_image_pixels(&pixels, height).unwrap();
    assert_eq!(waveform[0], 255);
    assert_eq!(waveform[1], ((100f32 / 256.) * 255.).round() as u8);
    assert_eq!(waveform[2], 1);
}

#[test]
fn pictures_of_another_size_are_rejected() {
    assert_eq!(waveform_from_image_pixels(&[0u8; 10], 1), Err(UnexpectedDimensions));
    assert_eq!(waveform_from_image_pixels(&[], 0), Err(UnexpectedDimensions));
}

#[test]
fn channels_are_read_from_the_prober() {
    assert_eq!(parse_audio_channels("2\n"), Some(2));
    assert_eq!(parse_audio_channels("+6"), Some(6));
    assert_eq!(parse_audio_channels(""), None);
    assert_eq!(parse_audio_channels("2 channels"), None);
    assert_eq!(parse_audio_channels("99999999999999999999999"), None);
    assert_eq!(decoded_channels(None), 2);
    assert_eq!(decoded_channels(Some(0)), 1);
    assert_eq!(decoded_channels(Some(6)), 6);
}

#[test]
fn frames_fill_the_bars_in_order() {
    assert_eq!(waveform_bar_index(0, 1000), 0);
    assert_eq!(waveform_bar_index(999, 1000), 255);
    assert_eq!(waveform_bar_index(500, 1000), 128);
    assert_eq!(waveform_bar_index(0, 1), 0);
}

#[test]
fn the_converter_gets_its_arguments() {
    assert_eq!(waveform_image_args("/a b.wav")[4], "/a b.wav");
    assert_eq!(waveform_sample_args("/a.wav", 6)[7], "6");
    assert_eq!(channel_probe_args("/a.wav").last().unwrap(), "/a.wav");
}
