use lowcat::downloader::{
    classify_ytdlp_error, dropped_youtube_url, extract_youtube_url, finish_download,
    next_download_action, parse_ytdlp_destination_label, parse_ytdlp_output_path,
    parse_ytdlp_progress, parse_ytdlp_title, start_error, temp_download_dir, ytdlp_args,
    ChildStatus, DownloadAction, DownloadCancel, DownloadError, DownloadErrorKind, DownloadLog,
    DownloadProgressEvent, DownloadRequest, ProcessLine, StreamKind,
};
use lowcat::model::{AudioFormat, Category};

fn percent(line: &str) -> Option<f32> {
    parse_ytdlp_progress(line).map(|text| text.parse::<f32>().unwrap().clamp(0., 100.))
}

#[test]
fn extracts_watch_url_from_clipboard_text() {
    assert_eq!(
        extract_youtube_url("watch this https://www.youtube.com/watch?v=abc123").unwrap(),
        "https://www.youtube.com/watch?v=abc123"
    );
}

#[test]
fn normalizes_bare_youtu_be_url() {
    assert_eq!(extract_youtube_url("youtu.be/abc123").unwrap(), "https://youtu.be/abc123");
}

#[test]
fn rejects_non_youtube_urls() {
    assert_eq!(
        extract_youtube_url("https://example.com/video").unwrap_err().kind,
        DownloadErrorKind::InvalidUrl
    );
}

#[test]
fn parses_ytdlp_download_progress() {
    assert_eq!(
        percent("[download]  42.7% of 3.00MiB at 1.00MiB/s ETA 00:01"),
        Some(42.7)
    );
    assert_eq!(percent("[download] 100% of 3.00MiB"), Some(100.));
    assert_eq!(percent("lowcat_progress:  8.2%"), Some(8.2));
    assert_eq!(percent("[ExtractAudio] Destination: track.opus"), None);
}

#[test]
fn clamps_ytdlp_download_progress() {
    assert_eq!(percent("[download] 100.5% of 3.00MiB"), Some(100.));
}

#[test]
fn parses_lowcat_print_markers() {
    assert_eq!(parse_ytdlp_title("lowcat_title: Test Track"), Some("Test Track"));
    assert_eq!(
        parse_ytdlp_output_path("lowcat_file:/tmp/Test Track.opus"),
        Some("/tmp/Test Track.opus")
    );
    assert_eq!(
        parse_ytdlp_destination_label("[download] Destination: /tmp/Test Track.webm"),
        Some("Test Track".to_string())
    );
}

#[test]
fn classifies_unavailable_ytdlp_errors() {
    assert_eq!(
        classify_ytdlp_error("ERROR: [youtube] abc: Video unavailable").kind,
        DownloadErrorKind::Unavailable
    );
    assert_eq!(
        classify_ytdlp_error("ERROR: [youtube] abc: Private video").kind,
        DownloadErrorKind::Unavailable
    );
}

#[test]
fn keeps_generic_ytdlp_errors_short() {
    let error = classify_ytdlp_error("ERROR: a very long implementation detail");
    assert_eq!(error.kind, DownloadErrorKind::Failed);
    assert_eq!(error.message, "Download failed");
}

#[test]
fn each_download_error_has_its_text() {
    assert_eq!(extract_youtube_url("  ").unwrap_err().message, "Clipboard has no text");
    assert_eq!(extract_youtube_url(" ").unwrap_err().kind, DownloadErrorKind::ClipboardEmpty);
    assert_eq!(
        DownloadError::missing_category_folder(Category::Sfx).message,
        "SFX folder not set"
    );
    assert_eq!(DownloadError::invalid_url().message, "No YouTube link in clipboard");
    assert_eq!(DownloadError::canceled().kind, DownloadErrorKind::Canceled);
    assert_eq!(DownloadError::unavailable().message, "Video unavailable");
    assert_eq!(DownloadError::failed("no").message, "no");
    assert_eq!(start_error(true).kind, DownloadErrorKind::ToolMissing);
    assert_eq!(start_error(false).kind, DownloadErrorKind::Failed);
}

#[test]
fn found_links_are_found_again() {
    let link = extract_youtube_url("<youtube.com/shorts/xyz>").unwrap();
    assert_eq!(link, "https://youtube.com/shorts/xyz");
    assert_eq!(extract_youtube_url(&link).unwrap(), link);
}

#[test]
fn the_first_dropped_text_with_a_link_counts() {
    let texts = vec!["nothing".to_string(), "see youtu.be/abc".to_string()];
    assert_eq!(dropped_youtube_url(&texts), Some("https://youtu.be/abc".to_string()));
    assert_eq!(dropped_youtube_url(&vec![]), None);
}

fn line(stream: StreamKind, text: &str) -> ProcessLine {
    ProcessLine { stream, text: text.to_string() }
}

#[test]
fn the_last_written_path_counts() {
    let mut log = DownloadLog::new();
    log.apply_ytdlp_line(&line(StreamKind::Stdout, "lowcat_file:/tmp/a.opus"));
    let events = log.apply_ytdlp_line(&line(StreamKind::Stdout, "lowcat_title: Song"));
    assert_eq!(events, vec![DownloadProgressEvent::Label("Song".to_string())]);
    log.apply_ytdlp_line(&line(StreamKind::Stdout, "lowcat_file:/tmp/b.opus"));
    assert_eq!(log.output_path, Some("/tmp/b.opus".to_string()));
    let output = finish_download(false, true, log).unwrap();
    assert_eq!(output.path, "/tmp/b.opus");
}

#[test]
fn downloads_end_as_they_went() {
    let mut log = DownloadLog::new();
    log.apply_ytdlp_line(&line(StreamKind::Stderr, "ERROR: Private video"));
    let error = finish_download(false, false, log).unwrap_err();
    assert_eq!(error.kind, DownloadErrorKind::Unavailable);
    let error = finish_download(true, true, DownloadLog::new()).unwrap_err();
    assert_eq!(error.kind, DownloadErrorKind::Canceled);
    let error = finish_download(false, true, DownloadLog::new()).unwrap_err();
    assert_eq!(error.message, "Download failed");
    match next_download_action(true, ChildStatus::Running) {
        DownloadAction::Abort(error) => assert_eq!(error.kind, DownloadErrorKind::Canceled),
        _ => panic!("a canceled download goes on"),
    }
    assert!(matches!(
        next_download_action(false, ChildStatus::Running),
        DownloadAction::ReadLine
    ));
    assert!(matches!(
        next_download_action(false, ChildStatus::Exited(true)),
        DownloadAction::Finish(true)
    ));
}

#[test]
fn clones_share_the_cancel_flag() {
    let first = DownloadCancel::default();
    let second = first.clone();
    let third = second.clone();
    let apart = DownloadCancel::default();
    for flag in [&first, &second, &third, &apart] {
        assert!(!flag.is_canceled());
    }
    second.cancel();
    for flag in [&first, &second, &third] {
        assert!(flag.is_canceled());
    }
    assert!(first.clone().is_canceled());
    first.cancel();
    third.cancel();
    for flag in [&first, &second, &third] {
        assert!(flag.is_canceled());
    }
    assert!(!apart.is_canceled());
}

#[test]
fn the_downloader_gets_its_arguments() {
    let request = DownloadRequest {
        category: Category::Music,
        url: "https://youtu.be/abc".to_string(),
        folder: "/music".to_string(),
        format: AudioFormat::Flac,
    };
    let folder = temp_download_dir("/music", 7, 12);
    assert_eq!(folder, "/music/.lowcat-download-7-12");
    let args = ytdlp_args(&request, &folder);
    assert!(args.contains(&"flac".to_string()));
    assert_eq!(args.last().unwrap(), "https://youtu.be/abc");
}

#[test]
fn only_numbers_tell_progress() {
    assert_eq!(percent("lowcat_progress: N/A%"), None);
    assert_eq!(percent("[download] done % of all"), None);
    assert_eq!(percent("lowcat_progress:-5%"), Some(0.));
}

#[test]
fn a_found_link_is_found_again() {
    for text in ["look: <youtu.be/abc>, it is", "(HTTPS://m.youtube.com/shorts/x)"] {
        let link = extract_youtube_url(text).unwrap();
        assert_eq!(extract_youtube_url(&link).unwrap(), link);
    }
}
