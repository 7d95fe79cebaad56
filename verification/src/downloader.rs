//! Downloads: links in pasted text, the downloader's output, and how a download ends.
use crate::model::{AudioFormat, Category};
use crate::number::{is_number, stands_for_number};
use crate::path::{file_stem, join, joined, lemma_stem_and_extension, stem_of};
use crate::text::{ascii_lower, begins_with, contains_text, decimal, decimal_text};
use crate::text::{equal_ignoring_ascii_case, first_index, lemma_first_index, occurs_in};
use crate::text::{same_text, split_once, split_white_space, starts_with, strip_prefix};
use crate::text::{to_ascii_lower, trim, trim_class, trim_in, trim_start_class, trim_start_in};
use crate::text::{is_free_of, is_link_wrapper, is_white_space, lemma_bare_is_one_word};
use crate::text::{lemma_occurs, lemma_trim_again, trim_end_in};
use crate::text::{lemma_trim_keeps_free, lemma_words_are_bare, trimmed, words, CharClass};
use std::sync::atomic::{AtomicBool, Ordering};
use std::sync::Arc;
use vstd::prelude::*;

verus! {

broadcast use vstd::string::group_string_axioms;

/// A download to be made.
#[derive(Debug)]
pub struct DownloadRequest {
    pub category: Category,
    pub url: String,
    pub folder: String,
    pub format: AudioFormat,
}

/// A download to be made, with the flag by which it is given up.
#[derive(Debug)]
pub struct DownloadJob {
    pub request: DownloadRequest,
    pub cancel: DownloadCancel,
}

/// The file that a download wrote.
#[derive(Debug)]
pub struct DownloadOutput {
    pub path: String,
}

/// What a running download tells: a label, or how far it is, in percent as the downloader wrote it.
#[derive(Debug, PartialEq, Eq)]
pub enum DownloadProgressEvent {
    Label(String),
    Percent(String),
}

/// The mathematical value of a [`DownloadProgressEvent`].
#[verifier::ext_equal]
pub ghost enum EventView {
    Label(Seq<char>),
    Percent(Seq<char>),
}

impl DeepView for DownloadProgressEvent {
    type V = EventView;

    open spec fn deep_view(&self) -> EventView {
        match self {
            DownloadProgressEvent::Label(text) => EventView::Label(text@),
            DownloadProgressEvent::Percent(text) => EventView::Percent(text@),
        }
    }
}

/// Why a download failed.
#[derive(Debug, Clone, Copy, PartialEq, Eq, Structural)]
pub enum DownloadErrorKind {
    ClipboardEmpty,
    InvalidUrl,
    MissingCategoryFolder,
    ToolMissing,
    Canceled,
    Unavailable,
    Failed,
}

/// A failed download, with a text for users.
#[derive(Debug)]
pub struct DownloadError {
    pub kind: DownloadErrorKind,
    pub message: String,
}

impl Clone for DownloadError {
    fn clone(&self) -> (r: Self)
        ensures
            r.kind == self.kind,
            r.message@ == self.message@,
    {
        DownloadError { kind: self.kind, message: self.message.clone() }
    }
}

impl DownloadError {
    /// Whether this is an error of the kind `kind` with the text `message`.
    pub open spec fn is(self, kind: DownloadErrorKind, message: Seq<char>) -> bool {
        self.kind == kind && self.message@ == message
    }

    pub fn clipboard_empty() -> (r: Self)
        ensures
            r.is(DownloadErrorKind::ClipboardEmpty, "Clipboard has no text"@),
    {
        Self::new(DownloadErrorKind::ClipboardEmpty, "Clipboard has no text")
    }

    pub fn invalid_url() -> (r: Self)
        ensures
            r.is(DownloadErrorKind::InvalidUrl, "No YouTube link in clipboard"@),
    {
        Self::new(DownloadErrorKind::InvalidUrl, "No YouTube link in clipboard")
    }

    pub fn missing_category_folder(category: Category) -> (r: Self)
        ensures
            r.is(
                DownloadErrorKind::MissingCategoryFolder,
                category.label_text() + " folder not set"@,
            ),
    {
        let mut message = category.label().to_owned();
        message.append(" folder not set");
        DownloadError { kind: DownloadErrorKind::MissingCategoryFolder, message }
    }

    pub fn tool_missing() -> (r: Self)
        ensures
            r.is(DownloadErrorKind::ToolMissing, "yt-dlp not found"@),
    {
        Self::new(DownloadErrorKind::ToolMissing, "yt-dlp not found")
    }

    pub fn canceled() -> (r: Self)
        ensures
            r.is(DownloadErrorKind::Canceled, "Download canceled"@),
    {
        Self::new(DownloadErrorKind::Canceled, "Download canceled")
    }

    pub fn unavailable() -> (r: Self)
        ensures
            r.is(DownloadErrorKind::Unavailable, "Video unavailable"@),
    {
        Self::new(DownloadErrorKind::Unavailable, "Video unavailable")
    }

    pub fn failed(message: &str) -> (r: Self)
        ensures
            r.is(DownloadErrorKind::Failed, message@),
    {
        Self::new(DownloadErrorKind::Failed, message)
    }

    fn new(kind: DownloadErrorKind, message: &str) -> (r: Self)
        ensures
            r.is(kind, message@),
    {
        DownloadError { kind, message: message.to_owned() }
    }
}

/// What a running download shows: a label, and how far it is, in percent as the downloader wrote it.
#[derive(Debug)]
pub struct DownloadStatus {
    pub category: Category,
    pub label: String,
    pub percent: String,
}

/// The state of the one download that there may be.
#[derive(Debug)]
pub enum DownloadState {
    Idle,
    Running(DownloadStatus),
    Error(DownloadError),
}

/// The mathematical value of a [`DownloadState`].
#[verifier::ext_equal]
pub ghost enum DownloadStateView {
    Idle,
    Running { category: Category, label: Seq<char>, percent: Seq<char> },
    Error { kind: DownloadErrorKind, message: Seq<char> },
}

impl DeepView for DownloadState {
    type V = DownloadStateView;

    open spec fn deep_view(&self) -> DownloadStateView {
        match self {
            DownloadState::Idle => DownloadStateView::Idle,
            DownloadState::Running(status) => DownloadStateView::Running {
                category: status.category,
                label: status.label@,
                percent: status.percent@,
            },
            DownloadState::Error(error) => DownloadStateView::Error {
                kind: error.kind,
                message: error.message@,
            },
        }
    }
}

/// A flag by which a download is given up. Its clones share it: what one of them sets, all of them
/// read, on whatever thread they are.
#[derive(Debug)]
pub struct DownloadCancel {
    canceled: Arc<AtomicBool>,
}

impl Default for DownloadCancel {
    /// The flag of a download that is to go on.
    fn default() -> (r: Self) {
        DownloadCancel { canceled: Arc::new(AtomicBool::new(false)) }
    }
}

impl Clone for DownloadCancel {
    /// The same flag.
    fn clone(&self) -> (r: Self)
        ensures
            r == *self,
    {
        DownloadCancel { canceled: self.canceled.clone() }
    }
}

impl DownloadCancel {
    /// Cancels the download, for every clone. What the flag holds changes behind a shared
    /// reference, so no clause speaks of it.
    pub fn cancel(&self) {
        self.canceled.store(true, Ordering::SeqCst);
    }

    /// Whether the download was canceled through any clone. The answer depends on when it is
    /// asked, so no clause speaks of it.
    pub fn is_canceled(&self) -> (r: bool) {
        self.canceled.load(Ordering::SeqCst)
    }
}

/// What follows `http://` or `https://` in a link, the case of letters aside.
pub open spec fn without_scheme(link: Seq<char>) -> Option<Seq<char>> {
    if link.len() >= 7 && equal_ignoring_ascii_case(link.take(7), "http://"@) {
        Some(link.skip(7))
    } else if link.len() >= 8 && equal_ignoring_ascii_case(link.take(8), "https://"@) {
        Some(link.skip(8))
    } else {
        None
    }
}

/// Whether `token` begins with a host of YouTube and a `/`, the case of letters aside.
pub open spec fn begins_with_host(token: Seq<char>) -> bool {
    let lower = ascii_lower(token);
    ||| begins_with(lower, "youtube.com/"@)
    ||| begins_with(lower, "www.youtube.com/"@)
    ||| begins_with(lower, "m.youtube.com/"@)
    ||| begins_with(lower, "music.youtube.com/"@)
    ||| begins_with(lower, "youtu.be/"@)
}

/// What precedes the first `c` in `s`, or all of `s`.
pub open spec fn before_char(s: Seq<char>, c: char) -> Seq<char> {
    s.take(first_index(s, c))
}

/// What follows the first `c` in `s`, or nothing.
pub open spec fn after_char(s: Seq<char>, c: char) -> Seq<char> {
    if s.contains(c) {
        s.skip(first_index(s, c) + 1)
    } else {
        seq![]
    }
}

/// Whether a link without its scheme leads to a video: its host, a port aside, is one of
/// YouTube's, and its path one of those of videos.
pub open spec fn is_video_address(rest: Seq<char>) -> bool {
    let host = ascii_lower(before_char(before_char(rest, '/'), ':'));
    let path = after_char(rest, '/');
    if host == "youtu.be"@ {
        path.len() > 0
    } else if host == "youtube.com"@ || host == "www.youtube.com"@ || host == "m.youtube.com"@
        || host == "music.youtube.com"@ {
        ||| begins_with(path, "watch?"@)
        ||| begins_with(path, "shorts/"@)
        ||| begins_with(path, "embed/"@)
        ||| begins_with(path, "live/"@)
    } else {
        false
    }
}

/// The link that a word of pasted text stands for, if it leads to a video.
pub open spec fn link_in(word: Seq<char>) -> Option<Seq<char>> {
    let token = trimmed(trim_in(word, CharClass::LinkWrapper));
    let candidate = if without_scheme(token) is Some {
        Some(token)
    } else if begins_with_host(token) {
        Some("https://"@ + token)
    } else {
        None
    };
    match candidate {
        Some(link) => match without_scheme(link) {
            Some(rest) => if is_video_address(rest) {
                Some(link)
            } else {
                None
            },
            None => None,
        },
        None => None,
    }
}

/// The first link among `words`.
pub open spec fn first_link(words: Seq<Seq<char>>) -> Option<Seq<char>>
    decreases words.len(),
{
    if words.len() == 0 {
        None
    } else if link_in(words[0]) is Some {
        link_in(words[0])
    } else {
        first_link(words.drop_first())
    }
}

/// Strips the scheme of a link.
fn strip_http_scheme(value: &str) -> (r: Option<&str>)
    ensures
        r is Some <==> without_scheme(value@) is Some,
        r matches Some(rest) ==> without_scheme(value@) == Some(rest@),
{
    proof {
        reveal_strlit("http://");
        reveal_strlit("https://");
    }
    let size = value.unicode_len();
    if size >= 7 {
        let head = value.substring_char(0, 7);
        assert(head@ =~= value@.take(7));
        if crate::text::same_ignoring_ascii_case(head, "http://") {
            assert(value@.subrange(7, size as int) =~= value@.skip(7));
            return Some(value.substring_char(7, size));
        }
    }
    if size >= 8 {
        let head = value.substring_char(0, 8);
        assert(head@ =~= value@.take(8));
        if crate::text::same_ignoring_ascii_case(head, "https://") {
            assert(value@.subrange(8, size as int) =~= value@.skip(8));
            return Some(value.substring_char(8, size));
        }
    }
    None
}

/// Whether `value` begins with a host of YouTube.
fn starts_with_youtube_host(value: &str) -> (r: bool)
    ensures
        r == begins_with_host(value@),
{
    let lower = to_ascii_lower(value);
    let lower = lower.as_str();
    starts_with(lower, "youtube.com/") || starts_with(lower, "www.youtube.com/") || starts_with(
        lower,
        "m.youtube.com/",
    ) || starts_with(lower, "music.youtube.com/") || starts_with(lower, "youtu.be/")
}

/// Whether a link leads to a video.
fn is_youtube_url(value: &str) -> (r: bool)
    ensures
        r == (without_scheme(value@) matches Some(rest) && is_video_address(rest)),
{
    match strip_http_scheme(value) {
        Some(rest) => {
            proof {
                lemma_first_index(rest@, '/');
                lemma_first_index(before_char(rest@, '/'), ':');
            }
            let (host, path) = match split_once(rest, '/') {
                Some((host, path)) => (host, path),
                None => {
                    assert(rest@.take(rest@.len() as int) =~= rest@);
                    proof {
                        reveal_strlit("");
                        assert(""@ =~= seq![]);
                    }
                    (rest, "")
                },
            };
            assert(host@ == before_char(rest@, '/'));
            assert(path@ == after_char(rest@, '/'));
            let name = match split_once(host, ':') {
                Some((name, _)) => name,
                None => {
                    assert(host@.take(host@.len() as int) =~= host@);
                    host
                },
            };
            assert(name@ == before_char(host@, ':'));
            let lower = to_ascii_lower(name);
            let lower = lower.as_str();
            if same_text(lower, "youtu.be") {
                path.unicode_len() > 0
            } else if same_text(lower, "youtube.com") || same_text(lower, "www.youtube.com")
                || same_text(lower, "m.youtube.com") || same_text(lower, "music.youtube.com") {
                starts_with(path, "watch?") || starts_with(path, "shorts/") || starts_with(
                    path,
                    "embed/",
                ) || starts_with(path, "live/")
            } else {
                false
            }
        },
        None => false,
    }
}

/// The link that a word of pasted text stands for.
fn normalize_youtube_url(word: &str) -> (r: Option<String>)
    ensures
        r is Some <==> link_in(word@) is Some,
        r matches Some(link) ==> link_in(word@) == Some(link@),
{
    let token = trim(trim_class(word, CharClass::LinkWrapper));
    let candidate = if strip_http_scheme(token).is_some() {
        token.to_owned()
    } else if starts_with_youtube_host(token) {
        let mut link = "https://".to_owned();
        link.append(token);
        link
    } else {
        return None;
    };
    if is_youtube_url(candidate.as_str()) {
        Some(candidate)
    } else {
        None
    }
}

/// The first link to a video in `text`.
pub fn extract_youtube_url(text: &str) -> (r: Result<String, DownloadError>)
    ensures
        match r {
            Ok(link) => trimmed(text@).len() > 0 && first_link(words(text@)) == Some(link@),
            Err(error) => if trimmed(text@).len() == 0 {
                error.is(DownloadErrorKind::ClipboardEmpty, "Clipboard has no text"@)
            } else {
                first_link(words(text@)) is None && error.is(
                    DownloadErrorKind::InvalidUrl,
                    "No YouTube link in clipboard"@,
                )
            },
        },
{
    if trim(text).unicode_len() == 0 {
        return Err(DownloadError::clipboard_empty());
    }
    let tokens = split_white_space(text);
    let ghost views = tokens.deep_view();
    let mut i: usize = 0;
    assert(views.skip(0) =~= views);
    while i < tokens.len()
        invariant
            i <= tokens@.len(),
            views == tokens.deep_view(),
            views == words(text@),
            trimmed(text@).len() > 0,
            first_link(views) == first_link(views.skip(i as int)),
        decreases tokens.len() - i,
    {
        assert(views.skip(i as int)[0] == tokens@[i as int]@);
        match normalize_youtube_url(tokens[i].as_str()) {
            Some(link) => {
                return Ok(link);
            },
            None => {},
        }
        assert(views.skip(i as int).drop_first() =~= views.skip(i + 1));
        i += 1;
    }
    Err(DownloadError::invalid_url())
}

/// A link that was found in a text leads to a video, and is found again in a text that holds
/// nothing else.
pub proof fn lemma_found_link_is_found(text: Seq<char>, link: Seq<char>)
    requires
        first_link(words(text)) == Some(link),
    ensures
        trimmed(link).len() > 0,
        first_link(words(link)) == Some(link),
        without_scheme(link) matches Some(rest) && is_video_address(rest),
{
    let i = lemma_first_link(words(text));
    lemma_words_are_bare(text, i);
    lemma_link_is_bare(words(text)[i]);
    lemma_bare_is_one_word(link);
    assert(CharClass::WhiteSpace.has(link[0]) == is_white_space(link[0]));
    assert(words(link)[0] == link);
}

/// The link that is found is that of one of the words.
proof fn lemma_first_link(words: Seq<Seq<char>>) -> (i: int)
    requires
        first_link(words) is Some,
    ensures
        0 <= i < words.len(),
        link_in(words[i]) == first_link(words),
    decreases words.len(),
{
    if link_in(words[0]) is Some {
        0
    } else {
        let i = lemma_first_link(words.drop_first());
        assert(words.drop_first()[i] == words[i + 1]);
        i + 1
    }
}

/// A link in a word without white space has none either, and stands for itself.
proof fn lemma_link_is_bare(word: Seq<char>)
    requires
        is_free_of(word, CharClass::WhiteSpace),
        link_in(word) is Some,
    ensures
        link_in(word).unwrap().len() > 0,
        is_free_of(link_in(word).unwrap(), CharClass::WhiteSpace),
        link_in(link_in(word).unwrap()) == link_in(word),
{
    let bare = trim_in(word, CharClass::LinkWrapper);
    let token = trimmed(bare);
    let link = link_in(word).unwrap();
    lemma_trim_keeps_free(word, CharClass::LinkWrapper, CharClass::WhiteSpace);
    lemma_trim_again(word, CharClass::LinkWrapper);
    if bare.len() > 0 {
        assert(!CharClass::WhiteSpace.has(bare[0]) && !CharClass::WhiteSpace.has(bare.last()));
    }
    assert(token == bare);
    reveal_strlit("https://");
    if link != token {
        reveal_strlit("youtube.com/");
        reveal_strlit("www.youtube.com/");
        reveal_strlit("m.youtube.com/");
        reveal_strlit("music.youtube.com/");
        reveal_strlit("youtu.be/");
        assert(token.len() > 0);
        assert(link.last() == token.last());
        assert(link[0] == 'h');
        assert forall|i: int| 0 <= i < link.len() implies !CharClass::WhiteSpace.has(
            #[trigger] link[i],
        ) by {
            if i >= 8 {
                assert(link[i] == token[i - 8]);
            } else {
                assert(link[i] == "https://"@[i]);
            }
        }
    }
    assert(!CharClass::WhiteSpace.has(link[0]) && !CharClass::WhiteSpace.has(link.last()));
    assert(trim_in(link, CharClass::LinkWrapper) == link);
    assert(trimmed(link) == link);
}

/// What follows `marker` at the start of a line, without white space around it, unless blank.
pub open spec fn marked(line: Seq<char>, marker: Seq<char>) -> Option<Seq<char>> {
    if begins_with(line, marker) && trimmed(line.skip(marker.len() as int)).len() > 0 {
        Some(trimmed(line.skip(marker.len() as int)))
    } else {
        None
    }
}

/// The text behind a marker.
fn parse_marked<'a>(line: &'a str, marker: &str) -> (r: Option<&'a str>)
    ensures
        r is Some <==> marked(line@, marker@) is Some,
        r matches Some(text) ==> marked(line@, marker@) == Some(text@),
{
    match strip_prefix(line, marker) {
        Some(rest) => {
            let text = trim(rest);
            if text.unicode_len() > 0 {
                Some(text)
            } else {
                None
            }
        },
        None => None,
    }
}

/// The title that a line of the downloader announces.
pub fn parse_ytdlp_title(line: &str) -> (r: Option<&str>)
    ensures
        r is Some <==> marked(line@, "lowcat_title:"@) is Some,
        r matches Some(title) ==> marked(line@, "lowcat_title:"@) == Some(title@),
{
    parse_marked(line, "lowcat_title:")
}

/// The path of the file that a line of the downloader announces.
pub fn parse_ytdlp_output_path(line: &str) -> (r: Option<&str>)
    ensures
        r is Some <==> marked(line@, "lowcat_file:"@) is Some,
        r matches Some(path) ==> marked(line@, "lowcat_file:"@) == Some(path@),
{
    parse_marked(line, "lowcat_file:")
}

/// The path that a line of the downloader names as a destination.
pub open spec fn destination(line: Seq<char>) -> Option<Seq<char>> {
    if begins_with(line, "[download] Destination:"@) {
        Some(trimmed(line.skip("[download] Destination:"@.len() as int)))
    } else if begins_with(line, "[ExtractAudio] Destination:"@) {
        Some(trimmed(line.skip("[ExtractAudio] Destination:"@.len() as int)))
    } else {
        None
    }
}

/// The label for a destination: the stem of its file name.
pub open spec fn destination_label(line: Seq<char>) -> Option<Seq<char>> {
    match destination(line) {
        Some(path) => match stem_of(path) {
            Some(stem) => if trimmed(stem).len() > 0 {
                Some(trimmed(stem))
            } else {
                None
            },
            None => None,
        },
        None => None,
    }
}

/// The label for the destination that a line of the downloader names.
pub fn parse_ytdlp_destination_label(line: &str) -> (r: Option<String>)
    ensures
        r is Some <==> destination_label(line@) is Some,
        r matches Some(label) ==> destination_label(line@) == Some(label@),
{
    let raw_path = match strip_prefix(line, "[download] Destination:") {
        Some(rest) => trim(rest),
        None => match strip_prefix(line, "[ExtractAudio] Destination:") {
            Some(rest) => trim(rest),
            None => {
                return None;
            },
        },
    };
    match file_stem(raw_path) {
        Some(stem) => {
            let label = trim(stem.as_str());
            if label.unicode_len() > 0 {
                Some(label.to_owned())
            } else {
                None
            }
        },
        None => None,
    }
}

/// The number before the first `%`, without white space around it.
pub open spec fn percent_text(raw: Seq<char>) -> Option<Seq<char>> {
    if raw.contains('%') && is_number(trimmed(before_char(raw, '%'))) {
        Some(trimmed(before_char(raw, '%')))
    } else {
        None
    }
}

/// How far a line of the downloader says it is, in percent as it wrote it.
pub open spec fn progress_text(line: Seq<char>) -> Option<Seq<char>> {
    if begins_with(line, "lowcat_progress:"@) {
        percent_text(line.skip("lowcat_progress:"@.len() as int))
    } else if begins_with(line, "[download]"@) {
        percent_text(
            trim_start_in(line.skip("[download]"@.len() as int), CharClass::WhiteSpace),
        )
    } else {
        None
    }
}

/// The number before the first `%`.
fn parse_percent(raw: &str) -> (r: Option<&str>)
    ensures
        r is Some <==> percent_text(raw@) is Some,
        r matches Some(text) ==> percent_text(raw@) == Some(text@),
{
    match split_once(raw, '%') {
        Some((number, _)) => {
            let number = trim(number);
            if stands_for_number(number) {
                Some(number)
            } else {
                None
            }
        },
        None => None,
    }
}

/// How far a line of the downloader says it is, in percent as it wrote it.
pub fn parse_ytdlp_progress(line: &str) -> (r: Option<&str>)
    ensures
        r is Some <==> progress_text(line@) is Some,
        r matches Some(text) ==> progress_text(line@) == Some(text@),
{
    match strip_prefix(line, "lowcat_progress:") {
        Some(raw) => parse_percent(raw),
        None => match strip_prefix(line, "[download]") {
            Some(rest) => parse_percent(trim_start_class(rest, CharClass::WhiteSpace)),
            None => None,
        },
    }
}

/// Whether the downloader says that a video cannot be had.
pub open spec fn says_unavailable(stderr: Seq<char>) -> bool {
    let lower = ascii_lower(stderr);
    ||| occurs_in(lower, "private video"@)
    ||| occurs_in(lower, "video unavailable"@)
    ||| occurs_in(lower, "this video is unavailable"@)
    ||| occurs_in(lower, "has been removed"@)
    ||| occurs_in(lower, "has been deleted"@)
    ||| occurs_in(lower, "account has been terminated"@)
}

/// The error that the downloader's messages amount to.
pub fn classify_ytdlp_error(stderr: &str) -> (r: DownloadError)
    ensures
        says_unavailable(stderr@) ==> r.is(
            DownloadErrorKind::Unavailable,
            "Video unavailable"@,
        ),
        !says_unavailable(stderr@) ==> r.is(DownloadErrorKind::Failed, "Download failed"@),
{
    let lower = to_ascii_lower(stderr);
    let lower = lower.as_str();
    if contains_text(lower, "private video") || contains_text(lower, "video unavailable")
        || contains_text(lower, "this video is unavailable") || contains_text(
        lower,
        "has been removed",
    ) || contains_text(lower, "has been deleted") || contains_text(
        lower,
        "account has been terminated",
    ) {
        DownloadError::unavailable()
    } else {
        DownloadError::failed("Download failed")
    }
}

/// Where a line of the downloader was written.
#[derive(Debug, Clone, Copy, PartialEq, Eq, Structural)]
pub enum StreamKind {
    Stdout,
    Stderr,
}

/// A line of the downloader.
#[derive(Debug)]
pub struct ProcessLine {
    pub stream: StreamKind,
    pub text: String,
}

/// What is known of a download from the lines so far.
#[derive(Debug)]
pub struct DownloadLog {
    pub output_path: Option<String>,
    pub error_text: String,
}

/// The mathematical value of a [`DownloadLog`].
#[verifier::ext_equal]
pub ghost struct LogView {
    pub output_path: Option<Seq<char>>,
    pub error_text: Seq<char>,
}

impl View for DownloadLog {
    type V = LogView;

    open spec fn view(&self) -> LogView {
        LogView { output_path: self.output_path.deep_view(), error_text: self.error_text@ }
    }
}

/// `events` with one more, if there is one.
pub open spec fn with_event(events: Seq<EventView>, event: Option<EventView>) -> Seq<EventView> {
    match event {
        Some(event) => events.push(event),
        None => events,
    }
}

/// What a line tells users: a title, how far the download is, a destination.
pub open spec fn line_events(stream: StreamKind, text: Seq<char>) -> Seq<EventView> {
    if stream == StreamKind::Stdout {
        let title = match marked(text, "lowcat_title:"@) {
            Some(title) => Some(EventView::Label(title)),
            None => None,
        };
        let percent = match progress_text(text) {
            Some(percent) => Some(EventView::Percent(percent)),
            None => None,
        };
        let label = match destination_label(text) {
            Some(label) => Some(EventView::Label(label)),
            None => None,
        };
        with_event(with_event(with_event(seq![], title), percent), label)
    } else {
        seq![]
    }
}

/// What is known of a download after one more line.
pub open spec fn log_after(log: LogView, stream: StreamKind, text: Seq<char>) -> LogView {
    if stream == StreamKind::Stdout {
        match marked(text, "lowcat_file:"@) {
            Some(path) => LogView { output_path: Some(path), ..log },
            None => log,
        }
    } else {
        LogView {
            error_text: if log.error_text.len() > 0 {
                log.error_text.push('\n') + text
            } else {
                text
            },
            ..log
        }
    }
}

impl DownloadLog {
    /// Nothing is known yet.
    pub fn new() -> (r: DownloadLog)
        ensures
            r@ == (LogView { output_path: None, error_text: seq![] }),
    {
        let r = DownloadLog { output_path: None, error_text: String::new() };
        assert(r@.error_text =~= seq![]);
        r
    }

    /// Takes note of a line; returns what it tells users.
    pub fn apply_ytdlp_line(&mut self, line: &ProcessLine) -> (r: Vec<DownloadProgressEvent>)
        ensures
            r.deep_view() == line_events(line.stream, line.text@),
            final(self)@ == log_after(old(self)@, line.stream, line.text@),
    {
        let mut events: Vec<DownloadProgressEvent> = Vec::new();
        let ghost start = events.deep_view();
        assert(start =~= seq![]);
        let text = line.text.as_str();
        match line.stream {
            StreamKind::Stdout => {
                match parse_ytdlp_title(text) {
                    Some(title) => {
                        let ghost before = events.deep_view();
                        events.push(DownloadProgressEvent::Label(title.to_owned()));
                        assert(events.deep_view() =~= before.push(EventView::Label(title@)));
                    },
                    None => {},
                }
                match parse_ytdlp_progress(text) {
                    Some(percent) => {
                        let ghost before = events.deep_view();
                        events.push(DownloadProgressEvent::Percent(percent.to_owned()));
                        assert(events.deep_view() =~= before.push(EventView::Percent(percent@)));
                    },
                    None => {},
                }
                match parse_ytdlp_destination_label(text) {
                    Some(label) => {
                        let ghost before = events.deep_view();
                        let ghost label_text = label@;
                        events.push(DownloadProgressEvent::Label(label));
                        assert(events.deep_view() =~= before.push(EventView::Label(label_text)));
                    },
                    None => {},
                }
                match parse_ytdlp_output_path(text) {
                    Some(path) => {
                        self.output_path = Some(path.to_owned());
                    },
                    None => {},
                }
            },
            StreamKind::Stderr => {
                let ghost before = self@;
                if self.error_text.as_str().unicode_len() > 0 {
                    self.error_text.push('\n');
                } else {
                    assert(before.error_text =~= seq![]);
                }
                self.error_text.append(text);
                assert(self@.error_text =~= log_after(before, line.stream, line.text@).error_text);
            },
        }
        events
    }
}

/// What is known of the downloader's process.
#[derive(Debug, Clone, Copy, PartialEq, Eq, Structural)]
pub enum ChildStatus {
    Running,
    Exited(bool),
    Unknown,
}

/// What to do next in a download.
#[derive(Debug)]
pub enum DownloadAction {
    /// Stop the process, clean up and fail.
    Abort(DownloadError),
    /// Take note of the lines that are left, clean up and finish.
    Finish(bool),
    /// Wait for a line.
    ReadLine,
}

/// What to do next: a canceled download is given up first, then the state of the process counts.
pub fn next_download_action(canceled: bool, status: ChildStatus) -> (r: DownloadAction)
    ensures
        canceled ==> (r matches DownloadAction::Abort(error) && error.is(
            DownloadErrorKind::Canceled,
            "Download canceled"@,
        )),
        !canceled ==> match status {
            ChildStatus::Exited(success) => r == DownloadAction::Finish(success),
            ChildStatus::Running => r == DownloadAction::ReadLine,
            ChildStatus::Unknown => r matches DownloadAction::Abort(error) && error.is(
                DownloadErrorKind::Failed,
                "Download failed"@,
            ),
        },
{
    if canceled {
        return DownloadAction::Abort(DownloadError::canceled());
    }
    match status {
        ChildStatus::Exited(success) => DownloadAction::Finish(success),
        ChildStatus::Running => DownloadAction::ReadLine,
        ChildStatus::Unknown => DownloadAction::Abort(DownloadError::failed("Download failed")),
    }
}

/// How a download ends whose process has ended.
pub fn finish_download(canceled: bool, success: bool, log: DownloadLog) -> (r: Result<
    DownloadOutput,
    DownloadError,
>)
    ensures
        match r {
            Ok(output) => !canceled && success && log@.output_path == Some(output.path@),
            Err(error) => if canceled {
                error.is(DownloadErrorKind::Canceled, "Download canceled"@)
            } else if success {
                log@.output_path is None && error.is(
                    DownloadErrorKind::Failed,
                    "Download failed"@,
                )
            } else if says_unavailable(log@.error_text) {
                error.is(DownloadErrorKind::Unavailable, "Video unavailable"@)
            } else {
                error.is(DownloadErrorKind::Failed, "Download failed"@)
            },
        },
{
    if canceled {
        return Err(DownloadError::canceled());
    }
    if success {
        return match log.output_path {
            Some(path) => Ok(DownloadOutput { path }),
            None => Err(DownloadError::failed("Download failed")),
        };
    }
    Err(classify_ytdlp_error(log.error_text.as_str()))
}

/// The error for a downloader that could not be started.
pub fn start_error(not_found: bool) -> (r: DownloadError)
    ensures
        not_found ==> r.is(DownloadErrorKind::ToolMissing, "yt-dlp not found"@),
        !not_found ==> r.is(DownloadErrorKind::Failed, "Download failed"@),
{
    if not_found {
        DownloadError::tool_missing()
    } else {
        DownloadError::failed("Download failed")
    }
}

/// What is known of a download after `lines`.
pub open spec fn log_after_all(log: LogView, lines: Seq<(StreamKind, Seq<char>)>) -> LogView
    decreases lines.len(),
{
    if lines.len() == 0 {
        log
    } else {
        log_after(log_after_all(log, lines.drop_last()), lines.last().0, lines.last().1)
    }
}

/// Of the paths that the downloader announces the last one counts, whatever follows it.
pub proof fn lemma_last_path_counts(
    log: LogView,
    lines: Seq<(StreamKind, Seq<char>)>,
    i: int,
)
    requires
        0 <= i < lines.len(),
        lines[i].0 == StreamKind::Stdout,
        marked(lines[i].1, "lowcat_file:"@) is Some,
        forall|j: int|
            i < j < lines.len() ==> (#[trigger] lines[j]).0 == StreamKind::Stderr || marked(
                lines[j].1,
                "lowcat_file:"@,
            ) is None,
    ensures
        log_after_all(log, lines).output_path == marked(lines[i].1, "lowcat_file:"@),
    decreases lines.len(),
{
    let front = lines.drop_last();
    if i < front.len() {
        assert forall|j: int| i < j < front.len() implies (#[trigger] front[j]).0
            == StreamKind::Stderr || marked(front[j].1, "lowcat_file:"@) is None by {
            assert(front[j] == lines[j]);
        }
        assert(front[i] == lines[i]);
        lemma_last_path_counts(log, front, i);
        assert(lines[lines.len() - 1] == lines.last());
    }
}

/// The arguments with which the downloader is started.
pub open spec fn download_args(
    extension: Seq<char>,
    folder: Seq<char>,
    temp_dir: Seq<char>,
    url: Seq<char>,
) -> Seq<Seq<char>> {
    seq![
        "--newline"@,
        "--no-playlist"@,
        "--extract-audio"@,
        "--audio-format"@,
        extension,
        "--audio-quality"@,
        "0"@,
        "--format"@,
        "bestaudio/best"@,
        "--no-overwrites"@,
        "--progress"@,
        "--progress-template"@,
        "download:lowcat_progress:%(progress._percent_str)s"@,
        "--print"@,
        "before_dl:lowcat_title:%(title)s"@,
        "--print"@,
        "after_video:lowcat_file:%(filepath)s"@,
        "--paths"@,
        folder,
        "--paths"@,
        "temp:"@ + temp_dir,
        "--output"@,
        "%(title).200B [%(id)s].%(ext)s"@,
        url,
    ]
}

/// The arguments with which the downloader is started.
pub fn ytdlp_args(request: &DownloadRequest, temp_dir: &str) -> (r: Vec<String>)
    ensures
        r.deep_view() == download_args(
            request.format.extension_text(),
            request.folder@,
            temp_dir@,
            request.url@,
        ),
{
    let mut temp = "temp:".to_owned();
    temp.append(temp_dir);
    let args: Vec<String> = vec![
        "--newline".to_owned(),
        "--no-playlist".to_owned(),
        "--extract-audio".to_owned(),
        "--audio-format".to_owned(),
        request.format.extension().to_owned(),
        "--audio-quality".to_owned(),
        "0".to_owned(),
        "--format".to_owned(),
        "bestaudio/best".to_owned(),
        "--no-overwrites".to_owned(),
        "--progress".to_owned(),
        "--progress-template".to_owned(),
        "download:lowcat_progress:%(progress._percent_str)s".to_owned(),
        "--print".to_owned(),
        "before_dl:lowcat_title:%(title)s".to_owned(),
        "--print".to_owned(),
        "after_video:lowcat_file:%(filepath)s".to_owned(),
        "--paths".to_owned(),
        request.folder.clone(),
        "--paths".to_owned(),
        temp,
        "--output".to_owned(),
        "%(title).200B [%(id)s].%(ext)s".to_owned(),
        request.url.clone(),
    ];
    assert(args.deep_view() =~= download_args(
        request.format.extension_text(),
        request.folder@,
        temp_dir@,
        request.url@,
    ));
    args
}

/// The folder in which a download keeps its parts, for the process `process` at the time `nanos`.
pub fn temp_download_dir(folder: &str, process: u32, nanos: u128) -> (r: String)
    ensures
        r@ == joined(
            folder@,
            ".lowcat-download-"@ + decimal(process as nat) + "-"@ + decimal(nanos as nat),
        ),
{
    let mut name = ".lowcat-download-".to_owned();
    name.append(decimal_text(process as u128).as_str());
    name.append("-");
    name.append(decimal_text(nanos).as_str());
    join(folder, name.as_str())
}

/// The link to a video in the first of `texts` that has one.
pub open spec fn first_dropped(texts: Seq<Seq<char>>) -> Option<Seq<char>>
    decreases texts.len(),
{
    if texts.len() == 0 {
        None
    } else if trimmed(texts[0]).len() > 0 && first_link(words(texts[0])) is Some {
        first_link(words(texts[0]))
    } else {
        first_dropped(texts.drop_first())
    }
}

/// The link to a video in the first of the texts that users drop which has one.
pub fn dropped_youtube_url(texts: &Vec<String>) -> (r: Option<String>)
    ensures
        r is Some <==> first_dropped(texts.deep_view()) is Some,
        r matches Some(link) ==> first_dropped(texts.deep_view()) == Some(link@),
{
    let ghost views = texts.deep_view();
    let mut i: usize = 0;
    assert(views.skip(0) =~= views);
    while i < texts.len()
        invariant
            i <= texts@.len(),
            views == texts.deep_view(),
            first_dropped(views) == first_dropped(views.skip(i as int)),
        decreases texts.len() - i,
    {
        proof {
            assert(views.skip(i as int)[0] == texts@[i as int]@);
            assert(views.skip(i as int).drop_first() =~= views.skip(i + 1));
        }
        match extract_youtube_url(texts[i].as_str()) {
            Ok(link) => {
                return Some(link);
            },
            Err(_) => {},
        }
        i += 1;
    }
    None
}

/// The downloader is told the link and the format, to write what it made into the folder of the
/// request and to keep its parts in the temporary one, and to leave lists and existing files alone.
pub proof fn lemma_downloader_is_told(
    extension: Seq<char>,
    folder: Seq<char>,
    temp_dir: Seq<char>,
    url: Seq<char>,
)
    ensures
        ({
            let args = download_args(extension, folder, temp_dir, url);
            &&& args.len() == 24
            &&& args.last() == url
            &&& args[0] == "--newline"@ && args[1] == "--no-playlist"@
            &&& args[2] == "--extract-audio"@
            &&& args[3] == "--audio-format"@ && args[4] == extension
            &&& args[5] == "--audio-quality"@ && args[6] == "0"@
            &&& args[7] == "--format"@ && args[8] == "bestaudio/best"@
            &&& args[9] == "--no-overwrites"@ && args[10] == "--progress"@
            &&& args[17] == "--paths"@ && args[18] == folder
            &&& args[19] == "--paths"@ && args[20] == "temp:"@ + temp_dir
            &&& args[21] == "--output"@ && args[22] == "%(title).200B [%(id)s].%(ext)s"@
        }),
{
}

/// The downloader is told to write its progress, the title and the path of the file behind the very
/// marks by which its lines are read.
pub proof fn lemma_downloader_is_told_marks(
    extension: Seq<char>,
    folder: Seq<char>,
    temp_dir: Seq<char>,
    url: Seq<char>,
)
    ensures
        ({
            let args = download_args(extension, folder, temp_dir, url);
            &&& args[11] == "--progress-template"@
            &&& args[12] == "download:"@ + "lowcat_progress:"@ + "%(progress._percent_str)s"@
            &&& args[13] == "--print"@
            &&& args[14] == "before_dl:"@ + "lowcat_title:"@ + "%(title)s"@
            &&& args[15] == "--print"@
            &&& args[16] == "after_video:"@ + "lowcat_file:"@ + "%(filepath)s"@
        }),
{
    reveal_strlit("download:");
    reveal_strlit("lowcat_progress:");
    reveal_strlit("%(progress._percent_str)s");
    reveal_strlit("download:lowcat_progress:%(progress._percent_str)s");
    reveal_strlit("before_dl:");
    reveal_strlit("lowcat_title:");
    reveal_strlit("%(title)s");
    reveal_strlit("before_dl:lowcat_title:%(title)s");
    reveal_strlit("after_video:");
    reveal_strlit("lowcat_file:");
    reveal_strlit("%(filepath)s");
    reveal_strlit("after_video:lowcat_file:%(filepath)s");
    assert("download:"@ + "lowcat_progress:"@ + "%(progress._percent_str)s"@
        =~= "download:lowcat_progress:%(progress._percent_str)s"@);
    assert("before_dl:"@ + "lowcat_title:"@ + "%(title)s"@ =~= "before_dl:lowcat_title:%(title)s"@);
    assert("after_video:"@ + "lowcat_file:"@ + "%(filepath)s"@
        =~= "after_video:lowcat_file:%(filepath)s"@);
}

/// Whether `host` is one under which YouTube's videos are watched.
pub open spec fn is_watch_host(host: Seq<char>) -> bool {
    ||| host == "youtube.com"@
    ||| host == "www.youtube.com"@
    ||| host == "m.youtube.com"@
    ||| host == "music.youtube.com"@
}

/// An address leads to a video exactly where its host, whatever the case of its letters and with a
/// port or without, is YouTube's short one before a path that is not empty, or one of the others
/// before a path of videos.
pub proof fn lemma_video_addresses(host: Seq<char>, port: Seq<char>, path: Seq<char>)
    requires
        !host.contains('/'),
        !host.contains(':'),
        !port.contains('/'),
    ensures
        ({
            let known = is_watch_host(ascii_lower(host)) && (begins_with(path, "watch?"@)
                || begins_with(path, "shorts/"@) || begins_with(path, "embed/"@) || begins_with(
                path,
                "live/"@,
            ));
            let short = ascii_lower(host) == "youtu.be"@ && path.len() > 0;
            &&& is_video_address(host.push('/') + path) <==> known || short
            &&& is_video_address(host.push(':') + port.push('/') + path) <==> known || short
            &&& !is_video_address(host)
        }),
{
    reveal_strlit("youtu.be");
    reveal_strlit("youtube.com");
    reveal_strlit("www.youtube.com");
    reveal_strlit("m.youtube.com");
    reveal_strlit("music.youtube.com");
    reveal_strlit("watch?");
    reveal_strlit("shorts/");
    reveal_strlit("embed/");
    reveal_strlit("live/");
    let plain = host.push('/') + path;
    let ported = host.push(':') + port.push('/') + path;
    lemma_first_of(host, '/', path);
    assert(plain.take(host.len() as int) =~= host);
    assert(plain.skip(host.len() as int + 1) =~= path);
    assert(plain[host.len() as int] == '/');
    assert(plain.contains('/'));
    lemma_first_index(host, ':');
    assert(host.take(host.len() as int) =~= host);
    let front = host.push(':') + port;
    assert(!front.contains('/')) by {
        if front.contains('/') {
            let i = choose|i: int| 0 <= i < front.len() && front[i] == '/';
            if i < host.len() {
                assert(host[i] == '/');
            } else {
                assert(port[i - host.len() - 1] == '/');
            }
        }
    }
    assert(ported =~= front.push('/') + path);
    lemma_first_of(front, '/', path);
    assert(ported.take(front.len() as int) =~= front);
    assert(ported.skip(front.len() as int + 1) =~= path);
    assert(ported[front.len() as int] == '/');
    assert(ported.contains('/'));
    lemma_first_of(host, ':', port);
    assert(front.take(host.len() as int) =~= host);
    lemma_first_index(host, '/');
}

/// The first index of a character behind a text without it.
proof fn lemma_first_of(head: Seq<char>, c: char, tail: Seq<char>)
    requires
        !head.contains(c),
    ensures
        first_index(head.push(c) + tail, c) == head.len(),
    decreases head.len(),
{
    let all = head.push(c) + tail;
    if head.len() > 0 {
        assert(head[0] != c) by {
            if head[0] == c {
                assert(head.contains(c));
            }
        }
        let rest = head.drop_first();
        assert(!rest.contains(c)) by {
            if rest.contains(c) {
                let i = choose|i: int| 0 <= i < rest.len() && rest[i] == c;
                assert(head[i + 1] == c);
            }
        }
        assert(all.drop_first() =~= rest.push(c) + tail);
        lemma_first_of(rest, c, tail);
    }
}

/// Whether nothing is to be taken off the ends of `token`.
pub open spec fn is_bare_token(token: Seq<char>) -> bool {
    token.len() > 0 && !is_link_wrapper(token[0]) && !is_link_wrapper(token.last())
        && !is_white_space(token[0]) && !is_white_space(token.last())
}

/// A word that gives an address behind a scheme, `http` or `https` in any case, stands for itself
/// where the address leads to a video, and for no link otherwise.
pub proof fn lemma_links_with_scheme(scheme: Seq<char>, rest: Seq<char>)
    requires
        ascii_lower(scheme) == "http://"@ || ascii_lower(scheme) == "https://"@,
        is_bare_token(scheme + rest),
    ensures
        link_in(scheme + rest) == if is_video_address(rest) {
            Some(scheme + rest)
        } else {
            None
        },
{
    let word = scheme + rest;
    lemma_token_stays(word);
    lemma_scheme(scheme, rest);
}

/// A word without a scheme that begins with a host of YouTube and a slash, in any case, stands for
/// the link with the scheme `https`, where that leads to a video; any other word without a scheme
/// stands for no link.
pub proof fn lemma_links_without_scheme(host: Seq<char>, path: Seq<char>, word: Seq<char>)
    ensures
        (is_watch_host(ascii_lower(host)) || ascii_lower(host) == "youtu.be"@) && is_bare_token(
            host.push('/') + path,
        ) ==> link_in(host.push('/') + path) == if is_video_address(host.push('/') + path) {
            Some("https://"@ + (host.push('/') + path))
        } else {
            None
        },
        is_bare_token(word) && without_scheme(word) is None && !is_watch_host(
            ascii_lower(before_char(word, '/')),
        ) && ascii_lower(before_char(word, '/')) != "youtu.be"@ ==> link_in(word) is None,
{
    reveal_strlit("http://");
    reveal_strlit("https://");
    reveal_strlit("youtu.be");
    reveal_strlit("youtube.com");
    reveal_strlit("www.youtube.com");
    reveal_strlit("m.youtube.com");
    reveal_strlit("music.youtube.com");
    reveal_strlit("youtu.be/");
    reveal_strlit("youtube.com/");
    reveal_strlit("www.youtube.com/");
    reveal_strlit("m.youtube.com/");
    reveal_strlit("music.youtube.com/");
    if (is_watch_host(ascii_lower(host)) || ascii_lower(host) == "youtu.be"@) && is_bare_token(
        host.push('/') + path,
    ) {
        let token = host.push('/') + path;
        lemma_token_stays(token);
        let low = ascii_lower(host);
        let lower = ascii_lower(token);
        assert(lower.take(host.len() as int + 1) =~= low.push('/'));
        assert(low.len() == host.len());
        assert("youtu.be/"@ =~= "youtu.be"@.push('/'));
        assert("youtube.com/"@ =~= "youtube.com"@.push('/'));
        assert("www.youtube.com/"@ =~= "www.youtube.com"@.push('/'));
        assert("m.youtube.com/"@ =~= "m.youtube.com"@.push('/'));
        assert("music.youtube.com/"@ =~= "music.youtube.com"@.push('/'));
        assert(begins_with(lower, low.push('/')));
        assert(begins_with_host(token));
        assert(lower[4] == low[4]);
        if without_scheme(token) is Some {
            if equal_ignoring_ascii_case(token.take(7), "http://"@) {
                assert(ascii_lower(token.take(7))[4] == lower[4]);
                assert(ascii_lower("http://"@)[4] == ':');
            } else {
                assert(ascii_lower(token.take(8))[4] == lower[4]);
                assert(ascii_lower(token.take(8))[0] == lower[0]);
                assert(ascii_lower("https://"@)[4] == 's');
                assert(ascii_lower("https://"@)[0] == 'h');
                assert(lower[0] == low[0]);
            }
        }
        assert(ascii_lower("https://"@) =~= "https://"@);
        lemma_scheme("https://"@, token);
    }
    if is_bare_token(word) && without_scheme(word) is None && !is_watch_host(
        ascii_lower(before_char(word, '/')),
    ) && ascii_lower(before_char(word, '/')) != "youtu.be"@ {
        lemma_token_stays(word);
        if begins_with_host(word) {
            assert("youtu.be/"@ =~= "youtu.be"@.push('/'));
            assert("youtube.com/"@ =~= "youtube.com"@.push('/'));
            assert("www.youtube.com/"@ =~= "www.youtube.com"@.push('/'));
            assert("m.youtube.com/"@ =~= "m.youtube.com"@.push('/'));
            assert("music.youtube.com/"@ =~= "music.youtube.com"@.push('/'));
            lemma_begins_with_host(word, "youtube.com"@, "youtube.com/"@);
            lemma_begins_with_host(word, "www.youtube.com"@, "www.youtube.com/"@);
            lemma_begins_with_host(word, "m.youtube.com"@, "m.youtube.com/"@);
            lemma_begins_with_host(word, "music.youtube.com"@, "music.youtube.com/"@);
            lemma_begins_with_host(word, "youtu.be"@, "youtu.be/"@);
        }
    }
}

proof fn lemma_begins_with_host(word: Seq<char>, host: Seq<char>, slashed: Seq<char>)
    requires
        slashed == host.push('/'),
        forall|i: int| 0 <= i < host.len() ==> #[trigger] host[i] != '/',
    ensures
        begins_with(ascii_lower(word), slashed) ==> ascii_lower(before_char(word, '/')) == host,
{
    if begins_with(ascii_lower(word), slashed) {
        let n = host.len() as int;
        assert forall|i: int| 0 <= i <= n implies ascii_lower(word)[i] == slashed[i] by {
            assert(ascii_lower(word).take(slashed.len() as int)[i] == slashed[i]);
        }
        assert(slashed[n] == '/');
        assert(ascii_lower(word)[n] == slashed[n]);
        assert(word[n] == '/');
        lemma_first_index(word, '/');
        let k = first_index(word, '/');
        assert(k <= n) by {
            assert(word.contains('/'));
        }
        if k < n {
            assert(ascii_lower(word)[k] == '/');
            assert(slashed[k] == host[k]);
            assert(ascii_lower(word)[k] == slashed[k]);
        }
        assert forall|i: int| 0 <= i < n implies ascii_lower(word.take(n))[i] == host[i] by {
            assert(slashed[i] == host[i]);
            assert(ascii_lower(word)[i] == slashed[i]);
        }
        assert(ascii_lower(word.take(n)) =~= host);
    }
}

proof fn lemma_scheme(scheme: Seq<char>, rest: Seq<char>)
    requires
        ascii_lower(scheme) == "http://"@ || ascii_lower(scheme) == "https://"@,
    ensures
        without_scheme(scheme + rest) == Some(rest),
{
    reveal_strlit("http://");
    reveal_strlit("https://");
    let word = scheme + rest;
    assert(ascii_lower(scheme).len() == scheme.len());
    assert(ascii_lower("http://"@) =~= "http://"@);
    assert(ascii_lower("https://"@) =~= "https://"@);
    if ascii_lower(scheme) == "http://"@ {
        assert(word.take(7) =~= scheme);
        assert(word.skip(7) =~= rest);
    } else {
        assert(word.take(8) =~= scheme);
        assert(word.skip(8) =~= rest);
        assert(ascii_lower(word.take(7))[4] == ascii_lower(scheme)[4]);
        assert("http://"@[4] == ':');
    }
}

proof fn lemma_token_stays(token: Seq<char>)
    requires
        is_bare_token(token),
    ensures
        trimmed(trim_in(token, CharClass::LinkWrapper)) == token,
{
    assert(!CharClass::LinkWrapper.has(token[0]));
    assert(!CharClass::LinkWrapper.has(token.last()));
    assert(!CharClass::WhiteSpace.has(token[0]));
    assert(!CharClass::WhiteSpace.has(token.last()));
    assert(trim_in(token, CharClass::LinkWrapper) == token);
}

/// The link that is found in a text is that of its first word that stands for one; none is found
/// exactly where no word does.
pub proof fn lemma_first_word_counts(list: Seq<Seq<char>>, i: int)
    requires
        0 <= i < list.len(),
        forall|j: int| 0 <= j < i ==> link_in(#[trigger] list[j]) is None,
    ensures
        link_in(list[i]) is Some ==> first_link(list) == link_in(list[i]),
        i == list.len() - 1 && link_in(list[i]) is None ==> first_link(list) is None,
    decreases list.len(),
{
    let rest = list.drop_first();
    if i > 0 {
        assert(link_in(list[0]) is None);
        assert forall|j: int| 0 <= j < i - 1 implies link_in(#[trigger] rest[j]) is None by {
            assert(rest[j] == list[j + 1]);
        }
        assert(rest[i - 1] == list[i]);
        lemma_first_word_counts(rest, i - 1);
    } else if list.len() == 1 {
        assert(first_link(rest) is None);
    }
}

/// Of several texts, the link of the first that has one is taken.
pub proof fn lemma_first_text_counts(texts: Seq<Seq<char>>, i: int)
    requires
        0 <= i < texts.len(),
        forall|j: int| 0 <= j < i ==> first_link(words(#[trigger] texts[j])) is None,
    ensures
        trimmed(texts[i]).len() > 0 && first_link(words(texts[i])) is Some ==> first_dropped(texts)
            == first_link(words(texts[i])),
        i == texts.len() - 1 && first_link(words(texts[i])) is None ==> first_dropped(texts) is None,
    decreases texts.len(),
{
    let rest = texts.drop_first();
    if i > 0 {
        assert(first_link(words(texts[0])) is None);
        assert forall|j: int| 0 <= j < i - 1 implies first_link(
            words(#[trigger] rest[j]),
        ) is None by {
            assert(rest[j] == texts[j + 1]);
        }
        assert(rest[i - 1] == texts[i]);
        lemma_first_text_counts(rest, i - 1);
    } else if texts.len() == 1 {
        assert(first_dropped(rest) is None);
    }
}

/// What the downloader writes behind a mark is read from its line without white space around it,
/// unless there is nothing; lines without the mark at their start tell nothing of it.
pub proof fn lemma_marked_text_is_read(line: Seq<char>, marker: Seq<char>, text: Seq<char>)
    ensures
        marked(marker + text, marker) == if trimmed(text).len() > 0 {
            Some(trimmed(text))
        } else {
            None
        },
        marked(line, marker) is Some ==> begins_with(line, marker),
{
    let whole = marker + text;
    assert(whole.take(marker.len() as int) =~= marker);
    assert(whole.skip(marker.len() as int) =~= text);
}

/// A title is shown as the label, whatever else may be in it; progress and destinations are shown as
/// such; and what is written to the other stream shows nothing.
pub proof fn lemma_lines_show(text: Seq<char>, percent: Seq<char>, more: Seq<char>)
    ensures
        trimmed(text).len() > 0 ==> line_events(StreamKind::Stdout, "lowcat_title:"@ + text)
            == seq![EventView::Label(trimmed(text))],
        is_number(percent) && trimmed(percent) == percent && !percent.contains('%') ==> line_events(
            StreamKind::Stdout,
            "lowcat_progress:"@ + (percent.push('%') + more),
        ) == seq![EventView::Percent(percent)],
        line_events(StreamKind::Stdout, "lowcat_file:"@ + text) == Seq::<EventView>::empty(),
        line_events(StreamKind::Stderr, text) == Seq::<EventView>::empty(),
{
    reveal_strlit("lowcat_title:");
    reveal_strlit("lowcat_progress:");
    reveal_strlit("lowcat_file:");
    reveal_strlit("[download]");
    reveal_strlit("[download] Destination:");
    reveal_strlit("[ExtractAudio] Destination:");
    let title = "lowcat_title:"@ + text;
    lemma_marked_text_is_read(title, "lowcat_title:"@, text);
    lemma_no_prefix(title, "lowcat_progress:"@, 7);
    lemma_no_prefix(title, "[download]"@, 0);
    lemma_no_prefix(title, "[download] Destination:"@, 0);
    lemma_no_prefix(title, "[ExtractAudio] Destination:"@, 0);
    if trimmed(text).len() > 0 {
        assert(line_events(StreamKind::Stdout, title) =~= seq![EventView::Label(trimmed(text))]);
    }
    let raw = percent.push('%') + more;
    let progress = "lowcat_progress:"@ + raw;
    lemma_no_prefix(progress, "lowcat_title:"@, 7);
    lemma_no_prefix(progress, "[download] Destination:"@, 0);
    lemma_no_prefix(progress, "[ExtractAudio] Destination:"@, 0);
    assert(progress.take("lowcat_progress:"@.len() as int) =~= "lowcat_progress:"@);
    assert(progress.skip("lowcat_progress:"@.len() as int) =~= raw);
    if is_number(percent) && trimmed(percent) == percent && !percent.contains('%') {
        lemma_first_of(percent, '%', more);
        assert(raw[percent.len() as int] == '%');
        assert(raw.contains('%'));
        assert(raw.take(percent.len() as int) =~= percent);
        assert(line_events(StreamKind::Stdout, progress) =~= seq![EventView::Percent(percent)]);
    }
    let file = "lowcat_file:"@ + text;
    lemma_no_prefix(file, "lowcat_title:"@, 7);
    lemma_no_prefix(file, "lowcat_progress:"@, 7);
    lemma_no_prefix(file, "[download]"@, 0);
    lemma_no_prefix(file, "[download] Destination:"@, 0);
    lemma_no_prefix(file, "[ExtractAudio] Destination:"@, 0);
}

proof fn lemma_no_prefix(line: Seq<char>, prefix: Seq<char>, i: int)
    requires
        0 <= i < prefix.len(),
        i < line.len(),
        line[i] != prefix[i],
    ensures
        !begins_with(line, prefix),
{
    if begins_with(line, prefix) {
        assert(line.take(prefix.len() as int)[i] == prefix[i]);
    }
}

/// A destination is shown by the stem of its file, whichever step names it.
pub proof fn lemma_destination_shows_stem(folder: Seq<char>, stem: Seq<char>, extension: Seq<char>)
    requires
        stem.len() > 0,
        !stem.contains('/'),
        trimmed(stem) == stem,
        extension.len() > 0,
        !extension.contains('/'),
        !extension.contains('.'),
        trimmed(joined(folder, stem.push('.') + extension)) == joined(
            folder,
            stem.push('.') + extension,
        ),
    ensures
        destination_label(
            "[download] Destination:"@ + joined(folder, stem.push('.') + extension),
        ) == Some(stem),
        destination_label(
            "[ExtractAudio] Destination:"@ + joined(folder, stem.push('.') + extension),
        ) == Some(stem),
{
    reveal_strlit("[download] Destination:");
    reveal_strlit("[ExtractAudio] Destination:");
    let path = joined(folder, stem.push('.') + extension);
    let one = "[download] Destination:"@ + path;
    let other = "[ExtractAudio] Destination:"@ + path;
    assert(one.take("[download] Destination:"@.len() as int) =~= "[download] Destination:"@);
    assert(one.skip("[download] Destination:"@.len() as int) =~= path);
    assert(other.take("[ExtractAudio] Destination:"@.len() as int)
        =~= "[ExtractAudio] Destination:"@);
    assert(other.skip("[ExtractAudio] Destination:"@.len() as int) =~= path);
    lemma_no_prefix(other, "[download] Destination:"@, 1);
    lemma_stem_and_extension(folder, stem, extension, stem);
}

/// Each line of a download's messages is kept whole, in order, a line break between each two.
pub proof fn lemma_messages_are_kept(
    log: LogView,
    lines: Seq<(StreamKind, Seq<char>)>,
    i: int,
)
    requires
        0 <= i < lines.len(),
        lines[i].0 == StreamKind::Stderr,
    ensures
        occurs_in(log_after_all(log, lines).error_text, lines[i].1),
        occurs_in(
            ascii_lower(log_after_all(log, lines).error_text),
            ascii_lower(lines[i].1),
        ),
    decreases lines.len(),
{
    let front = lines.drop_last();
    let before = log_after_all(log, front).error_text;
    let after = log_after_all(log, lines).error_text;
    let last = lines.last();
    let text = lines[i].1;
    if i == lines.len() - 1 {
        let head = if before.len() > 0 {
            before.push('\n')
        } else {
            Seq::<char>::empty()
        };
        assert(after =~= head + text + Seq::<char>::empty());
        lemma_occurs(head, text, Seq::empty(), after);
        lemma_lower_occurs(after, text);
    } else {
        assert(front[i] == lines[i]);
        lemma_messages_are_kept(log, front, i);
        lemma_occurs(Seq::empty(), text, Seq::empty(), before);
        let k = choose|k: int|
            0 <= k <= before.len() - text.len() && before == #[trigger] before.take(k) + text
                + before.skip(k + text.len());
        let tail = after.skip(before.len() as int);
        if last.0 == StreamKind::Stderr && before.len() > 0 {
            assert(after =~= before.push('\n') + last.1);
            assert(after =~= before.take(k) + text + (before.skip(k + text.len()) + tail));
            lemma_occurs(before.take(k), text, before.skip(k + text.len()) + tail, after);
        } else if last.0 == StreamKind::Stderr {
            assert(text =~= Seq::<char>::empty());
            assert(after =~= Seq::<char>::empty() + text + after);
            lemma_occurs(Seq::empty(), text, after, after);
        }
        lemma_lower_occurs(after, text);
    }
}

proof fn lemma_lower_occurs(s: Seq<char>, part: Seq<char>)
    requires
        occurs_in(s, part),
    ensures
        occurs_in(ascii_lower(s), ascii_lower(part)),
{
    lemma_occurs(Seq::empty(), part, Seq::empty(), s);
    let i = choose|i: int|
        0 <= i <= s.len() - part.len() && s == #[trigger] s.take(i) + part + s.skip(i + part.len());
    let head = ascii_lower(s.take(i));
    let tail = ascii_lower(s.skip(i + part.len()));
    assert(ascii_lower(s) =~= head + ascii_lower(part) + tail) by {
        assert forall|k: int| 0 <= k < s.len() implies ascii_lower(s)[k] == (head + ascii_lower(
            part,
        ) + tail)[k] by {
            assert(s[k] == (s.take(i) + part + s.skip(i + part.len()))[k]);
        }
    }
    lemma_occurs(head, ascii_lower(part), tail, ascii_lower(s));
}

/// A download whose messages say in any line, whatever the case of letters, that a video is private,
/// unavailable, removed, deleted or of a closed account, failed for that.
pub proof fn lemma_unavailable_is_told(
    log: LogView,
    lines: Seq<(StreamKind, Seq<char>)>,
    i: int,
    before: Seq<char>,
    phrase: Seq<char>,
    after: Seq<char>,
)
    requires
        0 <= i < lines.len(),
        lines[i].0 == StreamKind::Stderr,
        lines[i].1 == before + phrase + after,
        ascii_lower(phrase) == "private video"@ || ascii_lower(phrase) == "video unavailable"@
            || ascii_lower(phrase) == "this video is unavailable"@ || ascii_lower(phrase)
            == "has been removed"@ || ascii_lower(phrase) == "has been deleted"@ || ascii_lower(
            phrase,
        ) == "account has been terminated"@,
    ensures
        says_unavailable(log_after_all(log, lines).error_text),
{
    lemma_messages_are_kept(log, lines, i);
    lemma_occurs(before, phrase, after, lines[i].1);
    lemma_part_of_part(log_after_all(log, lines).error_text, lines[i].1, phrase);
    lemma_lower_occurs(log_after_all(log, lines).error_text, phrase);
}

proof fn lemma_part_of_part(s: Seq<char>, part: Seq<char>, inner: Seq<char>)
    requires
        occurs_in(s, part),
        occurs_in(part, inner),
    ensures
        occurs_in(s, inner),
{
    let i = choose|i: int| 0 <= i <= s.len() && #[trigger] begins_with(s.skip(i), part);
    let j = choose|j: int| 0 <= j <= part.len() && #[trigger] begins_with(part.skip(j), inner);
    let here = s.skip(i + j);
    assert(here.take(inner.len() as int) =~= part.skip(j).take(inner.len() as int)) by {
        assert forall|k: int| 0 <= k < inner.len() implies here[k] == part.skip(j)[k] by {
            assert(s.skip(i).take(part.len() as int)[j + k] == part[j + k]);
        }
    }
    assert(begins_with(here, inner));
}

/// Messages in which none of these is said do not tell so.
pub proof fn lemma_other_messages(text: Seq<char>)
    requires
        says_unavailable(text),
    ensures
        ({
            let lower = ascii_lower(text);
            ||| occurs_in(lower, "private video"@)
            ||| occurs_in(lower, "video unavailable"@)
            ||| occurs_in(lower, "this video is unavailable"@)
            ||| occurs_in(lower, "has been removed"@)
            ||| occurs_in(lower, "has been deleted"@)
            ||| occurs_in(lower, "account has been terminated"@)
        }),
{
}

/// However a download goes: once it is canceled it is given up at once and ends as canceled. Until then
/// its lines are read while its process runs, and it ends with the file that was announced last exactly
/// if the process ended well and announced one.
pub proof fn lemma_download_ends(
    canceled: bool,
    status: ChildStatus,
    action: DownloadAction,
    success: bool,
    log: DownloadLog,
    result: Result<DownloadOutput, DownloadError>,
)
    requires
        call_ensures(next_download_action, (canceled, status), action),
        call_ensures(finish_download, (canceled, success, log), result),
    ensures
        canceled ==> action is Abort && action->Abort_0.kind == DownloadErrorKind::Canceled,
        canceled ==> result is Err && result->Err_0.kind == DownloadErrorKind::Canceled,
        action is ReadLine <==> !canceled && status == ChildStatus::Running,
        action is Finish <==> !canceled && status is Exited,
        action matches DownloadAction::Finish(ended) ==> status == ChildStatus::Exited(ended),
        result is Ok <==> !canceled && success && log@.output_path is Some,
        result matches Ok(output) ==> log@.output_path == Some(output.path@),
        !canceled && !success && says_unavailable(log@.error_text) ==> result->Err_0.kind
            == DownloadErrorKind::Unavailable,
        !canceled && !success && !says_unavailable(log@.error_text) ==> result->Err_0.kind
            == DownloadErrorKind::Failed,
{
}

/// A link in brackets or quotes, or before a comma, stands for the same link as without them.
pub proof fn lemma_wrapped_link(link: Seq<char>, open: char, close: char)
    requires
        is_bare_token(link),
        (open == '<' && close == '>') || (open == '(' && close == ')') || (open == '[' && close
            == ']') || (open == '{' && close == '}') || (open == close && (open == '"' || open
            == '\'' || open == '`')),
    ensures
        link_in(seq![open] + link + seq![close]) == link_in(link),
        link_in(link.push(',')) == link_in(link),
{
    lemma_token_stays(link);
    lemma_taken_off(link, open, close);
    let listed = link.push(',');
    assert(listed[0] == link[0]);
    assert(!CharClass::LinkWrapper.has(link[0]) && !CharClass::LinkWrapper.has(link.last()));
    assert(trim_start_in(listed, CharClass::LinkWrapper) == listed);
    assert(listed.drop_last() =~= link);
    assert(CharClass::LinkWrapper.has(','));
    assert(trim_in(listed, CharClass::LinkWrapper) == link);
}

proof fn lemma_taken_off(link: Seq<char>, open: char, close: char)
    requires
        is_bare_token(link),
        is_link_wrapper(open),
        is_link_wrapper(close),
    ensures
        trim_in(seq![open] + link + seq![close], CharClass::LinkWrapper) == link,
{
    let class = CharClass::LinkWrapper;
    let word = seq![open] + link + seq![close];
    let tail = link + seq![close];
    assert(class.has(open) && class.has(close));
    assert(!class.has(link[0]) && !class.has(link.last()));
    assert(word[0] == open);
    assert(word.drop_first() =~= tail);
    assert(tail[0] == link[0]);
    assert(trim_start_in(tail, class) == tail);
    assert(trim_start_in(word, class) == tail);
    assert(tail.last() == close);
    assert(tail.drop_last() =~= link);
    assert(trim_end_in(link, class) == link);
    assert(trim_end_in(tail, class) == link);
}

} // verus!
