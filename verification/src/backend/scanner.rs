//! What a scan of a category's folder takes from the files that it finds.
use crate::db::sync::{FileScanRecord, ScanView};
use crate::model::{canonical_key, canonical_tag_key, default_tag_keys, format_of};
use crate::model::{supported_audio_extension, Category};
use crate::path::{extension_of, joined, lemma_stem_and_extension, stem_of};
use crate::text::{ascii_lower, holds_text, lowercase, same_text};
use crate::text_map::TextMap;
use lofty::config::ParseOptions;
use lofty::file::AudioFile;
use lofty::flac::FlacFile;
use lofty::ogg::OpusFile;
use std::io::Cursor;
use vstd::prelude::*;

verus! {

broadcast use vstd::string::group_string_axioms;

/// The extension of the file name of `path`, in lowercase.
pub open spec fn lower_extension(path: Seq<char>) -> Option<Seq<char>> {
    match extension_of(path) {
        Some(extension) => Some(lowercase(extension)),
        None => None,
    }
}

/// Whether the library keeps files with the extension of `path`.
pub open spec fn is_library_path(path: Seq<char>) -> bool {
    extension_of(path) matches Some(extension) && format_of(extension) is Some
}

/// The stem of the file name of `path`, or nothing.
pub open spec fn stem_or_empty(path: Seq<char>) -> Seq<char> {
    match stem_of(path) {
        Some(stem) => stem,
        None => seq![],
    }
}

/// Whether the library keeps files with the extension of `path`.
pub fn is_library_file(path: &str) -> (r: bool)
    ensures
        r == is_library_path(path@),
{
    match crate::path::extension(path) {
        Some(extension) => supported_audio_extension(extension.as_str()).is_some(),
        None => false,
    }
}

/// The extension of the file name of `path`, in lowercase.
pub fn extension(path: &str) -> (r: Option<String>)
    ensures
        r is Some <==> lower_extension(path@) is Some,
        r matches Some(extension) ==> lower_extension(path@) == Some(extension@),
{
    match crate::path::extension(path) {
        Some(extension) => Some(extension.as_str().to_lowercase()),
        None => None,
    }
}

/// The stem of the file name of `path`, or nothing.
pub fn file_stem(path: &str) -> (r: String)
    ensures
        r@ == stem_or_empty(path@),
{
    match crate::path::file_stem(path) {
        Some(stem) => stem,
        None => {
            let empty = String::new();
            assert(empty@ =~= seq![]);
            empty
        },
    }
}

/// The key of `category` that the name of a comment in a file spells.
pub open spec fn comment_key(category: Category, name: Seq<char>) -> Option<Seq<char>> {
    match canonical_key(name) {
        Some(key) => if default_tag_keys(category).contains(key) {
            Some(key)
        } else {
            None
        },
        None => None,
    }
}

/// The key of `category` that the name of a comment in a file spells.
fn canonical_category_key(category: Category, name: &str) -> (r: Option<&'static str>)
    ensures
        r is Some <==> comment_key(category, name@) is Some,
        r matches Some(key) ==> comment_key(category, name@) == Some(key@),
{
    match canonical_tag_key(name) {
        Some(key) => {
            let keys = category.tag_keys();
            let ghost defaults = default_tag_keys(category);
            let mut i: usize = 0;
            while i < keys.len()
                invariant
                    i <= keys@.len(),
                    defaults == default_tag_keys(category),
                    keys@.len() == defaults.len(),
                    canonical_key(name@) == Some(key@),
                    forall|j: int| 0 <= j < keys@.len() ==> (#[trigger] keys@[j])@ == defaults[j],
                    forall|j: int| 0 <= j < i ==> defaults[j] != key@,
                decreases keys.len() - i,
            {
                if same_text(keys[i], key) {
                    assert(defaults[i as int] == key@);
                    return Some(key);
                }
                i += 1;
            }
            None
        },
        None => None,
    }
}

/// A comment in a file: its name and its value.
pub struct Comment {
    pub name: String,
    pub value: String,
}

impl DeepView for Comment {
    type V = (Seq<char>, Seq<char>);

    open spec fn deep_view(&self) -> (Seq<char>, Seq<char>) {
        (self.name@, self.value@)
    }
}

/// The values that `comments` give to `key`, in their order, each once.
pub open spec fn comment_values(
    category: Category,
    comments: Seq<(Seq<char>, Seq<char>)>,
    key: Seq<char>,
) -> Seq<Seq<char>>
    decreases comments.len(),
{
    if comments.len() == 0 {
        seq![]
    } else {
        let front = comment_values(category, comments.drop_last(), key);
        let (name, value) = comments.last();
        if comment_key(category, name) == Some(key) && !front.contains(value) {
            front.push(value)
        } else {
            front
        }
    }
}

/// Whether one of `comments` is for `key`.
pub open spec fn has_comment(
    category: Category,
    comments: Seq<(Seq<char>, Seq<char>)>,
    key: Seq<char>,
) -> bool {
    exists|i: int|
        0 <= i < comments.len() && comment_key(category, (#[trigger] comments[i]).0) == Some(key)
}

/// The tags that `comments` make for `category`.
pub open spec fn comment_tags(
    category: Category,
    comments: Seq<(Seq<char>, Seq<char>)>,
) -> Map<Seq<char>, Seq<Seq<char>>> {
    Map::new(
        |key: Seq<char>| has_comment(category, comments, key),
        |key: Seq<char>| comment_values(category, comments, key),
    )
}

/// Appends `value` unless it is there.
fn push_unique(values: &mut Vec<String>, value: &str)
    ensures
        final(values).deep_view() == if old(values).deep_view().contains(value@) {
            old(values).deep_view()
        } else {
            old(values).deep_view().push(value@)
        },
{
    let ghost before = values.deep_view();
    if !holds_text(values, value) {
        values.push(value.to_owned());
        assert(values.deep_view() =~= before.push(value@));
    }
}

/// The tags that `comments` make for `category`.
pub fn collect_vorbis_tags(category: Category, comments: &Vec<Comment>) -> (r: TextMap<Vec<String>>)
    ensures
        r@ == comment_tags(category, comments.deep_view()),
{
    let ghost views = comments.deep_view();
    let mut tags: TextMap<Vec<String>> = TextMap::new();
    let mut i: usize = 0;
    assert(tags@ =~= comment_tags(category, views.take(0)));
    while i < comments.len()
        invariant
            i <= comments@.len(),
            views == comments.deep_view(),
            tags@ == comment_tags(category, views.take(i as int)),
        decreases comments.len() - i,
    {
        let comment = &comments[i];
        let ghost head = views.take(i as int);
        let ghost next = views.take(i + 1);
        let ghost before = tags@;
        proof {
            assert(views[i as int] == comment.deep_view());
            assert(next.drop_last() =~= head);
            assert(next.last() == views[i as int]);
            assert forall|k: Seq<char>| #[trigger]
                has_comment(category, next, k) <==> has_comment(category, head, k) || comment_key(
                    category,
                    comment.name@,
                ) == Some(k) by {
                if has_comment(category, head, k) {
                    let j = choose|j: int|
                        0 <= j < head.len() && comment_key(category, (#[trigger] head[j]).0)
                            == Some(k);
                    assert(next[j] == head[j]);
                }
                if comment_key(category, comment.name@) == Some(k) {
                    assert(next[i as int] == views[i as int]);
                }
                if has_comment(category, next, k) {
                    let j = choose|j: int|
                        0 <= j < next.len() && comment_key(category, (#[trigger] next[j]).0)
                            == Some(k);
                    if j < i {
                        assert(head[j] == next[j]);
                    }
                }
            }
        }
        match canonical_category_key(category, comment.name.as_str()) {
            Some(key) => {
                let mut values: Vec<String> = match tags.remove(key) {
                    Some(values) => values,
                    None => Vec::new(),
                };
                proof {
                    if !before.contains_key(key@) {
                        lemma_no_comment_values(category, head, key@);
                    }
                    assert(values.deep_view() =~= comment_values(category, head, key@));
                }
                push_unique(&mut values, comment.value.as_str());
                tags.insert(key.to_owned(), values);
                assert(tags@ =~= comment_tags(category, next));
            },
            None => {
                assert(tags@ =~= comment_tags(category, next));
            },
        }
        i += 1;
    }
    assert(views.take(i as int) =~= views);
    tags
}

proof fn lemma_no_comment_values(
    category: Category,
    comments: Seq<(Seq<char>, Seq<char>)>,
    key: Seq<char>,
)
    requires
        !has_comment(category, comments, key),
    ensures
        comment_values(category, comments, key) == Seq::<Seq<char>>::empty(),
    decreases comments.len(),
{
    if comments.len() > 0 {
        let front = comments.drop_last();
        assert(comment_key(category, comments[comments.len() - 1].0) != Some(key));
        if has_comment(category, front, key) {
            let j = choose|j: int|
                0 <= j < front.len() && comment_key(category, (#[trigger] front[j]).0) == Some(key);
            assert(comments[j] == front[j]);
        }
        lemma_no_comment_values(category, front, key);
    } else {
        assert(comment_values(category, comments, key) =~= Seq::<Seq<char>>::empty());
    }
}

/// The comments of an Opus file with the contents `bytes`, if it can be read, together with what it
/// says of its audio where `audio` holds.
pub uninterp spec fn opus_comments(
    bytes: Seq<u8>,
    audio: bool,
) -> Option<Seq<(Seq<char>, Seq<char>)>>;

/// The comments of a FLAC file with the contents `bytes`, if it can be read and has any, together
/// with its pictures where `pictures` holds.
pub uninterp spec fn flac_comments(
    bytes: Seq<u8>,
    pictures: bool,
) -> Option<Option<Seq<(Seq<char>, Seq<char>)>>>;

/// Whether the head of an Opus file, the first packet of its first page, is cut off or names more
/// channels than its channel mapping has: two in the first family of mappings, eight in the second.
pub open spec fn is_bad_opus_head(bytes: Seq<u8>) -> bool {
    &&& bytes.len() > 27
    &&& {
        let head = 27 + bytes[26];
        ||| bytes[27] < 19
        ||| {
            &&& head + 18 < bytes.len()
            &&& {
                ||| bytes[head + 18] == 0 && bytes[head + 9] > 2
                ||| bytes[head + 18] == 1 && bytes[head + 9] > 8
            }
        }
    }
}

/// Whether the head of an Opus file is cut off or names too many channels.
fn has_bad_opus_head(bytes: &[u8]) -> (r: bool)
    ensures
        r == is_bad_opus_head(bytes@),
{
    if bytes.len() <= 27 {
        return false;
    }
    if bytes[27] < 19 {
        return true;
    }
    let head: usize = 27 + bytes[26] as usize;
    if bytes.len() <= head + 18 {
        return false;
    }
    let channels: u8 = bytes[head + 9];
    let family: u8 = bytes[head + 18];
    (family == 0 && channels > 2) || (family == 1 && channels > 8)
}

/// Whether `byte` is the letter `letter`, in lowercase or not.
pub open spec fn is_letter(byte: u8, letter: u8) -> bool {
    byte == letter || byte + 32 == letter
}

/// Whether a comment with the name `COVERART` starts at `at`, behind its length, and its value is too
/// short for a picture: it holds less than eight groups of four characters.
pub open spec fn is_short_cover(bytes: Seq<u8>, at: int) -> bool {
    &&& 4 <= at && at + 9 <= bytes.len()
    &&& bytes[at - 4] < 41 && bytes[at - 4] % 4 == 1
    &&& bytes[at - 3] == 0 && bytes[at - 2] == 0 && bytes[at - 1] == 0
    &&& is_letter(bytes[at], 'c' as u8)
    &&& is_letter(bytes[at + 1], 'o' as u8)
    &&& is_letter(bytes[at + 2], 'v' as u8)
    &&& is_letter(bytes[at + 3], 'e' as u8)
    &&& is_letter(bytes[at + 4], 'r' as u8)
    &&& is_letter(bytes[at + 5], 'a' as u8)
    &&& is_letter(bytes[at + 6], 'r' as u8)
    &&& is_letter(bytes[at + 7], 't' as u8)
    &&& bytes[at + 8] == '=' as u8
}

/// Whether a file holds a picture in its comments that is too short for one.
pub open spec fn has_short_cover(bytes: Seq<u8>) -> bool {
    exists|at: int| is_short_cover(bytes, at)
}

/// Whether `byte` is the letter `letter`, in lowercase or not.
fn same_letter(byte: u8, letter: char) -> (r: bool)
    requires
        'a' <= letter <= 'z',
    ensures
        r == is_letter(byte, letter as u8),
{
    let lower: u8 = letter as u8;
    byte == lower || byte == lower - 32
}

/// Whether a comment with a picture that is too short for one starts at `at`.
fn starts_short_cover(bytes: &[u8], at: usize) -> (r: bool)
    requires
        4 <= at,
        at + 9 <= bytes@.len(),
    ensures
        r == is_short_cover(bytes@, at as int),
{
    bytes[at - 4] < 41 && bytes[at - 4] % 4 == 1 && bytes[at - 3] == 0 && bytes[at - 2] == 0
        && bytes[at - 1] == 0 && same_letter(bytes[at], 'c') && same_letter(bytes[at + 1], 'o')
        && same_letter(bytes[at + 2], 'v') && same_letter(bytes[at + 3], 'e') && same_letter(
        bytes[at + 4],
        'r',
    ) && same_letter(bytes[at + 5], 'a') && same_letter(bytes[at + 6], 'r') && same_letter(
        bytes[at + 7],
        't',
    ) && bytes[at + 8] == '=' as u8
}

/// Whether a file holds a picture in its comments that is too short for one.
fn holds_short_cover(bytes: &[u8]) -> (r: bool)
    ensures
        r == has_short_cover(bytes@),
{
    let mut at: usize = 4;
    while bytes.len() >= 9 && at <= bytes.len() - 9
        invariant
            4 <= at,
            at <= bytes@.len() + 4,
            forall|p: int| 0 <= p < at ==> !is_short_cover(bytes@, p),
        decreases bytes.len() + 4 - at,
    {
        if starts_short_cover(bytes, at) {
            return true;
        }
        at += 1;
    }
    false
}

/// `OpusFile::read_from` of `lofty`, which leaves pictures unread, and the names and values of the
/// file's comments in their order: they depend on the arguments alone and are named
/// [`opus_comments`]. (On a head that is in order, reading what the file says of its audio never
/// fails, but panics where there are no channels, less than half a millisecond of sound or more than
/// can be counted. Reading pictures never fails either, but panics on one of less than eight bytes.)
#[verifier::external_body]
fn read_opus(bytes: &[u8], audio: bool) -> (r: Option<Vec<Comment>>)
    requires
        audio ==> is_bad_opus_head(bytes@),
    ensures
        r.deep_view() == opus_comments(bytes@, audio),
{
    let options = ParseOptions::new().read_properties(audio).read_cover_art(false);
    let file = OpusFile::read_from(&mut Cursor::new(bytes), options).ok()?;
    let items = file.vorbis_comments().items();
    Some(items.map(|(name, value)| Comment { name: name.to_owned(), value: value.to_owned() }).collect())
}

/// `FlacFile::read_from` of `lofty`, and the names and values of the file's comments in their order,
/// where it has a block of comments: they depend on the arguments alone and are named
/// [`flac_comments`]. (Reading pictures panics on one in the comments of less than eight bytes.)
#[verifier::external_body]
fn read_flac(bytes: &[u8], pictures: bool) -> (r: Option<Option<Vec<Comment>>>)
    requires
        pictures ==> !has_short_cover(bytes@),
    ensures
        r.deep_view() == flac_comments(bytes@, pictures),
{
    let options = ParseOptions::new().read_cover_art(pictures);
    let file = FlacFile::read_from(&mut Cursor::new(bytes), options).ok()?;
    Some(file.vorbis_comments().map(|comments| {
        let items = comments.items();
        items.map(|(name, value)| Comment { name: name.to_owned(), value: value.to_owned() }).collect()
    }))
}

/// The comments of a file with the extension `extension` and the contents `bytes`; none where the
/// file cannot be read, and none for formats without comments that the library reads. A bad head
/// makes an Opus file unreadable, and a bad picture ahead of a FLAC file makes that one unreadable,
/// unless a picture in the comments is too short to be read along.
pub open spec fn file_comments(
    extension: Option<Seq<char>>,
    bytes: Seq<u8>,
) -> Option<Seq<(Seq<char>, Seq<char>)>> {
    if extension == Some("opus"@) {
        opus_comments(bytes, is_bad_opus_head(bytes))
    } else if extension == Some("flac"@) {
        match flac_comments(bytes, !has_short_cover(bytes)) {
            Some(Some(comments)) => Some(comments),
            Some(None) => Some(seq![]),
            None => None,
        }
    } else {
        Some(seq![])
    }
}

/// The tags in the file at `path` with the contents `bytes`; none if it cannot be read.
pub fn read_tags(category: Category, path: &str, bytes: &[u8]) -> (r: Option<TextMap<Vec<String>>>)
    ensures
        r is Some <==> file_comments(lower_extension(path@), bytes@) is Some,
        r matches Some(tags) ==> tags@ == comment_tags(
            category,
            file_comments(lower_extension(path@), bytes@).unwrap(),
        ),
{
    let kind = extension(path);
    let name: &str = match &kind {
        Some(kind) => kind.as_str(),
        None => "",
    };
    proof {
        reveal_strlit("");
        reveal_strlit("opus");
        reveal_strlit("flac");
        assert("opus"@.len() != ""@.len());
        assert("flac"@.len() != ""@.len());
    }
    let comments: Vec<Comment> = if same_text(name, "opus") {
        match read_opus(bytes, has_bad_opus_head(bytes)) {
            Some(comments) => comments,
            None => {
                return None;
            },
        }
    } else if same_text(name, "flac") {
        match read_flac(bytes, !holds_short_cover(bytes)) {
            Some(Some(comments)) => comments,
            Some(None) => {
                let none: Vec<Comment> = Vec::new();
                assert(none.deep_view() =~= seq![]);
                none
            },
            None => {
                return None;
            },
        }
    } else {
        let none: Vec<Comment> = Vec::new();
        assert(none.deep_view() =~= seq![]);
        none
    };
    Some(collect_vorbis_tags(category, &comments))
}

/// Whether a file is known with the size `size` and the time of change `modified`.
pub open spec fn is_known(
    known: Map<Seq<char>, (u64, i64)>,
    path: Seq<char>,
    size: u64,
    modified: i64,
) -> bool {
    known.contains_key(path) && known[path] == (size, modified)
}

/// What a scan found in a category's folder.
pub struct CategoryScan {
    pub records: Vec<FileScanRecord>,
    pub files_seen: usize,
    pub dirs_seen: usize,
    pub skipped_seen: usize,
    pub reused_seen: usize,
    pub tags_read: usize,
}

/// What to do with a file that a scan came across.
#[derive(Debug, Clone, Copy, PartialEq, Eq, Structural)]
pub enum FileVisit {
    /// The library keeps no such files.
    Skip,
    /// The file is known as it is.
    Reuse,
    /// The tags in the file are to be read.
    ReadTags,
    /// Nothing can be found out about the file.
    LeaveOut,
}

impl CategoryScan {
    /// Whether nothing was found.
    pub open spec fn is_empty(self) -> bool {
        &&& self.records.deep_view() == Seq::<ScanView>::empty()
        &&& self.files_seen == 0
        &&& self.dirs_seen == 0
        &&& self.skipped_seen == 0
        &&& self.reused_seen == 0
        &&& self.tags_read == 0
    }

    /// Whether files that were skipped, reused or read were counted.
    pub open spec fn well_formed(self) -> bool {
        self.skipped_seen + self.reused_seen + self.tags_read <= self.files_seen
    }

    /// Nothing found yet.
    pub fn new() -> (r: CategoryScan)
        ensures
            r.is_empty(),
            r.well_formed(),
    {
        let r = CategoryScan {
            records: Vec::new(),
            files_seen: 0,
            dirs_seen: 0,
            skipped_seen: 0,
            reused_seen: 0,
            tags_read: 0,
        };
        assert(r.records.deep_view() =~= Seq::<ScanView>::empty());
        r
    }

    /// Counts a folder.
    pub fn visit_dir(&mut self)
        requires
            old(self).dirs_seen < usize::MAX,
        ensures
            *final(self) == (CategoryScan {
                dirs_seen: (old(self).dirs_seen + 1) as usize,
                ..*old(self)
            }),
    {
        self.dirs_seen += 1;
    }

    /// Counts a file; tells what to do with it. `print` is its size and time of change, if they can
    /// be found out.
    pub fn visit_file(
        &mut self,
        known: &TextMap<(u64, i64)>,
        path: &str,
        print: Option<(u64, i64)>,
    ) -> (r: FileVisit)
        requires
            old(self).well_formed(),
            old(self).files_seen < usize::MAX,
        ensures
            final(self).well_formed(),
            final(self).records == old(self).records,
            final(self).dirs_seen == old(self).dirs_seen,
            final(self).files_seen == old(self).files_seen + 1,
            r == if !is_library_path(path@) {
                FileVisit::Skip
            } else {
                match print {
                    Some((size, modified)) => if is_known(known@, path@, size, modified) {
                        FileVisit::Reuse
                    } else {
                        FileVisit::ReadTags
                    },
                    None => FileVisit::LeaveOut,
                }
            },
            final(self).skipped_seen == old(self).skipped_seen + if r == FileVisit::Skip {
                1int
            } else {
                0int
            },
            final(self).reused_seen == old(self).reused_seen + if r == FileVisit::Reuse {
                1int
            } else {
                0int
            },
            final(self).tags_read == old(self).tags_read + if r == FileVisit::ReadTags {
                1int
            } else {
                0int
            },
    {
        self.files_seen += 1;
        if !is_library_file(path) {
            self.skipped_seen += 1;
            return FileVisit::Skip;
        }
        let (size, modified) = match print {
            Some(print) => print,
            None => {
                return FileVisit::LeaveOut;
            },
        };
        let unchanged = match known.get(path) {
            Some(print) => print.0 == size && print.1 == modified,
            None => false,
        };
        if unchanged {
            self.reused_seen += 1;
            FileVisit::Reuse
        } else {
            self.tags_read += 1;
            FileVisit::ReadTags
        }
    }

    /// Adds what a file that a scan came across is to be known by, with the tags in its `contents`
    /// where they are to be read: a file that cannot be opened or read brings none.
    pub fn read_scan_record_cached(
        &mut self,
        visit: FileVisit,
        category: Category,
        path: String,
        print: (u64, i64),
        contents: Option<&[u8]>,
    )
        ensures
            final(self).records.deep_view() == match visit {
                FileVisit::Skip | FileVisit::LeaveOut => old(self).records.deep_view(),
                FileVisit::Reuse => old(self).records.deep_view().push(
                    scan_record(path@, print.0, print.1, Map::empty()),
                ),
                FileVisit::ReadTags => old(self).records.deep_view().push(
                    scan_record(
                        path@,
                        print.0,
                        print.1,
                        brought_tags(
                            category,
                            path@,
                            match contents {
                                Some(bytes) => Some(bytes@),
                                None => None,
                            },
                        ),
                    ),
                ),
            },
            *final(self) == (CategoryScan { records: final(self).records, ..*old(self) }),
    {
        match visit {
            FileVisit::Skip => {},
            FileVisit::LeaveOut => {},
            FileVisit::Reuse => {
                self.add_record(path, print.0, print.1, TextMap::new());
            },
            FileVisit::ReadTags => {
                let read = match contents {
                    Some(bytes) => read_tags(category, path.as_str(), bytes),
                    None => None,
                };
                let tags = match read {
                    Some(tags) => tags,
                    None => TextMap::new(),
                };
                self.add_record(path, print.0, print.1, tags);
            },
        }
    }

    /// Adds what was found out about a file.
    pub fn add_record(
        &mut self,
        path: String,
        size: u64,
        modified: i64,
        tags: TextMap<Vec<String>>,
    )
        ensures
            final(self).records.deep_view() == old(self).records.deep_view().push(
                scan_record(path@, size, modified, tags@),
            ),
            *final(self) == (CategoryScan { records: final(self).records, ..*old(self) }),
    {
        let ghost before = self.records.deep_view();
        let ghost wanted = scan_record(path@, size, modified, tags@);
        let stem = file_stem(path.as_str());
        let kind = match extension(path.as_str()) {
            Some(kind) => kind,
            None => {
                let empty = String::new();
                assert(empty@ =~= seq![]);
                empty
            },
        };
        let record = FileScanRecord { path, stem, extension: kind, size, modified, tags };
        assert(record.deep_view() == wanted);
        self.records.push(record);
        assert(self.records.deep_view() =~= before.push(wanted));
    }
}

/// The tags that a file with `contents` brings: none where it cannot be opened or read.
pub open spec fn brought_tags(
    category: Category,
    path: Seq<char>,
    contents: Option<Seq<u8>>,
) -> Map<Seq<char>, Seq<Seq<char>>> {
    match contents {
        Some(bytes) => match file_comments(lower_extension(path), bytes) {
            Some(comments) => comment_tags(category, comments),
            None => Map::empty(),
        },
        None => Map::empty(),
    }
}

/// What a scan records of a file.
pub open spec fn scan_record(
    path: Seq<char>,
    size: u64,
    modified: i64,
    tags: Map<Seq<char>, Seq<Seq<char>>>,
) -> ScanView {
    ScanView {
        path,
        stem: stem_or_empty(path),
        extension: match lower_extension(path) {
            Some(extension) => extension,
            None => seq![],
        },
        size,
        modified,
        tags,
    }
}

/// The tags read from a file's comments are under keys that the category starts with, and no value
/// stands twice under a key.
pub proof fn lemma_comment_tags(
    category: Category,
    comments: Seq<(Seq<char>, Seq<char>)>,
    key: Seq<char>,
)
    requires
        comment_tags(category, comments).contains_key(key),
    ensures
        default_tag_keys(category).contains(key),
        comment_tags(category, comments)[key].no_duplicates(),
        forall|value: Seq<char>| #[trigger]
            comment_tags(category, comments)[key].contains(value) <==> exists|i: int|
                0 <= i < comments.len() && comment_key(category, (#[trigger] comments[i]).0)
                    == Some(key) && comments[i].1 == value,
{
    lemma_comment_values(category, comments, key);
}

proof fn lemma_comment_values(
    category: Category,
    comments: Seq<(Seq<char>, Seq<char>)>,
    key: Seq<char>,
)
    ensures
        comment_values(category, comments, key).no_duplicates(),
        forall|value: Seq<char>| #[trigger]
            comment_values(category, comments, key).contains(value) <==> exists|i: int|
                0 <= i < comments.len() && comment_key(category, (#[trigger] comments[i]).0)
                    == Some(key) && comments[i].1 == value,
    decreases comments.len(),
{
    if comments.len() > 0 {
        let front = comments.drop_last();
        let rest = comment_values(category, front, key);
        let last = comments.last();
        lemma_comment_values(category, front, key);
        assert forall|value: Seq<char>| #[trigger]
            comment_values(category, comments, key).contains(value) <==> exists|i: int|
                0 <= i < comments.len() && comment_key(category, (#[trigger] comments[i]).0)
                    == Some(key) && comments[i].1 == value by {
            crate::row_set::lemma_push_contains(rest, last.1, value);
            if rest.contains(value) {
                let i = choose|i: int|
                    0 <= i < front.len() && comment_key(category, (#[trigger] front[i]).0) == Some(
                        key,
                    ) && front[i].1 == value;
                assert(comments[i] == front[i]);
            }
            if exists|i: int|
                0 <= i < comments.len() && comment_key(category, (#[trigger] comments[i]).0)
                    == Some(key) && comments[i].1 == value {
                let i = choose|i: int|
                    0 <= i < comments.len() && comment_key(category, (#[trigger] comments[i]).0)
                        == Some(key) && comments[i].1 == value;
                if i < front.len() {
                    assert(front[i] == comments[i]);
                    assert(rest.contains(value));
                }
            }
            if comment_key(category, last.0) == Some(key) && last.1 == value {
                assert(comments[comments.len() - 1] == last);
            }
        }
    }
}

/// The comments that make tags: those named like a key that the category starts with, whatever the
/// case of letters.
pub proof fn lemma_names_of_comments(category: Category, name: Seq<char>)
    ensures
        ascii_lower(name) == "genre"@ ==> comment_key(category, name) == if category
            == Category::Music {
            Some("GENRE"@)
        } else {
            None
        },
        ascii_lower(name) == "mood"@ ==> comment_key(category, name) == if category
            == Category::Music {
            Some("MOOD"@)
        } else {
            None
        },
        ascii_lower(name) == "type"@ ==> comment_key(category, name) == if category
            == Category::Sfx {
            Some("TYPE"@)
        } else {
            None
        },
        ascii_lower(name) != "genre"@ && ascii_lower(name) != "mood"@ && ascii_lower(name)
            != "type"@ ==> comment_key(category, name) is None,
{
    reveal_strlit("GENRE");
    reveal_strlit("MOOD");
    reveal_strlit("TYPE");
    reveal_strlit("genre");
    reveal_strlit("mood");
    reveal_strlit("type");
    assert(ascii_lower("GENRE"@) =~= "genre"@);
    assert(ascii_lower("MOOD"@) =~= "mood"@);
    assert(ascii_lower("TYPE"@) =~= "type"@);
    assert("mood"@[0] != "type"@[0]);
    assert("MOOD"@[0] != "TYPE"@[0]);
    let keys = default_tag_keys(category);
    assert(category == Category::Music ==> keys[0] == "GENRE"@ && keys[1] == "MOOD"@);
    assert(category == Category::Sfx ==> keys[0] == "TYPE"@);
}

/// The values under a key stand in the order of the comments: more comments behind others put more
/// values behind theirs.
pub proof fn lemma_comments_keep_order(
    category: Category,
    comments: Seq<(Seq<char>, Seq<char>)>,
    more: Seq<(Seq<char>, Seq<char>)>,
    key: Seq<char>,
)
    requires
        has_comment(category, comments, key),
    ensures
        comment_tags(category, comments + more).contains_key(key),
        comment_tags(category, comments)[key].is_prefix_of(
            comment_tags(category, comments + more)[key],
        ),
    decreases more.len(),
{
    let all = comments + more;
    let i = choose|i: int|
        0 <= i < comments.len() && comment_key(category, (#[trigger] comments[i]).0) == Some(key);
    assert(all[i] == comments[i]);
    assert(has_comment(category, all, key));
    if more.len() == 0 {
        assert(all =~= comments);
    } else {
        lemma_comments_keep_order(category, comments, more.drop_last(), key);
        assert(all.drop_last() =~= comments + more.drop_last());
    }
}

/// What a scan records of a file tells its stem and, in lowercase, its extension; the library keeps
/// the file exactly if it keeps files with that extension.
pub proof fn lemma_scanned_file(
    folder: Seq<char>,
    stem: Seq<char>,
    extension: Seq<char>,
    size: u64,
    modified: i64,
    tags: Map<Seq<char>, Seq<Seq<char>>>,
)
    requires
        stem.len() > 0,
        extension.len() > 0,
        !stem.contains('/'),
        !extension.contains('/'),
        !extension.contains('.'),
    ensures
        ({
            let path = joined(folder, stem.push('.') + extension);
            let record = scan_record(path, size, modified, tags);
            &&& record.path == path
            &&& record.stem == stem
            &&& record.extension == lowercase(extension)
            &&& record.size == size
            &&& record.modified == modified
            &&& record.tags == tags
            &&& is_library_path(path) <==> format_of(extension) is Some
        }),
{
    lemma_stem_and_extension(folder, stem, extension, stem);
}

/// A file brings the tags in its comments if it is an Opus or FLAC file, by its extension in whatever
/// case, and none if it is another one or cannot be opened.
pub proof fn lemma_brought_tags(
    category: Category,
    folder: Seq<char>,
    stem: Seq<char>,
    extension: Seq<char>,
    bytes: Seq<u8>,
)
    requires
        stem.len() > 0,
        extension.len() > 0,
        !stem.contains('/'),
        !extension.contains('/'),
        !extension.contains('.'),
        vstd::utf8::is_ascii_chars(extension),
    ensures
        ({
            let path = joined(folder, stem.push('.') + extension);
            let brought = brought_tags(category, path, Some(bytes));
            &&& brought_tags(category, path, None) == Map::<Seq<char>, Seq<Seq<char>>>::empty()
            &&& ascii_lower(extension) != "opus"@ && ascii_lower(extension) != "flac"@ ==> brought
                == Map::<Seq<char>, Seq<Seq<char>>>::empty()
            &&& ascii_lower(extension) == "opus"@ ==> match opus_comments(
                bytes,
                is_bad_opus_head(bytes),
            ) {
                Some(comments) => brought == comment_tags(category, comments),
                None => brought == Map::<Seq<char>, Seq<Seq<char>>>::empty(),
            }
            &&& ascii_lower(extension) == "flac"@ ==> match flac_comments(
                bytes,
                !has_short_cover(bytes),
            ) {
                Some(Some(comments)) => brought == comment_tags(category, comments),
                _ => brought == Map::<Seq<char>, Seq<Seq<char>>>::empty(),
            }
        }),
{
    reveal_strlit("opus");
    reveal_strlit("flac");
    lemma_stem_and_extension(folder, stem, extension, stem);
    assert(comment_tags(category, Seq::empty()) =~= Map::<Seq<char>, Seq<Seq<char>>>::empty());
    assert("opus"@[0] != "flac"@[0]);
}

} // verus!
