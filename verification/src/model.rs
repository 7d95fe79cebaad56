//! The library's data: categories, formats, file records, and search.
use crate::order::{key_lt, lemma_text_lt_irreflexive, text_lt, texts_lt, KeyView, SortKey};
use crate::text::{begins_with, equal_ignoring_ascii_case, lowercase, occurs_in, words};
use crate::text::{chars_of, contains_text, copy_texts, first_index, holds_text, same_text};
use crate::text::{lemma_first_index, same_ignoring_ascii_case, split_once, split_white_space};
use crate::text::{ascii_lower, is_white_space, lemma_trim_again, starts_with, trim, trimmed};
use crate::text::{lemma_word_occurs, to_ascii_lower, CharClass};
use crate::text_map::{TextMap, TextSet};
use vstd::prelude::*;

verus! {

broadcast use vstd::string::group_string_axioms;

pub const TAG_GENRE: &'static str = "GENRE";

pub const TAG_MOOD: &'static str = "MOOD";

pub const TAG_TYPE: &'static str = "TYPE";

/// The number of bars in a preview waveform.
pub const WAVEFORM_BAR_COUNT: usize = 256;

/// The heights of the bars of a preview waveform.
pub type WaveformBinary256 = [u8; 256];

/// The kinds of sounds that the library keeps apart.
#[derive(Debug, Clone, Copy, PartialEq, Eq, PartialOrd, Ord, Hash, Structural)]
pub enum Category {
    Music,
    Sfx,
}

/// The tag keys that a category starts with.
pub open spec fn default_tag_keys(category: Category) -> Seq<Seq<char>> {
    match category {
        Category::Music => seq![TAG_GENRE@, TAG_MOOD@],
        Category::Sfx => seq![TAG_TYPE@],
    }
}

impl Category {
    /// The other category.
    pub open spec fn other(self) -> Category {
        match self {
            Category::Music => Category::Sfx,
            Category::Sfx => Category::Music,
        }
    }

    /// The name that users see.
    pub open spec fn label_text(self) -> Seq<char> {
        match self {
            Category::Music => "Music"@,
            Category::Sfx => "SFX"@,
        }
    }

    /// The name that users see.
    pub fn label(&self) -> (r: &'static str)
        ensures
            r@ == self.label_text(),
    {
        match self {
            Category::Music => "Music",
            Category::Sfx => "SFX",
        }
    }

    /// The category after this one, in a circle.
    pub fn next(self) -> (r: Self)
        ensures
            r == self.other(),
    {
        match self {
            Category::Music => Category::Sfx,
            Category::Sfx => Category::Music,
        }
    }

    /// The category before this one, in a circle.
    pub fn previous(self) -> (r: Self)
        ensures
            r == self.other(),
    {
        match self {
            Category::Music => Category::Sfx,
            Category::Sfx => Category::Music,
        }
    }

    /// The tag keys that the category starts with.
    pub fn tag_keys(self) -> (r: &'static [&'static str])
        ensures
            r@.len() == default_tag_keys(self).len(),
            forall|i: int| 0 <= i < r@.len() ==> (#[trigger] r@[i])@ == default_tag_keys(self)[i],
    {
        match self {
            Category::Music => &[TAG_GENRE, TAG_MOOD],
            Category::Sfx => &[TAG_TYPE],
        }
    }
}

/// What to do with a folder name found above a file: give it to `key` as a value.
#[derive(Debug, PartialEq, Eq)]
pub struct FolderTagAssignment {
    pub value: String,
    pub key: String,
    pub enabled: bool,
}

/// The mathematical value of a [`FolderTagAssignment`].
#[verifier::ext_equal]
pub ghost struct AssignmentView {
    pub value: Seq<char>,
    pub key: Seq<char>,
    pub enabled: bool,
}

impl DeepView for FolderTagAssignment {
    type V = AssignmentView;

    open spec fn deep_view(&self) -> AssignmentView {
        AssignmentView { value: self.value@, key: self.key@, enabled: self.enabled }
    }
}

/// One file on disk that holds a sound.
#[derive(Debug, PartialEq, Eq)]
pub struct FileVariant {
    pub path: String,
    pub extension: String,
    pub size: u64,
    pub modified: i64,
    pub first_seen_at: i64,
    pub waveform: Option<WaveformBinary256>,
}

/// The mathematical value of a [`FileVariant`].
#[verifier::ext_equal]
pub ghost struct VariantView {
    pub path: Seq<char>,
    pub extension: Seq<char>,
    pub size: u64,
    pub modified: i64,
    pub first_seen_at: i64,
    pub waveform: Option<WaveformBinary256>,
}

impl DeepView for FileVariant {
    type V = VariantView;

    open spec fn deep_view(&self) -> VariantView {
        VariantView {
            path: self.path@,
            extension: self.extension@,
            size: self.size,
            modified: self.modified,
            first_seen_at: self.first_seen_at,
            waveform: self.waveform,
        }
    }
}

impl Clone for FileVariant {
    fn clone(&self) -> (r: Self)
        ensures
            r.deep_view() == self.deep_view(),
    {
        FileVariant {
            path: self.path.clone(),
            extension: self.extension.clone(),
            size: self.size,
            modified: self.modified,
            first_seen_at: self.first_seen_at,
            waveform: self.waveform,
        }
    }
}

/// Copies a list of tag values under each key.
pub fn copy_tags(tags: &TextMap<Vec<String>>) -> (r: TextMap<Vec<String>>)
    ensures
        r@ == tags@,
{
    let mut r: TextMap<Vec<String>> = TextMap::new();
    let total = tags.len();
    let ghost keys = tags.keys();
    let mut i: usize = 0;
    while i < total
        invariant
            i <= total,
            total == keys.len(),
            keys == tags.keys(),
            forall|k: Seq<char>| #[trigger] tags@.dom().contains(k) <==> keys.contains(k),
            forall|k: Seq<char>| #[trigger]
                r@.contains_key(k) <==> keys.take(i as int).contains(k),
            forall|k: Seq<char>| #[trigger]
                r@.contains_key(k) ==> tags@.contains_key(k) && r@[k] == tags@[k],
        decreases total - i,
    {
        let key = tags.key_at(i);
        let ghost before = r@;
        r.insert(key.clone(), copy_texts(tags.value_at(i)));
        proof {
            assert forall|k: Seq<char>| #[trigger] r@.contains_key(k) <==> keys.take(
                i + 1,
            ).contains(k) by {
                crate::row_set::lemma_take_contains(keys, i as int, k);
            }
        }
        i += 1;
    }
    proof {
        assert(keys.take(i as int) =~= keys);
        assert forall|k: Seq<char>| #[trigger] r@.contains_key(k) <==> tags@.contains_key(k) by {
            assert(tags@.dom().contains(k) <==> keys.contains(k));
        }
        assert(r@ =~= tags@);
    }
    r
}

/// Whether a sound can be played as it is.
#[derive(Debug, Clone, Copy, PartialEq, Eq, Structural)]
pub enum FileSupport {
    Native,
    Convertible,
}

/// A sound of the library: its files and its tags.
pub struct FileRecord {
    pub name: String,
    pub path: String,
    pub support: FileSupport,
    pub stem: String,
    pub variants: Vec<FileVariant>,
    pub tags: TextMap<Vec<String>>,
}

/// The mathematical value of a [`FileRecord`].
#[verifier::ext_equal]
pub ghost struct RecordView {
    pub name: Seq<char>,
    pub path: Seq<char>,
    pub support: FileSupport,
    pub stem: Seq<char>,
    pub variants: Seq<VariantView>,
    pub tags: Map<Seq<char>, Seq<Seq<char>>>,
}

impl DeepView for FileRecord {
    type V = RecordView;

    open spec fn deep_view(&self) -> RecordView {
        RecordView {
            name: self.name@,
            path: self.path@,
            support: self.support,
            stem: self.stem@,
            variants: self.variants.deep_view(),
            tags: self.tags@,
        }
    }
}

/// The position of the first variant with `extension`, case of letters aside; the length if none.
pub open spec fn variant_index(variants: Seq<VariantView>, extension: Seq<char>) -> int
    decreases variants.len(),
{
    if variants.len() == 0 || equal_ignoring_ascii_case(variants[0].extension, extension) {
        0
    } else {
        1 + variant_index(variants.drop_first(), extension)
    }
}

/// Whether one of `variants` has `extension`, case of letters aside.
pub open spec fn some_variant_has(variants: Seq<VariantView>, extension: Seq<char>) -> bool {
    exists|i: int|
        0 <= i < variants.len() && equal_ignoring_ascii_case(
            (#[trigger] variants[i]).extension,
            extension,
        )
}

/// The variant index is the first position with the extension.
pub proof fn lemma_variant_index(variants: Seq<VariantView>, extension: Seq<char>)
    ensures
        0 <= variant_index(variants, extension) <= variants.len(),
        some_variant_has(variants, extension) <==> variant_index(variants, extension)
            < variants.len(),
        variant_index(variants, extension) < variants.len() ==> equal_ignoring_ascii_case(
            variants[variant_index(variants, extension)].extension,
            extension,
        ),
        forall|i: int|
            0 <= i < variant_index(variants, extension) ==> !equal_ignoring_ascii_case(
                (#[trigger] variants[i]).extension,
                extension,
            ),
    decreases variants.len(),
{
    if variants.len() > 0 && !equal_ignoring_ascii_case(variants[0].extension, extension) {
        let rest = variants.drop_first();
        lemma_variant_index(rest, extension);
        let k = variant_index(rest, extension);
        assert forall|i: int| 0 <= i < k + 1 implies !equal_ignoring_ascii_case(
            (#[trigger] variants[i]).extension,
            extension,
        ) by {
            if i > 0 {
                assert(rest[i - 1] == variants[i]);
            }
        }
        if some_variant_has(variants, extension) {
            let i = choose|i: int|
                0 <= i < variants.len() && equal_ignoring_ascii_case(
                    (#[trigger] variants[i]).extension,
                    extension,
                );
            assert(rest[i - 1] == variants[i]);
        }
        if k < rest.len() {
            assert(variants[k + 1] == rest[k]);
        }
    } else if variants.len() > 0 {
        assert(equal_ignoring_ascii_case(variants[0].extension, extension));
    }
}

impl FileRecord {
    /// Whether the sound has to be converted before it can be played.
    pub fn is_convertible(&self) -> (r: bool)
        ensures
            r == (self.support == FileSupport::Convertible),
    {
        self.support == FileSupport::Convertible
    }

    /// The first variant with `extension`, case of letters aside.
    pub fn variant_for_extension(&self, extension: &str) -> (r: Option<&FileVariant>)
        ensures
            r is Some <==> some_variant_has(self.variants.deep_view(), extension@),
            r matches Some(variant) ==> variant.deep_view() == self.variants.deep_view()[
            variant_index(self.variants.deep_view(), extension@)],
    {
        let ghost variants = self.variants.deep_view();
        let mut i: usize = 0;
        proof {
            lemma_variant_index(variants, extension@);
            assert(variants.skip(0) =~= variants);
        }
        while i < self.variants.len()
            invariant
                i <= self.variants@.len(),
                variants == self.variants.deep_view(),
                variant_index(variants, extension@) == i + variant_index(
                    variants.skip(i as int),
                    extension@,
                ),
                some_variant_has(variants, extension@) <==> variant_index(variants, extension@)
                    < variants.len(),
            decreases self.variants.len() - i,
        {
            assert(variants.skip(i as int)[0] == self.variants@[i as int].deep_view());
            if same_ignoring_ascii_case(self.variants[i].extension.as_str(), extension) {
                assert(self.variants@[i as int].deep_view() == variants[i as int]);
                return Some(&self.variants[i]);
            }
            assert(variants.skip(i as int).drop_first() =~= variants.skip(i + 1));
            i += 1;
        }
        None
    }

    /// Whether the sound has a file with `extension`, case of letters aside.
    pub fn has_extension(&self, extension: &str) -> (r: bool)
        ensures
            r == some_variant_has(self.variants.deep_view(), extension@),
    {
        self.variant_for_extension(extension).is_some()
    }

    /// The formats that the sound does not have yet.
    pub fn conversion_targets(&self) -> (r: Vec<AudioFormat>)
        ensures
            r@ == all_formats().filter(
                |format: AudioFormat|
                    !some_variant_has(self.variants.deep_view(), format.extension_text()),
            ),
    {
        let ghost missing = |format: AudioFormat|
            !some_variant_has(self.variants.deep_view(), format.extension_text());
        let formats = default_format_priority();
        let mut out: Vec<AudioFormat> = Vec::new();
        let mut i: usize = 0;
        proof {
            reveal(Seq::filter);
            assert(all_formats().take(0) =~= seq![]);
        }
        while i < formats.len()
            invariant
                i <= formats@.len(),
                formats@ == all_formats(),
                missing == (|format: AudioFormat|
                    !some_variant_has(self.variants.deep_view(), format.extension_text())),
                out@ == all_formats().take(i as int).filter(missing),
            decreases formats.len() - i,
        {
            proof {
                reveal(Seq::filter);
                assert(all_formats().take(i + 1).drop_last() =~= all_formats().take(i as int));
            }
            let format = formats[i];
            if !self.has_extension(format.extension()) {
                out.push(format);
            }
            i += 1;
        }
        assert(all_formats().take(i as int) =~= all_formats());
        out
    }

    /// The waveform of the file that stands for the sound: the one at its path.
    pub fn primary_waveform(&self) -> (r: Option<WaveformBinary256>)
        ensures
            r == if self.variants@.len() == 0 {
                None
            } else {
                self.variants@[0].waveform
            },
    {
        if self.variants.len() == 0 {
            None
        } else {
            self.variants[0].waveform
        }
    }
}

/// The formats that files of the library have.
#[derive(Debug, Clone, Copy, PartialEq, Eq, PartialOrd, Ord, Hash, Structural)]
pub enum AudioFormat {
    Mp3,
    Wav,
    Opus,
    Flac,
}

/// Every format, in the order of preference that the library starts with.
pub open spec fn all_formats() -> Seq<AudioFormat> {
    seq![AudioFormat::Mp3, AudioFormat::Wav, AudioFormat::Opus, AudioFormat::Flac]
}

/// The format that a file extension stands for, case of letters aside.
pub open spec fn format_of(extension: Seq<char>) -> Option<AudioFormat> {
    let lower = ascii_lower(extension);
    if lower == "mp3"@ {
        Some(AudioFormat::Mp3)
    } else if lower == "wav"@ {
        Some(AudioFormat::Wav)
    } else if lower == "opus"@ {
        Some(AudioFormat::Opus)
    } else if lower == "flac"@ {
        Some(AudioFormat::Flac)
    } else {
        None
    }
}

impl AudioFormat {
    /// The extension of files in this format.
    pub open spec fn extension_text(self) -> Seq<char> {
        match self {
            AudioFormat::Mp3 => "mp3"@,
            AudioFormat::Wav => "wav"@,
            AudioFormat::Opus => "opus"@,
            AudioFormat::Flac => "flac"@,
        }
    }

    /// The name that users see.
    pub open spec fn label_text(self) -> Seq<char> {
        match self {
            AudioFormat::Mp3 => "MP3"@,
            AudioFormat::Wav => "WAV"@,
            AudioFormat::Opus => "OPUS"@,
            AudioFormat::Flac => "FLAC"@,
        }
    }

    /// The extension of files in this format.
    pub fn extension(self) -> (r: &'static str)
        ensures
            r@ == self.extension_text(),
    {
        match self {
            AudioFormat::Mp3 => "mp3",
            AudioFormat::Wav => "wav",
            AudioFormat::Opus => "opus",
            AudioFormat::Flac => "flac",
        }
    }

    /// The name that users see.
    pub fn label(self) -> (r: &'static str)
        ensures
            r@ == self.label_text(),
    {
        match self {
            AudioFormat::Mp3 => "MP3",
            AudioFormat::Wav => "WAV",
            AudioFormat::Opus => "OPUS",
            AudioFormat::Flac => "FLAC",
        }
    }

    /// The format with the extension `value`, case of letters aside.
    pub fn from_str(value: &str) -> (r: Result<AudioFormat, ()>)
        ensures
            r is Ok <==> format_of(value@) is Some,
            r matches Ok(format) ==> format_of(value@) == Some(format),
    {
        let lower = crate::text::to_ascii_lower(value);
        let lower = lower.as_str();
        if same_text(lower, "mp3") {
            Ok(AudioFormat::Mp3)
        } else if same_text(lower, "wav") {
            Ok(AudioFormat::Wav)
        } else if same_text(lower, "opus") {
            Ok(AudioFormat::Opus)
        } else if same_text(lower, "flac") {
            Ok(AudioFormat::Flac)
        } else {
            Err(())
        }
    }
}

/// The extension of a format names that format.
pub proof fn lemma_format_round_trip(format: AudioFormat)
    ensures
        format_of(format.extension_text()) == Some(format),
        format_of(format.label_text()) == Some(format),
{
    reveal_strlit("mp3");
    reveal_strlit("wav");
    reveal_strlit("opus");
    reveal_strlit("flac");
    reveal_strlit("MP3");
    reveal_strlit("WAV");
    reveal_strlit("OPUS");
    reveal_strlit("FLAC");
    assert(crate::text::ascii_lower("mp3"@) =~= "mp3"@);
    assert(crate::text::ascii_lower("wav"@) =~= "wav"@);
    assert(crate::text::ascii_lower("opus"@) =~= "opus"@);
    assert(crate::text::ascii_lower("flac"@) =~= "flac"@);
    assert(crate::text::ascii_lower("MP3"@) =~= "mp3"@);
    assert(crate::text::ascii_lower("WAV"@) =~= "wav"@);
    assert(crate::text::ascii_lower("OPUS"@) =~= "opus"@);
    assert(crate::text::ascii_lower("FLAC"@) =~= "flac"@);
    assert("wav"@[0] != "mp3"@[0]);
    assert("opus"@.len() != "mp3"@.len());
    assert("flac"@[0] != "opus"@[0]);
}

/// What a conversion does where the file that it would write exists.
#[derive(Debug, Clone, Copy, PartialEq, Eq, Structural)]
pub enum ConvertConflictBehavior {
    AddCopy,
    Overwrite,
}

/// The behavior that a stored word stands for.
pub open spec fn behavior_of(value: Seq<char>) -> Option<ConvertConflictBehavior> {
    if value == "add_copy"@ {
        Some(ConvertConflictBehavior::AddCopy)
    } else if value == "overwrite"@ {
        Some(ConvertConflictBehavior::Overwrite)
    } else {
        None
    }
}

impl ConvertConflictBehavior {
    /// The word under which the behavior is stored.
    pub open spec fn key_text(self) -> Seq<char> {
        match self {
            ConvertConflictBehavior::AddCopy => "add_copy"@,
            ConvertConflictBehavior::Overwrite => "overwrite"@,
        }
    }

    /// The word under which the behavior is stored.
    pub fn key(self) -> (r: &'static str)
        ensures
            r@ == self.key_text(),
    {
        match self {
            ConvertConflictBehavior::AddCopy => "add_copy",
            ConvertConflictBehavior::Overwrite => "overwrite",
        }
    }

    /// The behavior stored under the word `value`.
    pub fn from_str(value: &str) -> (r: Result<ConvertConflictBehavior, ()>)
        ensures
            r is Ok <==> behavior_of(value@) is Some,
            r matches Ok(behavior) ==> behavior_of(value@) == Some(behavior),
    {
        if same_text(value, "add_copy") {
            Ok(ConvertConflictBehavior::AddCopy)
        } else if same_text(value, "overwrite") {
            Ok(ConvertConflictBehavior::Overwrite)
        } else {
            Err(())
        }
    }
}

/// The word of a behavior names that behavior.
pub proof fn lemma_behavior_round_trip(behavior: ConvertConflictBehavior)
    ensures
        behavior_of(behavior.key_text()) == Some(behavior),
{
    reveal_strlit("add_copy");
    reveal_strlit("overwrite");
    assert("overwrite"@.len() != "add_copy"@.len());
}

/// The order of preference that the library starts with.
pub fn default_format_priority() -> (r: Vec<AudioFormat>)
    ensures
        r@ == all_formats(),
{
    vec![AudioFormat::Mp3, AudioFormat::Wav, AudioFormat::Opus, AudioFormat::Flac]
}

/// The elements of `s` in the order in which each comes first.
pub open spec fn without_repeats<T>(s: Seq<T>) -> Seq<T>
    decreases s.len(),
{
    if s.len() == 0 {
        s
    } else {
        let front = without_repeats(s.drop_last());
        if front.contains(s.last()) {
            front
        } else {
            front.push(s.last())
        }
    }
}

/// Leaving out repetitions keeps every element, each once.
pub proof fn lemma_without_repeats<T>(s: Seq<T>)
    ensures
        without_repeats(s).no_duplicates(),
        forall|x: T| #[trigger] without_repeats(s).contains(x) <==> s.contains(x),
        without_repeats(s).len() <= s.len(),
        s.no_duplicates() ==> without_repeats(s) == s,
    decreases s.len(),
{
    if s.len() > 0 {
        let front = without_repeats(s.drop_last());
        lemma_without_repeats(s.drop_last());
        assert(s =~= s.drop_last().push(s.last()));
        assert forall|x: T| #[trigger] without_repeats(s).contains(x) <==> s.contains(x) by {
            crate::row_set::lemma_push_contains(s.drop_last(), s.last(), x);
            crate::row_set::lemma_push_contains(front, s.last(), x);
            assert(front.contains(x) <==> s.drop_last().contains(x));
        }
        if s.no_duplicates() {
            assert(s.drop_last().no_duplicates());
            if s.drop_last().contains(s.last()) {
                let i = choose|i: int| 0 <= i < s.len() - 1 && s.drop_last()[i] == s.last();
                assert(s[i] == s[s.len() - 1]);
            }
        }
    }
}

/// A complete order of preference: `priority` first, then the formats that it leaves out.
pub open spec fn normalized_priority(priority: Seq<AudioFormat>) -> Seq<AudioFormat> {
    without_repeats(priority + all_formats())
}

/// Adds the elements of `formats` that `out` does not have.
fn push_missing_formats(
    out: &mut Vec<AudioFormat>,
    formats: &Vec<AudioFormat>,
    Ghost(before): Ghost<Seq<AudioFormat>>,
)
    requires
        old(out)@ == without_repeats(before),
    ensures
        final(out)@ == without_repeats(before + formats@),
{
    let mut i: usize = 0;
    assert(before + formats@.take(0) =~= before);
    while i < formats.len()
        invariant
            i <= formats@.len(),
            out@ == without_repeats(before + formats@.take(i as int)),
        decreases formats.len() - i,
    {
        let format = formats[i];
        let mut found = false;
        let mut j: usize = 0;
        while j < out.len()
            invariant
                j <= out@.len(),
                found <==> exists|k: int| 0 <= k < j && out@[k] == format,
            decreases out.len() - j,
        {
            if out[j] == format {
                found = true;
            }
            j += 1;
        }
        proof {
            assert(found <==> out@.contains(format));
            let next = before + formats@.take(i + 1);
            assert(next.drop_last() =~= before + formats@.take(i as int));
            assert(next.last() == format);
        }
        if !found {
            out.push(format);
        }
        i += 1;
    }
    assert(before + formats@.take(i as int) =~= before + formats@);
}

/// Completes an order of preference: every format once, those of `priority` first.
pub fn normalize_format_priority(priority: Vec<AudioFormat>) -> (r: Vec<AudioFormat>)
    ensures
        r@ == normalized_priority(priority@),
{
    let mut out: Vec<AudioFormat> = Vec::new();
    push_missing_formats(&mut out, &priority, Ghost(Seq::empty()));
    assert(Seq::<AudioFormat>::empty() + priority@ =~= priority@);
    let formats = default_format_priority();
    push_missing_formats(&mut out, &formats, Ghost(priority@));
    out
}

/// A normalized order of preference holds every format exactly once.
pub proof fn lemma_priority_is_complete(priority: Seq<AudioFormat>, format: AudioFormat)
    ensures
        normalized_priority(priority).contains(format),
        normalized_priority(priority).no_duplicates(),
        normalized_priority(normalized_priority(priority)) == normalized_priority(priority),
{
    let all = priority + all_formats();
    let once = normalized_priority(priority);
    lemma_without_repeats(all);
    assert forall|f: AudioFormat| #[trigger] once.contains(f) by {
        let i: int = match f {
            AudioFormat::Mp3 => 0,
            AudioFormat::Wav => 1,
            AudioFormat::Opus => 2,
            AudioFormat::Flac => 3,
        };
        assert(all[priority.len() + i] == f);
        assert(all.contains(f));
    }
    lemma_without_repeats(once);
    lemma_repeats_add_nothing(once, all_formats());
}

/// Repetitions behind a list without repetitions add nothing to it.
pub proof fn lemma_repeats_add_nothing<T>(s: Seq<T>, more: Seq<T>)
    requires
        s.no_duplicates(),
        forall|x: T| #[trigger] more.contains(x) ==> s.contains(x),
    ensures
        without_repeats(s + more) == s,
    decreases more.len(),
{
    lemma_without_repeats(s);
    if more.len() == 0 {
        assert(s + more =~= s);
    } else {
        assert((s + more).drop_last() =~= s + more.drop_last());
        assert(more.contains(more.last()));
        assert forall|x: T| #[trigger] more.drop_last().contains(x) implies s.contains(x) by {
            let i = choose|i: int| 0 <= i < more.len() - 1 && more.drop_last()[i] == x;
            assert(more[i] == x);
            assert(more.contains(x));
        }
        lemma_repeats_add_nothing(s, more.drop_last());
    }
}

/// The format of files with `extension`, if the library keeps such files.
pub fn supported_audio_extension(extension: &str) -> (r: Option<AudioFormat>)
    ensures
        r == format_of(extension@),
{
    match AudioFormat::from_str(extension) {
        Ok(format) => Some(format),
        Err(_) => None,
    }
}

/// What a category shows: its tags, what is checked and searched, and the sounds that match.
pub struct CategoryState {
    pub schema: TextMap<Vec<String>>,
    pub selected: TextMap<TextSet>,
    pub search: String,
    pub results: Vec<FileRecord>,
    pub all_records: Vec<FileRecord>,
}

/// The mathematical value of a [`CategoryState`].
#[verifier::ext_equal]
pub ghost struct StateView {
    pub schema: Map<Seq<char>, Seq<Seq<char>>>,
    pub selected: Map<Seq<char>, Set<Seq<char>>>,
    pub search: Seq<char>,
    pub results: Seq<RecordView>,
    pub all_records: Seq<RecordView>,
}

impl DeepView for CategoryState {
    type V = StateView;

    open spec fn deep_view(&self) -> StateView {
        StateView {
            schema: self.schema@,
            selected: self.selected@,
            search: self.search@,
            results: self.results.deep_view(),
            all_records: self.all_records.deep_view(),
        }
    }
}

impl Default for CategoryState {
    fn default() -> (r: Self)
        ensures
            r.deep_view() == (StateView {
                schema: Map::empty(),
                selected: Map::empty(),
                search: seq![],
                results: seq![],
                all_records: seq![],
            }),
    {
        let r = CategoryState {
            schema: TextMap::new(),
            selected: TextMap::new(),
            search: String::new(),
            results: Vec::new(),
            all_records: Vec::new(),
        };
        proof {
            assert(r.search@ =~= seq![]);
            assert(r.results.deep_view() =~= seq![]);
            assert(r.all_records.deep_view() =~= seq![]);
        }
        r
    }
}

/// The built-in tag key that `key` spells, case of letters aside.
pub open spec fn canonical_key(key: Seq<char>) -> Option<Seq<char>> {
    if equal_ignoring_ascii_case(key, TAG_GENRE@) {
        Some(TAG_GENRE@)
    } else if equal_ignoring_ascii_case(key, TAG_MOOD@) {
        Some(TAG_MOOD@)
    } else if equal_ignoring_ascii_case(key, TAG_TYPE@) {
        Some(TAG_TYPE@)
    } else {
        None
    }
}

/// The built-in tag key that `key` spells, case of letters aside.
pub fn canonical_tag_key(key: &str) -> (r: Option<&'static str>)
    ensures
        r is Some <==> canonical_key(key@) is Some,
        r matches Some(canonical) ==> canonical_key(key@) == Some(canonical@),
{
    if same_ignoring_ascii_case(key, TAG_GENRE) {
        Some(TAG_GENRE)
    } else if same_ignoring_ascii_case(key, TAG_MOOD) {
        Some(TAG_MOOD)
    } else if same_ignoring_ascii_case(key, TAG_TYPE) {
        Some(TAG_TYPE)
    } else {
        None
    }
}

/// The name that users see for a tag key.
pub open spec fn label_of_key(key: Seq<char>) -> Seq<char> {
    if equal_ignoring_ascii_case(key, TAG_GENRE@) {
        "Genre"@
    } else if equal_ignoring_ascii_case(key, TAG_MOOD@) {
        "Mood"@
    } else if equal_ignoring_ascii_case(key, TAG_TYPE@) {
        "Type"@
    } else {
        key
    }
}

/// The name that users see for a tag key.
pub fn tag_label(key: &str) -> (r: &str)
    ensures
        r@ == label_of_key(key@),
{
    if same_ignoring_ascii_case(key, TAG_GENRE) {
        "Genre"
    } else if same_ignoring_ascii_case(key, TAG_MOOD) {
        "Mood"
    } else if same_ignoring_ascii_case(key, TAG_TYPE) {
        "Type"
    } else {
        key
    }
}

/// The form in which a tag key is stored: built-in keys in capitals, others in lowercase,
/// without white space around them. There is none for a blank key.
pub open spec fn normal_key(key: Seq<char>) -> Option<Seq<char>> {
    let bare = trimmed(key);
    let lower = ascii_lower(lowercase(bare));
    if bare.len() == 0 {
        None
    } else if canonical_key(lower) is Some {
        canonical_key(lower)
    } else {
        Some(lower)
    }
}

/// The form in which a tag key is stored.
pub fn normalize_tag_key(key: &str) -> (r: Option<String>)
    ensures
        r is Some <==> normal_key(key@) is Some,
        r matches Some(normal) ==> normal_key(key@) == Some(normal@),
{
    let bare = trim(key);
    if bare.unicode_len() == 0 {
        return None;
    }
    let lower = to_ascii_lower(bare.to_lowercase().as_str());
    match canonical_tag_key(lower.as_str()) {
        Some(canonical) => Some(canonical.to_owned()),
        None => Some(lower),
    }
}

/// The form in which a tag value is stored: without white space around it, unless blank.
pub open spec fn normal_value(value: Seq<char>) -> Option<Seq<char>> {
    if trimmed(value).len() == 0 {
        None
    } else {
        Some(trimmed(value))
    }
}

/// The form in which a tag value is stored.
pub fn normalize_tag_value(value: &str) -> (r: Option<String>)
    ensures
        r is Some <==> normal_value(value@) is Some,
        r matches Some(normal) ==> normal_value(value@) == Some(normal@),
{
    let bare = trim(value);
    if bare.unicode_len() == 0 {
        None
    } else {
        Some(bare.to_owned())
    }
}

/// The form in which a tag value is stored is its own stored form.
pub proof fn lemma_normal_value_again(value: Seq<char>)
    ensures
        normal_value(value) matches Some(normal) ==> normal_value(normal) == Some(normal),
{
    lemma_trim_again(value, CharClass::WhiteSpace);
}

/// Forms in which tag keys are stored differ in more than the case of letters, unless they are the
/// same.
pub proof fn lemma_normal_keys_differ(key: Seq<char>, other: Seq<char>)
    requires
        normal_key(key) is Some,
        normal_key(other) is Some,
        equal_ignoring_ascii_case(normal_key(key).unwrap(), normal_key(other).unwrap()),
    ensures
        normal_key(key) == normal_key(other),
{
    let lower = ascii_lower(lowercase(trimmed(key)));
    let other_lower = ascii_lower(lowercase(trimmed(other)));
    assert(ascii_lower(lower) =~= lower);
    assert(ascii_lower(other_lower) =~= other_lower);
}

/// The form in which a tag key is stored is its own stored form, and keys that differ in the case of
/// letters alone are stored in the same form, as long as they are ASCII.
pub proof fn lemma_normal_key_again(key: Seq<char>, other: Seq<char>)
    requires
        vstd::utf8::is_ascii_chars(trimmed(key)),
        vstd::utf8::is_ascii_chars(trimmed(other)),
    ensures
        normal_key(key) matches Some(normal) ==> normal_key(normal) == Some(normal),
        equal_ignoring_ascii_case(trimmed(key), trimmed(other)) ==> normal_key(key) == normal_key(
            other,
        ),
{
    let bare = trimmed(key);
    lemma_trim_again(key, CharClass::WhiteSpace);
    assert(ascii_lower(ascii_lower(bare)) =~= ascii_lower(bare));
    assert(ascii_lower(ascii_lower(trimmed(other))) =~= ascii_lower(trimmed(other)));
    if equal_ignoring_ascii_case(bare, trimmed(other)) {
        assert(ascii_lower(bare).len() == ascii_lower(trimmed(other)).len());
    }
    if bare.len() > 0 {
        let lower = ascii_lower(bare);
        match canonical_key(lower) {
            Some(canonical) => {
                reveal_strlit("GENRE");
                reveal_strlit("MOOD");
                reveal_strlit("TYPE");
                lemma_bare_is_trimmed(canonical);
                assert(vstd::utf8::is_ascii_chars(canonical));
                assert(ascii_lower(ascii_lower(canonical)) =~= ascii_lower(canonical));
            },
            None => {
                lemma_bare_is_trimmed(lower);
                assert(vstd::utf8::is_ascii_chars(lower));
            },
        }
    }
}

/// A text without white space at its ends is its own trimmed form.
proof fn lemma_bare_is_trimmed(s: Seq<char>)
    requires
        s.len() > 0,
        !is_white_space(s[0]),
        !is_white_space(s.last()),
    ensures
        trimmed(s) == s,
{
}

/// The value above a subtag: what precedes the first `/`, where something stands on both sides.
pub open spec fn parent_value(value: Seq<char>) -> Option<Seq<char>> {
    let i = first_index(value, '/');
    if 0 < i < value.len() - 1 {
        Some(value.take(i))
    } else {
        None
    }
}

/// Splits a subtag into the value above it and its own name.
pub fn split_subtag(value: &str) -> (r: Option<(&str, &str)>)
    ensures
        r is Some <==> parent_value(value@) is Some,
        r matches Some((parent, child)) ==> parent_value(value@) == Some(parent@) && value@
            == parent@.push('/') + child@ && child@.len() > 0,
{
    proof {
        lemma_first_index(value@, '/');
    }
    match split_once(value, '/') {
        Some((parent, child)) => {
            if parent.unicode_len() == 0 || child.unicode_len() == 0 {
                None
            } else {
                assert(value@ =~= parent@.push('/') + child@);
                Some((parent, child))
            }
        },
        None => None,
    }
}

/// Whether a filter for `filter` lets `value` through: the value itself, or one below it.
pub open spec fn value_matches(value: Seq<char>, filter: Seq<char>) -> bool {
    value == filter || begins_with(value, filter.push('/'))
}

/// Whether a filter for `filter` lets `value` through.
pub fn tag_value_matches_filter(value: &str, filter: &str) -> (r: bool)
    ensures
        r == value_matches(value@, filter@),
{
    if same_text(value, filter) {
        return true;
    }
    let mut above = filter.to_owned();
    above.push('/');
    starts_with(value, above.as_str())
}

/// Whether the characters of `query` occur in `text` in their order, others between them or not.
pub open spec fn is_subsequence(query: Seq<char>, text: Seq<char>) -> bool
    decreases text.len(),
{
    if query.len() == 0 {
        true
    } else if text.len() == 0 {
        false
    } else if query[0] == text[0] {
        is_subsequence(query.drop_first(), text.drop_first())
    } else {
        is_subsequence(query, text.drop_first())
    }
}

/// Whether `places` are ascending positions of `text` that spell `query`.
pub open spec fn spells(places: Seq<int>, query: Seq<char>, text: Seq<char>) -> bool {
    &&& places.len() == query.len()
    &&& forall|i: int|
        0 <= i < places.len() ==> 0 <= #[trigger] places[i] < text.len() && text[places[i]]
            == query[i]
    &&& forall|i: int, j: int|
        0 <= i < j < places.len() ==> #[trigger] places[i] < #[trigger] places[j]
}

/// A fuzzy match finds ascending positions that spell the query exactly where there are some.
pub proof fn lemma_subsequence(query: Seq<char>, text: Seq<char>)
    ensures
        is_subsequence(query, text) <==> exists|places: Seq<int>| spells(places, query, text),
{
    if is_subsequence(query, text) {
        lemma_subsequence_places(query, text);
    }
    if exists|places: Seq<int>| spells(places, query, text) {
        let places = choose|places: Seq<int>| spells(places, query, text);
        lemma_places_subsequence(places, query, text);
    }
}

proof fn lemma_subsequence_places(query: Seq<char>, text: Seq<char>) -> (places: Seq<int>)
    requires
        is_subsequence(query, text),
    ensures
        spells(places, query, text),
    decreases text.len(),
{
    if query.len() == 0 {
        seq![]
    } else {
        let first = query[0] == text[0];
        let rest = if first {
            lemma_subsequence_places(query.drop_first(), text.drop_first())
        } else {
            lemma_subsequence_places(query, text.drop_first())
        };
        let moved = Seq::new(rest.len(), |i: int| rest[i] + 1);
        assert forall|i: int| 0 <= i < moved.len() implies 0 < #[trigger] moved[i] < text.len()
            && text[moved[i]] == (if first {
            query[i + 1]
        } else {
            query[i]
        }) by {
            assert(text.drop_first()[rest[i]] == text[rest[i] + 1]);
        }
        assert forall|i: int, j: int| 0 <= i < j < moved.len() implies #[trigger] moved[i]
            < #[trigger] moved[j] by {
            assert(rest[i] < rest[j]);
        }
        if first {
            let places = seq![0int] + moved;
            assert forall|i: int| 0 <= i < places.len() implies 0 <= #[trigger] places[i]
                < text.len() && text[places[i]] == query[i] by {
                if i > 0 {
                    assert(places[i] == moved[i - 1]);
                }
            }
            assert forall|i: int, j: int| 0 <= i < j < places.len() implies #[trigger] places[i]
                < #[trigger] places[j] by {
                assert(places[j] == moved[j - 1]);
                if i > 0 {
                    assert(places[i] == moved[i - 1]);
                }
            }
            places
        } else {
            moved
        }
    }
}

proof fn lemma_places_subsequence(places: Seq<int>, query: Seq<char>, text: Seq<char>)
    requires
        spells(places, query, text),
    ensures
        is_subsequence(query, text),
    decreases text.len(),
{
    if query.len() > 0 {
        assert(0 <= places[0] < text.len());
        let tail = text.drop_first();
        if query[0] == text[0] {
            let rest = Seq::new((places.len() - 1) as nat, |i: int| places[i + 1] - 1);
            assert forall|i: int| 0 <= i < rest.len() implies 0 <= #[trigger] rest[i] < tail.len()
                && tail[rest[i]] == query.drop_first()[i] by {
                assert(places[0] < places[i + 1]);
            }
            assert forall|i: int, j: int| 0 <= i < j < rest.len() implies #[trigger] rest[i]
                < #[trigger] rest[j] by {
                assert(places[i + 1] < places[j + 1]);
            }
            lemma_places_subsequence(rest, query.drop_first(), tail);
        } else {
            let moved = Seq::new(places.len(), |i: int| places[i] - 1);
            assert forall|i: int| 0 <= i < moved.len() implies 0 <= #[trigger] moved[i]
                < tail.len() && tail[moved[i]] == query[i] by {
                if i > 0 {
                    assert(places[0] < places[i]);
                }
            }
            assert forall|i: int, j: int| 0 <= i < j < moved.len() implies #[trigger] moved[i]
                < #[trigger] moved[j] by {
                assert(places[i] < places[j]);
            }
            lemma_places_subsequence(moved, query, tail);
        }
    }
}

/// Whether a search for `search` finds `text`: its characters in their order, case aside.
pub open spec fn fuzzy(text: Seq<char>, search: Seq<char>) -> bool {
    is_subsequence(lowercase(search), lowercase(text))
}

/// Whether the characters of `query` occur in `text` in their order.
pub(crate) fn chars_in_order(query: &[char], text: &[char]) -> (r: bool)
    ensures
        r == is_subsequence(query@, text@),
{
    let mut i: usize = 0;
    let mut j: usize = 0;
    assert(query@.skip(0) =~= query@);
    assert(text@.skip(0) =~= text@);
    while i < query.len() && j < text.len()
        invariant
            i <= query@.len(),
            j <= text@.len(),
            is_subsequence(query@, text@) == is_subsequence(
                query@.skip(i as int),
                text@.skip(j as int),
            ),
        decreases text.len() - j,
    {
        assert(query@.skip(i as int).drop_first() =~= query@.skip(i + 1));
        assert(text@.skip(j as int).drop_first() =~= text@.skip(j + 1));
        if query[i] == text[j] {
            i += 1;
        }
        j += 1;
    }
    i == query.len()
}

/// Whether a search for `search` finds `text`.
pub fn fuzzy_search_match(text: &str, search: &str) -> (r: bool)
    ensures
        r == fuzzy(text@, search@),
{
    let lower = text.to_lowercase();
    let query = search.to_lowercase();
    let text_chars = chars_of(lower.as_str());
    let query_chars = chars_of(query.as_str());
    chars_in_order(query_chars.as_slice(), text_chars.as_slice())
}

/// Whether a search finds the extension of one of `variants`.
pub open spec fn variants_match(variants: Seq<VariantView>, search: Seq<char>) -> bool {
    exists|i: int| 0 <= i < variants.len() && fuzzy((#[trigger] variants[i]).extension, search)
}

/// Whether a search finds one of `values`.
pub open spec fn values_match(values: Seq<Seq<char>>, search: Seq<char>) -> bool {
    exists|i: int| 0 <= i < values.len() && fuzzy(#[trigger] values[i], search)
}

/// Whether a search finds a key or a value of `tags`.
pub open spec fn tags_match(tags: Map<Seq<char>, Seq<Seq<char>>>, search: Seq<char>) -> bool {
    exists|key: Seq<char>| #[trigger]
        tags.contains_key(key) && (fuzzy(key, search) || values_match(tags[key], search))
}

/// Whether a search finds `record`, by its tags only where `include_tags` is set.
pub open spec fn found_by(record: RecordView, search: Seq<char>, include_tags: bool) -> bool {
    ||| fuzzy(record.name, search)
    ||| variants_match(record.variants, search)
    ||| include_tags && tags_match(record.tags, search)
}

/// Whether `tags` has every checked value under its key.
pub open spec fn has_selected(
    tags: Map<Seq<char>, Seq<Seq<char>>>,
    selected: Map<Seq<char>, Set<Seq<char>>>,
) -> bool {
    forall|key: Seq<char>, wanted: Seq<char>|
        selected.contains_key(key) && #[trigger] selected[key].contains(wanted)
            ==> tags.contains_key(key) && tags[key].contains(wanted)
}

/// Whether one of `values` passes a filter for `wanted`.
pub open spec fn some_value_matches(values: Seq<Seq<char>>, wanted: Seq<char>) -> bool {
    exists|i: int| 0 <= i < values.len() && value_matches(#[trigger] values[i], wanted)
}

/// Whether `tags` passes every checked filter.
pub open spec fn passes_selected(
    tags: Map<Seq<char>, Seq<Seq<char>>>,
    selected: Map<Seq<char>, Set<Seq<char>>>,
) -> bool {
    forall|key: Seq<char>, wanted: Seq<char>|
        selected.contains_key(key) && #[trigger] selected[key].contains(wanted)
            ==> tags.contains_key(key) && some_value_matches(tags[key], wanted)
}

/// Whether `record` is shown for a search and checked values, exact values only.
pub open spec fn matches(
    record: RecordView,
    search: Seq<char>,
    selected: Map<Seq<char>, Set<Seq<char>>>,
) -> bool {
    found_by(record, search, true) && has_selected(record.tags, selected)
}

/// Whether `record` is shown for a search and checked filters.
pub open spec fn matches_scoped(
    record: RecordView,
    search: Seq<char>,
    selected: Map<Seq<char>, Set<Seq<char>>>,
    include_tags: bool,
) -> bool {
    found_by(record, search, include_tags) && passes_selected(record.tags, selected)
}

/// Whether a search finds one of `values`.
fn any_value_matches(values: &Vec<String>, search: &str) -> (r: bool)
    ensures
        r == values_match(values.deep_view(), search@),
{
    let ghost texts = values.deep_view();
    let mut i: usize = 0;
    while i < values.len()
        invariant
            i <= values@.len(),
            texts == values.deep_view(),
            forall|j: int| 0 <= j < i ==> !fuzzy(#[trigger] texts[j], search@),
        decreases values.len() - i,
    {
        assert(texts[i as int] == values@[i as int]@);
        if fuzzy_search_match(values[i].as_str(), search) {
            return true;
        }
        i += 1;
    }
    false
}

/// Whether a search finds the extension of one of `variants`.
fn any_variant_matches(variants: &Vec<FileVariant>, search: &str) -> (r: bool)
    ensures
        r == variants_match(variants.deep_view(), search@),
{
    let ghost views = variants.deep_view();
    let mut i: usize = 0;
    while i < variants.len()
        invariant
            i <= variants@.len(),
            views == variants.deep_view(),
            forall|j: int| 0 <= j < i ==> !fuzzy((#[trigger] views[j]).extension, search@),
        decreases variants.len() - i,
    {
        assert(views[i as int] == variants@[i as int].deep_view());
        if fuzzy_search_match(variants[i].extension.as_str(), search) {
            return true;
        }
        i += 1;
    }
    false
}

/// Whether a search finds a key or a value of `tags`.
fn any_tag_matches(tags: &TextMap<Vec<String>>, search: &str) -> (r: bool)
    ensures
        r == tags_match(tags@, search@),
{
    let total = tags.len();
    let ghost keys = tags.keys();
    let mut i: usize = 0;
    while i < total
        invariant
            i <= total,
            total == keys.len(),
            keys == tags.keys(),
            forall|k: Seq<char>| #[trigger] tags@.dom().contains(k) <==> keys.contains(k),
            forall|j: int|
                0 <= j < i ==> !fuzzy(#[trigger] keys[j], search@) && !values_match(
                    tags@[keys[j]],
                    search@,
                ),
        decreases total - i,
    {
        let key = tags.key_at(i);
        if fuzzy_search_match(key.as_str(), search) || any_value_matches(tags.value_at(i), search) {
            assert(tags@.contains_key(key@));
            return true;
        }
        i += 1;
    }
    proof {
        if tags_match(tags@, search@) {
            let key = choose|key: Seq<char>| #[trigger]
                tags@.contains_key(key) && (fuzzy(key, search@) || values_match(
                    tags@[key],
                    search@,
                ));
            assert(tags@.dom().contains(key));
            let j = choose|j: int| 0 <= j < keys.len() && keys[j] == key;
            assert(!fuzzy(keys[j], search@));
        }
    }
    false
}

/// Whether a search finds `record`.
fn record_found(record: &FileRecord, search: &str, include_tags: bool) -> (r: bool)
    ensures
        r == found_by(record.deep_view(), search@, include_tags),
{
    fuzzy_search_match(record.name.as_str(), search) || any_variant_matches(
        &record.variants,
        search,
    ) || (include_tags && any_tag_matches(&record.tags, search))
}

/// Whether one of `values` passes a filter for `wanted`.
fn any_value_passes(values: &Vec<String>, wanted: &str) -> (r: bool)
    ensures
        r == some_value_matches(values.deep_view(), wanted@),
{
    let ghost texts = values.deep_view();
    let mut i: usize = 0;
    while i < values.len()
        invariant
            i <= values@.len(),
            texts == values.deep_view(),
            forall|j: int| 0 <= j < i ==> !value_matches(#[trigger] texts[j], wanted@),
        decreases values.len() - i,
    {
        assert(texts[i as int] == values@[i as int]@);
        if tag_value_matches_filter(values[i].as_str(), wanted) {
            return true;
        }
        i += 1;
    }
    false
}

/// Whether `tags` holds, under each key of `selected`, every checked value; with `below` set,
/// a value below a checked one serves as well.
fn selection_holds(
    tags: &TextMap<Vec<String>>,
    selected: &TextMap<TextSet>,
    below: bool,
) -> (r: bool)
    ensures
        r == if below {
            passes_selected(tags@, selected@)
        } else {
            has_selected(tags@, selected@)
        },
{
    let total = selected.len();
    let ghost keys = selected.keys();
    let mut i: usize = 0;
    while i < total
        invariant
            i <= total,
            total == keys.len(),
            keys == selected.keys(),
            forall|k: Seq<char>| #[trigger] selected@.dom().contains(k) <==> keys.contains(k),
            forall|j: int, w: Seq<char>|
                0 <= j < i && #[trigger] selected@[keys[j]].contains(w) ==> tags@.contains_key(
                    keys[j],
                ) && if below {
                    some_value_matches(tags@[keys[j]], w)
                } else {
                    tags@[keys[j]].contains(w)
                },
        decreases total - i,
    {
        let key = selected.key_at(i);
        let wanted = selected.value_at(i);
        let count = wanted.len();
        let ghost items = wanted.items();
        let mut n: usize = 0;
        while n < count
            invariant
                n <= count,
                count == items.len(),
                items == wanted.items(),
                key@ == keys[i as int],
                0 <= i < keys.len(),
                selected@.contains_key(key@),
                wanted@ == selected@[key@],
                forall|w: Seq<char>| #[trigger] wanted@.contains(w) <==> items.contains(w),
                forall|m: int|
                    0 <= m < n ==> tags@.contains_key(key@) && if below {
                        some_value_matches(tags@[key@], #[trigger] items[m])
                    } else {
                        tags@[key@].contains(#[trigger] items[m])
                    },
            decreases count - n,
        {
            let value = wanted.item_at(n);
            let held = match tags.get(key.as_str()) {
                Some(values) => {
                    if below {
                        any_value_passes(values, value.as_str())
                    } else {
                        holds_text(values, value.as_str())
                    }
                },
                None => false,
            };
            if !held {
                assert(selected@[key@].contains(value@));
                return false;
            }
            n += 1;
        }
        proof {
            assert forall|w: Seq<char>| #[trigger] selected@[keys[i as int]].contains(w) implies
                tags@.contains_key(keys[i as int]) && if below {
                some_value_matches(tags@[keys[i as int]], w)
            } else {
                tags@[keys[i as int]].contains(w)
            } by {
                assert(wanted@.contains(w));
                assert(items.contains(w));
                let m = choose|m: int| 0 <= m < items.len() && items[m] == w;
                assert(items[m] == w);
            }
        }
        i += 1;
    }
    proof {
        assert forall|key: Seq<char>, w: Seq<char>|
            selected@.contains_key(key) && #[trigger] selected@[key].contains(
                w,
            ) implies tags@.contains_key(key) && if below {
            some_value_matches(tags@[key], w)
        } else {
            tags@[key].contains(w)
        } by {
            assert(selected@.dom().contains(key));
            let j = choose|j: int| 0 <= j < keys.len() && keys[j] == key;
            assert(selected@[keys[j]].contains(w));
        }
    }
    true
}

/// Whether `record` is found by `search` and has every checked value under its key.
pub fn record_matches(record: &FileRecord, search: &str, selected: &TextMap<TextSet>) -> (r: bool)
    ensures
        r == matches(record.deep_view(), search@, selected@),
{
    record_found(record, search, true) && selection_holds(&record.tags, selected, false)
}

/// Whether `record` is found by `search`, by its tags only where `include_tags` is set, and
/// passes every checked filter.
pub fn record_matches_scoped(
    record: &FileRecord,
    search: &str,
    selected: &TextMap<TextSet>,
    include_tags: bool,
) -> (r: bool)
    ensures
        r == matches_scoped(record.deep_view(), search@, selected@, include_tags),
{
    record_found(record, search, include_tags) && selection_holds(&record.tags, selected, true)
}

/// Everything passes an empty search without checked values.
pub proof fn lemma_empty_filters_match(
    record: RecordView,
    search: Seq<char>,
    selected: Map<Seq<char>, Set<Seq<char>>>,
    include_tags: bool,
)
    requires
        search.len() == 0,
        forall|key: Seq<char>| #[trigger]
            selected.contains_key(key) ==> selected[key] == Set::<Seq<char>>::empty(),
    ensures
        matches(record, search, selected),
        matches_scoped(record, search, selected, include_tags),
{
    assert(fuzzy(record.name, search));
}

/// Checking more values never shows more: what passes a larger selection passes a smaller one.
pub proof fn lemma_more_filters_show_less(
    record: RecordView,
    search: Seq<char>,
    fewer: Map<Seq<char>, Set<Seq<char>>>,
    more: Map<Seq<char>, Set<Seq<char>>>,
    include_tags: bool,
)
    requires
        forall|key: Seq<char>| #[trigger]
            fewer.contains_key(key) ==> more.contains_key(key) && fewer[key].subset_of(more[key]),
    ensures
        matches(record, search, more) ==> matches(record, search, fewer),
        matches_scoped(record, search, more, include_tags) ==> matches_scoped(
            record,
            search,
            fewer,
            include_tags,
        ),
{
    assert forall|key: Seq<char>, w: Seq<char>|
        fewer.contains_key(key) && #[trigger] fewer[key].contains(w) implies more[key].contains(
        w,
    ) by {
        assert(fewer[key].subset_of(more[key]));
    }
}

/// A sound that has every checked value passes the filters too.
pub proof fn lemma_exact_values_pass(
    tags: Map<Seq<char>, Seq<Seq<char>>>,
    selected: Map<Seq<char>, Set<Seq<char>>>,
)
    requires
        has_selected(tags, selected),
    ensures
        passes_selected(tags, selected),
{
    assert forall|key: Seq<char>, w: Seq<char>|
        selected.contains_key(key) && #[trigger] selected[key].contains(
            w,
        ) implies tags.contains_key(key) && some_value_matches(tags[key], w) by {
        assert(tags[key].contains(w));
        let i = choose|i: int| 0 <= i < tags[key].len() && tags[key][i] == w;
        assert(value_matches(tags[key][i], w));
    }
}

/// How well a search finds a record, best first: the whole name, a word of it, its start, a part
/// of it, its characters in order, an extension, a tag.
pub open spec fn search_rank(record: RecordView, search: Seq<char>, include_tags: bool) -> int {
    let name = lowercase(record.name);
    let query = lowercase(search);
    if search.len() == 0 || name == query {
        0
    } else if words(name).contains(query) {
        1
    } else if begins_with(name, query) {
        2
    } else if occurs_in(name, query) {
        3
    } else if is_subsequence(query, name) {
        4
    } else if variants_match(record.variants, search) {
        5
    } else if include_tags && tags_match(record.tags, search) {
        6
    } else {
        7
    }
}

/// The key by which records are shown: how well the search finds them, then by name.
pub open spec fn record_sort_key(
    record: RecordView,
    search: Seq<char>,
    include_tags: bool,
) -> KeyView {
    KeyView {
        rank: search_rank(record, search, include_tags),
        parts: seq![lowercase(record.name), record.name],
    }
}

/// The key by which records are shown.
pub fn record_search_sort_key_scoped(
    record: &FileRecord,
    search: &str,
    include_tags: bool,
) -> (r: SortKey)
    ensures
        r@ == record_sort_key(record.deep_view(), search@, include_tags),
{
    let name = record.name.to_lowercase();
    let query = search.to_lowercase();
    let name_chars = chars_of(name.as_str());
    let query_chars = chars_of(query.as_str());
    let name_words = split_white_space(name.as_str());
    let rank: i128 = if search.unicode_len() == 0 || same_text(name.as_str(), query.as_str()) {
        0
    } else if holds_text(&name_words, query.as_str()) {
        1
    } else if starts_with(name.as_str(), query.as_str()) {
        2
    } else if contains_text(name.as_str(), query.as_str()) {
        3
    } else if chars_in_order(query_chars.as_slice(), name_chars.as_slice()) {
        4
    } else if any_variant_matches(&record.variants, search) {
        5
    } else if include_tags && any_tag_matches(&record.tags, search) {
        6
    } else {
        7
    };
    let mut parts: Vec<String> = Vec::new();
    parts.push(name);
    parts.push(record.name.clone());
    assert(parts.deep_view() =~= seq![lowercase(record.name@), record.name@]);
    SortKey { rank, parts }
}

/// Whatever occurs in a text as consecutive characters occurs in it in order.
pub proof fn lemma_part_is_subsequence(part: Seq<char>, text: Seq<char>)
    requires
        occurs_in(text, part),
    ensures
        is_subsequence(part, text),
{
    let at = choose|i: int| 0 <= i <= text.len() && #[trigger] begins_with(text.skip(i), part);
    let places = Seq::new(part.len(), |k: int| at + k);
    assert forall|k: int| 0 <= k < places.len() implies 0 <= #[trigger] places[k] < text.len()
        && text[places[k]] == part[k] by {
        assert(text.skip(at).take(part.len() as int)[k] == part[k]);
    }
    assert(spells(places, part, text));
    lemma_subsequence(part, text);
}

/// How well a search finds a sound does not depend on the case of letters, in the name or in the
/// search.
pub proof fn lemma_rank_ignores_case(
    a: RecordView,
    b: RecordView,
    search: Seq<char>,
    other: Seq<char>,
    include_tags: bool,
)
    requires
        lowercase(a.name) == lowercase(b.name),
        a.variants == b.variants,
        a.tags == b.tags,
        lowercase(search) == lowercase(other),
        search.len() == 0 <==> other.len() == 0,
    ensures
        search_rank(a, search, include_tags) == search_rank(b, other, include_tags),
        found_by(a, search, include_tags) == found_by(b, other, include_tags),
{
    assert forall|text: Seq<char>| fuzzy(text, search) == fuzzy(text, other) by {}
    assert(variants_match(a.variants, search) == variants_match(b.variants, other));
    assert forall|values: Seq<Seq<char>>| values_match(values, search) == values_match(
        values,
        other,
    ) by {}
    assert(tags_match(a.tags, search) == tags_match(b.tags, other));
}

/// A sound whose whole name is searched for ranks first, before every other one. Then come those of
/// whose name it is a word, those whose name starts with it, those in whose name it occurs, those
/// whose name has its characters in order, those with an extension that it finds, and, where tags
/// are searched, those with a tag that it finds; the case of letters never counts.
pub proof fn lemma_better_match_ranks_first(
    a: RecordView,
    b: RecordView,
    search: Seq<char>,
    include_tags: bool,
)
    requires
        search.len() > 0,
    ensures
        ({
            let query = lowercase(search);
            let x = lowercase(a.name);
            let y = lowercase(b.name);
            let first = search_rank(a, search, include_tags);
            let second = search_rank(b, search, include_tags);
            &&& x == query ==> first == 0
            &&& x == query && y != query ==> first < second
            &&& words(x).contains(query) && y != query && !words(y).contains(query) ==> first
                < second
            &&& begins_with(x, query) && !begins_with(y, query) && !words(y).contains(query)
                ==> first < second
            &&& occurs_in(x, query) && !occurs_in(y, query) ==> first < second
            &&& is_subsequence(query, x) && !is_subsequence(query, y) ==> first < second
            &&& variants_match(a.variants, search) && !is_subsequence(query, y) && !variants_match(
                b.variants,
                search,
            ) ==> first < second
            &&& found_by(a, search, include_tags) && !found_by(b, search, include_tags) ==> first
                < second
        }),
{
    lemma_name_tests(a.name, search);
    lemma_name_tests(b.name, search);
}

/// Of the ways in which a search can find a name, a closer one is a looser one too.
proof fn lemma_name_tests(name: Seq<char>, search: Seq<char>)
    ensures
        ({
            let query = lowercase(search);
            let text = lowercase(name);
            &&& text == query ==> begins_with(text, query)
            &&& words(text).contains(query) || begins_with(text, query) ==> occurs_in(text, query)
            &&& occurs_in(text, query) ==> is_subsequence(query, text)
        }),
{
    let query = lowercase(search);
    let text = lowercase(name);
    lemma_word_occurs(text, query);
    if occurs_in(text, query) {
        lemma_part_is_subsequence(query, text);
    }
}

/// A sound that a search finds in every way in which it finds another one ranks no later. So sounds
/// that are found in the same ways rank alike, and tags do not count where they are not searched.
pub proof fn lemma_as_good_a_match_ranks_alike(
    a: RecordView,
    b: RecordView,
    search: Seq<char>,
    include_tags: bool,
)
    requires
        ({
            let query = lowercase(search);
            let x = lowercase(a.name);
            let y = lowercase(b.name);
            &&& y == query ==> x == query
            &&& words(y).contains(query) ==> words(x).contains(query)
            &&& begins_with(y, query) ==> begins_with(x, query)
            &&& occurs_in(y, query) ==> occurs_in(x, query)
            &&& is_subsequence(query, y) ==> is_subsequence(query, x)
            &&& variants_match(b.variants, search) ==> variants_match(a.variants, search)
            &&& include_tags && tags_match(b.tags, search) ==> tags_match(a.tags, search)
        }),
    ensures
        search_rank(a, search, include_tags) <= search_rank(b, search, include_tags),
{
}

/// Without a search all sounds rank alike, so that they are shown by name: the case of letters
/// counts only where nothing else tells two names apart.
pub proof fn lemma_shown_by_name(
    a: RecordView,
    b: RecordView,
    search: Seq<char>,
    include_tags: bool,
)
    ensures
        search.len() == 0 ==> search_rank(a, search, include_tags) == search_rank(
            b,
            search,
            include_tags,
        ),
        search_rank(a, search, include_tags) == search_rank(b, search, include_tags) ==> {
            &&& text_lt(lowercase(a.name), lowercase(b.name)) ==> key_lt(
                record_sort_key(a, search, include_tags),
                record_sort_key(b, search, include_tags),
            )
            &&& lowercase(a.name) == lowercase(b.name) && text_lt(a.name, b.name) ==> key_lt(
                record_sort_key(a, search, include_tags),
                record_sort_key(b, search, include_tags),
            )
        },
        search_rank(a, search, include_tags) < search_rank(b, search, include_tags) ==> key_lt(
            record_sort_key(a, search, include_tags),
            record_sort_key(b, search, include_tags),
        ),
{
    let x = record_sort_key(a, search, include_tags).parts;
    let y = record_sort_key(b, search, include_tags).parts;
    assert(x.drop_first() =~= seq![a.name]);
    assert(y.drop_first() =~= seq![b.name]);
    assert(texts_lt(x.drop_first(), y.drop_first()) == if a.name == b.name {
        texts_lt(x.drop_first().drop_first(), y.drop_first().drop_first())
    } else {
        text_lt(a.name, b.name)
    });
    lemma_text_lt_irreflexive(a.name);
    lemma_text_lt_irreflexive(lowercase(a.name));
}

/// A value stands below another exactly if it is that one, a slash and a name: the first slash
/// counts, and something stands on both sides of it.
pub proof fn lemma_value_below(parent: Seq<char>, child: Seq<char>)
    requires
        !parent.contains('/'),
    ensures
        parent_value(parent.push('/') + child) == if parent.len() > 0 && child.len() > 0 {
            Some(parent)
        } else {
            None
        },
        parent_value(parent) is None,
{
    let value = parent.push('/') + child;
    lemma_first_index(value, '/');
    lemma_first_index(parent, '/');
    let n = parent.len() as int;
    assert(value[n] == '/');
    let i = first_index(value, '/');
    assert(i <= n) by {
        assert(value.contains('/'));
    }
    if i < n {
        assert(parent[i] == value[i]);
    }
    assert(value.take(n) =~= parent);
}

/// The form in which a tag key of ASCII letters is stored: the built-in ones in capitals, in whatever
/// case they are typed, and all others in lowercase; white space around it is left out.
pub proof fn lemma_stored_form(key: Seq<char>)
    requires
        vstd::utf8::is_ascii_chars(trimmed(key)),
    ensures
        normal_key(key) is None <==> trimmed(key).len() == 0,
        ({
            let lower = ascii_lower(trimmed(key));
            &&& lower == "genre"@ ==> normal_key(key) == Some("GENRE"@)
            &&& lower == "mood"@ ==> normal_key(key) == Some("MOOD"@)
            &&& lower == "type"@ ==> normal_key(key) == Some("TYPE"@)
            &&& lower.len() > 0 && lower != "genre"@ && lower != "mood"@ && lower != "type"@
                ==> normal_key(key) == Some(lower)
        }),
{
    reveal_strlit("GENRE");
    reveal_strlit("MOOD");
    reveal_strlit("TYPE");
    reveal_strlit("genre");
    reveal_strlit("mood");
    reveal_strlit("type");
    let lower = ascii_lower(trimmed(key));
    assert(ascii_lower(lower) =~= lower);
    assert(ascii_lower("GENRE"@) =~= "genre"@);
    assert(ascii_lower("MOOD"@) =~= "mood"@);
    assert(ascii_lower("TYPE"@) =~= "type"@);
    assert("mood"@[0] != "type"@[0]);
}

/// The name that users see for a key spells it: only the case of letters may differ, and that for
/// the built-in keys alone.
pub proof fn lemma_label_spells_key(key: Seq<char>)
    ensures
        equal_ignoring_ascii_case(label_of_key(key), key),
        label_of_key(key) != key ==> label_of_key(key) == "Genre"@ || label_of_key(key) == "Mood"@
            || label_of_key(key) == "Type"@,
        ascii_lower(key) == "genre"@ ==> label_of_key(key) == "Genre"@,
        ascii_lower(key) == "mood"@ ==> label_of_key(key) == "Mood"@,
        ascii_lower(key) == "type"@ ==> label_of_key(key) == "Type"@,
{
    reveal_strlit("GENRE");
    reveal_strlit("MOOD");
    reveal_strlit("TYPE");
    reveal_strlit("Genre");
    reveal_strlit("Mood");
    reveal_strlit("Type");
    reveal_strlit("genre");
    reveal_strlit("mood");
    reveal_strlit("type");
    assert(ascii_lower("GENRE"@) =~= "genre"@);
    assert(ascii_lower("MOOD"@) =~= "mood"@);
    assert(ascii_lower("TYPE"@) =~= "type"@);
    assert("mood"@[0] != "type"@[0]);
    assert(ascii_lower("Genre"@) =~= "genre"@);
    assert(ascii_lower("Mood"@) =~= "mood"@);
    assert(ascii_lower("Type"@) =~= "type"@);
}

/// The order of preference that users give comes first, as they gave it; the formats that they did
/// not name follow in the library's own order.
pub proof fn lemma_given_order_comes_first(priority: Seq<AudioFormat>, i: int, j: int)
    requires
        priority.no_duplicates(),
    ensures
        priority.is_prefix_of(normalized_priority(priority)),
        ({
            let all = normalized_priority(priority);
            0 <= i < j < all_formats().len() && !priority.contains(all_formats()[i])
                && !priority.contains(all_formats()[j]) ==> exists|a: int, b: int|
                0 <= a < b < all.len() && #[trigger] all[a] == all_formats()[i]
                    && #[trigger] all[b] == all_formats()[j]
        }),
{
    let formats = all_formats();
    lemma_repeats_add_nothing(priority, Seq::empty());
    assert(priority + Seq::<AudioFormat>::empty() =~= priority);
    lemma_longer_list(priority, formats);
    if 0 <= i < j < formats.len() && !priority.contains(formats[i]) && !priority.contains(
        formats[j],
    ) {
        let upto = priority + formats.take(j);
        let first = without_repeats(upto);
        assert(priority + formats =~= upto + formats.skip(j));
        lemma_longer_list(upto, formats.skip(j));
        lemma_longer_list(upto.push(formats[j]), formats.skip(j + 1));
        assert(upto.push(formats[j]) + formats.skip(j + 1) =~= priority + formats);
        lemma_without_repeats(upto);
        assert(upto[priority.len() + i] == formats[i]);
        assert(upto.contains(formats[i]));
        assert(first.contains(formats[i]));
        let a = choose|a: int| 0 <= a < first.len() && first[a] == formats[i];
        assert(!upto.contains(formats[j])) by {
            if upto.contains(formats[j]) {
                let k = choose|k: int| 0 <= k < upto.len() && upto[k] == formats[j];
                if k < priority.len() {
                    assert(priority[k] == formats[j]);
                } else {
                    assert(formats[k - priority.len()] == formats[j]);
                }
            }
        }
        assert(!first.contains(formats[j]));
        assert(upto.push(formats[j]).drop_last() =~= upto);
        let next = without_repeats(upto.push(formats[j]));
        assert(next == first.push(formats[j]));
        let all = normalized_priority(priority);
        assert(next.is_prefix_of(all));
        assert(all[a] == next[a]);
        assert(all[first.len() as int] == next[first.len() as int]);
    }
}

proof fn lemma_longer_list<T>(s: Seq<T>, more: Seq<T>)
    ensures
        without_repeats(s).is_prefix_of(without_repeats(s + more)),
    decreases more.len(),
{
    if more.len() == 0 {
        assert(s + more =~= s);
    } else {
        lemma_longer_list(s, more.drop_last());
        assert((s + more).drop_last() =~= s + more.drop_last());
    }
}

/// The formats that the library keeps, by the extension of their files, whatever the case of its
/// letters; no other extension stands for a format.
pub proof fn lemma_kept_extensions(extension: Seq<char>, other: Seq<char>, format: AudioFormat)
    ensures
        equal_ignoring_ascii_case(extension, other) ==> format_of(extension) == format_of(other),
        format_of(extension) == Some(format) <==> equal_ignoring_ascii_case(
            extension,
            format.extension_text(),
        ),
        format_of(extension) is None <==> !equal_ignoring_ascii_case(extension, "mp3"@)
            && !equal_ignoring_ascii_case(extension, "wav"@) && !equal_ignoring_ascii_case(
            extension,
            "opus"@,
        ) && !equal_ignoring_ascii_case(extension, "flac"@),
{
    reveal_strlit("mp3");
    reveal_strlit("wav");
    reveal_strlit("opus");
    reveal_strlit("flac");
    assert(ascii_lower("mp3"@) =~= "mp3"@);
    assert(ascii_lower("wav"@) =~= "wav"@);
    assert(ascii_lower("opus"@) =~= "opus"@);
    assert(ascii_lower("flac"@) =~= "flac"@);
    assert("mp3"@[0] == 'm' && "wav"@[0] == 'w' && "opus"@[0] == 'o' && "flac"@[0] == 'f');
}

/// A search finds a sound if its characters stand in order in the name or in an extension, whatever
/// the case of letters, and, where tags count, in a tag's key or value; where tags do not count they
/// make no difference.
pub proof fn lemma_search_finds(
    record: RecordView,
    other: RecordView,
    search: Seq<char>,
    places: Seq<int>,
    i: int,
    key: Seq<char>,
    j: int,
)
    ensures
        ({
            let query = lowercase(search);
            &&& spells(places, query, lowercase(record.name)) ==> found_by(record, search, false)
            &&& 0 <= i < record.variants.len() && spells(
                places,
                query,
                lowercase(record.variants[i].extension),
            ) ==> found_by(record, search, false)
            &&& record.tags.contains_key(key) && spells(places, query, lowercase(key)) ==> found_by(
                record,
                search,
                true,
            )
            &&& record.tags.contains_key(key) && 0 <= j < record.tags[key].len() && spells(
                places,
                query,
                lowercase(record.tags[key][j]),
            ) ==> found_by(record, search, true)
            &&& found_by(record, search, false) ==> found_by(record, search, true)
            &&& found_by(record, search, false) ==> is_subsequence(query, lowercase(record.name))
                || exists|n: int|
                0 <= n < record.variants.len() && is_subsequence(
                    query,
                    lowercase((#[trigger] record.variants[n]).extension),
                )
            &&& found_by(record, search, true) && !found_by(record, search, false) ==> exists|
                k: Seq<char>,
            | #[trigger]
                record.tags.contains_key(k) && (is_subsequence(query, lowercase(k)) || exists|n: int|
                    0 <= n < record.tags[k].len() && is_subsequence(
                        query,
                        lowercase(#[trigger] record.tags[k][n]),
                    ))
            &&& lowercase(record.name) == lowercase(other.name) && record.variants == other.variants
                ==> found_by(record, search, false) == found_by(other, search, false)
        }),
{
    let query = lowercase(search);
    lemma_subsequence(query, lowercase(record.name));
    if 0 <= i < record.variants.len() {
        lemma_subsequence(query, lowercase(record.variants[i].extension));
        assert(fuzzy(record.variants[i].extension, search) ==> variants_match(
            record.variants,
            search,
        ));
    }
    if record.tags.contains_key(key) {
        lemma_subsequence(query, lowercase(key));
        assert(fuzzy(key, search) ==> tags_match(record.tags, search));
        if 0 <= j < record.tags[key].len() {
            lemma_subsequence(query, lowercase(record.tags[key][j]));
            assert(fuzzy(record.tags[key][j], search) ==> values_match(record.tags[key], search));
        }
    }
    if variants_match(record.variants, search) {
        let n = choose|n: int|
            0 <= n < record.variants.len() && fuzzy(
                (#[trigger] record.variants[n]).extension,
                search,
            );
        assert(is_subsequence(query, lowercase(record.variants[n].extension)));
    }
    if tags_match(record.tags, search) {
        let k = choose|k: Seq<char>| #[trigger]
            record.tags.contains_key(k) && (fuzzy(k, search) || values_match(
                record.tags[k],
                search,
            ));
        if !fuzzy(k, search) {
            let n = choose|n: int|
                0 <= n < record.tags[k].len() && fuzzy(#[trigger] record.tags[k][n], search);
            assert(is_subsequence(query, lowercase(record.tags[k][n])));
        }
    }
}

/// A filter lets its value through and every value below it, and no other.
pub proof fn lemma_filter_lets_through(filter: Seq<char>, value: Seq<char>, child: Seq<char>)
    ensures
        value_matches(filter, filter),
        value_matches(filter.push('/') + child, filter),
        value_matches(value, filter) ==> value == filter || value == filter.push('/') + value.skip(
            filter.len() as int + 1,
        ),
{
    let below = filter.push('/') + child;
    assert(below.take(filter.len() as int + 1) =~= filter.push('/'));
    if begins_with(value, filter.push('/')) {
        assert(value =~= value.take(filter.len() as int + 1) + value.skip(
            filter.len() as int + 1,
        ));
    }
}

/// A sound is shown for checked filters exactly if, under the key of each, it has a value that the
/// filter lets through.
pub proof fn lemma_every_filter_counts(
    record: RecordView,
    search: Seq<char>,
    selected: Map<Seq<char>, Set<Seq<char>>>,
    include_tags: bool,
    key: Seq<char>,
    filter: Seq<char>,
)
    ensures
        matches_scoped(record, search, selected, include_tags) && selected.contains_key(key)
            && selected[key].contains(filter) ==> record.tags.contains_key(key) && exists|i: int|
            0 <= i < record.tags[key].len() && value_matches(#[trigger] record.tags[key][i], filter),
        matches_scoped(record, search, selected, include_tags) ==> found_by(
            record,
            search,
            include_tags,
        ),
        found_by(record, search, include_tags) && !matches_scoped(
            record,
            search,
            selected,
            include_tags,
        ) ==> exists|k: Seq<char>, f: Seq<char>|
            selected.contains_key(k) && #[trigger] selected[k].contains(f) && !(
            record.tags.contains_key(k) && some_value_matches(record.tags[k], f)),
{
    if matches_scoped(record, search, selected, include_tags) && selected.contains_key(key)
        && selected[key].contains(filter) {
        assert(some_value_matches(record.tags[key], filter));
    }
}

} // verus!
