//! Settings kept in the database.
use super::{Database, DatabaseView};
use crate::model::{all_formats, behavior_of, default_format_priority, format_of};
use crate::model::{lemma_behavior_round_trip, lemma_format_round_trip, lemma_repeats_add_nothing};
use crate::model::{normalize_format_priority, normalized_priority, AudioFormat};
use crate::model::{lemma_kept_extensions, lemma_priority_is_complete, ConvertConflictBehavior};
use crate::text::{equal_ignoring_ascii_case, first_index, lemma_first_index, split_char, split_on};
use vstd::prelude::*;

verus! {

broadcast use vstd::string::group_string_axioms;

pub const FORMAT_PRIORITY_KEY: &'static str = "format_priority";

pub const CONVERT_CONFLICT_KEY: &'static str = "convert_conflict";

/// The formats that `words` name, in their order; other words are passed over.
pub open spec fn formats_of(words: Seq<Seq<char>>) -> Seq<AudioFormat>
    decreases words.len(),
{
    if words.len() == 0 {
        seq![]
    } else {
        let front = formats_of(words.drop_last());
        match format_of(words.last()) {
            Some(format) => front.push(format),
            None => front,
        }
    }
}

/// The extensions of `formats` in one text, a comma between each two.
pub open spec fn comma_separated(formats: Seq<AudioFormat>) -> Seq<char>
    decreases formats.len(),
{
    if formats.len() == 0 {
        seq![]
    } else if formats.len() == 1 {
        formats[0].extension_text()
    } else {
        comma_separated(formats.drop_last()).push(',') + formats.last().extension_text()
    }
}

/// The order of preference among formats that the settings hold.
pub open spec fn stored_priority(db: DatabaseView) -> Seq<AudioFormat> {
    if db.settings.contains_key(FORMAT_PRIORITY_KEY@) {
        normalized_priority(formats_of(split_on(db.settings[FORMAT_PRIORITY_KEY@], ',')))
    } else {
        normalized_priority(all_formats())
    }
}

/// What a conversion does on a conflict, as the settings hold it.
pub open spec fn stored_behavior(db: DatabaseView) -> ConvertConflictBehavior {
    if db.settings.contains_key(CONVERT_CONFLICT_KEY@) {
        match behavior_of(db.settings[CONVERT_CONFLICT_KEY@]) {
            Some(behavior) => behavior,
            None => ConvertConflictBehavior::AddCopy,
        }
    } else {
        ConvertConflictBehavior::AddCopy
    }
}

/// `db` with `value` stored under `key`.
pub open spec fn with_setting(db: DatabaseView, key: Seq<char>, value: Seq<char>) -> DatabaseView {
    DatabaseView { settings: db.settings.insert(key, value), ..db }
}

/// `db` with an order of preference stored.
pub open spec fn with_priority(db: DatabaseView, priority: Seq<AudioFormat>) -> DatabaseView {
    with_setting(db, FORMAT_PRIORITY_KEY@, comma_separated(normalized_priority(priority)))
}

/// Joins the extensions of `formats` with commas.
fn join_extensions(formats: &Vec<AudioFormat>) -> (r: String)
    ensures
        r@ == comma_separated(formats@),
{
    let mut out = String::new();
    let mut i: usize = 0;
    assert(out@ =~= comma_separated(formats@.take(0)));
    while i < formats.len()
        invariant
            i <= formats@.len(),
            out@ == comma_separated(formats@.take(i as int)),
        decreases formats.len() - i,
    {
        let ghost before = out@;
        proof {
            assert(formats@.take(i + 1).drop_last() =~= formats@.take(i as int));
            assert(formats@.take(i + 1).last() == formats@[i as int]);
        }
        if i > 0 {
            out.push(',');
        }
        out.append(formats[i].extension());
        proof {
            if i == 0 {
                assert(before =~= seq![]);
                assert(out@ =~= formats@[0].extension_text());
                assert(formats@.take(1)[0] == formats@[0]);
            }
        }
        i += 1;
    }
    assert(formats@.take(i as int) =~= formats@);
    out
}

impl Database {
    /// The value stored under `key`.
    pub fn setting(&self, key: &str) -> (r: Option<String>)
        ensures
            r is Some <==> self@.settings.contains_key(key@),
            r matches Some(value) ==> value@ == self@.settings[key@],
    {
        match self.settings.get(key) {
            Some(value) => Some(value.clone()),
            None => None,
        }
    }

    /// Stores `value` under `key`.
    pub fn set_setting(&mut self, key: &str, value: &str)
        ensures
            final(self)@ == with_setting(old(self)@, key@, value@),
    {
        self.settings.insert(key.to_owned(), value.to_owned());
    }

    /// The order of preference among formats.
    pub fn format_priority(&self) -> (r: Vec<AudioFormat>)
        ensures
            r@ == stored_priority(self@),
    {
        let priority = match self.settings.get(FORMAT_PRIORITY_KEY) {
            Some(value) => {
                let words = split_char(value.as_str(), ',');
                let ghost views = words.deep_view();
                let mut formats: Vec<AudioFormat> = Vec::new();
                let mut i: usize = 0;
                assert(formats@ =~= formats_of(views.take(0)));
                while i < words.len()
                    invariant
                        i <= words@.len(),
                        views == words.deep_view(),
                        formats@ == formats_of(views.take(i as int)),
                    decreases words.len() - i,
                {
                    proof {
                        assert(views[i as int] == words@[i as int]@);
                        assert(views.take(i + 1).drop_last() =~= views.take(i as int));
                        assert(views.take(i + 1).last() == views[i as int]);
                    }
                    match AudioFormat::from_str(words[i].as_str()) {
                        Ok(format) => formats.push(format),
                        Err(_) => {},
                    }
                    i += 1;
                }
                assert(views.take(i as int) =~= views);
                formats
            },
            None => default_format_priority(),
        };
        normalize_format_priority(priority)
    }

    /// Stores an order of preference among formats.
    pub fn set_format_priority(&mut self, priority: Vec<AudioFormat>)
        ensures
            final(self)@ == with_priority(old(self)@, priority@),
    {
        let complete = normalize_format_priority(priority);
        let value = join_extensions(&complete);
        self.set_setting(FORMAT_PRIORITY_KEY, value.as_str());
    }

    /// What a conversion does on a conflict.
    pub fn convert_conflict_behavior(&self) -> (r: ConvertConflictBehavior)
        ensures
            r == stored_behavior(self@),
    {
        match self.settings.get(CONVERT_CONFLICT_KEY) {
            Some(value) => match ConvertConflictBehavior::from_str(value.as_str()) {
                Ok(behavior) => behavior,
                Err(_) => ConvertConflictBehavior::AddCopy,
            },
            None => ConvertConflictBehavior::AddCopy,
        }
    }

    /// Stores what a conversion does on a conflict.
    pub fn set_convert_conflict_behavior(&mut self, behavior: ConvertConflictBehavior)
        ensures
            final(self)@ == with_setting(old(self)@, CONVERT_CONFLICT_KEY@, behavior.key_text()),
    {
        self.set_setting(CONVERT_CONFLICT_KEY, behavior.key());
    }
}

proof fn lemma_no_comma(format: AudioFormat)
    ensures
        !format.extension_text().contains(','),
{
    reveal_strlit("mp3");
    reveal_strlit("wav");
    reveal_strlit("opus");
    reveal_strlit("flac");
}

proof fn lemma_first_index_of_joined(head: Seq<char>, tail: Seq<char>)
    requires
        !head.contains(','),
    ensures
        first_index(head.push(',') + tail, ',') == head.len(),
        first_index(head, ',') == head.len(),
    decreases head.len(),
{
    let joined = head.push(',') + tail;
    lemma_first_index(joined, ',');
    lemma_first_index(head, ',');
    assert(joined[head.len() as int] == ',');
    let i = first_index(joined, ',');
    if i < head.len() {
        assert(head[i] == joined[i]);
        assert(head.contains(','));
    }
}

/// Appending a text without a comma behind a comma appends it to the pieces.
proof fn lemma_split_push(s: Seq<char>, word: Seq<char>)
    requires
        !word.contains(','),
    ensures
        split_on(s.push(',') + word, ',') == split_on(s, ',').push(word),
    decreases s.len(),
{
    let joined = s.push(',') + word;
    lemma_first_index(s, ',');
    let i = first_index(s, ',');
    if i < s.len() {
        lemma_first_index(joined, ',');
        let j = first_index(joined, ',');
        assert(joined[i] == s[i]);
        if j < i {
            assert(joined[j] == s[j]);
        }
        assert(j == i);
        assert(joined.take(i) =~= s.take(i));
        assert(joined.skip(i + 1) =~= s.skip(i + 1).push(',') + word);
        lemma_split_push(s.skip(i + 1), word);
        assert(split_on(joined, ',') =~= split_on(s, ',').push(word));
    } else {
        assert(!s.contains(','));
        lemma_first_index_of_joined(s, word);
        assert(joined.take(s.len() as int) =~= s);
        assert(joined.skip(s.len() as int + 1) =~= word);
        lemma_first_index_of_joined(word, seq![]);
        assert(split_on(word, ',') =~= seq![word]);
        assert(split_on(joined, ',') =~= seq![s] + seq![word]);
        assert(split_on(s, ',').push(word) =~= seq![s] + seq![word]);
    }
}

proof fn lemma_formats_round_trip(formats: Seq<AudioFormat>)
    requires
        formats.len() > 0,
    ensures
        formats_of(split_on(comma_separated(formats), ',')) == formats,
    decreases formats.len(),
{
    let last = formats.last();
    lemma_no_comma(last);
    lemma_format_round_trip(last);
    if formats.len() == 1 {
        let word = last.extension_text();
        lemma_first_index_of_joined(word, seq![]);
        let words = split_on(word, ',');
        assert(words =~= seq![word]);
        assert(words.drop_last() =~= seq![]);
        assert(words.last() == word);
        assert(formats_of(words.drop_last()) =~= seq![]);
        assert(formats_of(words) =~= seq![last]);
        assert(formats =~= seq![last]);
    } else {
        let front = formats.drop_last();
        lemma_formats_round_trip(front);
        lemma_split_push(comma_separated(front), last.extension_text());
        let words = split_on(comma_separated(front), ',');
        assert(words.push(last.extension_text()).drop_last() =~= words);
        assert(formats =~= front.push(last));
    }
}

/// Reading the order of preference gives back what was stored, made complete.
pub proof fn lemma_priority_round_trip(db: DatabaseView, priority: Seq<AudioFormat>)
    ensures
        stored_priority(with_priority(db, priority)) == normalized_priority(priority),
{
    let complete = normalized_priority(priority);
    lemma_priority_is_complete(priority, AudioFormat::Mp3);
    assert(complete.contains(AudioFormat::Mp3));
    lemma_formats_round_trip(complete);
}

/// Without a stored order of preference the library's own one counts.
pub proof fn lemma_default_priority(db: DatabaseView)
    requires
        !db.settings.contains_key(FORMAT_PRIORITY_KEY@),
    ensures
        stored_priority(db) == all_formats(),
{
    let all = all_formats();
    assert(all.no_duplicates());
    lemma_repeats_add_nothing(all, all);
}

/// Reading what a conversion does on a conflict gives back what was stored.
pub proof fn lemma_conflict_round_trip(db: DatabaseView, behavior: ConvertConflictBehavior)
    ensures
        stored_behavior(with_setting(db, CONVERT_CONFLICT_KEY@, behavior.key_text())) == behavior,
{
    lemma_behavior_round_trip(behavior);
}

/// The two settings do not disturb each other.
pub proof fn lemma_settings_are_apart(
    db: DatabaseView,
    priority: Seq<AudioFormat>,
    behavior: ConvertConflictBehavior,
)
    ensures
        stored_behavior(with_priority(db, priority)) == stored_behavior(db),
        stored_priority(with_setting(db, CONVERT_CONFLICT_KEY@, behavior.key_text()))
            == stored_priority(db),
{
    reveal_strlit("format_priority");
    reveal_strlit("convert_conflict");
    assert(FORMAT_PRIORITY_KEY@.len() != CONVERT_CONFLICT_KEY@.len());
}

/// The order of preference that the settings hold names every format, and each once.
pub proof fn lemma_stored_priority_is_complete(db: DatabaseView, format: AudioFormat)
    ensures
        stored_priority(db).contains(format),
        stored_priority(db).no_duplicates(),
{
    let priority = if db.settings.contains_key(FORMAT_PRIORITY_KEY@) {
        formats_of(split_on(db.settings[FORMAT_PRIORITY_KEY@], ','))
    } else {
        all_formats()
    };
    lemma_priority_is_complete(priority, format);
}

/// The order of preference is stored as the extensions of all formats, a comma between each two.
pub proof fn lemma_priority_is_stored(db: DatabaseView, priority: Seq<AudioFormat>, i: int)
    requires
        0 <= i < normalized_priority(priority).len(),
    ensures
        ({
            let after = with_priority(db, priority);
            let words = split_on(after.settings["format_priority"@], ',');
            &&& words.len() == normalized_priority(priority).len()
            &&& words[i] == normalized_priority(priority)[i].extension_text()
            &&& after.settings == db.settings.insert(
                "format_priority"@,
                after.settings["format_priority"@],
            )
            &&& after.files == db.files
            &&& after.tag_keys == db.tag_keys
            &&& after.tag_values == db.tag_values
        }),
{
    lemma_words_of(normalized_priority(priority), i);
}

proof fn lemma_words_of(formats: Seq<AudioFormat>, i: int)
    requires
        0 <= i < formats.len(),
    ensures
        split_on(comma_separated(formats), ',').len() == formats.len(),
        split_on(comma_separated(formats), ',')[i] == formats[i].extension_text(),
    decreases formats.len(),
{
    if formats.len() == 1 {
        lemma_no_comma(formats[0]);
        let text = formats[0].extension_text();
        lemma_first_index(text, ',');
        assert(text.take(text.len() as int) =~= text);
    } else {
        let front = formats.drop_last();
        lemma_no_comma(formats.last());
        lemma_split_push(comma_separated(front), formats.last().extension_text());
        if i < front.len() {
            lemma_words_of(front, i);
        } else {
            lemma_words_of(front, 0);
        }
    }
}

/// Where the settings do not tell what to do on a conflict, or tell something unknown, a conversion
/// adds a copy.
pub proof fn lemma_conflict_adds_copy(db: DatabaseView)
    requires
        !db.settings.contains_key("convert_conflict"@) || db.settings["convert_conflict"@]
            != "overwrite"@,
    ensures
        stored_behavior(db) == ConvertConflictBehavior::AddCopy,
{
}

/// Words that name no format are passed over; the others name theirs in order, whatever the case of
/// letters.
pub proof fn lemma_unknown_formats_are_passed_over(
    words: Seq<Seq<char>>,
    word: Seq<char>,
    format: AudioFormat,
)
    ensures
        !equal_ignoring_ascii_case(word, "mp3"@) && !equal_ignoring_ascii_case(word, "wav"@)
            && !equal_ignoring_ascii_case(word, "opus"@) && !equal_ignoring_ascii_case(
            word,
            "flac"@,
        ) ==> formats_of(words.push(word)) == formats_of(words),
        equal_ignoring_ascii_case(word, format.extension_text()) ==> formats_of(words.push(word))
            == formats_of(words).push(format),
{
    lemma_kept_extensions(word, word, format);
    assert(words.push(word).drop_last() =~= words);
}

} // verus!
