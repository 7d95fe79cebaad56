//! Importing files into the library and converting them: names, arguments and steps.
use super::scanner::{extension, is_library_file, is_library_path, lower_extension};
use crate::model::{AudioFormat, ConvertConflictBehavior};
use crate::number::{is_number, stands_for_number};
use crate::path::{extension_of, file_stem, join, joined, lemma_file_in_folder};
use crate::path::{lemma_stem_and_extension, lies_in, name_of, stem_of};
use crate::text::{decimal, decimal_text, lemma_decimal_injective, same_text, split_once};
use crate::text::{first_index, lemma_first_index};
use crate::text_map::TextSet;
use vstd::prelude::*;

verus! {

broadcast use vstd::string::group_string_axioms;

/// Why a file could not be imported, converted or renamed.
#[derive(Debug)]
pub enum FileError {
    CategoryFolderMissing,
    SourceNotFile,
    NotAudio,
    UnsupportedFormat,
    NoDestinationFile,
    ConversionFailed,
    EmptyName,
    NameWithSeparator,
    NoExtension,
    NoParentFolder,
    DuplicateDestination(String),
    DestinationExists(String),
}

impl FileError {
    /// The text for users.
    pub open spec fn text(self) -> Seq<char> {
        match self {
            FileError::CategoryFolderMissing => "category folder does not exist"@,
            FileError::SourceNotFile => "source is not a file"@,
            FileError::NotAudio => "source is not readable audio"@,
            FileError::UnsupportedFormat => "unsupported audio format"@,
            FileError::NoDestinationFile => "import produced no destination file"@,
            FileError::ConversionFailed => "ffmpeg conversion failed"@,
            FileError::EmptyName => "new name cannot be empty"@,
            FileError::NameWithSeparator => "new name cannot contain path separators"@,
            FileError::NoExtension => "file has no extension"@,
            FileError::NoParentFolder => "file has no parent folder"@,
            FileError::DuplicateDestination(path) => "rename would create duplicate "@ + path@,
            FileError::DestinationExists(path) => path@ + " already exists"@,
        }
    }

    /// The text for users.
    pub fn message(&self) -> (r: String)
        ensures
            r@ == self.text(),
    {
        match self {
            FileError::CategoryFolderMissing => "category folder does not exist".to_owned(),
            FileError::SourceNotFile => "source is not a file".to_owned(),
            FileError::NotAudio => "source is not readable audio".to_owned(),
            FileError::UnsupportedFormat => "unsupported audio format".to_owned(),
            FileError::NoDestinationFile => "import produced no destination file".to_owned(),
            FileError::ConversionFailed => "ffmpeg conversion failed".to_owned(),
            FileError::EmptyName => "new name cannot be empty".to_owned(),
            FileError::NameWithSeparator => "new name cannot contain path separators".to_owned(),
            FileError::NoExtension => "file has no extension".to_owned(),
            FileError::NoParentFolder => "file has no parent folder".to_owned(),
            FileError::DuplicateDestination(path) => {
                let mut text = "rename would create duplicate ".to_owned();
                text.append(path.as_str());
                text
            },
            FileError::DestinationExists(path) => {
                let mut text = path.clone();
                text.append(" already exists");
                text
            },
        }
    }
}

/// The name of a file with `stem` and `extension`.
pub open spec fn dotted(stem: Seq<char>, extension: Seq<char>) -> Seq<char> {
    stem.push('.') + extension
}

/// The path of a file with `stem` and `extension` in `folder`.
pub open spec fn path_in(folder: Seq<char>, stem: Seq<char>, extension: Seq<char>) -> Seq<char> {
    joined(folder, dotted(stem, extension))
}

/// The stem of the `n`th name to try: the stem itself, then the stem with a number.
pub open spec fn numbered(stem: Seq<char>, n: nat) -> Seq<char> {
    if n <= 1 {
        stem
    } else {
        stem.push(' ') + decimal(n)
    }
}

/// The `n`th path to try.
pub open spec fn candidate(
    folder: Seq<char>,
    stem: Seq<char>,
    extension: Seq<char>,
    n: nat,
) -> Seq<char> {
    path_in(folder, numbered(stem, n), extension)
}

/// Whether `path` is the first path to try that `existing` does not hold.
pub open spec fn is_first_free(
    folder: Seq<char>,
    stem: Seq<char>,
    extension: Seq<char>,
    existing: Set<Seq<char>>,
    path: Seq<char>,
) -> bool {
    exists|n: nat|
        1 <= n && path == #[trigger] candidate(folder, stem, extension, n) && !existing.contains(
            path,
        ) && forall|m: nat|
            1 <= m < n ==> existing.contains(#[trigger] candidate(folder, stem, extension, m))
}

/// The path of a file with `stem` and `extension` in `folder`.
fn make_path(folder: &str, stem: &str, extension: &str) -> (r: String)
    ensures
        r@ == path_in(folder@, stem@, extension@),
{
    let mut name = stem.to_owned();
    name.push('.');
    name.append(extension);
    join(folder, name.as_str())
}

proof fn lemma_candidates_differ(
    folder: Seq<char>,
    stem: Seq<char>,
    extension: Seq<char>,
    m: nat,
    n: nat,
)
    requires
        1 <= m < n,
    ensures
        candidate(folder, stem, extension, m) != candidate(folder, stem, extension, n),
{
    let a = numbered(stem, m);
    let b = numbered(stem, n);
    let x = dotted(a, extension);
    let y = dotted(b, extension);
    if candidate(folder, stem, extension, m) == candidate(folder, stem, extension, n) {
        if stem.len() > 0 {
            assert(x[0] == stem[0] && y[0] == stem[0]);
        } else {
            assert(m >= 2 ==> x[0] == ' ');
            assert(m < 2 ==> x[0] == '.');
            assert(y[0] == ' ');
        }
        lemma_joined(folder, x, y);
        assert(x.len() == y.len());
        assert(a =~= x.take(a.len() as int));
        assert(b =~= y.take(b.len() as int));
        if m >= 2 {
            assert(decimal(m) =~= a.skip(stem.len() as int + 1));
            assert(decimal(n) =~= b.skip(stem.len() as int + 1));
            lemma_decimal_injective(m, n);
        }
    }
}

proof fn lemma_joined(folder: Seq<char>, x: Seq<char>, y: Seq<char>)
    requires
        joined(folder, x) == joined(folder, y),
        x.len() > 0,
        y.len() > 0,
        x[0] == '/' <==> y[0] == '/',
    ensures
        x == y,
{
    if x[0] != '/' {
        let head = if folder.len() > 0 && folder.last() != '/' {
            folder.push('/')
        } else {
            folder
        };
        assert(joined(folder, x) =~= head + x);
        assert(joined(folder, y) =~= head + y);
        assert(x =~= (head + x).skip(head.len() as int));
        assert(y =~= (head + y).skip(head.len() as int));
    }
}

/// The first free path for a file with `stem` and `extension` in `folder`: `existing` holds the
/// paths that are taken.
pub fn unique_destination(
    folder: &str,
    stem: &str,
    extension: &str,
    existing: &TextSet,
) -> (r: String)
    ensures
        is_first_free(folder@, stem@, extension@, existing@, r@),
{
    let first = make_path(folder, stem, extension);
    assert(first@ == candidate(folder@, stem@, extension@, 1));
    if !existing.contains(first.as_str()) {
        return first;
    }
    let total = existing.len();
    let ghost items = existing.items();
    proof {
        crate::text_map::lemma_set_len(existing@, items);
    }
    let mut n: u128 = 2;
    let ghost mut taken: Set<Seq<char>> = Set::empty().insert(first@);
    while n <= total as u128 + 1
        invariant
            2 <= n <= total + 2,
            total == existing@.len(),
            existing@.finite(),
            taken.finite(),
            taken.len() == n - 1,
            taken.subset_of(existing@),
            forall|p: Seq<char>| #[trigger]
                taken.contains(p) <==> exists|m: nat|
                    1 <= m < n && p == #[trigger] candidate(folder@, stem@, extension@, m),
            forall|m: nat|
                1 <= m < n ==> existing@.contains(
                    #[trigger] candidate(folder@, stem@, extension@, m),
                ),
        decreases total + 2 - n,
    {
        let mut numbered_stem = stem.to_owned();
        numbered_stem.push(' ');
        numbered_stem.append(decimal_text(n).as_str());
        let path = make_path(folder, numbered_stem.as_str(), extension);
        let ghost here = candidate(folder@, stem@, extension@, n as nat);
        assert(path@ == here);
        if !existing.contains(path.as_str()) {
            return path;
        }
        proof {
            if taken.contains(here) {
                let m = choose|m: nat|
                    1 <= m < n && here == #[trigger] candidate(folder@, stem@, extension@, m);
                lemma_candidates_differ(folder@, stem@, extension@, m, n as nat);
            }
            let before = taken;
            taken = before.insert(here);
            assert forall|p: Seq<char>| #[trigger]
                taken.contains(p) <==> exists|m: nat|
                    1 <= m < n + 1 && p == #[trigger] candidate(folder@, stem@, extension@, m) by {
                if before.contains(p) {
                    let m = choose|m: nat|
                        1 <= m < n && p == #[trigger] candidate(folder@, stem@, extension@, m);
                    assert(1 <= m < n + 1);
                }
                if p == here {
                    assert(p == candidate(folder@, stem@, extension@, n as nat));
                }
            }
        }
        n += 1;
    }
    proof {
        vstd::set_lib::lemma_len_subset(taken, existing@);
    }
    first
}

/// The path that a conversion writes to: the plain one if it may overwrite, else the first free one.
pub fn conversion_destination(
    folder: &str,
    stem: &str,
    extension: &str,
    behavior: ConvertConflictBehavior,
    existing: &TextSet,
) -> (r: String)
    ensures
        match behavior {
            ConvertConflictBehavior::Overwrite => r@ == path_in(folder@, stem@, extension@),
            ConvertConflictBehavior::AddCopy => is_first_free(
                folder@,
                stem@,
                extension@,
                existing@,
                r@,
            ),
        },
{
    match behavior {
        ConvertConflictBehavior::Overwrite => make_path(folder, stem, extension),
        ConvertConflictBehavior::AddCopy => unique_destination(folder, stem, extension, existing),
    }
}

/// The path of a file that is being written, for the process `process` at the time `nanos`.
pub open spec fn temp_path(
    folder: Seq<char>,
    extension: Seq<char>,
    process: u32,
    nanos: u128,
) -> Seq<char> {
    joined(
        folder,
        ".lowcat-import-"@ + decimal(process as nat) + "-"@ + decimal(nanos as nat) + "."@
            + extension,
    )
}

/// The path of a file that is being written.
pub fn temp_destination(folder: &str, extension: &str, process: u32, nanos: u128) -> (r: String)
    ensures
        r@ == temp_path(folder@, extension@, process, nanos),
{
    let mut name = ".lowcat-import-".to_owned();
    name.append(decimal_text(process as u128).as_str());
    name.append("-");
    name.append(decimal_text(nanos).as_str());
    name.append(".");
    name.append(extension);
    join(folder, name.as_str())
}

/// What the file system says about an import.
#[derive(Debug, Clone, Copy)]
pub struct ImportFacts {
    pub folder_is_dir: bool,
    pub source_is_file: bool,
    pub is_audio: bool,
}

/// The paths of an import or a conversion.
#[derive(Debug)]
pub struct FilePlan {
    pub source: String,
    pub temp_path: String,
    pub final_path: String,
}

/// The stem under which a file is imported.
pub open spec fn import_stem(source: Seq<char>) -> Seq<char> {
    match stem_of(source) {
        Some(stem) => stem,
        None => "import"@,
    }
}

/// The extension under which a file is imported.
pub open spec fn import_extension(source: Seq<char>) -> Seq<char> {
    match lower_extension(source) {
        Some(extension) => extension,
        None => "opus"@,
    }
}

/// The error that keeps a file from being imported.
pub open spec fn import_error(facts: ImportFacts, source: Seq<char>) -> Option<FileError> {
    if !facts.folder_is_dir {
        Some(FileError::CategoryFolderMissing)
    } else if !facts.source_is_file {
        Some(FileError::SourceNotFile)
    } else if !facts.is_audio {
        Some(FileError::NotAudio)
    } else if !is_library_path(source) {
        Some(FileError::UnsupportedFormat)
    } else {
        None
    }
}

/// The paths for importing `source` into `folder`, or why it cannot be imported.
pub fn plan_import(
    facts: ImportFacts,
    folder: &str,
    source: &str,
    existing: &TextSet,
    process: u32,
    nanos: u128,
) -> (r: Result<FilePlan, FileError>)
    ensures
        match r {
            Ok(plan) => {
                &&& import_error(facts, source@) is None
                &&& plan.source@ == source@
                &&& plan.temp_path@ == temp_path(
                    folder@,
                    import_extension(source@),
                    process,
                    nanos,
                )
                &&& is_first_free(
                    folder@,
                    import_stem(source@),
                    import_extension(source@),
                    existing@,
                    plan.final_path@,
                )
            },
            Err(error) => import_error(facts, source@) == Some(error),
        },
{
    if !facts.folder_is_dir {
        return Err(FileError::CategoryFolderMissing);
    }
    if !facts.source_is_file {
        return Err(FileError::SourceNotFile);
    }
    if !facts.is_audio {
        return Err(FileError::NotAudio);
    }
    if !is_library_file(source) {
        return Err(FileError::UnsupportedFormat);
    }
    let kind = match extension(source) {
        Some(kind) => kind,
        None => "opus".to_owned(),
    };
    let stem = match file_stem(source) {
        Some(stem) => stem,
        None => "import".to_owned(),
    };
    let final_path = unique_destination(folder, stem.as_str(), kind.as_str(), existing);
    let temp_path = temp_destination(folder, kind.as_str(), process, nanos);
    Ok(FilePlan { source: source.to_owned(), temp_path, final_path })
}

/// The stem under which a file is converted.
pub open spec fn conversion_stem(source: Seq<char>) -> Seq<char> {
    match stem_of(source) {
        Some(stem) => stem,
        None => "converted"@,
    }
}

/// The paths for converting `source` in `folder` to `target`, or why it cannot be converted.
pub fn plan_conversion(
    source_is_file: bool,
    is_audio: bool,
    source: &str,
    folder: &str,
    target: AudioFormat,
    behavior: ConvertConflictBehavior,
    existing: &TextSet,
    process: u32,
    nanos: u128,
) -> (r: Result<FilePlan, FileError>)
    ensures
        match r {
            Ok(plan) => {
                &&& source_is_file
                &&& is_audio
                &&& plan.source@ == source@
                &&& plan.temp_path@ == temp_path(
                    folder@,
                    target.extension_text(),
                    process,
                    nanos,
                )
                &&& match behavior {
                    ConvertConflictBehavior::Overwrite => plan.final_path@ == path_in(
                        folder@,
                        conversion_stem(source@),
                        target.extension_text(),
                    ),
                    ConvertConflictBehavior::AddCopy => is_first_free(
                        folder@,
                        conversion_stem(source@),
                        target.extension_text(),
                        existing@,
                        plan.final_path@,
                    ),
                }
            },
            Err(error) => if !source_is_file {
                error == FileError::SourceNotFile
            } else {
                !is_audio && error == FileError::NotAudio
            },
        },
{
    if !source_is_file {
        return Err(FileError::SourceNotFile);
    }
    if !is_audio {
        return Err(FileError::NotAudio);
    }
    let stem = match file_stem(source) {
        Some(stem) => stem,
        None => "converted".to_owned(),
    };
    let final_path = conversion_destination(
        folder,
        stem.as_str(),
        target.extension(),
        behavior,
        existing,
    );
    let temp_path = temp_destination(folder, target.extension(), process, nanos);
    Ok(FilePlan { source: source.to_owned(), temp_path, final_path })
}

/// Where an import or a conversion stands.
#[derive(Debug, Clone, Copy, PartialEq, Eq, Structural)]
pub enum FileStage {
    /// The new file is being written under its temporary name.
    Writing,
    /// The written file is being looked for.
    Checking,
    /// A file in the place of the new one is being removed.
    RemovingOld,
    /// The written file is being given its name.
    Renaming,
    /// The source is being removed.
    RemovingSource,
    /// The written file is being removed after a failure.
    Discarding,
    /// All is done.
    Done,
    /// All has failed.
    Failed,
}

/// What to ask of the file system.
#[derive(Debug, Clone, Copy, PartialEq, Eq, Structural)]
pub enum FileAction {
    Write,
    CheckWritten,
    RemoveFinal,
    RenameToFinal,
    RemoveSource,
    RemoveTemp,
}

/// The stage after an import's stage ended well or badly.
pub open spec fn import_stage_after(stage: FileStage, succeeded: bool) -> FileStage {
    match stage {
        FileStage::Writing => if succeeded {
            FileStage::Checking
        } else {
            FileStage::Discarding
        },
        FileStage::Checking => if succeeded {
            FileStage::Renaming
        } else {
            FileStage::Discarding
        },
        FileStage::Renaming => if succeeded {
            FileStage::RemovingSource
        } else {
            FileStage::Discarding
        },
        FileStage::RemovingSource => if succeeded {
            FileStage::Done
        } else {
            FileStage::Failed
        },
        FileStage::Done => FileStage::Done,
        _ => FileStage::Failed,
    }
}

/// The stage after an import's stage ended well or badly.
pub fn next_import_stage(stage: FileStage, succeeded: bool) -> (r: FileStage)
    ensures
        r == import_stage_after(stage, succeeded),
{
    match stage {
        FileStage::Writing => if succeeded {
            FileStage::Checking
        } else {
            FileStage::Discarding
        },
        FileStage::Checking => if succeeded {
            FileStage::Renaming
        } else {
            FileStage::Discarding
        },
        FileStage::Renaming => if succeeded {
            FileStage::RemovingSource
        } else {
            FileStage::Discarding
        },
        FileStage::RemovingSource => if succeeded {
            FileStage::Done
        } else {
            FileStage::Failed
        },
        FileStage::Done => FileStage::Done,
        _ => FileStage::Failed,
    }
}

/// What the choices of a conversion depend on.
#[derive(Debug, Clone, Copy)]
pub struct ConversionFacts {
    pub behavior: ConvertConflictBehavior,
    pub final_exists: bool,
    pub source_is_final: bool,
}

/// The stage after a conversion's stage ended well or badly. A file in the place of the new one is
/// removed, and so is the source at last, only where the conversion may overwrite.
pub open spec fn conversion_stage_after(
    facts: ConversionFacts,
    stage: FileStage,
    succeeded: bool,
) -> FileStage {
    let overwrites = facts.behavior == ConvertConflictBehavior::Overwrite;
    match stage {
        FileStage::Writing => if succeeded {
            FileStage::Checking
        } else {
            FileStage::Discarding
        },
        FileStage::Checking => if !succeeded {
            FileStage::Discarding
        } else if overwrites && facts.final_exists {
            FileStage::RemovingOld
        } else {
            FileStage::Renaming
        },
        FileStage::RemovingOld => if succeeded {
            FileStage::Renaming
        } else {
            FileStage::Failed
        },
        FileStage::Renaming => if !succeeded {
            FileStage::Discarding
        } else if overwrites && !facts.source_is_final {
            FileStage::RemovingSource
        } else {
            FileStage::Done
        },
        FileStage::RemovingSource => if succeeded {
            FileStage::Done
        } else {
            FileStage::Failed
        },
        FileStage::Done => FileStage::Done,
        _ => FileStage::Failed,
    }
}

/// The stage after a conversion's stage ended well or badly.
pub fn next_conversion_stage(
    facts: ConversionFacts,
    stage: FileStage,
    succeeded: bool,
) -> (r: FileStage)
    ensures
        r == conversion_stage_after(facts, stage, succeeded),
{
    let overwrites = match facts.behavior {
        ConvertConflictBehavior::Overwrite => true,
        ConvertConflictBehavior::AddCopy => false,
    };
    match stage {
        FileStage::Writing => if succeeded {
            FileStage::Checking
        } else {
            FileStage::Discarding
        },
        FileStage::Checking => if !succeeded {
            FileStage::Discarding
        } else if overwrites && facts.final_exists {
            FileStage::RemovingOld
        } else {
            FileStage::Renaming
        },
        FileStage::RemovingOld => if succeeded {
            FileStage::Renaming
        } else {
            FileStage::Failed
        },
        FileStage::Renaming => if !succeeded {
            FileStage::Discarding
        } else if overwrites && !facts.source_is_final {
            FileStage::RemovingSource
        } else {
            FileStage::Done
        },
        FileStage::RemovingSource => if succeeded {
            FileStage::Done
        } else {
            FileStage::Failed
        },
        FileStage::Done => FileStage::Done,
        _ => FileStage::Failed,
    }
}

/// What a stage asks of the file system.
pub open spec fn action_of(stage: FileStage) -> Option<FileAction> {
    match stage {
        FileStage::Writing => Some(FileAction::Write),
        FileStage::Checking => Some(FileAction::CheckWritten),
        FileStage::RemovingOld => Some(FileAction::RemoveFinal),
        FileStage::Renaming => Some(FileAction::RenameToFinal),
        FileStage::RemovingSource => Some(FileAction::RemoveSource),
        FileStage::Discarding => Some(FileAction::RemoveTemp),
        FileStage::Done => None,
        FileStage::Failed => None,
    }
}

/// What a stage asks of the file system.
pub fn stage_action(stage: FileStage) -> (r: Option<FileAction>)
    ensures
        r == action_of(stage),
{
    match stage {
        FileStage::Writing => Some(FileAction::Write),
        FileStage::Checking => Some(FileAction::CheckWritten),
        FileStage::RemovingOld => Some(FileAction::RemoveFinal),
        FileStage::Renaming => Some(FileAction::RenameToFinal),
        FileStage::RemovingSource => Some(FileAction::RemoveSource),
        FileStage::Discarding => Some(FileAction::RemoveTemp),
        FileStage::Done => None,
        FileStage::Failed => None,
    }
}

/// The stage of an import after the outcomes `outcomes`.
pub open spec fn import_run(outcomes: Seq<bool>) -> FileStage
    decreases outcomes.len(),
{
    if outcomes.len() == 0 {
        FileStage::Writing
    } else {
        import_stage_after(import_run(outcomes.drop_last()), outcomes.last())
    }
}

/// The stage of a conversion after `steps`: whether, after each of them, there was a file in the
/// place of the new one, and whether the step went well.
pub open spec fn conversion_run(
    behavior: ConvertConflictBehavior,
    source_is_final: bool,
    steps: Seq<(bool, bool)>,
) -> FileStage
    decreases steps.len(),
{
    if steps.len() == 0 {
        FileStage::Writing
    } else {
        conversion_stage_after(
            ConversionFacts { behavior, final_exists: steps.last().0, source_is_final },
            conversion_run(behavior, source_is_final, steps.drop_last()),
            steps.last().1,
        )
    }
}

/// An import removes its source only after the new file was written, found and given its name: an
/// import that fails before never removes it. It never removes a file in the place of the new one.
pub proof fn lemma_import_keeps_source(outcomes: Seq<bool>)
    ensures
        action_of(import_run(outcomes)) == Some(FileAction::RemoveSource) ==> outcomes.len() == 3
            && outcomes[0] && outcomes[1] && outcomes[2],
        action_of(import_run(outcomes)) != Some(FileAction::RemoveFinal),
        import_run(outcomes) == FileStage::Done ==> outcomes.len() >= 4 && outcomes[0]
            && outcomes[1] && outcomes[2] && outcomes[3],
    decreases outcomes.len(),
{
    if outcomes.len() > 0 {
        let front = outcomes.drop_last();
        lemma_import_keeps_source(front);
        lemma_import_stages(front);
        lemma_import_stages(outcomes);
        if front.len() > 0 {
            assert(front[0] == outcomes[0]);
        }
        if front.len() > 1 {
            assert(front[1] == outcomes[1]);
        }
        if front.len() > 2 {
            assert(front[2] == outcomes[2]);
        }
        if front.len() > 3 {
            assert(front[3] == outcomes[3]);
        }
    }
}

proof fn lemma_import_stages(outcomes: Seq<bool>)
    ensures
        import_run(outcomes) == FileStage::Writing <==> outcomes.len() == 0,
        import_run(outcomes) == FileStage::Checking ==> outcomes.len() == 1 && outcomes[0],
        import_run(outcomes) == FileStage::Renaming ==> outcomes.len() == 2 && outcomes[0]
            && outcomes[1],
        import_run(outcomes) != FileStage::RemovingOld,
    decreases outcomes.len(),
{
    if outcomes.len() > 0 {
        let front = outcomes.drop_last();
        lemma_import_stages(front);
        if front.len() > 0 {
            assert(front[0] == outcomes[0]);
        }
    }
}

/// A conversion that adds a copy removes neither its source nor a file in the place of the new one.
/// One that overwrites removes its source only where that is another file than the new one, and
/// last of all, after at least three steps went well.
pub proof fn lemma_conversion_keeps_source(
    behavior: ConvertConflictBehavior,
    source_is_final: bool,
    steps: Seq<(bool, bool)>,
)
    ensures
        ({
            let action = action_of(conversion_run(behavior, source_is_final, steps));
            &&& behavior == ConvertConflictBehavior::AddCopy ==> action != Some(
                FileAction::RemoveSource,
            ) && action != Some(FileAction::RemoveFinal)
            &&& action == Some(FileAction::RemoveSource) ==> !source_is_final && steps.len() >= 3
                && forall|i: int| 0 <= i < steps.len() ==> (#[trigger] steps[i]).1
        }),
    decreases steps.len(),
{
    if steps.len() > 0 {
        let front = steps.drop_last();
        lemma_conversion_keeps_source(behavior, source_is_final, front);
        lemma_conversion_stages(behavior, source_is_final, front);
        if action_of(conversion_run(behavior, source_is_final, steps)) == Some(
            FileAction::RemoveSource,
        ) {
            assert forall|i: int| 0 <= i < steps.len() implies (#[trigger] steps[i]).1 by {
                if i < front.len() {
                    assert(front[i] == steps[i]);
                }
            }
        }
    }
}

proof fn lemma_conversion_stages(
    behavior: ConvertConflictBehavior,
    source_is_final: bool,
    steps: Seq<(bool, bool)>,
)
    ensures
        ({
            let stage = conversion_run(behavior, source_is_final, steps);
            &&& stage == FileStage::Writing <==> steps.len() == 0
            &&& stage == FileStage::Checking ==> steps.len() == 1
            &&& stage == FileStage::RemovingOld ==> steps.len() == 2 && behavior
                == ConvertConflictBehavior::Overwrite
            &&& stage == FileStage::Renaming ==> steps.len() >= 2
            &&& stage == FileStage::Checking || stage == FileStage::RemovingOld || stage
                == FileStage::Renaming ==> forall|i: int|
                0 <= i < steps.len() ==> (#[trigger] steps[i]).1
        }),
    decreases steps.len(),
{
    if steps.len() > 0 {
        let front = steps.drop_last();
        lemma_conversion_stages(behavior, source_is_final, front);
        let stage = conversion_run(behavior, source_is_final, steps);
        if stage == FileStage::Checking || stage == FileStage::RemovingOld || stage
            == FileStage::Renaming {
            assert forall|i: int| 0 <= i < steps.len() implies (#[trigger] steps[i]).1 by {
                if i < front.len() {
                    assert(front[i] == steps[i]);
                }
            }
        }
    }
}

/// The arguments that make the converter write `target`.
pub open spec fn target_args(target: AudioFormat) -> Seq<Seq<char>> {
    match target {
        AudioFormat::Mp3 => seq!["-vn"@, "-c:a"@, "libmp3lame"@, "-q:a"@, "2"@, "-y"@],
        AudioFormat::Wav => seq!["-vn"@, "-c:a"@, "pcm_s16le"@, "-y"@],
        AudioFormat::Opus => seq!["-vn"@, "-c:a"@, "libopus"@, "-y"@],
        AudioFormat::Flac => seq!["-vn"@, "-c:a"@, "flac"@, "-y"@],
    }
}

/// The arguments with which the converter is started.
pub open spec fn converter_args(
    source: Seq<char>,
    target: AudioFormat,
    destination: Seq<char>,
) -> Seq<Seq<char>> {
    (seq![
        "-hide_banner"@,
        "-loglevel"@,
        "error"@,
        "-progress"@,
        "pipe:1"@,
        "-nostats"@,
        "-i"@,
        source,
    ] + target_args(target)).push(destination)
}

/// The arguments that make the converter write `target`.
fn output_args(target: AudioFormat) -> (r: Vec<String>)
    ensures
        r.deep_view() == target_args(target),
{
    let args: Vec<String> = match target {
        AudioFormat::Mp3 => vec![
            "-vn".to_owned(),
            "-c:a".to_owned(),
            "libmp3lame".to_owned(),
            "-q:a".to_owned(),
            "2".to_owned(),
            "-y".to_owned(),
        ],
        AudioFormat::Wav => vec![
            "-vn".to_owned(),
            "-c:a".to_owned(),
            "pcm_s16le".to_owned(),
            "-y".to_owned(),
        ],
        AudioFormat::Opus => vec![
            "-vn".to_owned(),
            "-c:a".to_owned(),
            "libopus".to_owned(),
            "-y".to_owned(),
        ],
        AudioFormat::Flac => vec![
            "-vn".to_owned(),
            "-c:a".to_owned(),
            "flac".to_owned(),
            "-y".to_owned(),
        ],
    };
    assert(args.deep_view() =~= target_args(target));
    args
}

/// The arguments with which the converter is started.
pub fn ffmpeg_args(source: &str, target: AudioFormat, destination: &str) -> (r: Vec<String>)
    ensures
        r.deep_view() == converter_args(source@, target, destination@),
{
    let mut args: Vec<String> = vec![
        "-hide_banner".to_owned(),
        "-loglevel".to_owned(),
        "error".to_owned(),
        "-progress".to_owned(),
        "pipe:1".to_owned(),
        "-nostats".to_owned(),
        "-i".to_owned(),
        source.to_owned(),
    ];
    let ghost head = args.deep_view();
    let ghost old_args = args@;
    let mut more = output_args(target);
    let ghost tail = more.deep_view();
    let ghost old_more = more@;
    args.append(&mut more);
    proof {
        assert forall|i: int| 0 <= i < args@.len() implies args.deep_view()[i] == (head
            + tail)[i] by {
            if i < old_args.len() {
                assert(args@[i] == old_args[i]);
                assert(head[i] == old_args[i]@);
            } else {
                assert(args@[i] == old_more[i - old_args.len()]);
                assert(tail[i - old_args.len()] == old_more[i - old_args.len()]@);
            }
        }
        assert(args.deep_view() =~= head + tail);
    }
    let ghost before = args.deep_view();
    args.push(destination.to_owned());
    assert(args.deep_view() =~= before.push(destination@));
    assert(args.deep_view() =~= converter_args(source@, target, destination@));
    args
}

/// The elapsed time that a line of the converter tells, a number as it wrote it.
pub open spec fn elapsed_text(line: Seq<char>) -> Option<Seq<char>> {
    let key = line.take(first_index(line, '='));
    let time = line.skip(first_index(line, '=') + 1);
    if line.contains('=') && (key == "out_time_us"@ || key == "out_time_ms"@) && is_number(time) {
        Some(time)
    } else {
        None
    }
}

/// The elapsed time that a line of the converter tells, as it wrote it.
pub fn parse_ffmpeg_progress(line: &str) -> (r: Option<&str>)
    ensures
        r is Some <==> elapsed_text(line@) is Some,
        r matches Some(raw) ==> elapsed_text(line@) == Some(raw@),
{
    match split_once(line, '=') {
        Some((key, raw)) => if (same_text(key, "out_time_us") || same_text(key, "out_time_ms"))
            && stands_for_number(raw) {
            Some(raw)
        } else {
            None
        },
        None => None,
    }
}

/// The arguments with which the prober tells the codec of a sound.
pub open spec fn codec_args(path: Seq<char>) -> Seq<Seq<char>> {
    seq![
        "-v"@,
        "error"@,
        "-select_streams"@,
        "a:0"@,
        "-show_entries"@,
        "stream=codec_name"@,
        "-of"@,
        "default=noprint_wrappers=1:nokey=1"@,
        path,
    ]
}

/// The arguments with which the prober tells the codec of a sound.
pub fn audio_probe_args(path: &str) -> (r: Vec<String>)
    ensures
        r.deep_view() == codec_args(path@),
{
    let args: Vec<String> = vec![
        "-v".to_owned(),
        "error".to_owned(),
        "-select_streams".to_owned(),
        "a:0".to_owned(),
        "-show_entries".to_owned(),
        "stream=codec_name".to_owned(),
        "-of".to_owned(),
        "default=noprint_wrappers=1:nokey=1".to_owned(),
        path.to_owned(),
    ];
    assert(args.deep_view() =~= codec_args(path@));
    args
}

/// Whether the prober found a sound: it succeeded and told a codec.
pub fn probe_is_audio(succeeded: bool, output: &[u8]) -> (r: bool)
    ensures
        r == (succeeded && output@.len() > 0),
{
    succeeded && output.len() > 0
}

/// The arguments with which the prober tells the duration of a sound.
pub open spec fn duration_args(path: Seq<char>) -> Seq<Seq<char>> {
    seq![
        "-v"@,
        "error"@,
        "-show_entries"@,
        "format=duration"@,
        "-of"@,
        "default=noprint_wrappers=1:nokey=1"@,
        path,
    ]
}

/// The arguments with which the prober tells the duration of a sound.
pub fn duration_probe_args(path: &str) -> (r: Vec<String>)
    ensures
        r.deep_view() == duration_args(path@),
{
    let args: Vec<String> = vec![
        "-v".to_owned(),
        "error".to_owned(),
        "-show_entries".to_owned(),
        "format=duration".to_owned(),
        "-of".to_owned(),
        "default=noprint_wrappers=1:nokey=1".to_owned(),
        path.to_owned(),
    ];
    assert(args.deep_view() =~= duration_args(path@));
    args
}

/// What an import asks of the file system after each number of steps that went well: to write the
/// new file, to look for it, to give it its name and to remove the source; then it is done. The step
/// that goes wrong before the new file has its name is followed by the removal of what was written,
/// and nothing else is asked.
pub proof fn lemma_import_goes_through(outcomes: Seq<bool>)
    ensures
        ({
            let stage = import_run(outcomes);
            let done = went_well(outcomes);
            &&& done == outcomes.len() ==> {
                &&& done == 0 ==> action_of(stage) == Some(FileAction::Write)
                &&& done == 1 ==> action_of(stage) == Some(FileAction::CheckWritten)
                &&& done == 2 ==> action_of(stage) == Some(FileAction::RenameToFinal)
                &&& done == 3 ==> action_of(stage) == Some(FileAction::RemoveSource)
            }
            &&& done >= 4 ==> stage == FileStage::Done && action_of(stage) is None
            &&& done < 3 && outcomes.len() == done + 1 ==> action_of(stage) == Some(
                FileAction::RemoveTemp,
            )
            &&& done < 3 && outcomes.len() > done + 1 ==> stage == FileStage::Failed && action_of(
                stage,
            ) is None
            &&& done == 3 && outcomes.len() > 3 ==> stage == FileStage::Failed && action_of(
                stage,
            ) is None
        }),
    decreases outcomes.len(),
{
    if outcomes.len() > 0 {
        lemma_import_goes_through(outcomes.drop_last());
        lemma_went_well(outcomes.drop_last());
        lemma_went_well(outcomes);
    }
}

/// How many of the first outcomes are good.
pub open spec fn went_well(outcomes: Seq<bool>) -> nat
    decreases outcomes.len(),
{
    if outcomes.len() == 0 {
        0
    } else {
        let front = went_well(outcomes.drop_last());
        if front == outcomes.len() - 1 && outcomes.last() {
            outcomes.len()
        } else {
            front
        }
    }
}

/// The good outcomes that are counted are those before the first bad one.
pub proof fn lemma_went_well(outcomes: Seq<bool>)
    ensures
        went_well(outcomes) <= outcomes.len(),
        forall|i: int| 0 <= i < went_well(outcomes) ==> outcomes[i],
        went_well(outcomes) < outcomes.len() ==> !outcomes[went_well(outcomes) as int],
    decreases outcomes.len(),
{
    if outcomes.len() > 0 {
        let front = outcomes.drop_last();
        lemma_went_well(front);
        assert forall|i: int| 0 <= i < went_well(outcomes) implies outcomes[i] by {
            if i < front.len() {
                assert(front[i] == outcomes[i]);
            }
        }
        if went_well(front) < front.len() {
            assert(front[went_well(front) as int] == outcomes[went_well(front) as int]);
        }
    }
}

/// Which of the steps of a conversion went well.
pub open spec fn outcomes_of(steps: Seq<(bool, bool)>) -> Seq<bool> {
    steps.map_values(|step: (bool, bool)| step.1)
}

/// What a conversion asks of the file system after each number of steps that went well: to write the
/// new file and to look for it; to remove a file in its place, where it may overwrite one that is
/// there; to give it its name; and to remove the source, where it may overwrite and the source is
/// another file. Then it is done. A step that goes wrong before the new file has its name is
/// followed by the removal of what was written, except where the file in its place could not be
/// removed; and nothing else is asked.
pub proof fn lemma_conversion_goes_through(
    behavior: ConvertConflictBehavior,
    source_is_final: bool,
    steps: Seq<(bool, bool)>,
)
    ensures
        ({
            let stage = conversion_run(behavior, source_is_final, steps);
            let done = went_well(outcomes_of(steps));
            let overwrites = behavior == ConvertConflictBehavior::Overwrite;
            let replaces = overwrites && steps.len() >= 2 && steps[1].0;
            let named: nat = if replaces {
                4
            } else {
                3
            };
            let total: nat = if overwrites && !source_is_final {
                named + 1
            } else {
                named
            };
            &&& done == steps.len() ==> {
                &&& done == 0 ==> action_of(stage) == Some(FileAction::Write)
                &&& done == 1 ==> action_of(stage) == Some(FileAction::CheckWritten)
                &&& done == 2 && replaces ==> action_of(stage) == Some(FileAction::RemoveFinal)
                &&& done == named - 1 && done >= 2 ==> action_of(stage) == Some(
                    FileAction::RenameToFinal,
                )
                &&& done == named && total > named ==> action_of(stage) == Some(
                    FileAction::RemoveSource,
                )
            }
            &&& done >= total ==> stage == FileStage::Done && action_of(stage) is None
            &&& done < named && !(replaces && done == 2) && steps.len() == done + 1 ==> action_of(
                stage,
            ) == Some(FileAction::RemoveTemp)
            &&& done < total && (steps.len() > done + 1 || (steps.len() == done + 1 && ((replaces
                && done == 2) || done == named))) ==> stage == FileStage::Failed && action_of(
                stage,
            ) is None
        }),
    decreases steps.len(),
{
    if steps.len() > 0 {
        let front = steps.drop_last();
        lemma_conversion_goes_through(behavior, source_is_final, front);
        assert(outcomes_of(steps).drop_last() =~= outcomes_of(front));
        lemma_went_well(outcomes_of(front));
        lemma_went_well(outcomes_of(steps));
        if front.len() >= 2 {
            assert(front[1] == steps[1]);
        }
    }
}

/// The converter is told what to read, which codec the target has, to overwrite what it may find, to
/// leave pictures out, and where to write; it tells its progress on its output.
pub proof fn lemma_converter_is_told(
    source: Seq<char>,
    target: AudioFormat,
    destination: Seq<char>,
)
    ensures
        ({
            let args = converter_args(source, target, destination);
            &&& args[3] == "-progress"@ && args[4] == "pipe:1"@
            &&& args[6] == "-i"@ && args[7] == source
            &&& args[8] == "-vn"@
            &&& args[9] == "-c:a"@
            &&& target == AudioFormat::Mp3 ==> args[10] == "libmp3lame"@ && args[11] == "-q:a"@
                && args[12] == "2"@
            &&& target == AudioFormat::Wav ==> args[10] == "pcm_s16le"@
            &&& target == AudioFormat::Opus ==> args[10] == "libopus"@
            &&& target == AudioFormat::Flac ==> args[10] == "flac"@
            &&& args[args.len() - 2] == "-y"@
            &&& args.last() == destination
            &&& args.len() == if target == AudioFormat::Mp3 {
                15int
            } else {
                13int
            }
        }),
{
}

/// The converter is told a different codec for each target.
pub proof fn lemma_codecs_differ(
    source: Seq<char>,
    a: AudioFormat,
    b: AudioFormat,
    destination: Seq<char>,
)
    requires
        a != b,
    ensures
        converter_args(source, a, destination)[10] != converter_args(source, b, destination)[10],
{
    reveal_strlit("libmp3lame");
    reveal_strlit("pcm_s16le");
    reveal_strlit("libopus");
    reveal_strlit("flac");
    assert("libmp3lame"@.len() == 10 && "pcm_s16le"@.len() == 9 && "libopus"@.len() == 7
        && "flac"@.len() == 4);
}

/// The probers are asked for the codec of the first stream of sound and for the duration of the file
/// at a path, as bare values.
pub proof fn lemma_probers_are_told(path: Seq<char>)
    ensures
        ({
            let codec = codec_args(path);
            let duration = duration_args(path);
            &&& codec.last() == path && duration.last() == path
            &&& codec[2] == "-select_streams"@ && codec[3] == "a:0"@
            &&& codec[4] == "-show_entries"@ && codec[5] == "stream=codec_name"@
            &&& duration[2] == "-show_entries"@ && duration[3] == "format=duration"@
            &&& codec[6] == "-of"@ && codec[7] == "default=noprint_wrappers=1:nokey=1"@
            &&& duration[4] == "-of"@ && duration[5] == "default=noprint_wrappers=1:nokey=1"@
            &&& codec[0] == "-v"@ && codec[1] == "error"@
            &&& duration[0] == "-v"@ && duration[1] == "error"@
            &&& codec.len() == 9 && duration.len() == 7
        }),
{
}

/// A line of the converter tells the elapsed time exactly where it names it, by either name, before
/// a number.
pub proof fn lemma_elapsed_time(time: Seq<char>, other: Seq<char>)
    ensures
        is_number(time) ==> elapsed_text("out_time_us="@ + time) == Some(time) && elapsed_text(
            "out_time_ms="@ + time,
        ) == Some(time),
        !is_number(time) ==> elapsed_text("out_time_us="@ + time) is None && elapsed_text(
            "out_time_ms="@ + time,
        ) is None,
        elapsed_text(other) matches Some(found) ==> other == "out_time_us="@ + found || other
            == "out_time_ms="@ + found,
{
    reveal_strlit("out_time_us=");
    reveal_strlit("out_time_ms=");
    reveal_strlit("out_time_us");
    reveal_strlit("out_time_ms");
    let us = "out_time_us="@ + time;
    let ms = "out_time_ms="@ + time;
    lemma_first_index(us, '=');
    lemma_first_index(ms, '=');
    assert(us[11] == '=' && ms[11] == '=');
    assert(us.contains('=') && ms.contains('='));
    assert(us.take(11) =~= "out_time_us"@);
    assert(ms.take(11) =~= "out_time_ms"@);
    assert forall|i: int| 0 <= i < 11 implies us[i] != '=' && ms[i] != '=' by {
        assert(us[i] == "out_time_us"@[i]);
        assert(ms[i] == "out_time_ms"@[i]);
    }
    assert(us.skip(12) =~= time);
    assert(ms.skip(12) =~= time);
    lemma_first_index(other, '=');
    if elapsed_text(other) is Some {
        let i = first_index(other, '=');
        assert(other =~= other.take(i).push('=') + other.skip(i + 1));
        assert("out_time_us"@.push('=') =~= "out_time_us="@);
        assert("out_time_ms"@.push('=') =~= "out_time_ms="@);
    }
}

/// A file gets the first name that is free: its stem, or its stem, a space and a number from 2 on,
/// with its extension, in the folder that it goes to.
pub proof fn lemma_free_name(
    folder: Seq<char>,
    stem: Seq<char>,
    extension: Seq<char>,
    existing: Set<Seq<char>>,
    path: Seq<char>,
)
    requires
        is_first_free(folder, stem, extension, existing, path),
        stem.len() > 0,
        !stem.contains('/'),
        extension.len() > 0,
        !extension.contains('/'),
        !extension.contains('.'),
    ensures
        !existing.contains(path),
        lies_in(path, folder),
        extension_of(path) == Some(extension),
        stem_of(path) == Some(stem) || exists|n: nat|
            2 <= n && stem_of(path) == Some(stem + " "@ + #[trigger] decimal(n)),
        !existing.contains(joined(folder, stem.push('.') + extension)) ==> path == joined(
            folder,
            stem.push('.') + extension,
        ),
        existing.contains(joined(folder, stem.push('.') + extension)) ==> stem_of(path) != Some(stem),
{
    reveal_strlit(" ");
    let n = choose|n: nat|
        1 <= n && path == #[trigger] candidate(folder, stem, extension, n) && !existing.contains(
            path,
        ) && forall|m: nat|
            1 <= m < n ==> existing.contains(#[trigger] candidate(folder, stem, extension, m));
    assert(candidate(folder, stem, extension, 1) == joined(folder, stem.push('.') + extension));
    let full = numbered(stem, n);
    if n >= 2 {
        lemma_decimal_is_digits(n);
        assert(full =~= stem + " "@ + decimal(n));
        assert(!full.contains('/')) by {
            if full.contains('/') {
                let i = choose|i: int| 0 <= i < full.len() && full[i] == '/';
                if i < stem.len() {
                    assert(stem[i] == '/');
                } else {
                    assert(decimal(n)[i - stem.len() - 1] == '/');
                }
            }
        }
    }
    let name = dotted(full, extension);
    lemma_stem_and_extension(folder, full, extension, name);
    assert(!name.contains('/')) by {
        if name.contains('/') {
            let i = choose|i: int| 0 <= i < name.len() && name[i] == '/';
            if i < full.len() {
                assert(full[i] == '/');
            } else {
                assert(extension[i - full.len() - 1] == '/');
            }
        }
    }
    lemma_file_in_folder(folder, name);
}

/// The decimal form of a number has digits alone.
proof fn lemma_decimal_is_digits(n: nat)
    ensures
        decimal(n).len() > 0,
        forall|i: int| 0 <= i < decimal(n).len() ==> '0' <= #[trigger] decimal(n)[i] <= '9',
    decreases n,
{
    if n >= 10 {
        lemma_decimal_is_digits(n / 10);
    }
}

/// A file that is being written lies in the folder that it goes to, under a name that starts with a
/// dot, so that it shows nowhere, and ends in the extension.
pub proof fn lemma_temp_path(folder: Seq<char>, extension: Seq<char>, process: u32, nanos: u128)
    requires
        extension.len() > 0,
        !extension.contains('/'),
        !extension.contains('.'),
    ensures
        ({
            let path = temp_path(folder, extension, process, nanos);
            &&& lies_in(path, folder)
            &&& extension_of(path) == Some(extension)
            &&& stem_of(path) == Some(
                ".lowcat-import-"@ + decimal(process as nat) + "-"@ + decimal(nanos as nat),
            )
            &&& name_of(path) matches Some(name) && name[0] == '.'
        }),
{
    reveal_strlit(".lowcat-import-");
    reveal_strlit("-");
    reveal_strlit(".");
    lemma_decimal_is_digits(process as nat);
    lemma_decimal_is_digits(nanos as nat);
    let stem = ".lowcat-import-"@ + decimal(process as nat) + "-"@ + decimal(nanos as nat);
    let name = stem + "."@ + extension;
    assert(name =~= stem.push('.') + extension);
    assert(!stem.contains('/')) by {
        if stem.contains('/') {
            let i = choose|i: int| 0 <= i < stem.len() && stem[i] == '/';
            let a: int = 15;
            let b = a + decimal(process as nat).len();
            if i < a {
                assert(stem[i] == ".lowcat-import-"@[i]);
            } else if i < b {
                assert(stem[i] == decimal(process as nat)[i - a]);
            } else if i == b {
                assert(stem[i] == "-"@[0]);
            } else {
                assert(stem[i] == decimal(nanos as nat)[i - b - 1]);
            }
        }
    }
    assert(!name.contains('/')) by {
        if name.contains('/') {
            let i = choose|i: int| 0 <= i < name.len() && name[i] == '/';
            if i < stem.len() {
                assert(stem[i] == '/');
            } else {
                assert(extension[i - stem.len() - 1] == '/');
            }
        }
    }
    lemma_stem_and_extension(folder, stem, extension, name);
    lemma_file_in_folder(folder, name);
    assert(name[0] == '.');
}

/// A file is imported under its own stem, with its extension in lowercase, where its folder is there,
/// it is a file, it can be heard, and its format is kept; of several obstacles the first in this
/// order is told.
pub proof fn lemma_import_obstacles(facts: ImportFacts, source: Seq<char>)
    ensures
        !facts.folder_is_dir <==> import_error(facts, source) == Some(
            FileError::CategoryFolderMissing,
        ),
        facts.folder_is_dir && !facts.source_is_file <==> import_error(facts, source) == Some(
            FileError::SourceNotFile,
        ),
        facts.folder_is_dir && facts.source_is_file && !facts.is_audio <==> import_error(
            facts,
            source,
        ) == Some(FileError::NotAudio),
        import_error(facts, source) is None ==> facts.folder_is_dir && facts.source_is_file
            && facts.is_audio && extension_of(source) is Some && Some(import_extension(source))
            == lower_extension(source) && stem_of(source) == Some(import_stem(source)),
        facts.folder_is_dir && facts.source_is_file && facts.is_audio && is_library_path(source)
            ==> import_error(facts, source) is None,
{
}

/// A file that gets a number gets the lowest one that is free: its stem alone and every lower number
/// are taken.
pub proof fn lemma_lower_numbers_are_taken(
    folder: Seq<char>,
    stem: Seq<char>,
    extension: Seq<char>,
    existing: Set<Seq<char>>,
    path: Seq<char>,
    m: nat,
)
    requires
        is_first_free(folder, stem, extension, existing, path),
    ensures
        path == joined(folder, stem.push('.') + extension) || exists|n: nat|
            2 <= n && path == joined(
                folder,
                (stem + " "@ + #[trigger] decimal(n)).push('.') + extension,
            ) && existing.contains(joined(folder, stem.push('.') + extension)) && (2 <= m < n
                ==> existing.contains(
                joined(folder, (stem + " "@ + decimal(m)).push('.') + extension),
            )),
{
    reveal_strlit(" ");
    let n = choose|n: nat|
        1 <= n && path == #[trigger] candidate(folder, stem, extension, n) && !existing.contains(
            path,
        ) && forall|m: nat|
            1 <= m < n ==> existing.contains(#[trigger] candidate(folder, stem, extension, m));
    if n >= 2 {
        assert(stem.push(' ') + decimal(n) =~= stem + " "@ + decimal(n));
        assert(existing.contains(candidate(folder, stem, extension, 1)));
        if 2 <= m < n {
            assert(stem.push(' ') + decimal(m) =~= stem + " "@ + decimal(m));
            assert(existing.contains(candidate(folder, stem, extension, m)));
        }
    }
}

/// What an import and a conversion call the new file: a file keeps the stem of its source, and, where
/// it is not converted, its extension.
pub proof fn lemma_stem_is_kept(folder: Seq<char>, stem: Seq<char>, extension: Seq<char>)
    requires
        stem.len() > 0,
        extension.len() > 0,
        !stem.contains('/'),
        !extension.contains('/'),
        !extension.contains('.'),
    ensures
        ({
            let source = joined(folder, stem.push('.') + extension);
            &&& import_stem(source) == stem
            &&& conversion_stem(source) == stem
        }),
{
    lemma_stem_and_extension(folder, stem, extension, stem);
}

/// What is planned for a conversion: the new file lies in the folder and has the extension of the
/// target, and so does the file that is written first. It has the stem of the source if the conversion
/// may overwrite; if it may not, no file is there yet.
pub proof fn lemma_conversion_is_planned(
    source: &str,
    folder: &str,
    target: AudioFormat,
    behavior: ConvertConflictBehavior,
    existing: &TextSet,
    process: u32,
    nanos: u128,
    result: Result<FilePlan, FileError>,
)
    requires
        call_ensures(
            plan_conversion,
            (true, true, source, folder, target, behavior, existing, process, nanos),
            result,
        ),
        conversion_stem(source@).len() > 0,
        !conversion_stem(source@).contains('/'),
    ensures
        result matches Ok(plan) && plan.source@ == source@ && lies_in(plan.final_path@, folder@)
            && lies_in(plan.temp_path@, folder@) && extension_of(plan.final_path@) == Some(
            target.extension_text(),
        ) && extension_of(plan.temp_path@) == Some(target.extension_text()) && (behavior
            == ConvertConflictBehavior::AddCopy ==> !existing@.contains(plan.final_path@)) && (
        behavior == ConvertConflictBehavior::Overwrite ==> stem_of(plan.final_path@) == Some(
            conversion_stem(source@),
        )),
{
    reveal_strlit("mp3");
    reveal_strlit("wav");
    reveal_strlit("opus");
    reveal_strlit("flac");
    let extension = target.extension_text();
    let stem = conversion_stem(source@);
    assert(extension.len() > 0 && !extension.contains('/') && !extension.contains('.'));
    lemma_temp_path(folder@, extension, process, nanos);
    let plan = result.unwrap();
    match behavior {
        ConvertConflictBehavior::AddCopy => {
            lemma_free_name(folder@, stem, extension, existing@, plan.final_path@);
        },
        ConvertConflictBehavior::Overwrite => {
            let name = stem.push('.') + extension;
            lemma_stem_and_extension(folder@, stem, extension, stem);
            assert(!name.contains('/')) by {
                if name.contains('/') {
                    let i = choose|i: int| 0 <= i < name.len() && name[i] == '/';
                    if i < stem.len() {
                        assert(stem[i] == '/');
                    } else {
                        assert(extension[i - stem.len() - 1] == '/');
                    }
                }
            }
            lemma_file_in_folder(folder@, name);
        },
    }
}

} // verus!
