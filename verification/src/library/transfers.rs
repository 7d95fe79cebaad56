//! Downloads, imports, conversions, and what else goes on beside users' work.
use super::preview::{fetch_limit, lemma_places, names_place, names_preview, paths_equal};
use super::preview::preview_started;
use super::preview::{preview_stopped, with_places, without_place, PreviewPosition, PreviewView};
use super::preview::{WaveformBatch, WaveformBatchView, WaveformCacheView, BATCH_SIZE};
use super::{ImportProgress, InternalFileDrag, Library, LibraryEvent, LibraryView};
use crate::backend::scanner::stem_or_empty;
use crate::backend::{after_refresh, distinct_places, holds_same, is_same_path, trash_paths};
use crate::backend::with_db;
use crate::backend::{with_folder, Backend, BackendView, FolderScan, FolderScanView};
use crate::db::tags::{tags_on, with_copied_tags};
use crate::db::waveforms::{lemma_waveforms_change_nothing_else, with_waveform};
use crate::db::{DatabaseView, StoredView};
use crate::downloader::{extract_youtube_url, first_link, DownloadCancel, DownloadError};
use crate::downloader::{DownloadJob, DownloadRequest};
use crate::downloader::{DownloadErrorKind, DownloadOutput, DownloadProgressEvent};
use crate::downloader::{DownloadState, DownloadStateView, DownloadStatus, EventView};
use crate::model::{AudioFormat, Category, ConvertConflictBehavior, WaveformBinary256};
use crate::path::{file_name, name_of};
use crate::text::{trimmed, words};
use vstd::prelude::*;

verus! {

broadcast use vstd::string::group_string_axioms;

/// How long after a rescan the next one is made at the earliest, in milliseconds.
pub const RESCAN_PAUSE: u64 = 750;

/// A file that users drop, and how the file system resolves its path.
#[derive(Debug)]
pub struct DroppedFile {
    pub path: String,
    pub resolved: Option<String>,
}

impl DeepView for DroppedFile {
    type V = (Seq<char>, Option<Seq<char>>);

    open spec fn deep_view(&self) -> (Seq<char>, Option<Seq<char>>) {
        (self.path@, self.resolved.deep_view())
    }
}

/// Files to be imported, and the category they are moved from.
#[derive(Debug)]
pub struct ImportJob {
    pub category: Category,
    pub folder: String,
    pub paths: Vec<String>,
    pub moved_from: Option<Category>,
}

/// The files that an import brought in: where each was and where it is now.
#[derive(Debug)]
pub struct ImportBatchResult {
    pub category: Category,
    pub moved_from: Option<Category>,
    pub moved_files: Vec<(String, String)>,
}

/// Files to be converted.
#[derive(Debug)]
pub struct ConvertJob {
    pub category: Category,
    pub sources: Vec<String>,
    pub target: AudioFormat,
    pub behavior: ConvertConflictBehavior,
}

/// Files to be moved to the trash, and whether one of them is being played.
#[derive(Debug)]
pub struct TrashJob {
    pub category: Category,
    pub paths: Vec<String>,
    pub stops_preview: bool,
}

/// What a running conversion tells.
#[derive(Debug)]
pub enum ImportProgressEvent {
    Start { file_name: String },
    Progress(String),
    Finish,
}

/// That the settings could not be written.
#[derive(Debug, Clone, Copy, PartialEq, Eq, Structural)]
pub struct SettingsNotWritten;

/// The paths of dropped files.
pub open spec fn dropped_paths(dropped: Seq<(Seq<char>, Option<Seq<char>>)>) -> Seq<Seq<char>> {
    dropped.map_values(|file: (Seq<char>, Option<Seq<char>>)| file.0)
}

/// Whether one of the dropped files is one of those dragged.
pub open spec fn drops_dragged(
    dragged: Seq<Seq<char>>,
    dropped: Seq<(Seq<char>, Option<Seq<char>>)>,
) -> bool {
    exists|i: int, j: int|
        0 <= i < dragged.len() && 0 <= j < dropped.len() && names_place(
            #[trigger] dragged[i],
            (#[trigger] dropped[j]).0,
            dropped[j].1,
        )
}

/// The name of a file that is shown.
pub open spec fn shown_name(path: Seq<char>) -> Seq<char> {
    match name_of(path) {
        Some(name) => name,
        None => "import"@,
    }
}

/// The name of a file that is shown.
pub fn shown_file_name(path: &str) -> (r: String)
    ensures
        r@ == shown_name(path@),
{
    match file_name(path) {
        Some(name) => name,
        None => "import".to_owned(),
    }
}

/// `backend` with the tags of moved files on the files that they are now.
pub open spec fn with_moved_tags(
    backend: BackendView,
    origin: Category,
    category: Category,
    moved: Seq<(Seq<char>, Seq<char>)>,
) -> BackendView
    decreases moved.len(),
{
    if moved.len() == 0 {
        backend
    } else {
        let before = with_moved_tags(backend, origin, category, moved.drop_last());
        with_db(
            before,
            with_copied_tags(
                before.db,
                tags_on(before.db, origin, stem_or_empty(moved.last().0)),
                category,
                stem_or_empty(moved.last().1),
            ),
        )
    }
}

/// `db` with the waveforms that a batch made.
pub open spec fn with_made(
    db: DatabaseView,
    made: Seq<(Seq<char>, WaveformBinary256)>,
) -> DatabaseView
    decreases made.len(),
{
    if made.len() == 0 {
        db
    } else {
        with_waveform(with_made(db, made.drop_last()), made.last().0, Some(made.last().1))
    }
}

impl LibraryView {
    /// The library with the downloader open in place of the filter panel.
    pub open spec fn with_downloader(self) -> LibraryView {
        LibraryView { downloader_open: true, filters_open: false, ..self }
    }

    /// The library with a download that failed.
    pub open spec fn download_failed(
        self,
        kind: DownloadErrorKind,
        message: Seq<char>,
    ) -> LibraryView {
        LibraryView {
            download_canceled: None,
            download_state: DownloadStateView::Error { kind, message },
            ..self
        }
    }

    /// The library with a download that has just started.
    pub open spec fn download_begun(self, category: Category) -> LibraryView {
        LibraryView {
            download_canceled: Some(false),
            download_state: DownloadStateView::Running {
                category,
                label: "Preparing download"@,
                percent: "0"@,
            },
            ..self
        }
    }

    /// The library with no download.
    pub open spec fn download_over(self) -> LibraryView {
        LibraryView { download_canceled: None, download_state: DownloadStateView::Idle, ..self }
    }

    /// The library once the running download was asked to stop.
    pub open spec fn with_cancel_asked(self) -> LibraryView {
        if self.download_canceled is None {
            self
        } else {
            LibraryView {
                download_canceled: Some(true),
                download_state: match self.download_state {
                    DownloadStateView::Running { category, label, percent } =>
                        DownloadStateView::Running { category, label: "Canceling"@, percent },
                    other => other,
                },
                ..self
            }
        }
    }

    /// The library after `clipboard` was pasted into the downloader.
    pub open spec fn pasted(self, category: Category, clipboard: Option<Seq<char>>) -> LibraryView {
        let open = self.with_downloader();
        if self.download_state is Running {
            open
        } else if clipboard is None || trimmed(clipboard.unwrap()).len() == 0 {
            open.download_failed(DownloadErrorKind::ClipboardEmpty, "Clipboard has no text"@)
        } else if first_link(words(clipboard.unwrap())) is None {
            open.download_failed(DownloadErrorKind::InvalidUrl, "No YouTube link in clipboard"@)
        } else if self.settings.folder(category) is None {
            open.download_failed(
                DownloadErrorKind::MissingCategoryFolder,
                category.label_text() + " folder not set"@,
            )
        } else {
            open.download_begun(category)
        }
    }

    /// Whether pasting `clipboard` starts a download.
    pub open spec fn starts_download(
        self,
        category: Category,
        clipboard: Option<Seq<char>>,
    ) -> bool {
        !(self.download_state is Running) && clipboard is Some && trimmed(
            clipboard.unwrap(),
        ).len() > 0 && first_link(words(clipboard.unwrap())) is Some && self.settings.folder(
            category,
        ) is Some
    }

    /// The library with `category` in line with a scan of its folder.
    pub open spec fn rescanned(self, category: Category, scan: FolderScanView) -> LibraryView {
        self.with_backend(after_refresh(self.backend, category, scan)).fresh(category)
    }

    /// The library with waveforms being made.
    pub open spec fn with_waveforms_started(self) -> LibraryView {
        LibraryView {
            waveforms: WaveformCacheView { in_flight: true, ..self.waveforms },
            ..self
        }
    }

    /// Whether `r` is what starting a batch of waveforms returns.
    pub open spec fn is_batch_limit(self, r: Option<usize>) -> bool {
        match r {
            Some(limit) => !self.waveforms.in_flight && limit == fetch_limit(
                self.waveforms.skipped.len(),
            ),
            None => self.waveforms.in_flight,
        }
    }

    /// The category from which dropped files are dragged.
    pub open spec fn drag_origin(
        self,
        dropped: Seq<(Seq<char>, Option<Seq<char>>)>,
    ) -> Option<Category> {
        match self.internal_file_drag {
            Some((category, paths)) => if drops_dragged(paths, dropped) {
                Some(category)
            } else {
                None
            },
            None => None,
        }
    }

    /// Whether dropping files on `category` starts an import.
    pub open spec fn starts_import(
        self,
        category: Category,
        dropped: Seq<(Seq<char>, Option<Seq<char>>)>,
    ) -> bool {
        self.drag_origin(dropped) != Some(category) && dropped.len() > 0 && !self.importing
            && self.settings.folder(category) is Some
    }

    /// The library after files were dropped on `category`.
    pub open spec fn dropped_on(
        self,
        category: Category,
        dropped: Seq<(Seq<char>, Option<Seq<char>>)>,
    ) -> LibraryView {
        let let_go = LibraryView { internal_file_drag: None, ..self };
        if self.drag_origin(dropped) == Some(category) || dropped.len() == 0 || self.importing {
            let_go
        } else {
            LibraryView {
                importing: self.settings.folder(category) is Some,
                import_progress: None,
                ..let_go
            }
        }
    }

    /// The library once nothing is imported or converted any more.
    pub open spec fn with_import_over(self) -> LibraryView {
        LibraryView { importing: false, import_progress: None, ..self }
    }

    /// The library once files were imported, each with its tags if it came from another category.
    pub open spec fn imported(
        self,
        category: Category,
        moved_from: Option<Category>,
        moved: Seq<(Seq<char>, Seq<char>)>,
        scan: FolderScanView,
        origin_scan: FolderScanView,
    ) -> LibraryView {
        let over = self.with_import_over();
        if moved.len() == 0 {
            over
        } else if moved_from is Some && moved_from != Some(category) {
            over.taken_over(moved_from.unwrap(), category, moved, scan, origin_scan)
        } else {
            over.rescanned(category, scan).with_waveforms_started()
        }
    }

    /// The library once files came from another category, with their tags.
    pub open spec fn taken_over(
        self,
        origin: Category,
        category: Category,
        moved: Seq<(Seq<char>, Seq<char>)>,
        scan: FolderScanView,
        origin_scan: FolderScanView,
    ) -> LibraryView {
        self.with_backend(
            with_moved_tags(
                after_refresh(self.backend, category, scan),
                origin,
                category,
                moved,
            ),
        ).fresh(category).with_waveforms_started().rescanned(origin, origin_scan)
    }

    /// The library with both categories showing the database anew.
    pub open spec fn all_fresh(self) -> LibraryView {
        self.fresh(Category::Music).fresh(Category::Sfx)
    }

    /// The library with what a batch of waveforms made and left out.
    pub open spec fn batch_kept(self, batch: WaveformBatchView) -> LibraryView {
        LibraryView {
            waveforms: WaveformCacheView {
                in_flight: false,
                skipped: with_places(self.waveforms.skipped, batch.skipped),
                ..self.waveforms
            },
            backend: with_db(self.backend, with_made(self.backend.db, batch.made)),
            ..self
        }
    }

    /// The library once a batch of waveforms is over, before the next one.
    pub open spec fn batch_over(self, batch: WaveformBatchView) -> LibraryView {
        if batch.made.len() > 0 {
            self.batch_kept(batch).all_fresh()
        } else {
            self.batch_kept(batch)
        }
    }
}

impl Library {
    /// Pastes text into the downloader; returns the download to be made, with the flag by which
    /// the library cancels it.
    pub fn download_from_clipboard(&mut self, category: Category, clipboard: Option<&str>) -> (r:
        Option<DownloadJob>)
        ensures
            final(self)@ == old(self)@.pasted(category, clipboard.deep_view()),
            r is Some <==> old(self)@.starts_download(category, clipboard.deep_view()),
            r matches Some(job) ==> {
                &&& job.request.category == category
                &&& first_link(words(clipboard.unwrap()@)) == Some(job.request.url@)
                &&& old(self)@.settings.folder(category) == Some(job.request.folder@)
                &&& job.request.format == old(self)@.settings.format()
                &&& final(self).download_cancel == Some(job.cancel)
            },
    {
        self.downloader_open = true;
        self.filters_open = false;
        match &self.download_state {
            DownloadState::Running(_) => {
                return None;
            },
            _ => {},
        }
        let text: &str = match clipboard {
            Some(text) => text,
            None => {
                self.set_download_error(DownloadError::clipboard_empty());
                return None;
            },
        };
        let url: String = match extract_youtube_url(text) {
            Ok(url) => url,
            Err(error) => {
                self.set_download_error(error);
                return None;
            },
        };
        let folder: String = match self.settings.category_folder(category) {
            Some(folder) => folder.to_owned(),
            None => {
                self.set_download_error(DownloadError::missing_category_folder(category));
                return None;
            },
        };
        let request = DownloadRequest {
            category,
            url,
            folder,
            format: self.settings.download_format(),
        };
        let cancel = DownloadCancel::default();
        self.download_cancel = Some(cancel.clone());
        self.download_cancel_asked = false;
        self.download_state =
        DownloadState::Running(
            DownloadStatus {
                category,
                label: "Preparing download".to_owned(),
                percent: "0".to_owned(),
            },
        );
        Some(DownloadJob { request, cancel })
    }

    fn set_download_error(&mut self, error: DownloadError)
        ensures
            final(self)@ == old(self)@.download_failed(error.kind, error.message@),
    {
        self.download_cancel = None;
        self.download_state = DownloadState::Error(error);
    }

    /// Cancels the download, if there is one.
    pub fn cancel_download(&mut self)
        ensures
            final(self)@ == old(self)@.with_cancel_asked(),
            final(self).download_cancel == old(self).download_cancel,
    {
        if let Some(cancel) = &self.download_cancel {
            cancel.cancel();
            self.download_cancel_asked = true;
            match &self.download_state {
                DownloadState::Running(status) => {
                    let status = DownloadStatus {
                        category: status.category,
                        label: "Canceling".to_owned(),
                        percent: status.percent.clone(),
                    };
                    self.download_state = DownloadState::Running(status);
                },
                _ => {},
            }
        }
    }

    /// Forgets that a download failed.
    pub fn dismiss_download_error(&mut self)
        ensures
            final(self)@ == if old(self)@.download_state is Error {
                LibraryView { download_state: DownloadStateView::Idle, ..old(self)@ }
            } else {
                old(self)@
            },
    {
        match &self.download_state {
            DownloadState::Error(_) => {
                self.download_state = DownloadState::Idle;
            },
            _ => {},
        }
    }

    /// Takes over what a running download tells.
    pub fn apply_download_progress(&mut self, event: DownloadProgressEvent)
        ensures
            final(self)@ == match old(self)@.download_state {
                DownloadStateView::Running { category, label, percent } => LibraryView {
                    download_state: match event.deep_view() {
                        EventView::Label(new_label) => DownloadStateView::Running {
                            category,
                            label: if new_label.len() > 0 {
                                new_label
                            } else {
                                label
                            },
                            percent,
                        },
                        EventView::Percent(new_percent) => DownloadStateView::Running {
                            category,
                            label,
                            percent: new_percent,
                        },
                    },
                    ..old(self)@
                },
                _ => old(self)@,
            },
    {
        match &self.download_state {
            DownloadState::Running(status) => {
                let mut status = DownloadStatus {
                    category: status.category,
                    label: status.label.clone(),
                    percent: status.percent.clone(),
                };
                match event {
                    DownloadProgressEvent::Label(label) => {
                        if label.as_str().unicode_len() > 0 {
                            status.label = label;
                        }
                    },
                    DownloadProgressEvent::Percent(percent) => {
                        status.percent = percent;
                    },
                }
                self.download_state = DownloadState::Running(status);
            },
            _ => {},
        }
    }

    /// Ends a download, after which a scan of the folder of `category` was made if it succeeded;
    /// returns how many files the next batch of waveforms asks for.
    pub fn finish_download(
        &mut self,
        category: Category,
        result: Result<DownloadOutput, DownloadError>,
        scan: FolderScan,
    ) -> (r: Option<usize>)
        requires
            scan.fits(),
        ensures
            final(self)@ == match result {
                Ok(_) => old(self)@.download_over().rescanned(
                    category,
                    scan.deep_view(),
                ).with_waveforms_started(),
                Err(error) => if error.kind == DownloadErrorKind::Canceled {
                    old(self)@.download_over()
                } else {
                    old(self)@.download_failed(error.kind, error.message@)
                },
            },
            result is Ok ==> old(self)@.is_batch_limit(r),
            result is Err ==> r is None,
    {
        self.download_cancel = None;
        match result {
            Ok(_) => {
                self.download_state = DownloadState::Idle;
                self.take_in(category, scan)
            },
            Err(error) => {
                if error.kind == DownloadErrorKind::Canceled {
                    self.download_state = DownloadState::Idle;
                } else {
                    self.download_state = DownloadState::Error(error);
                }
                None
            },
        }
    }

    /// Brings `category` in line with a scan of its folder.
    fn rescan(&mut self, category: Category, scan: FolderScan)
        requires
            scan.fits(),
        ensures
            final(self)@ == old(self)@.rescanned(category, scan.deep_view()),
    {
        self.backend.refresh_category(category, scan);
        self.refresh_category_state(category);
    }

    /// Users drag files out of the list of the active category; `paths` are as the file system
    /// resolves them.
    pub fn begin_internal_file_drag_files(&mut self, paths: Vec<String>)
        ensures
            final(self)@ == (LibraryView {
                internal_file_drag: Some((old(self)@.active, paths.deep_view())),
                ..old(self)@
            }),
    {
        self.internal_file_drag = Some(InternalFileDrag { category: self.active, paths });
    }

    /// Users drag a file out of the list of the active category.
    pub fn begin_internal_file_drag(&mut self, path: String)
        ensures
            final(self)@ == (LibraryView {
                internal_file_drag: Some((old(self)@.active, seq![path@])),
                ..old(self)@
            }),
    {
        let mut paths: Vec<String> = Vec::new();
        let ghost text = path@;
        paths.push(path);
        assert(paths.deep_view() =~= seq![text]);
        self.begin_internal_file_drag_files(paths);
    }

    /// Whether users drag files out of a list.
    pub fn internal_file_drag_active(&self) -> (r: bool)
        ensures
            r == self@.internal_file_drag is Some,
    {
        self.internal_file_drag.is_some()
    }

    /// Users no longer drag files; tells whether they did.
    pub fn clear_internal_file_drag(&mut self) -> (r: bool)
        ensures
            r == old(self)@.internal_file_drag is Some,
            final(self)@ == (LibraryView { internal_file_drag: None, ..old(self)@ }),
    {
        let dragged = self.internal_file_drag.is_some();
        self.internal_file_drag = None;
        dragged
    }

    /// The category from which dropped files are dragged.
    pub fn internal_drag_origin(&self, dropped: &Vec<DroppedFile>) -> (r: Option<Category>)
        ensures
            r == self@.drag_origin(dropped.deep_view()),
    {
        let drag = match &self.internal_file_drag {
            Some(drag) => drag,
            None => {
                return None;
            },
        };
        let ghost dragged = drag.paths.deep_view();
        let ghost files = dropped.deep_view();
        let mut i: usize = 0;
        while i < drag.paths.len()
            invariant
                i <= drag.paths@.len(),
                dragged == drag.paths.deep_view(),
                files == dropped.deep_view(),
                self@.internal_file_drag == Some((drag.category, dragged)),
                forall|m: int, n: int|
                    0 <= m < i && 0 <= n < files.len() ==> !names_place(
                        #[trigger] dragged[m],
                        (#[trigger] files[n]).0,
                        files[n].1,
                    ),
            decreases drag.paths.len() - i,
        {
            assert(dragged[i as int] == drag.paths@[i as int]@);
            let mut j: usize = 0;
            while j < dropped.len()
                invariant
                    i < drag.paths@.len(),
                    j <= dropped@.len(),
                    dragged == drag.paths.deep_view(),
                    files == dropped.deep_view(),
                    dragged[i as int] == drag.paths@[i as int]@,
                    self@.internal_file_drag == Some((drag.category, dragged)),
                    forall|n: int|
                        0 <= n < j ==> !names_place(
                            dragged[i as int],
                            (#[trigger] files[n]).0,
                            files[n].1,
                        ),
                decreases dropped.len() - j,
            {
                assert(files[j as int] == dropped@[j as int].deep_view());
                let file = &dropped[j];
                let resolved: Option<&str> = match &file.resolved {
                    Some(place) => Some(place.as_str()),
                    None => None,
                };
                assert(resolved.deep_view() == files[j as int].1);
                if paths_equal(drag.paths[i].as_str(), file.path.as_str(), resolved) {
                    assert(names_place(dragged[i as int], files[j as int].0, files[j as int].1));
                    return Some(drag.category);
                }
                j += 1;
            }
            i += 1;
        }
        None
    }

    /// Users drop files on `category`; returns the files to be imported.
    pub fn import_files(&mut self, category: Category, dropped: Vec<DroppedFile>) -> (r: Option<
        ImportJob,
    >)
        ensures
            final(self)@ == old(self)@.dropped_on(category, dropped.deep_view()),
            r is Some <==> old(self)@.starts_import(category, dropped.deep_view()),
            r matches Some(job) ==> {
                &&& job.category == category
                &&& old(self)@.settings.folder(category) == Some(job.folder@)
                &&& job.paths.deep_view() == dropped_paths(dropped.deep_view())
                &&& job.moved_from == old(self)@.drag_origin(dropped.deep_view())
            },
    {
        let moved_from = self.internal_drag_origin(&dropped);
        self.internal_file_drag = None;
        let ghost files = dropped.deep_view();
        assert(files.len() == dropped@.len());
        let back_home = match moved_from {
            Some(origin) => origin == category,
            None => false,
        };
        if back_home || dropped.len() == 0 || self.importing {
            return None;
        }
        self.import_progress = None;
        let folder: String = match self.settings.category_folder(category) {
            Some(folder) => folder.to_owned(),
            None => {
                return None;
            },
        };
        self.importing = true;
        let ghost start = self@;
        let ghost wanted = dropped_paths(files);
        let mut paths: Vec<String> = Vec::new();
        let mut i: usize = 0;
        assert(paths.deep_view() =~= wanted.take(0));
        while i < dropped.len()
            invariant
                i <= dropped@.len(),
                files == dropped.deep_view(),
                wanted == dropped_paths(files),
                paths.deep_view() == wanted.take(i as int),
                self@ == start,
            decreases dropped.len() - i,
        {
            let ghost before = paths.deep_view();
            assert(files[i as int] == dropped@[i as int].deep_view());
            paths.push(dropped[i].path.clone());
            assert(paths.deep_view() =~= before.push(wanted[i as int]));
            assert(paths.deep_view() =~= wanted.take(i + 1));
            i += 1;
        }
        assert(wanted.take(i as int) =~= wanted);
        Some(ImportJob { category, folder, paths, moved_from })
    }

    /// Puts the tags of moved files on the files that they are now.
    fn move_tags(backend: &mut Backend, origin: Category, category: Category, moved: &Vec<
        (String, String),
    >)
        requires
            origin != category,
        ensures
            final(backend)@ == with_moved_tags(
                old(backend)@,
                origin,
                category,
                moved.deep_view(),
            ),
    {
        let ghost all = moved.deep_view();
        let ghost start = backend@;
        let mut i: usize = 0;
        assert(all.take(0) =~= seq![]);
        while i < moved.len()
            invariant
                i <= moved@.len(),
                all == moved.deep_view(),
                origin != category,
                backend@ == with_moved_tags(start, origin, category, all.take(i as int)),
            decreases moved.len() - i,
        {
            proof {
                assert(all[i as int] == (moved@[i as int].0@, moved@[i as int].1@));
                assert(all.take(i + 1).drop_last() =~= all.take(i as int));
                assert(all.take(i + 1).last() == all[i as int]);
            }
            backend.copy_tags_between_categories(
                origin,
                category,
                moved[i].0.as_str(),
                moved[i].1.as_str(),
            );
            i += 1;
        }
        assert(all.take(i as int) =~= all);
    }

    /// Ends an import, after which the folders of both categories were scanned; returns how many
    /// files the next batch of waveforms asks for.
    pub fn finish_import(
        &mut self,
        result: ImportBatchResult,
        scan: FolderScan,
        origin_scan: FolderScan,
    ) -> (r: Option<usize>)
        requires
            scan.fits(),
            origin_scan.fits(),
        ensures
            final(self)@ == old(self)@.imported(
                result.category,
                result.moved_from,
                result.moved_files.deep_view(),
                scan.deep_view(),
                origin_scan.deep_view(),
            ),
            result.moved_files@.len() == 0 ==> r is None,
            result.moved_files@.len() > 0 ==> old(self)@.is_batch_limit(r),
    {
        self.importing = false;
        self.import_progress = None;
        assert(self@ == old(self)@.with_import_over());
        assert(result.moved_files@.len() == result.moved_files.deep_view().len());
        if result.moved_files.len() == 0 {
            return None;
        }
        match result.moved_from {
            Some(origin) => {
                if origin != result.category {
                    return self.take_over(
                        origin,
                        result.category,
                        &result.moved_files,
                        scan,
                        origin_scan,
                    );
                }
            },
            None => {},
        }
        self.take_in(result.category, scan)
    }

    /// Takes in what a scan of the folder of `category` found; returns how many files the next batch
    /// of waveforms asks for.
    fn take_in(&mut self, category: Category, scan: FolderScan) -> (r: Option<usize>)
        requires
            scan.fits(),
        ensures
            final(self)@ == old(self)@.rescanned(
                category,
                scan.deep_view(),
            ).with_waveforms_started(),
            old(self)@.is_batch_limit(r),
    {
        self.backend.refresh_category(category, scan);
        self.show_imported(category)
    }

    /// Takes in files that came from another category, with their tags.
    fn take_over(
        &mut self,
        origin: Category,
        category: Category,
        moved: &Vec<(String, String)>,
        scan: FolderScan,
        origin_scan: FolderScan,
    ) -> (r: Option<usize>)
        requires
            origin != category,
            scan.fits(),
            origin_scan.fits(),
        ensures
            final(self)@ == old(self)@.taken_over(
                origin,
                category,
                moved.deep_view(),
                scan.deep_view(),
                origin_scan.deep_view(),
            ),
            old(self)@.is_batch_limit(r),
    {
        self.backend.refresh_category(category, scan);
        Self::move_tags(&mut self.backend, origin, category, moved);
        assert(self@ == old(self)@.with_backend(
            with_moved_tags(
                after_refresh(old(self)@.backend, category, scan.deep_view()),
                origin,
                category,
                moved.deep_view(),
            ),
        ));
        let limit = self.show_imported(category);
        self.rescan(origin, origin_scan);
        limit
    }

    /// Shows imported files; returns how many files the next batch of waveforms asks for.
    fn show_imported(&mut self, category: Category) -> (r: Option<usize>)
        ensures
            final(self)@ == old(self)@.fresh(category).with_waveforms_started(),
            old(self)@.is_batch_limit(r),
    {
        reveal(LibraryView::refreshed);
        self.refresh_category_state(category);
        self.waveforms.start()
    }

    /// Starts to convert files; returns the files to be converted, each once.
    pub fn convert_files_to_format(&mut self, sources: Vec<String>, target: AudioFormat) -> (r:
        Option<ConvertJob>)
        ensures
            r is Some <==> !old(self)@.importing && sources.deep_view().len() > 0,
            r matches Some(job) ==> {
                &&& job.category == old(self)@.active
                &&& job.sources.deep_view() == distinct_places(sources.deep_view())
                &&& job.target == target
                &&& job.behavior == old(self)@.convert_conflict_behavior
            },
            final(self)@ == if r is Some {
                LibraryView {
                    importing: true,
                    import_progress: Some((shown_name(sources.deep_view()[0]), "0"@)),
                    ..old(self)@
                }
            } else {
                old(self)@
            },
    {
        if self.importing {
            return None;
        }
        let ghost all = sources.deep_view();
        assert(all.len() == sources@.len());
        let sources = trash_paths(sources);
        proof {
            lemma_distinct_places(all);
            assert(sources@.len() == sources.deep_view().len());
        }
        if sources.len() == 0 {
            return None;
        }
        assert(sources.deep_view()[0] == sources@[0]@);
        self.importing = true;
        self.import_progress = Some(
            ImportProgress {
                file_name: shown_file_name(sources[0].as_str()),
                progress: "0".to_owned(),
            },
        );
        Some(
            ConvertJob {
                category: self.active,
                sources,
                target,
                behavior: self.convert_conflict_behavior,
            },
        )
    }

    /// Takes over what a running conversion tells.
    pub fn apply_import_progress(&mut self, event: ImportProgressEvent)
        ensures
            final(self)@ == (LibraryView {
                import_progress: match event {
                    ImportProgressEvent::Start { file_name } => Some((file_name@, "0"@)),
                    ImportProgressEvent::Progress(progress) =>
                        match old(self)@.import_progress {
                            Some((file_name, _)) => Some((file_name, progress@)),
                            None => None,
                        },
                    ImportProgressEvent::Finish => None,
                },
                ..old(self)@
            }),
    {
        match event {
            ImportProgressEvent::Start { file_name } => {
                self.import_progress = Some(
                    ImportProgress { file_name, progress: "0".to_owned() },
                );
            },
            ImportProgressEvent::Progress(progress) => {
                match &self.import_progress {
                    Some(running) => {
                        self.import_progress = Some(
                            ImportProgress { file_name: running.file_name.clone(), progress },
                        );
                    },
                    None => {},
                }
            },
            ImportProgressEvent::Finish => {
                self.import_progress = None;
            },
        }
    }

    /// Ends a conversion, after which the folder of `category` was scanned if something was
    /// converted; returns how many files the next batch of waveforms asks for.
    pub fn finish_convert(&mut self, category: Category, converted: bool, scan: FolderScan) -> (r:
        Option<usize>)
        requires
            scan.fits(),
        ensures
            final(self)@ == if converted {
                old(self)@.with_import_over().rescanned(
                    category,
                    scan.deep_view(),
                ).with_waveforms_started()
            } else {
                old(self)@.with_import_over()
            },
            converted ==> old(self)@.is_batch_limit(r),
            !converted ==> r is None,
    {
        self.importing = false;
        self.import_progress = None;
        if converted {
            self.take_in(category, scan)
        } else {
            None
        }
    }

    /// The files to be moved to the trash, each once; `resolved` is how the file system resolves
    /// the path of what is being played.
    pub fn trash_files(&self, paths: Vec<String>, resolved: Option<&str>) -> (r: Option<TrashJob>)
        ensures
            r is Some <==> paths.deep_view().len() > 0,
            r matches Some(job) ==> {
                &&& job.category == self@.active
                &&& job.paths.deep_view() == distinct_places(paths.deep_view())
                &&& job.stops_preview == names_preview(
                    self@.preview,
                    distinct_places(paths.deep_view()),
                    resolved.deep_view(),
                )
            },
    {
        let ghost all = paths.deep_view();
        assert(all.len() == paths@.len());
        let paths = trash_paths(paths);
        proof {
            lemma_distinct_places(all);
            assert(paths@.len() == paths.deep_view().len());
        }
        if paths.len() == 0 {
            return None;
        }
        let stops_preview = self.preview.plays_one_of(&paths, resolved);
        Some(TrashJob { category: self.active, paths, stops_preview })
    }

    /// Takes in what a scan of the folder of `category` found after files went to the trash; tells
    /// whether what is being played is gone.
    pub fn finish_trash_files(
        &mut self,
        category: Category,
        scan: FolderScan,
        played_is_file: bool,
    ) -> (r: bool)
        requires
            scan.fits(),
        ensures
            final(self)@ == old(self)@.rescanned(category, scan.deep_view()),
            r == (old(self)@.preview.current_path is Some && !played_is_file),
    {
        reveal(LibraryView::refreshed);
        self.rescan(category, scan);
        self.preview.plays_missing(played_is_file)
    }

    /// Sets the folder of `category`, which was scanned; returns how many files the next batch of
    /// waveforms asks for.
    pub fn set_category_folder(
        &mut self,
        category: Category,
        path: String,
        scan: FolderScan,
    ) -> (r: Result<Option<usize>, SettingsNotWritten>)
        requires
            scan.fits(),
        ensures
            r is Ok <==> old(self)@.settings_writable,
            r matches Ok(limit) ==> old(self)@.is_batch_limit(limit),
            final(self)@ == if old(self)@.settings_writable {
                (LibraryView {
                    settings: old(self)@.settings.with_folder(category, path@),
                    backend: with_folder(old(self)@.backend, category, path@),
                    ..old(self)@
                }).rescanned(category, scan.deep_view()).with_waveforms_started()
            } else {
                old(self)@
            },
    {
        if !self.settings_writable {
            return Err(SettingsNotWritten);
        }
        reveal(LibraryView::refreshed);
        self.settings.set_category_folder(category, path.clone());
        self.backend.set_category_folder(category, path, scan);
        self.refresh_category_state(category);
        Ok(self.waveforms.start())
    }

    /// Starts a rescan of both folders at the time `now`, in milliseconds, unless there is one or
    /// the last one was just made; tells whether.
    pub fn rescan_after_focus(&mut self, now: u64) -> (r: bool)
        ensures
            r == (!old(self)@.focus_rescan_in_flight && (old(self)@.last_focus_rescan matches Some(
                last,
            ) ==> now - last >= RESCAN_PAUSE)),
            final(self)@ == if r {
                LibraryView {
                    last_focus_rescan: Some(now),
                    focus_rescan_in_flight: true,
                    ..old(self)@
                }
            } else {
                old(self)@
            },
    {
        if self.focus_rescan_in_flight {
            return false;
        }
        match self.last_focus_rescan {
            Some(last) => {
                if now < last || now - last < RESCAN_PAUSE {
                    return false;
                }
            },
            None => {},
        }
        self.last_focus_rescan = Some(now);
        self.focus_rescan_in_flight = true;
        true
    }

    /// Ends a rescan with what it found, if it could be made; tells whether what is being played is
    /// gone, and how many files the next batch of waveforms asks for.
    pub fn finish_focus_rescan(
        &mut self,
        scans: Option<(FolderScan, FolderScan)>,
        played_is_file: bool,
    ) -> (r: (bool, Option<usize>))
        requires
            scans matches Some((music, sfx)) ==> music.fits() && sfx.fits(),
        ensures
            final(self)@ == match scans {
                Some((music, sfx)) => (LibraryView {
                    focus_rescan_in_flight: false,
                    backend: after_refresh(
                        after_refresh(old(self)@.backend, Category::Music, music.deep_view()),
                        Category::Sfx,
                        sfx.deep_view(),
                    ),
                    ..old(self)@
                }).all_fresh().with_waveforms_started(),
                None => LibraryView { focus_rescan_in_flight: false, ..old(self)@ },
            },
            scans is Some ==> r.0 == (old(self)@.preview.current_path is Some && !played_is_file)
                && old(self)@.is_batch_limit(r.1),
            scans is None ==> r == (false, None::<usize>),
    {
        reveal(LibraryView::refreshed);
        self.focus_rescan_in_flight = false;
        match scans {
            Some((music, sfx)) => {
                self.backend.refresh_all(music, sfx);
                self.refresh_all();
                let gone = self.preview.plays_missing(played_is_file);
                (gone, self.waveforms.start())
            },
            None => (false, None),
        }
    }

    /// Shows the database anew in both categories.
    fn refresh_all(&mut self)
        ensures
            final(self)@ == old(self)@.all_fresh(),
    {
        self.refresh_category_state(Category::Music);
        self.refresh_category_state(Category::Sfx);
    }

    /// Starts a batch of waveforms unless there is one; returns how many files it asks for.
    pub fn maybe_start_waveform_cache(&mut self) -> (r: Option<usize>)
        ensures
            final(self)@ == old(self)@.with_waveforms_started(),
            old(self)@.is_batch_limit(r),
    {
        self.waveforms.start()
    }

    /// Keeps the waveforms that a batch made.
    fn keep_made(backend: &mut Backend, made: &Vec<(String, WaveformBinary256)>, Ghost(views): Ghost<
        Seq<(Seq<char>, WaveformBinary256)>,
    >)
        requires
            views == made@.map_values(|one: (String, WaveformBinary256)| (one.0@, one.1)),
        ensures
            final(backend)@ == with_db(old(backend)@, with_made(old(backend)@.db, views)),
    {
        let ghost start = backend@;
        let mut i: usize = 0;
        assert(views.take(0) =~= seq![]);
        while i < made.len()
            invariant
                i <= made@.len(),
                views == made@.map_values(|one: (String, WaveformBinary256)| (one.0@, one.1)),
                backend@ == with_db(start, with_made(start.db, views.take(i as int))),
            decreases made.len() - i,
        {
            proof {
                assert(views[i as int] == (made@[i as int].0@, made@[i as int].1));
                assert(views.take(i + 1).drop_last() =~= views.take(i as int));
                assert(views.take(i + 1).last() == views[i as int]);
            }
            backend.set_preview_waveform(made[i].0.as_str(), made[i].1);
            i += 1;
        }
        assert(views.take(i as int) =~= views);
    }

    /// Keeps what a batch made and left out.
    fn keep_batch(
        &mut self,
        skipped: Vec<String>,
        made: Vec<(String, WaveformBinary256)>,
        Ghost(view): Ghost<WaveformBatchView>,
    )
        requires
            view.skipped == skipped.deep_view(),
            view.made == made@.map_values(|one: (String, WaveformBinary256)| (one.0@, one.1)),
        ensures
            final(self)@ == old(self)@.batch_kept(view),
    {
        self.waveforms.finish(skipped);
        Self::keep_made(&mut self.backend, &made, Ghost(view.made));
    }

    /// Takes over what a batch made and left out.
    fn end_batch(&mut self, batch: WaveformBatch)
        ensures
            final(self)@ == old(self)@.batch_over(batch@),
            !final(self)@.waveforms.in_flight,
    {
        let ghost view = batch@;
        let changed = batch.made.len() > 0;
        proof {
            assert(view.made.len() == batch.made@.len());
        }
        self.keep_batch(batch.skipped, batch.made, Ghost(view));
        if changed {
            self.refresh_all();
            assert(!self@.waveforms.in_flight) by {
                reveal(LibraryView::refreshed);
            }
        }
    }

    /// Ends a batch of waveforms, if it could be made; returns how many files the next one asks for
    /// that follows at once.
    pub fn finish_waveform_cache(&mut self, result: Option<WaveformBatch>) -> (r: Option<usize>)
        ensures
            match result {
                Some(batch) => {
                    let over = old(self)@.batch_over(batch@);
                    if batch@.processed >= BATCH_SIZE || batch@.skipped.len() > 0 {
                        r is Some && over.is_batch_limit(r) && final(self)@
                            == over.with_waveforms_started()
                    } else {
                        r is None && final(self)@ == over
                    }
                },
                None => r is None && final(self)@ == (LibraryView {
                    waveforms: WaveformCacheView { in_flight: false, ..old(self)@.waveforms },
                    ..old(self)@
                }),
            },
    {
        match result {
            Some(batch) => {
                let goes_on = batch.processed >= BATCH_SIZE || batch.skipped.len() > 0;
                assert(batch@.skipped.len() == batch.skipped@.len());
                self.end_batch(batch);
                if goes_on {
                    self.maybe_start_waveform_cache()
                } else {
                    None
                }
            },
            None => {
                self.waveforms.in_flight = false;
                None
            },
        }
    }

    /// Starts making the waveform of the file at `path` ahead of others, unless that is being done
    /// or the file is gone; tells whether.
    pub fn maybe_start_priority_waveform_cache(&mut self, path: &str, is_file: bool) -> (r: bool)
        ensures
            r == (is_file && !holds_same(old(self)@.waveforms.ahead, path@)),
            final(self)@ == if r {
                LibraryView {
                    waveforms: WaveformCacheView {
                        skipped: without_place(old(self)@.waveforms.skipped, path@),
                        ahead: old(self)@.waveforms.ahead.push(path@),
                        ..old(self)@.waveforms
                    },
                    ..old(self)@
                }
            } else {
                old(self)@
            },
    {
        self.waveforms.start_ahead(path, is_file)
    }

    /// Ends making the waveform of the file at `path` ahead of others; nothing comes of it where
    /// the whole could not be done.
    pub fn finish_priority_waveform_cache(&mut self, result: Option<
        (String, Option<WaveformBinary256>),
    >)
        ensures
            final(self)@ == match result {
                Some((path, made)) => {
                    let over = LibraryView {
                        waveforms: WaveformCacheView {
                            ahead: without_place(old(self)@.waveforms.ahead, path@),
                            ..old(self)@.waveforms
                        },
                        ..old(self)@
                    };
                    match made {
                        Some(waveform) => over.with_backend(
                            with_db(
                                over.backend,
                                with_waveform(over.backend.db, path@, Some(waveform)),
                            ),
                        ).all_fresh(),
                        None => over,
                    }
                },
                None => LibraryView {
                    waveforms: WaveformCacheView { ahead: seq![], ..old(self)@.waveforms },
                    ..old(self)@
                },
            },
    {
        match result {
            Some((path, made)) => {
                self.waveforms.finish_ahead(path.as_str());
                match made {
                    Some(waveform) => {
                        self.backend.set_preview_waveform(path.as_str(), waveform);
                        self.refresh_all();
                    },
                    None => {},
                }
            },
            None => {
                self.waveforms.give_up_ahead();
            },
        }
    }

    /// The player stopped what it was playing, to play something else.
    pub fn stop_active_preview(&mut self, position: Option<PreviewPosition>)
        ensures
            final(self)@ == (LibraryView {
                preview: PreviewView {
                    last_stopped: position.deep_view(),
                    ..old(self)@.preview
                },
                ..old(self)@
            }),
    {
        self.preview.stop_active_preview(position);
    }

    /// The player was asked to play `path` from `offset`, and did so or not; tells whether it did
    /// and whether the playhead is to be watched from now on.
    pub fn play_preview_from_offset(&mut self, path: String, offset: u128, started: bool) -> (r: (
        bool,
        bool,
    ))
        ensures
            final(self)@ == (LibraryView {
                preview: if started {
                    preview_started(
                        PreviewView { has_player: true, ..old(self)@.preview },
                        path@,
                        offset,
                    )
                } else {
                    PreviewView { has_player: true, current_path: None, ..old(self)@.preview }
                },
                ..old(self)@
            }),
            r.0 == started,
            r.1 == (started && !old(self)@.preview.watch_running),
    {
        self.preview.play_from_offset(path, offset, started)
    }

    /// The player was asked to play `path` from its start, and did so or not.
    pub fn play_preview_from_start(&mut self, path: String, started: bool) -> (r: (bool, bool))
        ensures
            final(self)@ == (LibraryView {
                preview: if started {
                    preview_started(
                        PreviewView { has_player: true, ..old(self)@.preview },
                        path@,
                        0,
                    )
                } else {
                    PreviewView { has_player: true, current_path: None, ..old(self)@.preview }
                },
                ..old(self)@
            }),
            r.0 == started,
            r.1 == (started && !old(self)@.preview.watch_running),
    {
        self.play_preview_from_offset(path, 0, started)
    }

    /// The player, if there is one, was stopped at `position`.
    pub fn stop_preview(&mut self, position: Option<PreviewPosition>) -> (r: Option<LibraryEvent>)
        ensures
            r is Some <==> old(self)@.preview.has_player,
            r matches Some(event) ==> event is PreviewAdvanced,
            final(self)@ == if old(self)@.preview.has_player {
                LibraryView {
                    preview: preview_stopped(old(self)@.preview, position.deep_view()),
                    ..old(self)@
                }
            } else {
                old(self)@
            },
    {
        if self.preview.stop(position) {
            Some(LibraryEvent::PreviewAdvanced)
        } else {
            None
        }
    }

    /// What a look at the player changes; tells whether to look again.
    pub fn watch_playhead(&mut self, ended: Option<PreviewPosition>, playing: bool) -> (r: (
        bool,
        Option<LibraryEvent>,
    ))
        ensures
            r.0 == (ended is None && playing),
            r.1 is Some <==> ended is Some || playing,
            r.1 matches Some(event) ==> event is PreviewAdvanced,
            final(self)@ == (LibraryView {
                preview: if ended is Some {
                    preview_stopped(old(self)@.preview, ended.deep_view())
                } else {
                    PreviewView {
                        watch_running: old(self)@.preview.watch_running && playing,
                        ..old(self)@.preview
                    }
                },
                ..old(self)@
            }),
    {
        let tells = ended.is_some() || playing;
        let again = self.preview.watch_playhead(ended, playing);
        if tells {
            (again, Some(LibraryEvent::PreviewAdvanced))
        } else {
            (again, None)
        }
    }
}

/// Taking each place once keeps the first path, and leaves something where there was something.
pub proof fn lemma_distinct_places(paths: Seq<Seq<char>>)
    ensures
        paths.len() > 0 ==> distinct_places(paths).len() > 0 && distinct_places(paths)[0]
            == paths[0],
        paths.len() == 0 ==> distinct_places(paths).len() == 0,
    decreases paths.len(),
{
    if paths.len() > 0 {
        lemma_distinct_places(paths.drop_last());
    }
}

/// Taking each place once loses none: every path names a place that is kept, by a path that was
/// given, and no place is kept twice.
pub proof fn lemma_each_place_once(paths: Seq<Seq<char>>, place: Seq<char>, i: int, j: int)
    ensures
        ({
            let once = distinct_places(paths);
            &&& holds_same(once, place) <==> holds_same(paths, place)
            &&& 0 <= i < once.len() ==> paths.contains(once[i])
            &&& 0 <= i < j < once.len() ==> !is_same_path(once[i], once[j])
        }),
    decreases paths.len(),
{
    if paths.len() > 0 {
        let front = paths.drop_last();
        let last = paths.last();
        let before = distinct_places(front);
        let after = distinct_places(paths);
        lemma_each_place_once(front, place, i, j);
        lemma_each_place_once(front, last, i, j);
        if holds_same(before, place) {
            let k = choose|k: int| 0 <= k < before.len() && is_same_path(#[trigger] before[k], place);
            assert(after[k] == before[k]);
            let n = choose|n: int| 0 <= n < front.len() && is_same_path(#[trigger] front[n], place);
            assert(is_same_path(paths[n], place));
        }
        if holds_same(paths, place) {
            let k = choose|k: int| 0 <= k < paths.len() && is_same_path(#[trigger] paths[k], place);
            if k < front.len() {
                assert(is_same_path(front[k], place));
            } else if holds_same(before, last) {
                let n = choose|n: int|
                    0 <= n < before.len() && is_same_path(#[trigger] before[n], last);
                assert(is_same_path(after[n], place));
            } else {
                assert(is_same_path(after[before.len() as int], place));
            }
        }
        if holds_same(after, place) && !holds_same(before, place) {
            let k = choose|k: int| 0 <= k < after.len() && is_same_path(#[trigger] after[k], place);
            assert(k == before.len());
            assert(is_same_path(paths[paths.len() - 1], place));
        }
        if 0 <= i < after.len() {
            if i < before.len() {
                assert(after[i] == before[i]);
                let n = choose|n: int| 0 <= n < front.len() && front[n] == before[i];
                assert(paths[n] == after[i]);
            } else {
                assert(paths[paths.len() - 1] == after[i]);
            }
        }
        if 0 <= i < j < after.len() && j == before.len() {
            assert(is_same_path(before[i], last) ==> holds_same(before, last));
        }
    }
}

/// Each waveform that a batch made is kept with its file, where that is known, the last one made for
/// a file counting; all else stays as it was.
pub proof fn lemma_made_waveforms_are_kept(
    db: DatabaseView,
    made: Seq<(Seq<char>, WaveformBinary256)>,
    i: int,
    path: Seq<char>,
)
    ensures
        ({
            let after = with_made(db, made);
            &&& after.files.dom() == db.files.dom()
            &&& 0 <= i < made.len() && db.files.contains_key(made[i].0) && (forall|j: int|
                i < j < made.len() ==> (#[trigger] made[j]).0 != made[i].0)
                ==> after.files[made[i].0].preview_waveform == Some(made[i].1)
            &&& db.files.contains_key(path) && (forall|j: int|
                0 <= j < made.len() ==> (#[trigger] made[j]).0 != path) ==> after.files[path]
                == db.files[path]
            &&& db.files.contains_key(path) ==> after.files[path] == (StoredView {
                preview_waveform: after.files[path].preview_waveform,
                ..db.files[path]
            })
            &&& after.tag_keys == db.tag_keys
            &&& after.tag_values == db.tag_values
            &&& after.settings == db.settings
        }),
    decreases made.len(),
{
    if made.len() > 0 {
        let front = made.drop_last();
        let last = made.last();
        lemma_made_waveforms_are_kept(db, front, i, path);
        let before = with_made(db, front);
        lemma_waveforms_change_nothing_else(before, last.0, Some(last.1), path);
        assert(forall|j: int| 0 <= j < front.len() ==> #[trigger] front[j] == made[j]);
        if 0 <= i < front.len() && (forall|j: int|
            i < j < made.len() ==> (#[trigger] made[j]).0 != made[i].0) {
            assert(made[made.len() - 1].0 != made[i].0);
            assert forall|j: int| i < j < front.len() implies (#[trigger] front[j]).0
                != front[i].0 by {
                assert(made[j].0 != made[i].0);
            }
            lemma_waveforms_change_nothing_else(before, last.0, Some(last.1), made[i].0);
        }
        if forall|j: int| 0 <= j < made.len() ==> (#[trigger] made[j]).0 != path {
            assert(made[made.len() - 1].0 != path);
            assert forall|j: int| 0 <= j < front.len() implies (#[trigger] front[j]).0 != path by {
                assert(made[j].0 != path);
            }
        }
    }
}

/// What pasting does: it opens the downloader, and tells what is wrong, text that is missing before a
/// link that is missing, and that before a folder that is missing; where nothing is wrong and no
/// download runs, one begins in that category at nothing.
pub proof fn lemma_paste_tells(
    library: LibraryView,
    category: Category,
    text: Seq<char>,
)
    ensures
        ({
            let after = library.pasted(category, Some(text));
            let blank = library.pasted(category, None);
            let running = library.download_state is Running;
            let has_link = first_link(words(text)) is Some;
            &&& after.downloader_open && !after.filters_open
            &&& blank.downloader_open && !blank.filters_open
            &&& !running ==> blank.download_state is Error && blank.download_state->kind
                == DownloadErrorKind::ClipboardEmpty
            &&& !running && trimmed(text).len() == 0 ==> after == blank
            &&& !running && trimmed(text).len() > 0 && !has_link ==> after.download_state is Error
                && after.download_state->kind == DownloadErrorKind::InvalidUrl
            &&& !running && trimmed(text).len() > 0 && has_link && library.settings.folder(
                category,
            ) is None ==> after.download_state is Error && after.download_state->kind
                == DownloadErrorKind::MissingCategoryFolder
            &&& !running && trimmed(text).len() > 0 && has_link && library.settings.folder(
                category,
            ) is Some ==> after.download_state is Running && after.download_state->category
                == category && after.download_state->percent == "0"@
            &&& after.backend == library.backend
            &&& after.settings == library.settings
            &&& after.state(category) == library.state(category)
            &&& after.active == library.active
        }),
{
}

/// Files are dragged from a category exactly if one of the dropped ones is one of those that users
/// began to drag there, by its path or by what the file system makes of it.
pub proof fn lemma_drag_origin(
    library: LibraryView,
    category: Category,
    dragged: Seq<Seq<char>>,
    dropped: Seq<(Seq<char>, Option<Seq<char>>)>,
    i: int,
    j: int,
)
    requires
        library.internal_file_drag == Some((category, dragged)),
    ensures
        0 <= i < dragged.len() && 0 <= j < dropped.len() && (is_same_path(dragged[i], dropped[j].0)
            || (dropped[j].1 is Some && is_same_path(dragged[i], dropped[j].1.unwrap())))
            ==> library.drag_origin(dropped) == Some(category),
        library.drag_origin(dropped) is Some ==> library.drag_origin(dropped) == Some(category)
            && exists|m: int, n: int|
            0 <= m < dragged.len() && 0 <= n < dropped.len() && (is_same_path(
                #[trigger] dragged[m],
                (#[trigger] dropped[n]).0,
            ) || (dropped[n].1 is Some && is_same_path(dragged[m], dropped[n].1.unwrap()))),
        (LibraryView { internal_file_drag: None, ..library }).drag_origin(dropped) is None,
{
    if library.drag_origin(dropped) is Some {
        let (m, n) = choose|m: int, n: int|
            0 <= m < dragged.len() && 0 <= n < dropped.len() && names_place(
                #[trigger] dragged[m],
                (#[trigger] dropped[n]).0,
                dropped[n].1,
            );
        assert(names_place(dragged[m], dropped[n].0, dropped[n].1));
    }
    if 0 <= i < dragged.len() && 0 <= j < dropped.len() && (is_same_path(
        dragged[i],
        dropped[j].0,
    ) || (dropped[j].1 is Some && is_same_path(dragged[i], dropped[j].1.unwrap()))) {
        assert(names_place(dragged[i], dropped[j].0, dropped[j].1));
    }
}

/// Dropped files are imported where there are some, none are being imported, the category has a
/// folder, and they are not dragged from the category itself; whatever happens, nothing is dragged
/// any more.
pub proof fn lemma_dropped_files_are_imported(
    library: LibraryView,
    category: Category,
    dropped: Seq<(Seq<char>, Option<Seq<char>>)>,
)
    ensures
        ({
            let after = library.dropped_on(category, dropped);
            &&& after.internal_file_drag is None
            &&& after.importing <==> library.importing || library.starts_import(category, dropped)
            &&& library.importing ==> after.import_progress == library.import_progress
            &&& library.starts_import(category, dropped) ==> dropped.len() > 0
                && library.settings.folder(category) is Some && after.import_progress is None
            &&& dropped.len() > 0 && !library.importing && library.settings.folder(
                category,
            ) is Some && library.internal_file_drag is None ==> library.starts_import(
                category,
                dropped,
            )
            &&& after.backend == library.backend && after.settings == library.settings
        }),
{
}

/// An import that brought nothing in leaves the database as it was. One that did brings it in line
/// with the scan; where files came from another category, their tags are there before that one is
/// brought in line too. In any case nothing is imported any more.
pub proof fn lemma_import_is_over(
    library: LibraryView,
    category: Category,
    moved_from: Option<Category>,
    moved: Seq<(Seq<char>, Seq<char>)>,
    scan: FolderScanView,
    origin_scan: FolderScanView,
)
    ensures
        ({
            let after = library.imported(category, moved_from, moved, scan, origin_scan);
            let scanned = after_refresh(library.backend, category, scan);
            &&& !after.importing && after.import_progress is None
            &&& moved.len() == 0 ==> after.backend == library.backend && after.waveforms
                == library.waveforms
            &&& moved.len() > 0 ==> after.waveforms.in_flight
            &&& moved.len() > 0 && (moved_from is None || moved_from == Some(category))
                ==> after.backend == scanned
            &&& moved.len() > 0 && moved_from == Some(category.other()) ==> after.backend
                == after_refresh(
                with_moved_tags(scanned, category.other(), category, moved),
                category.other(),
                origin_scan,
            )
        }),
{
    reveal(LibraryView::refreshed);
}

/// A rescan brings the database in line with what was found and shows it in the category; the other
/// category shows what it did.
pub proof fn lemma_rescan_is_shown(
    library: LibraryView,
    category: Category,
    scan: FolderScanView,
)
    ensures
        ({
            let after = library.rescanned(category, scan);
            &&& after.backend == after_refresh(library.backend, category, scan)
            &&& after.state(category).all_records == after.all_records(category)
            &&& after.state(category).schema == after.all_tags(category)
            &&& after.state(category).search == library.state(category).search
            &&& after.state(category.other()) == library.state(category.other())
            &&& after.waveforms == library.waveforms
            &&& after.download_state == library.download_state
            &&& after.preview == library.preview
        }),
{
    reveal(LibraryView::refreshed);
}

/// What a batch of waveforms made is kept, and shown in both categories if it made any; what it left
/// out is left out from now on, and another batch may start.
pub proof fn lemma_batch_is_shown(
    library: LibraryView,
    batch: WaveformBatchView,
    category: Category,
    place: Seq<char>,
)
    ensures
        ({
            let after = library.batch_over(batch);
            &&& !after.waveforms.in_flight
            &&& holds_same(after.waveforms.skipped, place) <==> holds_same(
                library.waveforms.skipped,
                place,
            ) || holds_same(batch.skipped, place)
            &&& after.waveforms.ahead == library.waveforms.ahead
            &&& after.backend == with_db(
                library.backend,
                with_made(library.backend.db, batch.made),
            )
            &&& batch.made.len() > 0 ==> after.state(category).all_records == after.all_records(
                category,
            )
            &&& batch.made.len() == 0 ==> after.state(category) == library.state(category)
        }),
{
    reveal(LibraryView::refreshed);
    lemma_places(library.waveforms.skipped, batch.skipped, place, place);
}

} // verus!
