//! The sound that is being played, and the waveforms that are still to be made.
use crate::backend::{holds_path, holds_same, is_same_path, same_path};
use crate::model::WaveformBinary256;
use crate::order::lemma_filter_contains;
use vstd::prelude::*;

verus! {

broadcast use vstd::string::group_string_axioms;

/// A place in a sound, in nanoseconds from its start.
#[derive(Debug)]
pub struct PreviewPosition {
    pub path: String,
    pub offset: u128,
}

impl DeepView for PreviewPosition {
    type V = (Seq<char>, u128);

    open spec fn deep_view(&self) -> (Seq<char>, u128) {
        (self.path@, self.offset)
    }
}

/// Whether `left` names the place of `right`, as it is written or as the file system resolves it.
pub open spec fn names_place(
    left: Seq<char>,
    right: Seq<char>,
    resolved: Option<Seq<char>>,
) -> bool {
    is_same_path(left, right) || (resolved matches Some(place) && is_same_path(left, place))
}

/// Whether `left` names the place of `right`; `resolved` is how the file system resolves `right`.
pub fn paths_equal(left: &str, right: &str, resolved: Option<&str>) -> (r: bool)
    ensures
        r == names_place(
            left@,
            right@,
            resolved.deep_view(),
        ),
{
    if same_path(left, right) {
        return true;
    }
    match resolved {
        Some(place) => same_path(left, place),
        None => false,
    }
}

/// What is being played, where the last sound stopped, and whether the playhead is watched.
pub struct Preview {
    pub has_player: bool,
    pub current_path: Option<String>,
    pub last_stopped: Option<PreviewPosition>,
    pub watch_running: bool,
}

/// The mathematical value of a [`Preview`].
#[verifier::ext_equal]
pub ghost struct PreviewView {
    pub has_player: bool,
    pub current_path: Option<Seq<char>>,
    pub last_stopped: Option<(Seq<char>, u128)>,
    pub watch_running: bool,
}

impl View for Preview {
    type V = PreviewView;

    open spec fn view(&self) -> PreviewView {
        PreviewView {
            has_player: self.has_player,
            current_path: self.current_path.deep_view(),
            last_stopped: self.last_stopped.deep_view(),
            watch_running: self.watch_running,
        }
    }
}

/// A preview in which `path` was started at `offset`.
pub open spec fn preview_started(
    preview: PreviewView,
    path: Seq<char>,
    offset: u128,
) -> PreviewView {
    PreviewView {
        current_path: Some(path),
        last_stopped: Some((path, offset)),
        watch_running: true,
        ..preview
    }
}

/// A preview that was stopped at `position`.
pub open spec fn preview_stopped(
    preview: PreviewView,
    position: Option<(Seq<char>, u128)>,
) -> PreviewView {
    PreviewView {
        current_path: None,
        last_stopped: position,
        watch_running: false,
        ..preview
    }
}

/// Whether one of `paths` names what is being played.
pub open spec fn names_preview(
    preview: PreviewView,
    paths: Seq<Seq<char>>,
    resolved: Option<Seq<char>>,
) -> bool {
    preview.current_path is Some && exists|i: int|
        0 <= i < paths.len() && names_place(
            #[trigger] paths[i],
            preview.current_path.unwrap(),
            resolved,
        )
}

impl Preview {
    /// Nothing is played, and there is no player yet.
    pub fn new() -> (r: Preview)
        ensures
            r@ == (PreviewView {
                has_player: false,
                current_path: None,
                last_stopped: None,
                watch_running: false,
            }),
    {
        Preview { has_player: false, current_path: None, last_stopped: None, watch_running: false }
    }

    /// There is a player.
    pub fn ensure_preview_player(&mut self)
        ensures
            final(self)@ == (PreviewView { has_player: true, ..old(self)@ }),
    {
        self.has_player = true;
    }

    /// The player stopped what it was playing, to play something else.
    pub fn stop_active_preview(&mut self, position: Option<PreviewPosition>)
        ensures
            final(self)@ == (PreviewView { last_stopped: position.deep_view(), ..old(self)@ }),
    {
        self.last_stopped = position;
    }

    /// The player was asked to play `path` from `offset`, and did so or not; tells whether it did
    /// and whether the playhead is to be watched from now on.
    pub fn play_from_offset(&mut self, path: String, offset: u128, started: bool) -> (r: (
        bool,
        bool,
    ))
        ensures
            final(self)@ == if started {
                preview_started(
                    PreviewView { has_player: true, ..old(self)@ },
                    path@,
                    offset,
                )
            } else {
                PreviewView { has_player: true, current_path: None, ..old(self)@ }
            },
            r.0 == started,
            r.1 == (started && !old(self)@.watch_running),
    {
        self.ensure_preview_player();
        if !started {
            self.current_path = None;
            return (false, false);
        }
        let watch = !self.watch_running;
        self.current_path = Some(path.clone());
        self.last_stopped = Some(PreviewPosition { path, offset });
        self.watch_running = true;
        (true, watch)
    }

    /// The player, if there is one, was stopped at `position`; tells whether there is one.
    pub fn stop(&mut self, position: Option<PreviewPosition>) -> (r: bool)
        ensures
            r == old(self)@.has_player,
            final(self)@ == if old(self)@.has_player {
                preview_stopped(old(self)@, position.deep_view())
            } else {
                old(self)@
            },
    {
        if !self.has_player {
            return false;
        }
        self.last_stopped = position;
        self.current_path = None;
        self.watch_running = false;
        true
    }

    /// What a look at the player changes: `ended` is where the sound came to its end, if it did;
    /// tells whether to look again.
    pub fn watch_playhead(&mut self, ended: Option<PreviewPosition>, playing: bool) -> (r: bool)
        ensures
            r == (ended is None && playing),
            final(self)@ == if ended is Some {
                preview_stopped(old(self)@, ended.deep_view())
            } else {
                PreviewView { watch_running: old(self)@.watch_running && playing, ..old(self)@ }
            },
    {
        match ended {
            Some(position) => {
                self.last_stopped = Some(position);
                self.current_path = None;
                self.watch_running = false;
                false
            },
            None => {
                if !playing {
                    self.watch_running = false;
                }
                playing
            },
        }
    }

    /// Whether one of `paths` is being played; `resolved` is how the file system resolves the path
    /// that is.
    pub fn plays_one_of(&self, paths: &Vec<String>, resolved: Option<&str>) -> (r: bool)
        ensures
            r == names_preview(self@, paths.deep_view(), resolved.deep_view()),
    {
        match &self.current_path {
            Some(current) => {
                let ghost views = paths.deep_view();
                let ghost place = resolved.deep_view();
                let mut i: usize = 0;
                while i < paths.len()
                    invariant
                        i <= paths@.len(),
                        views == paths.deep_view(),
                        self@.current_path == Some(current@),
                        place == resolved.deep_view(),
                        forall|j: int|
                            0 <= j < i ==> !names_place(#[trigger] views[j], current@, place),
                    decreases paths.len() - i,
                {
                    assert(views[i as int] == paths@[i as int]@);
                    if paths_equal(paths[i].as_str(), current.as_str(), resolved) {
                        assert(names_place(views[i as int], current@, place));
                        return true;
                    }
                    i += 1;
                }
                false
            },
            None => false,
        }
    }

    /// Whether what is being played is no file any more.
    pub fn plays_missing(&self, is_file: bool) -> (r: bool)
        ensures
            r == (self@.current_path is Some && !is_file),
    {
        self.current_path.is_some() && !is_file
    }
}

/// How far the playhead is in the sound at `path`, as an offset and a duration; `resolved` is how
/// the file system resolves `path`.
pub fn playhead_for_path(
    path: &str,
    resolved: Option<&str>,
    position: &Option<PreviewPosition>,
    duration: Option<u128>,
) -> (r: Option<(u128, u128)>)
    ensures
        match (*position, duration) {
            (Some(position), Some(duration)) => if names_place(
                position.path@,
                path@,
                resolved.deep_view(),
            ) && duration > 0 {
                r == Some((position.offset, duration))
            } else {
                r is None
            },
            _ => r is None,
        },
{
    match position {
        Some(position) => {
            if !paths_equal(position.path.as_str(), path, resolved) {
                return None;
            }
            match duration {
                Some(duration) => if duration > 0 {
                    Some((position.offset, duration))
                } else {
                    None
                },
                None => None,
            }
        },
        None => None,
    }
}

/// How many waveforms are made in one go.
pub const BATCH_SIZE: usize = 16;

/// `paths` and the place of `path`.
pub open spec fn with_place(paths: Seq<Seq<char>>, path: Seq<char>) -> Seq<Seq<char>> {
    if holds_same(paths, path) {
        paths
    } else {
        paths.push(path)
    }
}

/// `paths` and the places of `more`.
pub open spec fn with_places(paths: Seq<Seq<char>>, more: Seq<Seq<char>>) -> Seq<Seq<char>>
    decreases more.len(),
{
    if more.len() == 0 {
        paths
    } else {
        with_place(with_places(paths, more.drop_last()), more.last())
    }
}

/// `paths` without the place of `path`.
pub open spec fn without_place(paths: Seq<Seq<char>>, path: Seq<char>) -> Seq<Seq<char>> {
    paths.filter(|other: Seq<char>| !is_same_path(other, path))
}

/// Adds the place of `path` to `paths`.
fn add_place(paths: &mut Vec<String>, path: String)
    ensures
        final(paths).deep_view() == with_place(old(paths).deep_view(), path@),
{
    let ghost before = paths.deep_view();
    let ghost text = path@;
    if !holds_path(paths, path.as_str()) {
        paths.push(path);
        assert(paths.deep_view() =~= before.push(text));
    }
}

/// `paths` without the place of `path`.
fn remove_place(paths: &Vec<String>, path: &str) -> (r: Vec<String>)
    ensures
        r.deep_view() == without_place(paths.deep_view(), path@),
{
    let ghost all = paths.deep_view();
    let ghost p = |other: Seq<char>| !is_same_path(other, path@);
    let mut out: Vec<String> = Vec::new();
    let mut i: usize = 0;
    proof {
        reveal(Seq::filter);
        assert(all.take(0) =~= seq![]);
        assert(out.deep_view() =~= all.take(0).filter(p));
    }
    while i < paths.len()
        invariant
            i <= paths@.len(),
            all == paths.deep_view(),
            p == (|other: Seq<char>| !is_same_path(other, path@)),
            out.deep_view() == all.take(i as int).filter(p),
        decreases paths.len() - i,
    {
        let ghost before = out.deep_view();
        proof {
            reveal(Seq::filter);
            assert(all.take(i + 1).drop_last() =~= all.take(i as int));
            assert(all.take(i + 1).last() == all[i as int]);
            assert(all[i as int] == paths@[i as int]@);
        }
        if !same_path(paths[i].as_str(), path) {
            out.push(paths[i].clone());
            assert(out.deep_view() =~= before.push(all[i as int]));
        }
        i += 1;
    }
    assert(all.take(i as int) =~= all);
    out
}

/// Waveforms that are being made: whether a batch is, which files it leaves out, and which files
/// are made ahead of it.
pub struct WaveformCache {
    pub in_flight: bool,
    pub skipped: Vec<String>,
    pub ahead: Vec<String>,
}

/// The mathematical value of a [`WaveformCache`].
#[verifier::ext_equal]
pub ghost struct WaveformCacheView {
    pub in_flight: bool,
    pub skipped: Seq<Seq<char>>,
    pub ahead: Seq<Seq<char>>,
}

impl View for WaveformCache {
    type V = WaveformCacheView;

    open spec fn view(&self) -> WaveformCacheView {
        WaveformCacheView {
            in_flight: self.in_flight,
            skipped: self.skipped.deep_view(),
            ahead: self.ahead.deep_view(),
        }
    }
}

/// How many files without a waveform a batch asks for, so that enough are left without the skipped
/// ones.
pub open spec fn fetch_limit(skipped: nat) -> int {
    if BATCH_SIZE + skipped > usize::MAX {
        usize::MAX as int
    } else {
        BATCH_SIZE + skipped
    }
}

impl WaveformCache {
    /// Nothing is being made.
    pub fn new() -> (r: WaveformCache)
        ensures
            r@ == (WaveformCacheView { in_flight: false, skipped: seq![], ahead: seq![] }),
    {
        let r = WaveformCache { in_flight: false, skipped: Vec::new(), ahead: Vec::new() };
        assert(r@ =~= (WaveformCacheView { in_flight: false, skipped: seq![], ahead: seq![] }));
        r
    }

    /// Starts a batch unless there is one; returns how many files it asks for.
    pub fn start(&mut self) -> (r: Option<usize>)
        ensures
            r is Some <==> !old(self)@.in_flight,
            r matches Some(limit) ==> limit == fetch_limit(old(self)@.skipped.len()),
            final(self)@ == (WaveformCacheView { in_flight: true, ..old(self)@ }),
    {
        if self.in_flight {
            return None;
        }
        self.in_flight = true;
        let skipped: usize = self.skipped.len();
        assert(self@.skipped.len() == skipped);
        let limit: usize = if skipped > usize::MAX - BATCH_SIZE {
            usize::MAX
        } else {
            BATCH_SIZE + skipped
        };
        Some(limit)
    }

    /// Ends a batch, which left `skipped` out.
    pub fn finish(&mut self, skipped: Vec<String>)
        ensures
            final(self)@ == (WaveformCacheView {
                in_flight: false,
                skipped: with_places(old(self)@.skipped, skipped.deep_view()),
                ..old(self)@
            }),
    {
        self.in_flight = false;
        let ghost more = skipped.deep_view();
        let ghost start = self@;
        let mut i: usize = 0;
        assert(more.take(0) =~= seq![]);
        while i < skipped.len()
            invariant
                i <= skipped@.len(),
                more == skipped.deep_view(),
                self@ == (WaveformCacheView {
                    skipped: with_places(start.skipped, more.take(i as int)),
                    ..start
                }),
            decreases skipped.len() - i,
        {
            proof {
                assert(more[i as int] == skipped@[i as int]@);
                assert(more.take(i + 1).drop_last() =~= more.take(i as int));
                assert(more.take(i + 1).last() == more[i as int]);
            }
            add_place(&mut self.skipped, skipped[i].clone());
            i += 1;
        }
        assert(more.take(i as int) =~= more);
    }

    /// Starts making the waveform of the file at `path` ahead of others, unless that is being done
    /// or the file is gone; tells whether.
    pub fn start_ahead(&mut self, path: &str, is_file: bool) -> (r: bool)
        ensures
            r == (is_file && !holds_same(old(self)@.ahead, path@)),
            final(self)@ == if r {
                WaveformCacheView {
                    skipped: without_place(old(self)@.skipped, path@),
                    ahead: old(self)@.ahead.push(path@),
                    ..old(self)@
                }
            } else {
                old(self)@
            },
    {
        if holds_path(&self.ahead, path) || !is_file {
            return false;
        }
        let ghost before = self@;
        self.skipped = remove_place(&self.skipped, path);
        self.ahead.push(path.to_owned());
        assert(self@.ahead =~= before.ahead.push(path@));
        true
    }

    /// Ends making the waveform of the file at `path`.
    pub fn finish_ahead(&mut self, path: &str)
        ensures
            final(self)@ == (WaveformCacheView {
                ahead: without_place(old(self)@.ahead, path@),
                ..old(self)@
            }),
    {
        self.ahead = remove_place(&self.ahead, path);
    }

    /// Gives up what is being made ahead of others.
    pub fn give_up_ahead(&mut self)
        ensures
            final(self)@ == (WaveformCacheView { ahead: seq![], ..old(self)@ }),
    {
        self.ahead = Vec::new();
        assert(self@.ahead =~= seq![]);
    }
}

/// What a batch does with a file.
#[derive(Debug, Clone, Copy, PartialEq, Eq, Structural)]
pub enum WaveformStep {
    Pass,
    Stop,
    LeaveOut,
    Make,
}

/// A batch of waveforms: how many files it tried, those it left out, and the waveforms it made.
pub struct WaveformBatch {
    pub processed: usize,
    pub skipped: Vec<String>,
    pub made: Vec<(String, WaveformBinary256)>,
}

/// The mathematical value of a [`WaveformBatch`].
#[verifier::ext_equal]
pub ghost struct WaveformBatchView {
    pub processed: int,
    pub skipped: Seq<Seq<char>>,
    pub made: Seq<(Seq<char>, WaveformBinary256)>,
}

impl View for WaveformBatch {
    type V = WaveformBatchView;

    open spec fn view(&self) -> WaveformBatchView {
        WaveformBatchView {
            processed: self.processed as int,
            skipped: self.skipped.deep_view(),
            made: self.made@.map_values(
                |made: (String, WaveformBinary256)| (made.0@, made.1),
            ),
        }
    }
}

/// What a batch that left the `skipped` files out does with the file at `path`.
pub open spec fn step_of(
    batch: WaveformBatchView,
    path: Seq<char>,
    skipped: Seq<Seq<char>>,
    is_file: bool,
) -> WaveformStep {
    if holds_same(skipped, path) {
        WaveformStep::Pass
    } else if batch.processed >= BATCH_SIZE {
        WaveformStep::Stop
    } else if !is_file {
        WaveformStep::LeaveOut
    } else {
        WaveformStep::Make
    }
}

/// A batch after the file at `path`, for which a waveform was made or not.
pub open spec fn batch_after(
    batch: WaveformBatchView,
    path: Seq<char>,
    step: WaveformStep,
    made: Option<WaveformBinary256>,
) -> WaveformBatchView {
    match step {
        WaveformStep::Pass | WaveformStep::Stop => batch,
        WaveformStep::LeaveOut => WaveformBatchView { skipped: batch.skipped.push(path), ..batch },
        WaveformStep::Make => match made {
            Some(waveform) => WaveformBatchView {
                processed: batch.processed + 1,
                made: batch.made.push((path, waveform)),
                ..batch
            },
            None => WaveformBatchView {
                processed: batch.processed + 1,
                skipped: batch.skipped.push(path),
                ..batch
            },
        },
    }
}

impl WaveformBatch {
    /// An empty batch.
    pub fn new() -> (r: WaveformBatch)
        ensures
            r@ == (WaveformBatchView { processed: 0, skipped: seq![], made: seq![] }),
    {
        let r = WaveformBatch { processed: 0, skipped: Vec::new(), made: Vec::new() };
        assert(r@ =~= (WaveformBatchView { processed: 0, skipped: seq![], made: seq![] }));
        r
    }

    /// What the batch does with the file at `path`.
    pub fn next_step(&self, path: &str, skipped: &Vec<String>, is_file: bool) -> (r: WaveformStep)
        ensures
            r == step_of(self@, path@, skipped.deep_view(), is_file),
    {
        if holds_path(skipped, path) {
            WaveformStep::Pass
        } else if self.processed >= BATCH_SIZE {
            WaveformStep::Stop
        } else if !is_file {
            WaveformStep::LeaveOut
        } else {
            WaveformStep::Make
        }
    }

    /// Takes the file at `path` into account, for which a waveform was made or not; tells whether
    /// to go on with the next file.
    pub fn advance(
        &mut self,
        path: String,
        skipped: &Vec<String>,
        is_file: bool,
        made: Option<WaveformBinary256>,
    ) -> (r: bool)
        ensures
            final(self)@ == batch_after(
                old(self)@,
                path@,
                step_of(old(self)@, path@, skipped.deep_view(), is_file),
                made,
            ),
            r == (step_of(old(self)@, path@, skipped.deep_view(), is_file) != WaveformStep::Stop),
    {
        let ghost before = self@;
        let ghost text = path@;
        match self.next_step(path.as_str(), skipped, is_file) {
            WaveformStep::Pass => true,
            WaveformStep::Stop => false,
            WaveformStep::LeaveOut => {
                self.skipped.push(path);
                assert(self@.skipped =~= before.skipped.push(text));
                true
            },
            WaveformStep::Make => {
                self.processed += 1;
                match made {
                    Some(waveform) => {
                        self.made.push((path, waveform));
                        assert(self@.made =~= before.made.push((text, waveform)));
                    },
                    None => {
                        self.skipped.push(path);
                        assert(self@.skipped =~= before.skipped.push(text));
                    },
                }
                true
            },
        }
    }
}

/// A batch never tries more files than one go takes, and what it makes was not left out before.
pub proof fn lemma_batch_is_bounded(
    batch: WaveformBatchView,
    path: Seq<char>,
    skipped: Seq<Seq<char>>,
    is_file: bool,
    made: Option<WaveformBinary256>,
)
    requires
        batch.processed <= BATCH_SIZE,
        forall|i: int| 0 <= i < batch.made.len() ==> !holds_same(skipped, (#[trigger] batch.made[i]).0),
    ensures
        batch_after(batch, path, step_of(batch, path, skipped, is_file), made).processed
            <= BATCH_SIZE,
        forall|i: int|
            0 <= i < batch_after(
                batch,
                path,
                step_of(batch, path, skipped, is_file),
                made,
            ).made.len() ==> !holds_same(
                skipped,
                (#[trigger] batch_after(
                    batch,
                    path,
                    step_of(batch, path, skipped, is_file),
                    made,
                ).made[i]).0,
            ),
{
}

/// Adding places to others adds each that is not there, once, behind those that were; taking a place
/// out takes out every path that names it, and no other.
pub proof fn lemma_places(
    paths: Seq<Seq<char>>,
    more: Seq<Seq<char>>,
    path: Seq<char>,
    place: Seq<char>,
)
    ensures
        holds_same(with_places(paths, more), place) <==> holds_same(paths, place) || holds_same(
            more,
            place,
        ),
        paths.is_prefix_of(with_places(paths, more)),
        with_places(paths, more).len() <= paths.len() + more.len(),
        holds_same(without_place(paths, path), place) <==> holds_same(paths, place)
            && !is_same_path(place, path),
    decreases more.len(),
{
    if more.len() > 0 {
        let front = more.drop_last();
        let last = more.last();
        lemma_places(paths, front, path, place);
        let before = with_places(paths, front);
        let after = with_places(paths, more);
        if holds_same(before, place) {
            let i = choose|i: int| 0 <= i < before.len() && is_same_path(#[trigger] before[i], place);
            assert(after[i] == before[i]);
        }
        if holds_same(more, place) {
            let i = choose|i: int| 0 <= i < more.len() && is_same_path(#[trigger] more[i], place);
            if i < front.len() {
                assert(is_same_path(front[i], place));
            } else if holds_same(before, last) {
                let j = choose|j: int|
                    0 <= j < before.len() && is_same_path(#[trigger] before[j], last);
                assert(is_same_path(after[j], place));
            } else {
                assert(is_same_path(after[before.len() as int], place));
            }
        }
        if holds_same(after, place) && !holds_same(before, place) {
            let i = choose|i: int| 0 <= i < after.len() && is_same_path(#[trigger] after[i], place);
            assert(i == before.len());
            assert(is_same_path(more[more.len() - 1], place));
        }
        if holds_same(front, place) {
            let i = choose|i: int| 0 <= i < front.len() && is_same_path(#[trigger] front[i], place);
            assert(is_same_path(more[i], place));
        }
    }
    let p = |other: Seq<char>| !is_same_path(other, path);
    let left = without_place(paths, path);
    if holds_same(left, place) {
        let i = choose|i: int| 0 <= i < left.len() && is_same_path(#[trigger] left[i], place);
        assert(left.contains(left[i]));
        lemma_filter_contains(paths, p, left[i]);
        let j = choose|j: int| 0 <= j < paths.len() && paths[j] == left[i];
        assert(is_same_path(paths[j], place));
    }
    if holds_same(paths, place) && !is_same_path(place, path) {
        let i = choose|i: int| 0 <= i < paths.len() && is_same_path(#[trigger] paths[i], place);
        assert(paths.contains(paths[i]));
        lemma_filter_contains(paths, p, paths[i]);
        let j = choose|j: int| 0 <= j < left.len() && left[j] == paths[i];
        assert(is_same_path(left[j], place));
    }
}

/// A batch asks for as many files as it makes in one go, beside those that it will leave out.
pub proof fn lemma_batch_asks_for_enough(skipped: nat)
    requires
        skipped + 16 <= usize::MAX,
    ensures
        fetch_limit(skipped) - skipped == 16,
{
}

/// A batch makes the waveforms of files that are there and were not left out before, as long as it
/// has not tried as many as one go takes. A file for which none could be made, or that is gone, is
/// left out; every try counts, and nothing else changes.
pub proof fn lemma_batch_takes_in(
    batch: WaveformBatchView,
    path: Seq<char>,
    skipped: Seq<Seq<char>>,
    is_file: bool,
    made: Option<WaveformBinary256>,
)
    ensures
        ({
            let step = step_of(batch, path, skipped, is_file);
            let after = batch_after(batch, path, step, made);
            let tried = !holds_same(skipped, path) && batch.processed < 16 && is_file;
            &&& step == WaveformStep::Make <==> tried
            &&& step == WaveformStep::Stop <==> !holds_same(skipped, path) && batch.processed >= 16
            &&& after.processed == batch.processed + if tried {
                1int
            } else {
                0
            }
            &&& after.made == if tried && made is Some {
                batch.made.push((path, made.unwrap()))
            } else {
                batch.made
            }
            &&& after.skipped == if !holds_same(skipped, path) && batch.processed < 16 && (!is_file
                || made is None) {
                batch.skipped.push(path)
            } else {
                batch.skipped
            }
        }),
{
}

/// What was started is being played from where it was started, and watched; what was stopped is not,
/// and it is known where.
pub proof fn lemma_preview_plays(
    preview: PreviewView,
    path: Seq<char>,
    offset: u128,
    position: Option<(Seq<char>, u128)>,
    other: Seq<char>,
    resolved: Option<Seq<char>>,
)
    ensures
        ({
            let started = preview_started(preview, path, offset);
            let stopped = preview_stopped(preview, position);
            &&& started.current_path == Some(path)
            &&& started.last_stopped == Some((path, offset))
            &&& started.watch_running
            &&& started.has_player == preview.has_player
            &&& names_preview(started, seq![other], resolved) <==> is_same_path(other, path) || (
            resolved is Some && is_same_path(other, resolved.unwrap()))
            &&& stopped.current_path is None && !stopped.watch_running
            &&& stopped.last_stopped == position
            &&& stopped.has_player == preview.has_player
            &&& !names_preview(stopped, seq![other], resolved)
        }),
{
    let started = preview_started(preview, path, offset);
    assert(seq![other][0] == other);
    if names_place(other, path, resolved) {
        assert(names_place(seq![other][0], path, resolved));
    }
}

} // verus!
