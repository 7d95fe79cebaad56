//! The programs that the library needs, and where they are looked for.
use crate::backend::{is_same_path, same_path};
use crate::order::lemma_filter_contains;
use crate::path::{join, joined};
use crate::text::same_text;
use crate::text_map::TextSet;
use vstd::prelude::*;

verus! {

broadcast use vstd::string::group_string_axioms;

/// The programs that the library needs.
pub open spec fn required_tools() -> Seq<Seq<char>> {
    seq!["ffmpeg"@, "ffprobe"@, "yt-dlp"@]
}

/// A place in which a program is looked for.
#[derive(Debug)]
pub enum SearchLocation {
    Path,
    Directory(String),
}

/// The mathematical value of a [`SearchLocation`].
#[verifier::ext_equal]
pub ghost enum LocationView {
    Path,
    Directory(Seq<char>),
}

impl DeepView for SearchLocation {
    type V = LocationView;

    open spec fn deep_view(&self) -> LocationView {
        match self {
            SearchLocation::Path => LocationView::Path,
            SearchLocation::Directory(path) => LocationView::Directory(path@),
        }
    }
}

/// A program that was not found, and where it was looked for.
#[derive(Debug)]
pub struct MissingTool {
    pub name: &'static str,
    pub search_locations: Vec<SearchLocation>,
}

/// The paths at which a program may be: in each of `folders`.
pub open spec fn tool_paths(tool: Seq<char>, folders: Seq<Seq<char>>) -> Seq<Seq<char>> {
    folders.map_values(|folder: Seq<char>| joined(folder, tool))
}

/// The first of `paths` that `executables` holds.
pub open spec fn first_executable(
    paths: Seq<Seq<char>>,
    executables: Set<Seq<char>>,
) -> Option<Seq<char>>
    decreases paths.len(),
{
    if paths.len() == 0 {
        None
    } else if executables.contains(paths[0]) {
        Some(paths[0])
    } else {
        first_executable(paths.drop_first(), executables)
    }
}

/// The path of a program: in the folders of the search path first, then in the usual folders.
pub open spec fn tool_place(
    tool: Seq<char>,
    path_folders: Seq<Seq<char>>,
    usual_folders: Seq<Seq<char>>,
    executables: Set<Seq<char>>,
) -> Option<Seq<char>> {
    match first_executable(tool_paths(tool, path_folders), executables) {
        Some(path) => Some(path),
        None => first_executable(tool_paths(tool, usual_folders), executables),
    }
}

/// The paths at which a program may be: in each of `folders`.
pub fn tool_candidates(tool: &str, folders: &Vec<String>) -> (r: Vec<String>)
    ensures
        r.deep_view() == tool_paths(tool@, folders.deep_view()),
{
    let ghost wanted = tool_paths(tool@, folders.deep_view());
    let mut out: Vec<String> = Vec::new();
    let mut i: usize = 0;
    assert(out.deep_view() =~= wanted.take(0));
    while i < folders.len()
        invariant
            i <= folders@.len(),
            wanted == tool_paths(tool@, folders.deep_view()),
            out.deep_view() == wanted.take(i as int),
        decreases folders.len() - i,
    {
        let ghost before = out.deep_view();
        assert(folders.deep_view()[i as int] == folders@[i as int]@);
        out.push(join(folders[i].as_str(), tool));
        assert(out.deep_view() =~= before.push(wanted[i as int]));
        assert(out.deep_view() =~= wanted.take(i + 1));
        i += 1;
    }
    assert(wanted.take(i as int) =~= wanted);
    out
}

/// The first of `paths` that `executables` holds.
fn find_executable(paths: &Vec<String>, executables: &TextSet) -> (r: Option<String>)
    ensures
        r is Some <==> first_executable(paths.deep_view(), executables@) is Some,
        r matches Some(path) ==> first_executable(paths.deep_view(), executables@) == Some(path@),
{
    let ghost views = paths.deep_view();
    let mut i: usize = 0;
    assert(views.skip(0) =~= views);
    while i < paths.len()
        invariant
            i <= paths@.len(),
            views == paths.deep_view(),
            first_executable(views, executables@) == first_executable(
                views.skip(i as int),
                executables@,
            ),
        decreases paths.len() - i,
    {
        assert(views.skip(i as int)[0] == paths@[i as int]@);
        if executables.contains(paths[i].as_str()) {
            return Some(paths[i].clone());
        }
        assert(views.skip(i as int).drop_first() =~= views.skip(i + 1));
        i += 1;
    }
    None
}

/// The path of a program; `executables` holds the paths at which programs are.
pub fn resolve(
    tool: &str,
    path_folders: &Vec<String>,
    usual_folders: &Vec<String>,
    executables: &TextSet,
) -> (r: Option<String>)
    ensures
        r is Some <==> tool_place(
            tool@,
            path_folders.deep_view(),
            usual_folders.deep_view(),
            executables@,
        ) is Some,
        r matches Some(path) ==> tool_place(
            tool@,
            path_folders.deep_view(),
            usual_folders.deep_view(),
            executables@,
        ) == Some(path@),
{
    let first = tool_candidates(tool, path_folders);
    match find_executable(&first, executables) {
        Some(path) => Some(path),
        None => {
            let second = tool_candidates(tool, usual_folders);
            find_executable(&second, executables)
        },
    }
}

/// `found` and the folder `folder`, unless it is there.
pub open spec fn with_location(found: Seq<LocationView>, folder: Seq<char>) -> Seq<LocationView> {
    if exists|i: int|
        0 <= i < found.len() && (#[trigger] found[i] matches LocationView::Directory(existing)
            && is_same_path(existing, folder)) {
        found
    } else {
        found.push(LocationView::Directory(folder))
    }
}

/// The places in which programs are looked for, each once: the search path, if it is set, and the
/// usual folders.
pub open spec fn locations(has_path: bool, usual_folders: Seq<Seq<char>>) -> Seq<LocationView>
    decreases usual_folders.len(),
{
    if usual_folders.len() == 0 {
        if has_path {
            seq![LocationView::Path]
        } else {
            seq![]
        }
    } else {
        with_location(locations(has_path, usual_folders.drop_last()), usual_folders.last())
    }
}

/// Appends a folder unless it is there.
fn push_unique_location(found: &mut Vec<SearchLocation>, folder: &str)
    ensures
        final(found).deep_view() == with_location(old(found).deep_view(), folder@),
{
    let ghost views = found.deep_view();
    let mut i: usize = 0;
    while i < found.len()
        invariant
            i <= found@.len(),
            views == found.deep_view(),
            *found == *old(found),
            forall|j: int|
                0 <= j < i ==> !(#[trigger] views[j] matches LocationView::Directory(existing)
                    && is_same_path(existing, folder@)),
        decreases found.len() - i,
    {
        assert(views[i as int] == found@[i as int].deep_view());
        let same = match &found[i] {
            SearchLocation::Directory(existing) => same_path(existing.as_str(), folder),
            SearchLocation::Path => false,
        };
        if same {
            return ;
        }
        i += 1;
    }
    found.push(SearchLocation::Directory(folder.to_owned()));
    assert(found.deep_view() =~= views.push(LocationView::Directory(folder@)));
}

/// The places in which programs are looked for.
pub fn display_search_locations(has_path: bool, usual_folders: &Vec<String>) -> (r: Vec<
    SearchLocation,
>)
    ensures
        r.deep_view() == locations(has_path, usual_folders.deep_view()),
{
    let ghost views = usual_folders.deep_view();
    let mut found: Vec<SearchLocation> = Vec::new();
    if has_path {
        found.push(SearchLocation::Path);
    }
    let mut i: usize = 0;
    assert(found.deep_view() =~= locations(has_path, views.take(0)));
    while i < usual_folders.len()
        invariant
            i <= usual_folders@.len(),
            views == usual_folders.deep_view(),
            found.deep_view() == locations(has_path, views.take(i as int)),
        decreases usual_folders.len() - i,
    {
        proof {
            assert(views[i as int] == usual_folders@[i as int]@);
            assert(views.take(i + 1).drop_last() =~= views.take(i as int));
            assert(views.take(i + 1).last() == views[i as int]);
        }
        push_unique_location(&mut found, usual_folders[i].as_str());
        i += 1;
    }
    assert(views.take(i as int) =~= views);
    found
}

/// The programs that are needed and not among `available`, in their order.
pub open spec fn missing_names(available: Set<Seq<char>>) -> Seq<Seq<char>> {
    required_tools().filter(|tool: Seq<char>| !available.contains(tool))
}

/// The programs that are needed and not among `available`, with the places in which they were
/// looked for.
pub fn missing_required_tools(
    available: &TextSet,
    has_path: bool,
    usual_folders: &Vec<String>,
) -> (r: Vec<MissingTool>)
    ensures
        r@.len() == missing_names(available@).len(),
        forall|i: int|
            0 <= i < r@.len() ==> (#[trigger] r@[i]).name@ == missing_names(available@)[i],
        forall|i: int|
            0 <= i < r@.len() ==> (#[trigger] r@[i]).search_locations.deep_view() == locations(
                has_path,
                usual_folders.deep_view(),
            ),
{
    let tools: [&'static str; 3] = ["ffmpeg", "ffprobe", "yt-dlp"];
    let ghost needed = required_tools();
    let ghost p = |tool: Seq<char>| !available@.contains(tool);
    let mut missing: Vec<MissingTool> = Vec::new();
    let mut i: usize = 0;
    proof {
        reveal(Seq::filter);
        assert(needed.take(0) =~= seq![]);
    }
    while i < 3
        invariant
            i <= 3,
            needed == required_tools(),
            tools@.len() == 3,
            forall|j: int| 0 <= j < 3 ==> (#[trigger] tools@[j])@ == needed[j],
            p == (|tool: Seq<char>| !available@.contains(tool)),
            missing@.len() == needed.take(i as int).filter(p).len(),
            forall|j: int|
                0 <= j < missing@.len() ==> (#[trigger] missing@[j]).name@ == needed.take(
                    i as int,
                ).filter(p)[j],
            forall|j: int|
                0 <= j < missing@.len() ==> (#[trigger] missing@[j]).search_locations.deep_view()
                    == locations(has_path, usual_folders.deep_view()),
        decreases 3 - i,
    {
        proof {
            reveal(Seq::filter);
            assert(needed.take(i + 1).drop_last() =~= needed.take(i as int));
            assert(needed.take(i + 1).last() == needed[i as int]);
        }
        let name: &'static str = tools[i];
        if !available.contains(name) {
            missing.push(
                MissingTool {
                    name,
                    search_locations: display_search_locations(has_path, usual_folders),
                },
            );
        }
        i += 1;
    }
    assert(needed.take(3) =~= needed);
    missing
}

/// The argument with which a program tells its version.
pub fn version_arg(tool: &str) -> (r: &'static str)
    ensures
        r@ == if tool@ == "yt-dlp"@ {
            "--version"@
        } else {
            "-version"@
        },
{
    if same_text(tool, "yt-dlp") {
        "--version"
    } else {
        "-version"
    }
}

/// A program that is found on the search path is taken from there, wherever else it may be.
pub proof fn lemma_search_path_comes_first(
    tool: Seq<char>,
    path_folders: Seq<Seq<char>>,
    usual_folders: Seq<Seq<char>>,
    executables: Set<Seq<char>>,
)
    requires
        first_executable(tool_paths(tool, path_folders), executables) is Some,
    ensures
        tool_place(tool, path_folders, usual_folders, executables) == first_executable(
            tool_paths(tool, path_folders),
            executables,
        ),
        executables.contains(tool_place(tool, path_folders, usual_folders, executables).unwrap()),
{
    lemma_first_executable(tool_paths(tool, path_folders), executables);
}

proof fn lemma_first_executable(paths: Seq<Seq<char>>, executables: Set<Seq<char>>)
    ensures
        first_executable(paths, executables) matches Some(path) ==> executables.contains(path),
    decreases paths.len(),
{
    if paths.len() > 0 {
        lemma_first_executable(paths.drop_first(), executables);
    }
}

/// The folders in which programs usually are: on macOS those of package managers and of the system.
pub open spec fn usual_folders(on_macos: bool) -> Seq<Seq<char>> {
    if on_macos {
        seq!["/opt/homebrew/bin"@, "/usr/local/bin"@, "/usr/bin"@, "/bin"@]
    } else {
        seq![]
    }
}

/// The folders in which programs usually are.
pub fn common_tool_dirs(on_macos: bool) -> (r: Vec<String>)
    ensures
        r.deep_view() == usual_folders(on_macos),
{
    let folders: Vec<String> = if on_macos {
        vec![
            "/opt/homebrew/bin".to_owned(),
            "/usr/local/bin".to_owned(),
            "/usr/bin".to_owned(),
            "/bin".to_owned(),
        ]
    } else {
        Vec::new()
    };
    assert(folders.deep_view() =~= usual_folders(on_macos));
    folders
}

/// A program is taken from the first folder that has it, the folders of the search path before the
/// usual ones; it is not found exactly where none has it.
pub proof fn lemma_first_folder_counts(
    tool: Seq<char>,
    path_folders: Seq<Seq<char>>,
    usual_folders: Seq<Seq<char>>,
    executables: Set<Seq<char>>,
    i: int,
)
    requires
        ({
            let folders = path_folders + usual_folders;
            &&& 0 <= i <= folders.len()
            &&& forall|j: int|
                0 <= j < i ==> !executables.contains(joined(#[trigger] folders[j], tool))
            &&& i < folders.len() ==> executables.contains(joined(folders[i], tool))
        }),
    ensures
        tool_place(tool, path_folders, usual_folders, executables) == if i < path_folders.len()
            + usual_folders.len() {
            Some(joined((path_folders + usual_folders)[i], tool))
        } else {
            None
        },
{
    let folders = path_folders + usual_folders;
    let n = path_folders.len() as int;
    let near = tool_paths(tool, path_folders);
    let far = tool_paths(tool, usual_folders);
    assert forall|j: int| 0 <= j < near.len() && j < i implies !executables.contains(
        #[trigger] near[j],
    ) by {
        assert(folders[j] == path_folders[j]);
    }
    if i < n {
        assert(folders[i] == path_folders[i]);
        lemma_first_of_paths(near, executables, i);
    } else {
        lemma_first_of_paths(near, executables, n);
        assert forall|j: int| 0 <= j < i - n implies !executables.contains(#[trigger] far[j]) by {
            assert(folders[n + j] == usual_folders[j]);
        }
        if i < folders.len() {
            assert(folders[i] == usual_folders[i - n]);
        }
        lemma_first_of_paths(far, executables, i - n);
    }
}

proof fn lemma_first_of_paths(paths: Seq<Seq<char>>, executables: Set<Seq<char>>, i: int)
    requires
        0 <= i <= paths.len(),
        forall|j: int| 0 <= j < i ==> !executables.contains(#[trigger] paths[j]),
        i < paths.len() ==> executables.contains(paths[i]),
    ensures
        first_executable(paths, executables) == if i < paths.len() {
            Some(paths[i])
        } else {
            None
        },
    decreases paths.len(),
{
    if i > 0 {
        let rest = paths.drop_first();
        assert(!executables.contains(paths[0]));
        assert forall|j: int| 0 <= j < i - 1 implies !executables.contains(#[trigger] rest[j]) by {
            assert(rest[j] == paths[j + 1]);
        }
        if i < paths.len() {
            assert(rest[i - 1] == paths[i]);
        }
        lemma_first_of_paths(rest, executables, i - 1);
    }
}

/// Users are told of exactly the needed programs that are not there.
pub proof fn lemma_missing_programs(available: Set<Seq<char>>, tool: Seq<char>)
    ensures
        missing_names(available).contains(tool) <==> !available.contains(tool) && (tool
            == "ffmpeg"@ || tool == "ffprobe"@ || tool == "yt-dlp"@),
{
    let p = |tool: Seq<char>| !available.contains(tool);
    let needed = required_tools();
    lemma_filter_contains(needed, p, tool);
    assert(needed[0] == "ffmpeg"@ && needed[1] == "ffprobe"@ && needed[2] == "yt-dlp"@);
    assert(needed.contains(needed[0]) && needed.contains(needed[1]) && needed.contains(needed[2]));
}

/// The places in which programs are looked for: the search path in front, if there is one, and each
/// usual folder, none twice.
pub proof fn lemma_search_locations(
    has_path: bool,
    usual_folders: Seq<Seq<char>>,
    n: int,
    a: int,
    b: int,
)
    ensures
        ({
            let found = locations(has_path, usual_folders);
            &&& has_path ==> found.len() > 0 && found[0] == LocationView::Path
            &&& forall|i: int|
                0 <= i < found.len() && (#[trigger] found[i]) == LocationView::Path ==> has_path && i
                    == 0
            &&& 0 <= n < usual_folders.len() ==> exists|i: int|
                0 <= i < found.len() && (#[trigger] found[i] matches LocationView::Directory(folder)
                    && is_same_path(folder, usual_folders[n]))
            &&& 0 <= a < b < found.len() && found[a] is Directory && found[b] is Directory
                ==> !is_same_path(found[a]->Directory_0, found[b]->Directory_0)
        }),
    decreases usual_folders.len(),
{
    if usual_folders.len() > 0 {
        let front = usual_folders.drop_last();
        let folder = usual_folders.last();
        let before = locations(has_path, front);
        let found = locations(has_path, usual_folders);
        lemma_search_locations(has_path, front, n, a, b);
        if 0 <= n < front.len() {
            let i = choose|i: int|
                0 <= i < before.len() && (#[trigger] before[i] matches LocationView::Directory(
                    folder,
                ) && is_same_path(folder, front[n]));
            assert(found[i] == before[i]);
        } else if n == front.len() {
            if found.len() > before.len() {
                assert(found[before.len() as int] == LocationView::Directory(folder));
            }
        }
        if 0 <= a < b < found.len() && b == before.len() {
            assert(found[a] == before[a]);
        }
    }
}

} // verus!
