//! What a pressed key does.
use crate::text::{holds_text, same_text};
use vstd::prelude::*;

verus! {

broadcast use vstd::string::group_string_axioms;

/// The modifiers that are held.
#[derive(Debug, Clone, Copy, PartialEq, Eq, Structural)]
pub struct Modifiers {
    pub control: bool,
    pub alt: bool,
    pub shift: bool,
    pub platform: bool,
    pub function: bool,
}

impl Default for Modifiers {
    fn default() -> (r: Self)
        ensures
            r == (Modifiers {
                control: false,
                alt: false,
                shift: false,
                platform: false,
                function: false,
            }),
    {
        Modifiers { control: false, alt: false, shift: false, platform: false, function: false }
    }
}

/// A pressed key.
#[derive(Debug)]
pub struct Keystroke {
    pub modifiers: Modifiers,
    pub key: String,
}

/// The keys that never start a search.
pub open spec fn command_keys() -> Seq<Seq<char>> {
    seq![
        "enter"@,
        "escape"@,
        "space"@,
        "shift"@,
        "control"@,
        "ctrl"@,
        "alt"@,
        "cmd"@,
        "super"@,
        "win"@,
        "fn"@,
    ]
}

/// Whether a key starts a search: it types something, and is no shortcut.
pub open spec fn starts_search(keystroke: Keystroke) -> bool {
    let held = keystroke.modifiers;
    &&& !held.control && !held.alt && !held.platform && !held.function
    &&& !(held.shift && keystroke.key@ == "e"@)
    &&& !command_keys().contains(keystroke.key@)
}

/// Whether a key starts a search.
pub fn should_activate_search(keystroke: &Keystroke) -> (r: bool)
    ensures
        r == starts_search(*keystroke),
{
    let held = keystroke.modifiers;
    if held.control || held.alt || held.platform || held.function {
        return false;
    }
    if held.shift && same_text(keystroke.key.as_str(), "e") {
        return false;
    }
    let keys: Vec<String> = vec![
        "enter".to_owned(),
        "escape".to_owned(),
        "space".to_owned(),
        "shift".to_owned(),
        "control".to_owned(),
        "ctrl".to_owned(),
        "alt".to_owned(),
        "cmd".to_owned(),
        "super".to_owned(),
        "win".to_owned(),
        "fn".to_owned(),
    ];
    assert(keys.deep_view() =~= command_keys());
    !holds_text(&keys, keystroke.key.as_str())
}

/// What is open, pending or focused when a key is pressed.
#[derive(Debug, Clone, Copy, PartialEq, Eq, Structural)]
pub struct KeyContext {
    pub media_tool_problems: bool,
    pub folder_tag_modal: bool,
    pub folder_tag_key_menu: bool,
    pub folder_tag_selection: bool,
    pub rename: bool,
    pub delete: bool,
    pub tag_edit: bool,
    pub column_menu: bool,
    pub tag_group_menu: bool,
    pub file_drag: bool,
    pub search: bool,
    pub visible_selection: bool,
    pub selection: bool,
    pub hovered_preview: bool,
    pub selectable_rows: bool,
    pub downloader_open: bool,
    pub tag_editor_focused: bool,
    pub text_input_focused: bool,
}

/// What a pressed key does. All but `PassOn` keep others from handling the key.
#[derive(Debug, Clone, Copy, PartialEq, Eq, Structural)]
pub enum KeyAction {
    Swallow,
    PassOn,
    SelectAllFolderTagRows,
    CloseFolderTagKeyMenu,
    ClearFolderTagSelection,
    CloseFolderTagModal,
    CancelRename,
    CancelDelete,
    CancelTagEdit,
    CloseColumnMenu,
    CloseTagGroupMenu,
    CancelFileDrag,
    ClearSearch,
    ClearSelection,
    ConfirmRename,
    ConfirmDelete,
    PlayHoveredPreview,
    FocusSearch,
    SelectAllRows,
    PasteDownload,
    TypeIntoSearch,
}

/// What a key does while the dialog for folder tags is open.
pub open spec fn modal_action(keystroke: Keystroke, context: KeyContext) -> KeyAction {
    if keystroke.modifiers.platform && keystroke.key@ == "a"@ {
        KeyAction::SelectAllFolderTagRows
    } else if keystroke.key@ != "escape"@ {
        KeyAction::Swallow
    } else if context.folder_tag_key_menu {
        KeyAction::CloseFolderTagKeyMenu
    } else if context.folder_tag_selection {
        KeyAction::ClearFolderTagSelection
    } else {
        KeyAction::CloseFolderTagModal
    }
}

/// What the escape key does: it ends one thing, the innermost first.
pub open spec fn escape_action(context: KeyContext) -> KeyAction {
    if context.rename {
        KeyAction::CancelRename
    } else if context.delete {
        KeyAction::CancelDelete
    } else if context.tag_edit {
        KeyAction::CancelTagEdit
    } else if context.column_menu {
        KeyAction::CloseColumnMenu
    } else if context.tag_group_menu {
        KeyAction::CloseTagGroupMenu
    } else if context.file_drag {
        KeyAction::CancelFileDrag
    } else if context.search && !context.visible_selection {
        KeyAction::ClearSearch
    } else if context.selection {
        KeyAction::ClearSelection
    } else {
        KeyAction::Swallow
    }
}

/// What the enter key does.
pub open spec fn enter_action(context: KeyContext) -> KeyAction {
    if context.rename {
        KeyAction::ConfirmRename
    } else if context.delete {
        KeyAction::ConfirmDelete
    } else {
        KeyAction::PassOn
    }
}

/// What a key does that is neither escape nor enter.
pub open spec fn plain_action(keystroke: Keystroke, context: KeyContext) -> KeyAction {
    let command = keystroke.modifiers.platform;
    if command && keystroke.key@ == "space"@ && context.hovered_preview {
        KeyAction::PlayHoveredPreview
    } else if command && keystroke.key@ == "f"@ {
        KeyAction::FocusSearch
    } else if command && keystroke.key@ == "a"@ && !context.tag_editor_focused
        && context.selectable_rows {
        KeyAction::SelectAllRows
    } else if command && keystroke.key@ == "v"@ && context.downloader_open
        && !context.text_input_focused {
        KeyAction::PasteDownload
    } else if starts_search(keystroke) && !context.text_input_focused {
        KeyAction::TypeIntoSearch
    } else {
        KeyAction::PassOn
    }
}

/// What a pressed key does.
pub open spec fn action_of(keystroke: Keystroke, context: KeyContext) -> KeyAction {
    if context.media_tool_problems {
        KeyAction::Swallow
    } else if context.folder_tag_modal {
        modal_action(keystroke, context)
    } else if keystroke.key@ == "escape"@ {
        escape_action(context)
    } else if keystroke.key@ == "enter"@ {
        enter_action(context)
    } else {
        plain_action(keystroke, context)
    }
}

/// What a pressed key does.
pub fn handle_key_down(keystroke: &Keystroke, context: &KeyContext) -> (r: KeyAction)
    ensures
        r == action_of(*keystroke, *context),
{
    let key = keystroke.key.as_str();
    let command = keystroke.modifiers.platform;
    if context.media_tool_problems {
        return KeyAction::Swallow;
    }
    if context.folder_tag_modal {
        return if command && same_text(key, "a") {
            KeyAction::SelectAllFolderTagRows
        } else if !same_text(key, "escape") {
            KeyAction::Swallow
        } else if context.folder_tag_key_menu {
            KeyAction::CloseFolderTagKeyMenu
        } else if context.folder_tag_selection {
            KeyAction::ClearFolderTagSelection
        } else {
            KeyAction::CloseFolderTagModal
        };
    }
    if same_text(key, "escape") {
        return if context.rename {
            KeyAction::CancelRename
        } else if context.delete {
            KeyAction::CancelDelete
        } else if context.tag_edit {
            KeyAction::CancelTagEdit
        } else if context.column_menu {
            KeyAction::CloseColumnMenu
        } else if context.tag_group_menu {
            KeyAction::CloseTagGroupMenu
        } else if context.file_drag {
            KeyAction::CancelFileDrag
        } else if context.search && !context.visible_selection {
            KeyAction::ClearSearch
        } else if context.selection {
            KeyAction::ClearSelection
        } else {
            KeyAction::Swallow
        };
    }
    if same_text(key, "enter") {
        return if context.rename {
            KeyAction::ConfirmRename
        } else if context.delete {
            KeyAction::ConfirmDelete
        } else {
            KeyAction::PassOn
        };
    }
    if command && same_text(key, "space") && context.hovered_preview {
        KeyAction::PlayHoveredPreview
    } else if command && same_text(key, "f") {
        KeyAction::FocusSearch
    } else if command && same_text(key, "a") && !context.tag_editor_focused
        && context.selectable_rows {
        KeyAction::SelectAllRows
    } else if command && same_text(key, "v") && context.downloader_open
        && !context.text_input_focused {
        KeyAction::PasteDownload
    } else if should_activate_search(keystroke) && !context.text_input_focused {
        KeyAction::TypeIntoSearch
    } else {
        KeyAction::PassOn
    }
}

/// While programs are missing no key does anything.
pub proof fn lemma_no_keys_without_tools(keystroke: Keystroke, context: KeyContext)
    requires
        context.media_tool_problems,
    ensures
        action_of(keystroke, context) == KeyAction::Swallow,
{
}

/// A key is typed into the search only where no text is being edited and no command is given.
pub proof fn lemma_typing_is_no_command(keystroke: Keystroke, context: KeyContext)
    requires
        action_of(keystroke, context) == KeyAction::TypeIntoSearch,
    ensures
        !context.text_input_focused,
        !context.folder_tag_modal,
        starts_search(keystroke),
        !keystroke.modifiers.platform,
{
}

/// The escape key is never passed on.
pub proof fn lemma_escape_is_kept(keystroke: Keystroke, context: KeyContext)
    requires
        keystroke.key@ == "escape"@,
    ensures
        action_of(keystroke, context) != KeyAction::PassOn,
{
}

/// The escape key ends something that is open, pending or selected, and does nothing only where there
/// is nothing to end: what is being edited before menus, menus before a drag, and those before the
/// search and the selection.
pub proof fn lemma_escape_ends_something(keystroke: Keystroke, context: KeyContext)
    requires
        keystroke.key@ == "escape"@,
        !context.media_tool_problems,
        !context.folder_tag_modal,
    ensures
        ({
            let action = action_of(keystroke, context);
            let edited = context.rename || context.delete || context.tag_edit;
            let menu = context.column_menu || context.tag_group_menu;
            &&& action == KeyAction::CancelRename <==> context.rename
            &&& action == KeyAction::CancelDelete ==> context.delete
            &&& action == KeyAction::CancelTagEdit ==> context.tag_edit
            &&& action == KeyAction::CloseColumnMenu ==> context.column_menu && !edited
            &&& action == KeyAction::CloseTagGroupMenu ==> context.tag_group_menu && !edited
            &&& context.column_menu && !edited ==> action == KeyAction::CloseColumnMenu
            &&& action == KeyAction::CancelFileDrag <==> context.file_drag && !edited && !menu
            &&& action == KeyAction::ClearSearch ==> context.search && !context.visible_selection
                && !edited && !menu && !context.file_drag
            &&& action == KeyAction::ClearSelection ==> context.selection && !edited && !menu
                && !context.file_drag
            &&& context.search && !context.visible_selection && !edited && !menu
                && !context.file_drag ==> action == KeyAction::ClearSearch
            &&& action == KeyAction::Swallow <==> !edited && !menu && !context.file_drag
                && !context.selection && !(context.search && !context.visible_selection)
            &&& action == KeyAction::CancelRename || action == KeyAction::CancelDelete || action
                == KeyAction::CancelTagEdit || action == KeyAction::CloseColumnMenu || action
                == KeyAction::CloseTagGroupMenu || action == KeyAction::CancelFileDrag || action
                == KeyAction::ClearSearch || action == KeyAction::ClearSelection || action
                == KeyAction::Swallow
            &&& context.delete && !context.rename ==> action == KeyAction::CancelDelete
            &&& context.tag_edit && !context.rename && !context.delete ==> action
                == KeyAction::CancelTagEdit
        }),
{
}

/// In the dialog for folder tags the escape key closes its menu, clears its selection or closes the
/// dialog, in that order; no other key does anything there but the one that selects all rows.
pub proof fn lemma_dialog_keeps_keys(keystroke: Keystroke, context: KeyContext)
    requires
        context.folder_tag_modal,
        !context.media_tool_problems,
    ensures
        ({
            let action = action_of(keystroke, context);
            let escape = keystroke.key@ == "escape"@;
            &&& escape && context.folder_tag_key_menu ==> action
                == KeyAction::CloseFolderTagKeyMenu
            &&& escape && !context.folder_tag_key_menu && context.folder_tag_selection ==> action
                == KeyAction::ClearFolderTagSelection
            &&& escape && !context.folder_tag_key_menu && !context.folder_tag_selection ==> action
                == KeyAction::CloseFolderTagModal
            &&& !escape ==> action == if keystroke.modifiers.platform && keystroke.key@ == "a"@ {
                KeyAction::SelectAllFolderTagRows
            } else {
                KeyAction::Swallow
            }
        }),
{
    reveal_strlit("escape");
    reveal_strlit("a");
    assert("escape"@.len() == 6 && "a"@.len() == 1);
}

/// The enter key confirms what is pending, and the commands do what they stand for where they can;
/// a key that types something goes into the search where no text is edited.
pub proof fn lemma_commands(keystroke: Keystroke, context: KeyContext)
    requires
        !context.media_tool_problems,
        !context.folder_tag_modal,
    ensures
        ({
            let action = action_of(keystroke, context);
            let key = keystroke.key@;
            let command = keystroke.modifiers.platform;
            &&& key == "enter"@ && context.rename ==> action == KeyAction::ConfirmRename
            &&& key == "enter"@ && !context.rename && context.delete ==> action
                == KeyAction::ConfirmDelete
            &&& key == "enter"@ && !context.rename && !context.delete ==> action
                == KeyAction::PassOn
            &&& command && key == "f"@ ==> action == KeyAction::FocusSearch
            &&& command && key == "space"@ && context.hovered_preview ==> action
                == KeyAction::PlayHoveredPreview
            &&& command && key == "a"@ && context.selectable_rows && !context.tag_editor_focused
                ==> action == KeyAction::SelectAllRows
            &&& command && key == "v"@ && context.downloader_open && !context.text_input_focused
                ==> action == KeyAction::PasteDownload
            &&& action == KeyAction::ConfirmRename ==> context.rename
            &&& action == KeyAction::ConfirmDelete ==> context.delete
            &&& action == KeyAction::SelectAllRows ==> command && context.selectable_rows
                && !context.tag_editor_focused
            &&& action == KeyAction::PasteDownload ==> command && context.downloader_open
                && !context.text_input_focused
            &&& action == KeyAction::PlayHoveredPreview ==> command && context.hovered_preview
            &&& keystroke.modifiers == (Modifiers {
                control: false,
                alt: false,
                shift: false,
                platform: false,
                function: false,
            }) && key.len() == 1 && !context.text_input_focused ==> action
                == KeyAction::TypeIntoSearch
        }),
{
    reveal_strlit("enter");
    reveal_strlit("escape");
    reveal_strlit("space");
    reveal_strlit("shift");
    reveal_strlit("control");
    reveal_strlit("ctrl");
    reveal_strlit("alt");
    reveal_strlit("cmd");
    reveal_strlit("super");
    reveal_strlit("win");
    reveal_strlit("fn");
    reveal_strlit("a");
    reveal_strlit("f");
    reveal_strlit("v");
    assert("a"@[0] != "f"@[0] && "a"@[0] != "v"@[0] && "f"@[0] != "v"@[0]);
    assert("escape"@.len() == 6 && "enter"@.len() == 5 && "space"@.len() == 5);
    assert("space"@[0] != "enter"@[0]);
    assert(forall|i: int|
        0 <= i < command_keys().len() ==> (#[trigger] command_keys()[i]).len() >= 2);
}

} // verus!
