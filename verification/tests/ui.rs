use lowcat::ui::{
    handle_key_down, should_activate_search, KeyAction, KeyContext, Keystroke, Modifiers,
};

fn press(key: &str) -> Keystroke {
    Keystroke { modifiers: Modifiers::default(), key: key.to_string() }
}

fn command(key: &str) -> Keystroke {
    Keystroke {
        modifiers: Modifiers { platform: true, ..Modifiers::default() },
        key: key.to_string(),
    }
}

fn idle() -> KeyContext {
    KeyContext {
        media_tool_problems: false,
        folder_tag_modal: false,
        folder_tag_key_menu: false,
        folder_tag_selection: false,
        rename: false,
        delete: false,
        tag_edit: false,
        column_menu: false,
        tag_group_menu: false,
        file_drag: false,
        search: false,
        visible_selection: false,
        selection: false,
        hovered_preview: false,
        selectable_rows: false,
        downloader_open: false,
        tag_editor_focused: false,
        text_input_focused: false,
    }
}

#[test]
fn space_is_left_for_focused_search_input() {
    assert!(!should_activate_search(&press("space")));
}

#[test]
fn letters_start_a_search_and_shortcuts_do_not() {
    assert!(should_activate_search(&press("k")));
    assert!(!should_activate_search(&command("k")));
    let mut shifted = press("e");
    shifted.modifiers.shift = true;
    assert!(!should_activate_search(&shifted));
    shifted.key = "f".to_string();
    assert!(should_activate_search(&shifted));
    assert_eq!(handle_key_down(&press("k"), &idle()), KeyAction::TypeIntoSearch);
    let typing = KeyContext { text_input_focused: true, ..idle() };
    assert_eq!(handle_key_down(&press("k"), &typing), KeyAction::PassOn);
}

#[test]
fn escape_ends_the_innermost_thing_first() {
    let mut context = KeyContext {
        rename: true,
        delete: true,
        file_drag: true,
        search: true,
        selection: true,
        visible_selection: true,
        ..idle()
    };
    assert_eq!(handle_key_down(&press("escape"), &context), KeyAction::CancelRename);
    context.rename = false;
    assert_eq!(handle_key_down(&press("escape"), &context), KeyAction::CancelDelete);
    context.delete = false;
    assert_eq!(handle_key_down(&press("escape"), &context), KeyAction::CancelFileDrag);
    context.file_drag = false;
    assert_eq!(handle_key_down(&press("escape"), &context), KeyAction::ClearSelection);
    context.visible_selection = false;
    assert_eq!(handle_key_down(&press("escape"), &context), KeyAction::ClearSearch);
    assert_eq!(handle_key_down(&press("escape"), &idle()), KeyAction::Swallow);
}

#[test]
fn enter_confirms() {
    let rename = KeyContext { rename: true, delete: true, ..idle() };
    let delete = KeyContext { delete: true, ..idle() };
    assert_eq!(handle_key_down(&press("enter"), &rename), KeyAction::ConfirmRename);
    assert_eq!(handle_key_down(&press("enter"), &delete), KeyAction::ConfirmDelete);
    assert_eq!(handle_key_down(&press("enter"), &idle()), KeyAction::PassOn);
}

#[test]
fn commands_do_what_they_say() {
    let rows = KeyContext { selectable_rows: true, ..idle() };
    let downloader = KeyContext { downloader_open: true, ..idle() };
    let hovered = KeyContext { hovered_preview: true, ..idle() };
    assert_eq!(handle_key_down(&command("a"), &rows), KeyAction::SelectAllRows);
    assert_eq!(handle_key_down(&command("v"), &downloader), KeyAction::PasteDownload);
    assert_eq!(handle_key_down(&command("v"), &idle()), KeyAction::PassOn);
    assert_eq!(handle_key_down(&command("space"), &hovered), KeyAction::PlayHoveredPreview);
    assert_eq!(handle_key_down(&command("f"), &idle()), KeyAction::FocusSearch);
}

#[test]
fn dialogs_keep_the_keys() {
    let modal = KeyContext { folder_tag_modal: true, folder_tag_selection: true, ..idle() };
    assert_eq!(handle_key_down(&command("a"), &modal), KeyAction::SelectAllFolderTagRows);
    assert_eq!(handle_key_down(&press("escape"), &modal), KeyAction::ClearFolderTagSelection);
    assert_eq!(handle_key_down(&press("k"), &modal), KeyAction::Swallow);
    let broken = KeyContext { media_tool_problems: true, rename: true, ..idle() };
    assert_eq!(handle_key_down(&press("escape"), &broken), KeyAction::Swallow);
}
