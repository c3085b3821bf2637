use library_manager::app::{App, Command, CurrentScreen, Key};
use library_manager::library::{CheckoutError, Library, LibrarySearchCriteria};

fn type_text(app: &mut App, text: &str) {
    for c in text.chars() {
        let cmd = app.handle_key(Key::Char(c));
        assert_eq!(cmd, Command::Continue);
    }
}

fn loaded_app(owner: &str) -> App {
    let mut app = App::new();
    assert_eq!(app.handle_key(Key::Enter), Command::LoadCatalog);
    app.load(Some(Library::initialize_demo(owner)));
    assert!(matches!(app.current_screen, CurrentScreen::Home));
    app
}

#[test]
fn new_session_starts_on_the_loading_screen() {
    let app = App::new();
    assert!(matches!(app.current_screen, CurrentScreen::Loading));
    assert!(!app.loaded);
    assert!(app.library.is_none());
    assert!(app.selected_book.is_none());
    assert!(app.checkout_success.is_none());
    assert_eq!(app.config.library_path.as_str(), "library.json");
}

#[test]
fn cancel_during_loading_ends_the_session() {
    let mut app = App::new();
    assert_eq!(app.handle_key(Key::Esc), Command::Quit);
}

#[test]
fn successful_load_routes_home() {
    let mut app = App::new();
    assert_eq!(app.handle_key(Key::Enter), Command::LoadCatalog);
    app.load(Some(Library::initialize_demo("Ada")));
    assert!(matches!(app.current_screen, CurrentScreen::Home));
    assert!(app.loaded);
    assert!(app.library.is_some());
}

#[test]
fn first_launch_without_a_file_routes_to_new_owner_and_seeds_three_books() {
    let mut app = App::new();
    assert_eq!(app.handle_key(Key::Enter), Command::LoadCatalog);
    app.load(None);
    assert!(matches!(app.current_screen, CurrentScreen::NewOwner));
    assert!(!app.loaded);
    assert!(app.entering_owner);
    type_text(&mut app, "Ada");
    assert_eq!(app.owner_input.as_str(), "Ada");
    let cmd = app.handle_key(Key::Enter);
    assert_eq!(cmd, Command::SaveCatalog);
    assert!(matches!(app.current_screen, CurrentScreen::Home));
    assert!(app.loaded);
    let lib = app.library.as_ref().unwrap();
    assert_eq!(lib.get_owner().as_str(), "Ada");
    assert_eq!(lib.get_books().len(), 3);
}

#[test]
fn owner_input_honours_backspace() {
    let mut app = App::new();
    assert_eq!(app.handle_key(Key::Enter), Command::LoadCatalog);
    app.load(None);
    type_text(&mut app, "Adaa");
    assert_eq!(app.handle_key(Key::Backspace), Command::Continue);
    assert_eq!(app.owner_input.as_str(), "Ada");
    // Backspace on an empty buffer is a no-op.
    for _ in 0..5 {
        app.handle_key(Key::Backspace);
    }
    assert_eq!(app.owner_input.as_str(), "");
    app.handle_key(Key::Backspace);
    assert_eq!(app.owner_input.as_str(), "");
}

#[test]
fn search_key_clears_the_query_and_enters_text_mode() {
    let mut app = loaded_app("Ada");
    type_text(&mut app, "s");
    assert!(matches!(app.current_screen, CurrentScreen::Searching));
    assert!(app.term_input_mode);
    assert_eq!(app.searching_input.as_str(), "");
}

#[test]
fn empty_query_confirm_never_reaches_checkout() {
    let mut app = loaded_app("Ada");
    type_text(&mut app, "s");
    assert_eq!(app.handle_key(Key::Enter), Command::Continue);
    assert!(matches!(app.current_screen, CurrentScreen::Searching));
    assert!(app.selected_book.is_none());
}

#[test]
fn searching_isbn_for_an_absent_string_stays_searching_with_nothing_selected() {
    let mut app = loaded_app("Ada");
    type_text(&mut app, "s");
    // Leave text routing, pick the ISBN field, and come back.
    assert_eq!(app.handle_key(Key::Tab), Command::Continue);
    assert!(!app.term_input_mode);
    type_text(&mut app, "i");
    assert!(matches!(
        app.searching_criteria,
        LibrarySearchCriteria::ISBN
    ));
    assert_eq!(app.handle_key(Key::Tab), Command::Continue);
    type_text(&mut app, "1112223334445");
    app.handle_key(Key::Enter);
    assert!(matches!(app.current_screen, CurrentScreen::Searching));
    assert!(app.selected_book.is_none());
}

#[test]
fn field_shortcuts_only_work_outside_text_mode() {
    let mut app = loaded_app("Ada");
    type_text(&mut app, "s");
    // In text mode the shortcut letters go into the query.
    type_text(&mut app, "ta");
    assert_eq!(app.searching_input.as_str(), "ta");
    assert!(matches!(
        app.searching_criteria,
        LibrarySearchCriteria::Title
    ));
    app.handle_key(Key::Tab);
    type_text(&mut app, "a");
    assert!(matches!(
        app.searching_criteria,
        LibrarySearchCriteria::Author
    ));
    assert_eq!(app.searching_input.as_str(), "ta");
    type_text(&mut app, "t");
    assert!(matches!(
        app.searching_criteria,
        LibrarySearchCriteria::Title
    ));
    // Backspace edits the query.
    app.handle_key(Key::Backspace);
    assert_eq!(app.searching_input.as_str(), "t");
}

#[test]
fn gatsby_checkout_succeeds_once_then_reports_unavailable() {
    let mut app = loaded_app("Ada");
    // First pass: search the title and check the book out.
    type_text(&mut app, "s");
    type_text(&mut app, "gatsby");
    assert_eq!(app.handle_key(Key::Enter), Command::Continue);
    assert!(matches!(app.current_screen, CurrentScreen::CheckingOut));
    let selected = app.selected_book.as_ref().unwrap();
    assert_eq!(selected.get_isbn().as_str(), "9780743273565");
    let cmd = app.handle_key(Key::Enter);
    assert_eq!(cmd, Command::SaveCatalog);
    assert!(matches!(
        app.current_screen,
        CurrentScreen::CheckedOutResult
    ));
    assert_eq!(app.checkout_success, Some(Ok(())));
    assert_eq!(app.handle_key(Key::Enter), Command::Continue);
    assert!(matches!(app.current_screen, CurrentScreen::Home));
    // Second pass: the same sequence now reports the failure.
    type_text(&mut app, "s");
    type_text(&mut app, "gatsby");
    app.handle_key(Key::Enter);
    assert!(matches!(app.current_screen, CurrentScreen::CheckingOut));
    let cmd = app.handle_key(Key::Enter);
    assert_eq!(cmd, Command::Continue);
    assert_eq!(
        app.checkout_success,
        Some(Err(CheckoutError::AlreadyUnavailable))
    );
}

#[test]
fn checkout_screen_offers_back_and_quit() {
    let mut app = loaded_app("Ada");
    type_text(&mut app, "s");
    type_text(&mut app, "1984");
    app.handle_key(Key::Enter);
    assert!(matches!(app.current_screen, CurrentScreen::CheckingOut));
    type_text(&mut app, "b");
    assert!(matches!(app.current_screen, CurrentScreen::Home));
    type_text(&mut app, "s");
    type_text(&mut app, "1984");
    app.handle_key(Key::Enter);
    type_text(&mut app, "q");
    assert!(matches!(app.current_screen, CurrentScreen::Exiting));
}

#[test]
fn exit_flow_asks_for_confirmation() {
    let mut app = loaded_app("Ada");
    type_text(&mut app, "q");
    assert!(matches!(app.current_screen, CurrentScreen::Exiting));
    type_text(&mut app, "n");
    assert!(matches!(app.current_screen, CurrentScreen::Home));
    type_text(&mut app, "q");
    assert_eq!(app.handle_key(Key::Char('y')), Command::Quit);
}

#[test]
fn quit_shortcut_works_from_search_field_mode() {
    let mut app = loaded_app("Ada");
    type_text(&mut app, "s");
    app.handle_key(Key::Tab);
    type_text(&mut app, "q");
    assert!(matches!(app.current_screen, CurrentScreen::Exiting));
}

#[test]
fn unlisted_keys_are_no_ops() {
    let mut app = loaded_app("Ada");
    assert_eq!(app.handle_key(Key::Tab), Command::Continue);
    assert_eq!(app.handle_key(Key::Backspace), Command::Continue);
    assert_eq!(app.handle_key(Key::Char('x')), Command::Continue);
    assert!(matches!(app.current_screen, CurrentScreen::Home));
}

#[test]
fn apply_search_directly_records_the_result() {
    let mut app = loaded_app("Ada");
    type_text(&mut app, "s");
    type_text(&mut app, "mockingbird");
    app.apply_search();
    let hit = app.selected_book.as_ref().unwrap();
    assert_eq!(hit.get_isbn().as_str(), "9780061120084");
}
