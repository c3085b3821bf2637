//! The session state machine: the screens of one interactive session, the
//! mutable session state, and the transition function that consumes one
//! input key at a time.
//!
//! All input/output stays outside this module: [`App::handle_key`] is pure
//! and hands every side effect back to its caller as a [`Command`]. The
//! caller performs the effect (loading or saving the persisted catalog,
//! ending the session) and, for a load, reports the outcome back through
//! [`App::load`]. A successful checkout asks for an immediate save, so a
//! session that ends abnormally cannot lose that mutation.

use vstd::prelude::*;

use crate::library::{
    demo_books, spec_checkout_books, spec_checkout_result, spec_search, Book, BookView,
    CheckoutError, Config, Library, LibrarySearchCriteria, LibraryView,
};
use crate::text::{pop_char, push_char};

verus! {

/// The interaction mode the session is in.
#[derive(Debug, Clone, Copy, PartialEq, Eq, Structural)]
pub enum CurrentScreen {
    Loading,
    Home,
    NewOwner,
    Searching,
    CheckingOut,
    CheckedOutResult,
    Exiting,
}

/// One keystroke, reduced to what the state machine distinguishes.
#[derive(Debug, Clone, Copy, PartialEq, Eq, Structural)]
pub enum Key {
    Char(char),
    Enter,
    Backspace,
    Esc,
    Tab,
}

/// The side effect a transition asks its caller to perform.
#[derive(Debug, Clone, Copy, PartialEq, Eq, Structural)]
pub enum Command {
    /// Nothing to do; keep feeding keys.
    Continue,
    /// End the session.
    Quit,
    /// Load the persisted catalog and report the outcome via [`App::load`].
    LoadCatalog,
    /// Persist the current catalog.
    SaveCatalog,
}

/// Mathematical model of an [`App`]: every field as a plain value.
pub struct AppView {
    pub loaded: bool,
    pub current_screen: CurrentScreen,
    pub library: Option<LibraryView>,
    pub library_path: Seq<char>,
    pub entering_owner: bool,
    pub owner_input: Seq<char>,
    pub searching_criteria: LibrarySearchCriteria,
    pub searching_input: Seq<char>,
    pub term_input_mode: bool,
    pub selected_book: Option<BookView>,
    pub checkout_success: Option<Result<(), CheckoutError>>,
    pub error_message: Option<Seq<char>>,
}

/// The session state one terminal session carries.
#[derive(Debug)]
pub struct App {
    pub loaded: bool,
    pub current_screen: CurrentScreen,
    pub library: Option<Library>,
    pub config: Config,
    pub entering_owner: bool,
    pub owner_input: String,
    pub searching_criteria: LibrarySearchCriteria,
    pub searching_input: String,
    pub term_input_mode: bool,
    pub selected_book: Option<Book>,
    pub checkout_success: Option<Result<(), CheckoutError>>,
    pub error_message: Option<String>,
}

impl View for App {
    type V = AppView;

    open spec fn view(&self) -> AppView {
        AppView {
            loaded: self.loaded,
            current_screen: self.current_screen,
            library: match self.library {
                Some(l) => Some(l@),
                None => None,
            },
            library_path: self.config.library_path@,
            entering_owner: self.entering_owner,
            owner_input: self.owner_input@,
            searching_criteria: self.searching_criteria,
            searching_input: self.searching_input@,
            term_input_mode: self.term_input_mode,
            selected_book: match self.selected_book {
                Some(b) => Some(b@),
                None => None,
            },
            checkout_success: self.checkout_success,
            error_message: match self.error_message {
                Some(m) => Some(m@),
                None => None,
            },
        }
    }
}

/// The states in which a session necessarily carries a loaded catalog, and
/// in which a selected book is necessarily present: entered only with them,
/// by construction.
pub open spec fn wf(a: AppView) -> bool {
    &&& (a.loaded <==> a.library is Some)
    &&& match a.current_screen {
        CurrentScreen::Loading => true,
        CurrentScreen::NewOwner => true,
        CurrentScreen::CheckingOut => a.library is Some && a.selected_book is Some,
        _ => a.library is Some,
    }
}

/// The full transition table: what one keystroke does to the session state
/// and which side effect it asks for. Keys a screen does not list leave the
/// state untouched.
pub open spec fn spec_step(pre: AppView, key: Key) -> (AppView, Command) {
    match pre.current_screen {
        CurrentScreen::Loading => match key {
            Key::Esc => (pre, Command::Quit),
            Key::Enter => (pre, Command::LoadCatalog),
            _ => (pre, Command::Continue),
        },
        CurrentScreen::NewOwner => match key {
            Key::Char(c) => (
                AppView { owner_input: pre.owner_input.push(c), ..pre },
                Command::Continue,
            ),
            Key::Backspace => (
                AppView {
                    owner_input: if pre.owner_input.len() == 0 {
                        pre.owner_input
                    } else {
                        pre.owner_input.drop_last()
                    },
                    ..pre
                },
                Command::Continue,
            ),
            Key::Enter => (
                AppView {
                    library: Some(LibraryView { books: demo_books(), owner: pre.owner_input }),
                    loaded: true,
                    current_screen: CurrentScreen::Home,
                    ..pre
                },
                Command::SaveCatalog,
            ),
            _ => (pre, Command::Continue),
        },
        CurrentScreen::Home => match key {
            Key::Char(c) => if c == 'q' {
                (AppView { current_screen: CurrentScreen::Exiting, ..pre }, Command::Continue)
            } else if c == 's' {
                (
                    AppView {
                        current_screen: CurrentScreen::Searching,
                        term_input_mode: true,
                        searching_input: Seq::empty(),
                        ..pre
                    },
                    Command::Continue,
                )
            } else {
                (pre, Command::Continue)
            },
            _ => (pre, Command::Continue),
        },
        CurrentScreen::Searching => match key {
            Key::Tab => (
                AppView { term_input_mode: !pre.term_input_mode, ..pre },
                Command::Continue,
            ),
            Key::Char(c) => if pre.term_input_mode {
                (
                    AppView { searching_input: pre.searching_input.push(c), ..pre },
                    Command::Continue,
                )
            } else if c == 't' {
                (
                    AppView { searching_criteria: LibrarySearchCriteria::Title, ..pre },
                    Command::Continue,
                )
            } else if c == 'a' {
                (
                    AppView { searching_criteria: LibrarySearchCriteria::Author, ..pre },
                    Command::Continue,
                )
            } else if c == 'i' {
                (
                    AppView { searching_criteria: LibrarySearchCriteria::ISBN, ..pre },
                    Command::Continue,
                )
            } else if c == 'q' {
                (AppView { current_screen: CurrentScreen::Exiting, ..pre }, Command::Continue)
            } else {
                (pre, Command::Continue)
            },
            Key::Backspace => (
                AppView {
                    searching_input: if pre.searching_input.len() == 0 {
                        pre.searching_input
                    } else {
                        pre.searching_input.drop_last()
                    },
                    ..pre
                },
                Command::Continue,
            ),
            Key::Enter => if pre.searching_input.len() == 0 {
                (pre, Command::Continue)
            } else {
                match spec_search(
                    pre.library->Some_0.books,
                    pre.searching_criteria,
                    pre.searching_input,
                ) {
                    Some(b) => (
                        AppView {
                            selected_book: Some(b),
                            current_screen: CurrentScreen::CheckingOut,
                            ..pre
                        },
                        Command::Continue,
                    ),
                    None => (AppView { selected_book: None, ..pre }, Command::Continue),
                }
            },
            _ => (pre, Command::Continue),
        },
        CurrentScreen::CheckingOut => match key {
            Key::Enter => {
                let lib = pre.library->Some_0;
                let isbn = pre.selected_book->Some_0.isbn;
                let outcome = spec_checkout_result(lib.books, isbn);
                (
                    AppView {
                        library: Some(
                            LibraryView { books: spec_checkout_books(lib.books, isbn), ..lib },
                        ),
                        checkout_success: Some(outcome),
                        current_screen: CurrentScreen::CheckedOutResult,
                        ..pre
                    },
                    if outcome is Ok {
                        Command::SaveCatalog
                    } else {
                        Command::Continue
                    },
                )
            },
            Key::Char(c) => if c == 'q' {
                (AppView { current_screen: CurrentScreen::Exiting, ..pre }, Command::Continue)
            } else if c == 'b' {
                (AppView { current_screen: CurrentScreen::Home, ..pre }, Command::Continue)
            } else {
                (pre, Command::Continue)
            },
            _ => (pre, Command::Continue),
        },
        CurrentScreen::CheckedOutResult => match key {
            Key::Enter => (
                AppView { current_screen: CurrentScreen::Home, ..pre },
                Command::Continue,
            ),
            _ => (pre, Command::Continue),
        },
        CurrentScreen::Exiting => match key {
            Key::Char(c) => if c == 'y' {
                (pre, Command::Quit)
            } else if c == 'n' {
                (AppView { current_screen: CurrentScreen::Home, ..pre }, Command::Continue)
            } else {
                (pre, Command::Continue)
            },
            _ => (pre, Command::Continue),
        },
    }
}

impl App {
    /// A fresh session: about to load, nothing entered, nothing selected.
    pub fn new() -> (a: App)
        ensures
            a@ == (AppView {
                loaded: false,
                current_screen: CurrentScreen::Loading,
                library: None,
                library_path: "library.json"@,
                entering_owner: false,
                owner_input: Seq::empty(),
                searching_criteria: LibrarySearchCriteria::Title,
                searching_input: Seq::empty(),
                term_input_mode: false,
                selected_book: None,
                checkout_success: None,
                error_message: None,
            }),
            wf(a@),
    {
        let config = Config::new("library.json");
        App {
            loaded: false,
            current_screen: CurrentScreen::Loading,
            library: None,
            entering_owner: false,
            owner_input: String::new(),
            config,
            searching_criteria: LibrarySearchCriteria::Title,
            searching_input: String::new(),
            term_input_mode: false,
            checkout_success: None,
            error_message: None,
            selected_book: None,
        }
    }

    /// Record the outcome of the startup load: a catalog routes the session
    /// home, a missing one routes it to first-run setup.
    pub fn load(&mut self, lib: Option<Library>)
        requires
            old(self)@.current_screen == CurrentScreen::Loading,
            old(self)@.library is None,
            !old(self)@.loaded,
        ensures
            final(self)@ == match lib {
                Some(l) => AppView {
                    library: Some(l@),
                    loaded: true,
                    current_screen: CurrentScreen::Home,
                    ..old(self)@
                },
                None => AppView {
                    library: None,
                    entering_owner: true,
                    current_screen: CurrentScreen::NewOwner,
                    ..old(self)@
                },
            },
            wf(final(self)@),
    {
        match lib {
            Some(l) => {
                self.library = Some(l);
                self.loaded = true;
                self.current_screen = CurrentScreen::Home;
            },
            None => {
                self.library = None;
                self.entering_owner = true;
                self.current_screen = CurrentScreen::NewOwner;
            },
        }
    }

    /// Run the active search and record its result as the selected book; an
    /// empty query is rejected before it reaches the catalog.
    pub fn apply_search(&mut self)
        requires
            old(self)@.library is Some,
        ensures
            old(self)@.searching_input.len() == 0 ==> *final(self) == *old(self),
            old(self)@.searching_input.len() > 0 ==> final(self)@ == (AppView {
                selected_book: spec_search(
                    old(self)@.library->Some_0.books,
                    old(self)@.searching_criteria,
                    old(self)@.searching_input,
                ),
                ..old(self)@
            }),
    {
        if self.searching_input.as_str().is_empty() {
            return ;
        }
        let found = match &self.library {
            Some(l) => l.search_by(&self.searching_criteria, self.searching_input.as_str()),
            None => None,
        };
        self.selected_book = match found {
            Some(book) => Some(book.clone()),
            None => None,
        };
    }

    /// Check the selected book out of the catalog and record the outcome.
    pub fn check_out(&mut self)
        requires
            old(self)@.library is Some,
            old(self)@.selected_book is Some,
        ensures
            final(self)@ == (AppView {
                library: Some(
                    LibraryView {
                        books: spec_checkout_books(
                            old(self)@.library->Some_0.books,
                            old(self)@.selected_book->Some_0.isbn,
                        ),
                        ..old(self)@.library->Some_0
                    },
                ),
                checkout_success: Some(
                    spec_checkout_result(
                        old(self)@.library->Some_0.books,
                        old(self)@.selected_book->Some_0.isbn,
                    ),
                ),
                ..old(self)@
            }),
    {
        let isbn = match &self.selected_book {
            Some(b) => b.get_isbn().clone(),
            None => String::new(),
        };
        let outcome = match self.library.as_mut() {
            Some(l) => l.check_out(isbn.as_str()),
            None => Err(CheckoutError::NotFound),
        };
        self.checkout_success = Some(outcome);
    }

    /// Seed the demo catalog under the entered owner name and mark the
    /// session loaded. The caller persists the new catalog.
    pub fn initialize_demo(&mut self)
        ensures
            final(self)@ == (AppView {
                library: Some(
                    LibraryView { books: demo_books(), owner: old(self)@.owner_input },
                ),
                loaded: true,
                ..old(self)@
            }),
    {
        self.library = Some(Library::initialize_demo(self.owner_input.as_str()));
        self.loaded = true;
    }

    /// Feed one keystroke to the state machine. The returned [`Command`]
    /// names the side effect the caller owes; the state change is exactly
    /// [`spec_step`].
    pub fn handle_key(&mut self, key: Key) -> (cmd: Command)
        requires
            wf(old(self)@),
        ensures
            (final(self)@, cmd) == spec_step(old(self)@, key),
            wf(final(self)@),
    {
        match self.current_screen {
            CurrentScreen::Loading => match key {
                Key::Esc => Command::Quit,
                Key::Enter => Command::LoadCatalog,
                _ => Command::Continue,
            },
            CurrentScreen::NewOwner => match key {
                Key::Char(c) => {
                    push_char(&mut self.owner_input, c);
                    Command::Continue
                },
                Key::Backspace => {
                    let popped = pop_char(&mut self.owner_input);
                    Command::Continue
                },
                Key::Enter => {
                    self.initialize_demo();
                    self.current_screen = CurrentScreen::Home;
                    Command::SaveCatalog
                },
                _ => Command::Continue,
            },
            CurrentScreen::Home => match key {
                Key::Char(c) => {
                    if c == 'q' {
                        self.current_screen = CurrentScreen::Exiting;
                    } else if c == 's' {
                        self.current_screen = CurrentScreen::Searching;
                        self.term_input_mode = true;
                        self.searching_input = String::new();
                    }
                    Command::Continue
                },
                _ => Command::Continue,
            },
            CurrentScreen::Searching => match key {
                Key::Tab => {
                    self.term_input_mode = !self.term_input_mode;
                    Command::Continue
                },
                Key::Char(c) => {
                    if self.term_input_mode {
                        push_char(&mut self.searching_input, c);
                    } else if c == 't' {
                        self.searching_criteria = LibrarySearchCriteria::Title;
                    } else if c == 'a' {
                        self.searching_criteria = LibrarySearchCriteria::Author;
                    } else if c == 'i' {
                        self.searching_criteria = LibrarySearchCriteria::ISBN;
                    } else if c == 'q' {
                        self.current_screen = CurrentScreen::Exiting;
                    }
                    Command::Continue
                },
                Key::Backspace => {
                    let popped = pop_char(&mut self.searching_input);
                    Command::Continue
                },
                Key::Enter => {
                    self.apply_search();
                    if self.selected_book.is_some() && !self.searching_input.as_str().is_empty() {
                        self.current_screen = CurrentScreen::CheckingOut;
                    }
                    Command::Continue
                },
                _ => Command::Continue,
            },
            CurrentScreen::CheckingOut => match key {
                Key::Enter => {
                    self.check_out();
                    self.current_screen = CurrentScreen::CheckedOutResult;
                    match self.checkout_success {
                        Some(Ok(())) => Command::SaveCatalog,
                        _ => Command::Continue,
                    }
                },
                Key::Char(c) => {
                    if c == 'q' {
                        self.current_screen = CurrentScreen::Exiting;
                    } else if c == 'b' {
                        self.current_screen = CurrentScreen::Home;
                    }
                    Command::Continue
                },
                _ => Command::Continue,
            },
            CurrentScreen::CheckedOutResult => match key {
                Key::Enter => {
                    self.current_screen = CurrentScreen::Home;
                    Command::Continue
                },
                _ => Command::Continue,
            },
            CurrentScreen::Exiting => match key {
                Key::Char(c) => {
                    if c == 'y' {
                        Command::Quit
                    } else if c == 'n' {
                        self.current_screen = CurrentScreen::Home;
                        Command::Continue
                    } else {
                        Command::Continue
                    }
                },
                _ => Command::Continue,
            },
        }
    }
}

/// Law: from the home screen, entering search mode and confirming at once
/// never reaches the checkout screen: the empty query is rejected and the
/// session stays in search mode.
pub proof fn lemma_empty_query_never_checks_out(a: AppView)
    requires
        wf(a),
        a.current_screen == CurrentScreen::Home,
    ensures
        ({
            let (mid, c1) = spec_step(a, Key::Char('s'));
            let (post, c2) = spec_step(mid, Key::Enter);
            post.current_screen == CurrentScreen::Searching && post.current_screen
                != CurrentScreen::CheckingOut && post.selected_book == mid.selected_book
        }),
{
}

} // verus!
