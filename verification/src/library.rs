//! The book domain model: books, their genre and availability status, and
//! the catalog (`Library`) with search and checkout operations.

use vstd::prelude::*;
use vstd::string::StringExecFns;

use crate::text::{chars_eq, contains_chars, is_substring_of, lower_of, lowercase, str_to_chars};

verus! {

/// The closed set of genres a book can carry.
#[derive(Debug, Clone, Copy, PartialEq, Eq, Structural)]
pub enum Genre {
    Fiction,
    NonFiction,
    ScienceFiction,
    Mystery,
}

/// Availability of a book. The only transition the domain offers is
/// `Available` to `CheckedOut`; `Lost` is reachable only by editing the
/// persisted file by hand.
#[derive(Debug, Clone, Copy, PartialEq, Eq, Structural)]
pub enum Status {
    Available,
    CheckedOut,
    Lost,
}

/// Mathematical model of a [`Book`]: every field as a plain value.
pub struct BookView {
    pub title: Seq<char>,
    pub author: Seq<char>,
    pub isbn: Seq<char>,
    pub publication_year: u16,
    pub genre: Genre,
    pub status: Status,
}

/// One catalog entry.
#[derive(Debug)]
pub struct Book {
    pub title: String,
    pub author: String,
    pub isbn: String,
    pub publication_year: u16,
    pub genre: Genre,
    pub status: Status,
}

impl View for Book {
    type V = BookView;

    open spec fn view(&self) -> BookView {
        BookView {
            title: self.title@,
            author: self.author@,
            isbn: self.isbn@,
            publication_year: self.publication_year,
            genre: self.genre,
            status: self.status,
        }
    }
}

impl Clone for Book {
    /// A clone carries exactly the same field values.
    fn clone(&self) -> (r: Book)
        ensures
            r@ == self@,
    {
        Book {
            title: self.title.clone(),
            author: self.author.clone(),
            isbn: self.isbn.clone(),
            publication_year: self.publication_year,
            genre: self.genre,
            status: self.status,
        }
    }
}

impl Book {
    /// A fresh book starts out `Available`.
    pub fn new(title: &str, author: &str, isbn: &str, publication_year: u16, genre: Genre) -> (b:
        Book)
        ensures
            b@ == (BookView {
                title: title@,
                author: author@,
                isbn: isbn@,
                publication_year,
                genre,
                status: Status::Available,
            }),
    {
        Book {
            title: String::from_str(title),
            author: String::from_str(author),
            isbn: String::from_str(isbn),
            publication_year,
            genre,
            status: Status::Available,
        }
    }

    pub fn get_title(&self) -> (r: &String)
        ensures
            r@ == self@.title,
    {
        &self.title
    }

    pub fn get_author(&self) -> (r: &String)
        ensures
            r@ == self@.author,
    {
        &self.author
    }

    pub fn get_isbn(&self) -> (r: &String)
        ensures
            r@ == self@.isbn,
    {
        &self.isbn
    }

    pub fn get_publication_year(&self) -> (r: u16)
        ensures
            r == self@.publication_year,
    {
        self.publication_year
    }

    pub fn get_genre(&self) -> (r: Genre)
        ensures
            r == self@.genre,
    {
        self.genre
    }

    pub fn get_status(&self) -> (r: Status)
        ensures
            r == self@.status,
    {
        self.status
    }

    pub fn get_available(&self) -> (r: bool)
        ensures
            r == (self@.status == Status::Available),
    {
        self.status == Status::Available
    }

    /// Mark this book checked out; fails without mutating when it is not
    /// available.
    pub fn check_out(&mut self) -> (r: Result<(), CheckoutError>)
        ensures
            old(self)@.status == Status::Available ==> r == Ok::<(), CheckoutError>(())
                && final(self)@ == (BookView { status: Status::CheckedOut, ..old(self)@ }),
            old(self)@.status != Status::Available ==> r == Err::<(), CheckoutError>(
                CheckoutError::AlreadyUnavailable,
            ) && final(self)@ == old(self)@,
    {
        match self.status {
            Status::Available => {},
            _ => {
                return Err(CheckoutError::AlreadyUnavailable);
            },
        }
        self.status = Status::CheckedOut;
        Ok(())
    }
}

/// Why a checkout did not happen.
#[derive(Debug, Clone, Copy, PartialEq, Eq, Structural)]
pub enum CheckoutError {
    /// No book in the catalog carries the requested ISBN.
    NotFound,
    /// The book exists but is already checked out or lost.
    AlreadyUnavailable,
}

/// The field a search compares against.
#[derive(Debug, Clone, Copy, PartialEq, Eq, Structural)]
pub enum LibrarySearchCriteria {
    Author,
    Title,
    ISBN,
}

/// When a book satisfies a query: case-insensitive substring match on the
/// author or title, exact match on the ISBN.
pub open spec fn book_matches(c: LibrarySearchCriteria, b: BookView, q: Seq<char>) -> bool {
    match c {
        LibrarySearchCriteria::Author => is_substring_of(lower_of(q), lower_of(b.author)),
        LibrarySearchCriteria::Title => is_substring_of(lower_of(q), lower_of(b.title)),
        LibrarySearchCriteria::ISBN => b.isbn == q,
    }
}

impl LibrarySearchCriteria {
    /// Decide whether `book` satisfies the query `value` under this
    /// criteria.
    pub fn matches(&self, book: &Book, value: &str) -> (r: bool)
        ensures
            r == book_matches(*self, book@, value@),
    {
        match self {
            LibrarySearchCriteria::Author => {
                let folded_query = lowercase(value);
                let folded_field = lowercase(book.author.as_str());
                contains_chars(
                    &str_to_chars(folded_field.as_str()),
                    &str_to_chars(folded_query.as_str()),
                )
            },
            LibrarySearchCriteria::Title => {
                let folded_query = lowercase(value);
                let folded_field = lowercase(book.title.as_str());
                contains_chars(
                    &str_to_chars(folded_field.as_str()),
                    &str_to_chars(folded_query.as_str()),
                )
            },
            LibrarySearchCriteria::ISBN => chars_eq(
                &str_to_chars(book.isbn.as_str()),
                &str_to_chars(value),
            ),
        }
    }
}

/// The views of a sequence of books.
pub open spec fn books_view(s: Seq<Book>) -> Seq<BookView> {
    s.map_values(|b: Book| b@)
}

/// Mathematical model of a [`Library`].
pub struct LibraryView {
    pub books: Seq<BookView>,
    pub owner: Seq<char>,
}

/// The catalog: books in insertion order, plus the owner's name.
#[derive(Debug)]
pub struct Library {
    pub books: Vec<Book>,
    pub owner: String,
}

impl View for Library {
    type V = LibraryView;

    open spec fn view(&self) -> LibraryView {
        LibraryView { books: books_view(self.books@), owner: self.owner@ }
    }
}

/// The first book of `books` that satisfies the query, in order; `None`
/// when none does.
pub open spec fn spec_search(
    books: Seq<BookView>,
    c: LibrarySearchCriteria,
    q: Seq<char>,
) -> Option<BookView>
    decreases books.len(),
{
    if books.len() == 0 {
        None
    } else if book_matches(c, books[0], q) {
        Some(books[0])
    } else {
        spec_search(books.drop_first(), c, q)
    }
}

/// The position of the first book whose ISBN is exactly `isbn`.
pub open spec fn spec_find_isbn(books: Seq<BookView>, isbn: Seq<char>) -> Option<int>
    decreases books.len(),
{
    if books.len() == 0 {
        None
    } else if books[0].isbn == isbn {
        Some(0)
    } else {
        match spec_find_isbn(books.drop_first(), isbn) {
            None => None,
            Some(i) => Some(i + 1),
        }
    }
}

/// What a checkout returns: `NotFound` when no book carries the ISBN,
/// `AlreadyUnavailable` when the first such book is not available, success
/// otherwise.
pub open spec fn spec_checkout_result(books: Seq<BookView>, isbn: Seq<char>) -> Result<
    (),
    CheckoutError,
> {
    match spec_find_isbn(books, isbn) {
        None => Err(CheckoutError::NotFound),
        Some(i) => if books[i].status == Status::Available {
            Ok(())
        } else {
            Err(CheckoutError::AlreadyUnavailable)
        },
    }
}

/// The books after a checkout: unchanged except that a successful checkout
/// marks the first book with the ISBN as checked out.
pub open spec fn spec_checkout_books(books: Seq<BookView>, isbn: Seq<char>) -> Seq<BookView> {
    match spec_find_isbn(books, isbn) {
        None => books,
        Some(i) => if books[i].status == Status::Available {
            books.update(i, BookView { status: Status::CheckedOut, ..books[i] })
        } else {
            books
        },
    }
}

impl Library {
    /// An empty catalog owned by `owner`.
    pub fn new(owner: &str) -> (lib: Library)
        ensures
            lib@.books =~= Seq::<BookView>::empty(),
            lib@.owner == owner@,
    {
        Library { books: Vec::new(), owner: String::from_str(owner) }
    }

    pub fn get_owner(&self) -> (r: &String)
        ensures
            r@ == self@.owner,
    {
        &self.owner
    }

    pub fn get_books(&self) -> (r: &Vec<Book>)
        ensures
            books_view(r@) == self@.books,
    {
        &self.books
    }

    /// Append a book at the end of the catalog.
    pub fn add(&mut self, book: Book)
        ensures
            final(self)@.books == old(self)@.books.push(book@),
            final(self)@.owner == old(self)@.owner,
    {
        let ghost prev = self.books@;
        self.books.push(book);
        proof {
            assert(books_view(self.books@) =~= books_view(prev).push(book@));
        }
    }

    /// The first book, in catalog order, that satisfies the query; `None`
    /// when none does.
    pub fn search_by(&self, criteria: &LibrarySearchCriteria, value: &str) -> (r: Option<&Book>)
        ensures
            match r {
                None => spec_search(self@.books, *criteria, value@) is None,
                Some(b) => spec_search(self@.books, *criteria, value@) == Some(b@),
            },
    {
        let n = self.books.len();
        let mut i: usize = 0;
        proof {
            assert(self@.books.skip(0) =~= self@.books);
        }
        while i < n
            invariant
                n == self.books@.len(),
                i <= n,
                spec_search(self@.books, *criteria, value@) == spec_search(
                    self@.books.skip(i as int),
                    *criteria,
                    value@,
                ),
            decreases n - i,
        {
            let hit = criteria.matches(&self.books[i], value);
            proof {
                assert(self@.books.skip(i as int)[0] == self@.books[i as int]);
            }
            if hit {
                return Some(&self.books[i]);
            }
            proof {
                assert(self@.books.skip(i as int).drop_first() =~= self@.books.skip(i + 1));
            }
            i += 1;
        }
        proof {
            assert(self@.books.skip(n as int).len() == 0);
        }
        None
    }

    /// Check out the first book carrying `isbn`: marks it checked out when
    /// it is available, and otherwise reports why nothing changed.
    pub fn check_out(&mut self, isbn: &str) -> (r: Result<(), CheckoutError>)
        ensures
            r == spec_checkout_result(old(self)@.books, isbn@),
            final(self)@.books == spec_checkout_books(old(self)@.books, isbn@),
            final(self)@.owner == old(self)@.owner,
    {
        let q = str_to_chars(isbn);
        let n = self.books.len();
        let mut i: usize = 0;
        while i < n
            invariant
                n == self.books@.len(),
                i <= n,
                q@ == isbn@,
                self.books@ == old(self).books@,
                self.owner == old(self).owner,
                forall|j: int| 0 <= j < i ==> books_view(self.books@)[j].isbn != isbn@,
            decreases n - i,
        {
            let same = chars_eq(&str_to_chars(self.books[i].isbn.as_str()), &q);
            if same {
                proof {
                    lemma_find_isbn_first(old(self)@.books, isbn@);
                    match spec_find_isbn(old(self)@.books, isbn@) {
                        None => {
                            assert(false);
                        },
                        Some(k) => {
                            if k < i as int {
                            } else if k > i as int {
                                assert(old(self)@.books[i as int].isbn != isbn@);
                            }
                            assert(k == i as int);
                        },
                    }
                }
                let ghost prev = self.books@;
                let r = self.books[i].check_out();
                proof {
                    assert(books_view(self.books@) =~= books_view(prev).update(
                        i as int,
                        self.books@[i as int]@,
                    ));
                    if old(self)@.books[i as int].status != Status::Available {
                        assert(books_view(self.books@) =~= books_view(prev));
                    }
                }
                return r;
            }
            i += 1;
        }
        proof {
            lemma_find_isbn_first(old(self)@.books, isbn@);
            match spec_find_isbn(old(self)@.books, isbn@) {
                None => {},
                Some(k) => {
                    assert(old(self)@.books[k].isbn != isbn@);
                },
            }
        }
        Err(CheckoutError::NotFound)
    }

    /// The fixed three-book demo catalog used on first run.
    pub fn initialize_demo(owner: &str) -> (lib: Library)
        ensures
            lib@ == (LibraryView { books: demo_books(), owner: owner@ }),
    {
        let mut library = Library::new(owner);
        library.add(
            Book::new("The Great Gatsby", "F. Scott Fitzgerald", "9780743273565", 1925, Genre::Fiction),
        );
        library.add(
            Book::new("To Kill a Mockingbird", "Harper Lee", "9780061120084", 1960, Genre::Fiction),
        );
        library.add(Book::new("1984", "George Orwell", "9780451524935", 1949, Genre::ScienceFiction));
        proof {
            assert(library@.books =~= demo_books());
        }
        library
    }
}

/// The three books every fresh catalog is seeded with.
pub open spec fn demo_books() -> Seq<BookView> {
    seq![
        BookView {
            title: "The Great Gatsby"@,
            author: "F. Scott Fitzgerald"@,
            isbn: "9780743273565"@,
            publication_year: 1925,
            genre: Genre::Fiction,
            status: Status::Available,
        },
        BookView {
            title: "To Kill a Mockingbird"@,
            author: "Harper Lee"@,
            isbn: "9780061120084"@,
            publication_year: 1960,
            genre: Genre::Fiction,
            status: Status::Available,
        },
        BookView {
            title: "1984"@,
            author: "George Orwell"@,
            isbn: "9780451524935"@,
            publication_year: 1949,
            genre: Genre::ScienceFiction,
            status: Status::Available,
        },
    ]
}

/// Where the catalog is persisted.
#[derive(Debug)]
pub struct Config {
    pub library_path: String,
}

impl Config {
    pub fn new(library_path: &str) -> (c: Config)
        ensures
            c.library_path@ == library_path@,
    {
        Config { library_path: String::from_str(library_path) }
    }
}

/// Law: checking out the same ISBN a second time reports the book as
/// already unavailable and leaves the catalog as the first checkout left
/// it.
pub proof fn lemma_checkout_idempotent_safe(books: Seq<BookView>, isbn: Seq<char>)
    requires
        spec_checkout_result(books, isbn) == Ok::<(), CheckoutError>(()),
    ensures
        spec_checkout_result(spec_checkout_books(books, isbn), isbn) == Err::<(), CheckoutError>(
            CheckoutError::AlreadyUnavailable,
        ),
        spec_checkout_books(spec_checkout_books(books, isbn), isbn) == spec_checkout_books(
            books,
            isbn,
        ),
{
    let i = spec_find_isbn(books, isbn)->Some_0;
    lemma_find_isbn_first(books, isbn);
    let after = spec_checkout_books(books, isbn);
    lemma_find_isbn_update(books, isbn, i, BookView { status: Status::CheckedOut, ..books[i] });
    assert(spec_find_isbn(after, isbn) == Some(i));
    assert(after[i].status == Status::CheckedOut);
}

/// Law: a checkout against an ISBN that no book carries reports
/// `NotFound` and never changes the catalog.
pub proof fn lemma_checkout_absent(books: Seq<BookView>, isbn: Seq<char>)
    requires
        forall|j: int| 0 <= j < books.len() ==> books[j].isbn != isbn,
    ensures
        spec_checkout_result(books, isbn) == Err::<(), CheckoutError>(CheckoutError::NotFound),
        spec_checkout_books(books, isbn) == books,
{
    lemma_find_isbn_first(books, isbn);
    match spec_find_isbn(books, isbn) {
        None => {},
        Some(k) => {
            assert(books[k].isbn != isbn);
        },
    }
}

/// Replacing a book by one with the same ISBN does not move the first
/// position at which an ISBN is found.
proof fn lemma_find_isbn_update(books: Seq<BookView>, isbn: Seq<char>, i: int, b: BookView)
    requires
        0 <= i < books.len(),
        b.isbn == books[i].isbn,
    ensures
        spec_find_isbn(books.update(i, b), isbn) == spec_find_isbn(books, isbn),
    decreases books.len(),
{
    let upd = books.update(i, b);
    if i == 0 {
        if books[0].isbn == isbn {
        } else {
            assert(upd.drop_first() =~= books.drop_first());
        }
    } else {
        assert(upd[0] == books[0]);
        if books[0].isbn == isbn {
        } else {
            assert(upd.drop_first() =~= books.drop_first().update(i - 1, b));
            lemma_find_isbn_update(books.drop_first(), isbn, i - 1, b);
        }
    }
}

/// Law: a search returns the first matching book in catalog order — a
/// found book matches, every book before it does not, and a miss means no
/// book matches.
pub proof fn lemma_search_first(books: Seq<BookView>, c: LibrarySearchCriteria, q: Seq<char>)
    ensures
        match spec_search(books, c, q) {
            None => forall|i: int| 0 <= i < books.len() ==> !book_matches(c, books[i], q),
            Some(b) => exists|i: int|
                0 <= i < books.len() && books[i] == b && #[trigger] book_matches(c, books[i], q)
                    && forall|j: int| 0 <= j < i ==> !book_matches(c, books[j], q),
        },
    decreases books.len(),
{
    if books.len() == 0 {
    } else if book_matches(c, books[0], q) {
        assert(books[0] == books[0] && book_matches(c, books[0], q) && forall|j: int|
            0 <= j < 0 ==> !book_matches(c, books[j], q));
    } else {
        lemma_search_first(books.drop_first(), c, q);
        match spec_search(books.drop_first(), c, q) {
            None => {
                assert forall|i: int| 0 <= i < books.len() implies !book_matches(
                    c,
                    books[i],
                    q,
                ) by {
                    if i > 0 {
                        assert(books.drop_first()[i - 1] == books[i]);
                    }
                }
            },
            Some(b) => {
                let i = choose|i: int|
                    0 <= i < books.drop_first().len() && books.drop_first()[i] == b
                        && #[trigger] book_matches(c, books.drop_first()[i], q) && forall|j: int|
                        0 <= j < i ==> !book_matches(c, books.drop_first()[j], q);
                assert(books.drop_first()[i] == books[i + 1]);
                assert forall|j: int| 0 <= j < i + 1 implies !book_matches(c, books[j], q) by {
                    if j > 0 {
                        assert(books.drop_first()[j - 1] == books[j]);
                    }
                }
                assert(0 <= i + 1 < books.len() && books[i + 1] == b && book_matches(
                    c,
                    books[i + 1],
                    q,
                ) && forall|j: int| 0 <= j < i + 1 ==> !book_matches(c, books[j], q));
            },
        }
    }
}

/// `spec_find_isbn` returns the first index carrying the ISBN.
pub proof fn lemma_find_isbn_first(books: Seq<BookView>, isbn: Seq<char>)
    ensures
        match spec_find_isbn(books, isbn) {
            None => forall|j: int| 0 <= j < books.len() ==> books[j].isbn != isbn,
            Some(i) => 0 <= i < books.len() && books[i].isbn == isbn && forall|j: int|
                0 <= j < i ==> books[j].isbn != isbn,
        },
    decreases books.len(),
{
    if books.len() == 0 {
    } else if books[0].isbn == isbn {
    } else {
        lemma_find_isbn_first(books.drop_first(), isbn);
        match spec_find_isbn(books.drop_first(), isbn) {
            None => {
                assert forall|j: int| 0 <= j < books.len() implies books[j].isbn != isbn by {
                    if j > 0 {
                        assert(books.drop_first()[j - 1] == books[j]);
                    }
                }
            },
            Some(i) => {
                assert(books.drop_first()[i] == books[i + 1]);
                assert forall|j: int| 0 <= j < i + 1 implies books[j].isbn != isbn by {
                    if j > 0 {
                        assert(books.drop_first()[j - 1] == books[j]);
                    }
                }
            },
        }
    }
}

} // verus!
