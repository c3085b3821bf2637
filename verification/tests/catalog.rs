use library_manager::library::{
    Book, CheckoutError, Genre, Library, LibrarySearchCriteria, Status,
};

#[test]
fn search_title_is_case_insensitive_substring() {
    let lib = Library::initialize_demo("Ada");
    let hit = lib.search_by(&LibrarySearchCriteria::Title, "gatsby");
    assert!(hit.is_some());
    assert_eq!(hit.unwrap().get_title().as_str(), "The Great Gatsby");
    let shouting = lib.search_by(&LibrarySearchCriteria::Title, "GATSBY");
    assert!(shouting.is_some());
    assert_eq!(shouting.unwrap().get_isbn().as_str(), "9780743273565");
    let missing = lib.search_by(&LibrarySearchCriteria::Title, "dune");
    assert!(missing.is_none());
}

#[test]
fn search_author_is_case_insensitive_substring() {
    let lib = Library::initialize_demo("Ada");
    let hit = lib.search_by(&LibrarySearchCriteria::Author, "orwell");
    assert!(hit.is_some());
    assert_eq!(hit.unwrap().get_title().as_str(), "1984");
}

#[test]
fn search_isbn_is_exact() {
    let lib = Library::initialize_demo("Ada");
    let hit = lib.search_by(&LibrarySearchCriteria::ISBN, "9780061120084");
    assert!(hit.is_some());
    assert_eq!(hit.unwrap().get_author().as_str(), "Harper Lee");
    // A prefix is not an exact match.
    assert!(lib.search_by(&LibrarySearchCriteria::ISBN, "97800611200").is_none());
    assert!(lib.search_by(&LibrarySearchCriteria::ISBN, "").is_none());
}

#[test]
fn search_returns_first_match_in_catalog_order() {
    let mut lib = Library::new("Ada");
    lib.add(Book::new("Twin", "First Author", "1", 2000, Genre::Mystery));
    lib.add(Book::new("Twin", "Second Author", "2", 2001, Genre::Mystery));
    let hit = lib.search_by(&LibrarySearchCriteria::Title, "twin").unwrap();
    assert_eq!(hit.get_isbn().as_str(), "1");
}

#[test]
fn checkout_marks_book_unavailable() {
    let mut lib = Library::initialize_demo("Ada");
    assert!(lib.get_books()[0].get_available());
    let r = lib.check_out("9780743273565");
    assert_eq!(r, Ok(()));
    assert!(!lib.get_books()[0].get_available());
    assert_eq!(lib.get_books()[0].get_status(), Status::CheckedOut);
    // The other books are untouched.
    assert!(lib.get_books()[1].get_available());
    assert!(lib.get_books()[2].get_available());
}

#[test]
fn checkout_twice_fails_the_second_time() {
    let mut lib = Library::initialize_demo("Ada");
    assert_eq!(lib.check_out("9780743273565"), Ok(()));
    assert_eq!(
        lib.check_out("9780743273565"),
        Err(CheckoutError::AlreadyUnavailable)
    );
    assert_eq!(lib.get_books()[0].get_status(), Status::CheckedOut);
}

#[test]
fn checkout_of_absent_isbn_reports_not_found_and_changes_nothing() {
    let mut lib = Library::initialize_demo("Ada");
    assert_eq!(lib.check_out("0000000000000"), Err(CheckoutError::NotFound));
    assert_eq!(lib.get_books().len(), 3);
    for book in lib.get_books().iter() {
        assert_eq!(book.get_status(), Status::Available);
    }
}

#[test]
fn demo_catalog_holds_the_three_seeded_books() {
    let lib = Library::initialize_demo("Marguerite");
    assert_eq!(lib.get_owner().as_str(), "Marguerite");
    let books = lib.get_books();
    assert_eq!(books.len(), 3);
    assert_eq!(books[0].get_title().as_str(), "The Great Gatsby");
    assert_eq!(books[0].get_author().as_str(), "F. Scott Fitzgerald");
    assert_eq!(books[0].get_isbn().as_str(), "9780743273565");
    assert_eq!(books[0].get_publication_year(), 1925);
    assert_eq!(books[0].get_genre(), Genre::Fiction);
    assert_eq!(books[1].get_title().as_str(), "To Kill a Mockingbird");
    assert_eq!(books[1].get_publication_year(), 1960);
    assert_eq!(books[2].get_title().as_str(), "1984");
    assert_eq!(books[2].get_author().as_str(), "George Orwell");
    assert_eq!(books[2].get_genre(), Genre::ScienceFiction);
}

#[test]
fn book_checkout_respects_status() {
    let mut b = Book::new("T", "A", "I", 1999, Genre::NonFiction);
    assert!(b.get_available());
    assert_eq!(b.check_out(), Ok(()));
    assert!(!b.get_available());
    assert_eq!(b.check_out(), Err(CheckoutError::AlreadyUnavailable));
}

#[test]
fn matches_distinguishes_fields() {
    let b = Book::new("Dune", "Frank Herbert", "9780441172719", 1965, Genre::ScienceFiction);
    assert!(LibrarySearchCriteria::Title.matches(&b, "dun"));
    assert!(!LibrarySearchCriteria::Title.matches(&b, "herbert"));
    assert!(LibrarySearchCriteria::Author.matches(&b, "HERBERT"));
    assert!(LibrarySearchCriteria::ISBN.matches(&b, "9780441172719"));
    assert!(!LibrarySearchCriteria::ISBN.matches(&b, "978044117271"));
    // The empty query is a substring of every title.
    assert!(LibrarySearchCriteria::Title.matches(&b, ""));
}
