use library_manager::library::{Book, Genre, Library, Status};

#[test]
fn to_json_emits_the_canonical_text() {
    let lib = Library::initialize_demo("Ada");
    let expected = "{\"books\":[{\"title\":\"The Great Gatsby\",\"author\":\"F. Scott Fitzgerald\",\"isbn\":\"9780743273565\",\"publication_year\":1925,\"genre\":\"Fiction\",\"status\":\"Available\"},{\"title\":\"To Kill a Mockingbird\",\"author\":\"Harper Lee\",\"isbn\":\"9780061120084\",\"publication_year\":1960,\"genre\":\"Fiction\",\"status\":\"Available\"},{\"title\":\"1984\",\"author\":\"George Orwell\",\"isbn\":\"9780451524935\",\"publication_year\":1949,\"genre\":\"ScienceFiction\",\"status\":\"Available\"}],\"owner\":\"Ada\"}";
    assert_eq!(lib.to_json().as_str(), expected);
}

fn assert_same_catalog(a: &Library, b: &Library) {
    assert_eq!(a.get_owner().as_str(), b.get_owner().as_str());
    assert_eq!(a.get_books().len(), b.get_books().len());
    for (x, y) in a.get_books().iter().zip(b.get_books().iter()) {
        assert_eq!(x.get_title().as_str(), y.get_title().as_str());
        assert_eq!(x.get_author().as_str(), y.get_author().as_str());
        assert_eq!(x.get_isbn().as_str(), y.get_isbn().as_str());
        assert_eq!(x.get_publication_year(), y.get_publication_year());
        assert_eq!(x.get_genre(), y.get_genre());
        assert_eq!(x.get_status(), y.get_status());
    }
}

#[test]
fn save_then_load_recovers_the_catalog() {
    let lib = Library::initialize_demo("Ada");
    let text = lib.to_json();
    let loaded = Library::from_json(text.as_str());
    assert!(loaded.is_some());
    assert_same_catalog(&lib, &loaded.unwrap());
}

#[test]
fn round_trip_keeps_a_checked_out_status() {
    let mut lib = Library::initialize_demo("Ada");
    assert_eq!(lib.check_out("9780451524935"), Ok(()));
    let text = lib.to_json();
    let loaded = Library::from_json(text.as_str()).unwrap();
    assert_same_catalog(&lib, &loaded);
    assert_eq!(loaded.get_books()[2].get_status(), Status::CheckedOut);
}

#[test]
fn round_trip_escapes_quotes_and_backslashes() {
    let mut lib = Library::new("A \"quoted\" \\ owner");
    lib.add(Book::new(
        "Back\\slash \"Title\"",
        "Quote \" Author",
        "x\\\"y",
        2024,
        Genre::Mystery,
    ));
    let text = lib.to_json();
    let loaded = Library::from_json(text.as_str());
    assert!(loaded.is_some());
    assert_same_catalog(&lib, &loaded.unwrap());
}

#[test]
fn round_trip_of_every_genre_status_and_year_zero() {
    let mut lib = Library::new("");
    lib.add(Book::new("a", "b", "1", 0, Genre::Fiction));
    lib.add(Book::new("c", "d", "2", 65535, Genre::NonFiction));
    lib.add(Book::new("e", "f", "3", 10, Genre::ScienceFiction));
    lib.add(Book::new("g", "h", "4", 1, Genre::Mystery));
    let mut lost = Book::new("i", "j", "5", 207, Genre::Mystery);
    lost.status = Status::Lost;
    lib.add(lost);
    assert_eq!(lib.check_out("2"), Ok(()));
    let text = lib.to_json();
    let loaded = Library::from_json(text.as_str());
    assert!(loaded.is_some());
    let loaded = loaded.unwrap();
    assert_same_catalog(&lib, &loaded);
    assert_eq!(loaded.get_books()[0].get_publication_year(), 0);
    assert_eq!(loaded.get_books()[1].get_status(), Status::CheckedOut);
    assert_eq!(loaded.get_books()[4].get_status(), Status::Lost);
}

#[test]
fn round_trip_of_an_empty_catalog() {
    let lib = Library::new("Nobody");
    let text = lib.to_json();
    assert_eq!(text.as_str(), "{\"books\":[],\"owner\":\"Nobody\"}");
    let loaded = Library::from_json(text.as_str());
    assert!(loaded.is_some());
    let loaded = loaded.unwrap();
    assert_eq!(loaded.get_books().len(), 0);
    assert_eq!(loaded.get_owner().as_str(), "Nobody");
}

#[test]
fn from_json_rejects_texts_that_are_not_canonical() {
    assert!(Library::from_json("").is_none());
    assert!(Library::from_json("{}").is_none());
    assert!(Library::from_json("not json at all").is_none());
    assert!(Library::from_json("{\"books\":[],\"owner\":\"A\"} ").is_none());
    assert!(Library::from_json("{\"books\":[],\"owner\":\"A\"").is_none());
    assert!(Library::from_json("{\"books\":[],\"owner\":A}").is_none());
    assert!(Library::from_json("{\"books\":[{}],\"owner\":\"A\"}").is_none());
    // A leading zero in the year is not canonical.
    assert!(Library::from_json("{\"books\":[{\"title\":\"a\",\"author\":\"b\",\"isbn\":\"c\",\"publication_year\":01925,\"genre\":\"Fiction\",\"status\":\"Available\"}],\"owner\":\"A\"}").is_none());
    // A year too large for the field is rejected.
    assert!(Library::from_json("{\"books\":[{\"title\":\"a\",\"author\":\"b\",\"isbn\":\"c\",\"publication_year\":65536,\"genre\":\"Fiction\",\"status\":\"Available\"}],\"owner\":\"A\"}").is_none());
    // An unknown tag is rejected.
    assert!(Library::from_json("{\"books\":[{\"title\":\"a\",\"author\":\"b\",\"isbn\":\"c\",\"publication_year\":1925,\"genre\":\"Poetry\",\"status\":\"Available\"}],\"owner\":\"A\"}").is_none());
}

#[test]
fn from_json_accepts_a_hand_written_canonical_text() {
    let text = "{\"books\":[{\"title\":\"Dune\",\"author\":\"Frank Herbert\",\"isbn\":\"9780441172719\",\"publication_year\":1965,\"genre\":\"ScienceFiction\",\"status\":\"CheckedOut\"}],\"owner\":\"Paul\"}";
    let lib = Library::from_json(text).unwrap();
    assert_eq!(lib.get_owner().as_str(), "Paul");
    assert_eq!(lib.get_books().len(), 1);
    let b = &lib.get_books()[0];
    assert_eq!(b.get_title().as_str(), "Dune");
    assert_eq!(b.get_author().as_str(), "Frank Herbert");
    assert_eq!(b.get_isbn().as_str(), "9780441172719");
    assert_eq!(b.get_publication_year(), 1965);
    assert_eq!(b.get_genre(), Genre::ScienceFiction);
    assert_eq!(b.get_status(), Status::CheckedOut);
    assert_eq!(lib.to_json().as_str(), text);
}
