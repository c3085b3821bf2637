//! The persisted form of a catalog: one canonical JSON text.
//!
//! The encoder always emits the same text for the same catalog — fixed key
//! order, no extra whitespace, `"` and `\` escaped with a backslash — and
//! the parser accepts exactly the texts the encoder emits. Both directions
//! are proved against the one spec-level encoding, so a catalog saved and
//! loaded again is recovered field for field.

use vstd::prelude::*;

use crate::library::{books_view, Book, BookView, Genre, Library, LibraryView, Status};
use crate::text::{chars_to_string, str_to_chars};

verus! {

/// How one character appears inside a quoted JSON string.
pub open spec fn esc_char(c: char) -> Seq<char> {
    if c == '"' || c == '\\' {
        seq!['\\', c]
    } else {
        seq![c]
    }
}

/// The body of a quoted JSON string.
pub open spec fn escape(s: Seq<char>) -> Seq<char>
    decreases s.len(),
{
    if s.len() == 0 {
        Seq::empty()
    } else {
        esc_char(s[0]) + escape(s.drop_first())
    }
}

/// A quoted JSON string.
pub open spec fn enc_string(s: Seq<char>) -> Seq<char> {
    seq!['"'] + escape(s) + seq!['"']
}

/// The character of one decimal digit.
pub open spec fn dchar(d: int) -> char {
    if d == 0 {
        '0'
    } else if d == 1 {
        '1'
    } else if d == 2 {
        '2'
    } else if d == 3 {
        '3'
    } else if d == 4 {
        '4'
    } else if d == 5 {
        '5'
    } else if d == 6 {
        '6'
    } else if d == 7 {
        '7'
    } else if d == 8 {
        '8'
    } else {
        '9'
    }
}

pub open spec fn is_digit_char(c: char) -> bool {
    c == '0' || c == '1' || c == '2' || c == '3' || c == '4' || c == '5' || c == '6' || c == '7'
        || c == '8' || c == '9'
}

/// The value of one decimal digit character.
pub open spec fn digit_val(c: char) -> int {
    if c == '0' {
        0
    } else if c == '1' {
        1
    } else if c == '2' {
        2
    } else if c == '3' {
        3
    } else if c == '4' {
        4
    } else if c == '5' {
        5
    } else if c == '6' {
        6
    } else if c == '7' {
        7
    } else if c == '8' {
        8
    } else {
        9
    }
}

/// A number in decimal, without leading zeros.
pub open spec fn dec_digits(n: nat) -> Seq<char>
    decreases n,
{
    if n < 10 {
        seq![dchar(n as int)]
    } else {
        dec_digits(n / 10) + seq![dchar((n % 10) as int)]
    }
}

/// The symbolic variant name a genre is persisted under.
pub open spec fn genre_tag(g: Genre) -> Seq<char> {
    match g {
        Genre::Fiction => "Fiction"@,
        Genre::NonFiction => "NonFiction"@,
        Genre::ScienceFiction => "ScienceFiction"@,
        Genre::Mystery => "Mystery"@,
    }
}

/// The symbolic variant name a status is persisted under.
pub open spec fn status_tag(s: Status) -> Seq<char> {
    match s {
        Status::Available => "Available"@,
        Status::CheckedOut => "CheckedOut"@,
        Status::Lost => "Lost"@,
    }
}

/// A quoted genre tag.
pub open spec fn enc_genre(g: Genre) -> Seq<char> {
    seq!['"'] + genre_tag(g) + seq!['"']
}

/// A quoted status tag.
pub open spec fn enc_status(s: Status) -> Seq<char> {
    seq!['"'] + status_tag(s) + seq!['"']
}

/// One book as a JSON object, fields in declaration order.
pub open spec fn enc_book(b: BookView) -> Seq<char> {
    "{\"title\":"@ + enc_string(b.title) + ",\"author\":"@ + enc_string(b.author) + ",\"isbn\":"@
        + enc_string(b.isbn) + ",\"publication_year\":"@ + dec_digits(b.publication_year as nat)
        + ",\"genre\":"@ + enc_genre(b.genre) + ",\"status\":"@ + enc_status(b.status) + "}"@
}

/// The books as a JSON array body: comma-separated, no brackets.
pub open spec fn enc_books(bs: Seq<BookView>) -> Seq<char>
    decreases bs.len(),
{
    if bs.len() == 0 {
        Seq::empty()
    } else if bs.len() == 1 {
        enc_book(bs[0])
    } else {
        enc_book(bs[0]) + seq![','] + enc_books(bs.drop_first())
    }
}

/// The whole catalog as one JSON object.
pub open spec fn catalog_json(v: LibraryView) -> Seq<char> {
    "{\"books\":["@ + enc_books(v.books) + "],\"owner\":"@ + enc_string(v.owner) + "}"@
}

/// Escaping distributes over appending one character.
proof fn lemma_escape_snoc(s: Seq<char>, c: char)
    ensures
        escape(s.push(c)) == escape(s) + esc_char(c),
    decreases s.len(),
{
    if s.len() == 0 {
        assert(s.push(c)[0] == c);
        assert(s.push(c).drop_first() =~= Seq::<char>::empty());
        assert(escape(s.push(c).drop_first()) == Seq::<char>::empty());
        assert(escape(s.push(c)) == esc_char(c) + Seq::<char>::empty());
        assert(esc_char(c) + Seq::<char>::empty() =~= esc_char(c));
        assert(escape(s) == Seq::<char>::empty());
        assert(Seq::<char>::empty() + esc_char(c) =~= esc_char(c));
    } else {
        assert(s.push(c)[0] == s[0]);
        assert(s.push(c).drop_first() =~= s.drop_first().push(c));
        lemma_escape_snoc(s.drop_first(), c);
        assert(escape(s.push(c)) == esc_char(s[0]) + (escape(s.drop_first()) + esc_char(c)));
        assert(esc_char(s[0]) + (escape(s.drop_first()) + esc_char(c)) =~= (esc_char(s[0])
            + escape(s.drop_first())) + esc_char(c));
    }
}

/// The array body of one more book appends a comma and that book.
proof fn lemma_enc_books_snoc(bs: Seq<BookView>, b: BookView)
    ensures
        enc_books(bs.push(b)) == if bs.len() == 0 {
            enc_book(b)
        } else {
            enc_books(bs) + seq![','] + enc_books(seq![b])
        },
    decreases bs.len(),
{
    if bs.len() == 0 {
        assert(bs.push(b)[0] == b);
        assert(enc_books(bs.push(b)) == enc_book(b));
    } else {
        assert(bs.push(b)[0] == bs[0]);
        assert(bs.push(b).drop_first() =~= bs.drop_first().push(b));
        lemma_enc_books_snoc(bs.drop_first(), b);
        if bs.len() == 1 {
            assert(bs.drop_first().len() == 0);
            assert(enc_books(bs.push(b)) == enc_book(bs[0]) + seq![','] + enc_book(b));
            assert(enc_books(bs) == enc_book(bs[0]));
            assert(enc_books(seq![b]) == enc_book(b)) by {
                assert(seq![b].len() == 1);
                assert(seq![b][0] == b);
            }
        } else {
            assert(enc_books(bs.push(b)) == enc_book(bs[0]) + seq![','] + ((enc_books(
                bs.drop_first(),
            ) + seq![','] + enc_books(seq![b]))));
            assert(enc_book(bs[0]) + seq![','] + (enc_books(bs.drop_first()) + seq![','] + enc_books(
                seq![b],
            )) =~= (enc_book(bs[0]) + seq![','] + enc_books(bs.drop_first())) + seq![','] + enc_books(
                seq![b],
            ));
        }
    }
}

/// Splitting one text as two concatenations of equal-length prefixes
/// determines both parts.
proof fn lemma_strip(p: Seq<char>, a: Seq<char>, q: Seq<char>, b: Seq<char>)
    requires
        p + a == q + b,
        p.len() == q.len(),
    ensures
        p == q,
        a == b,
{
    assert(p =~= (p + a).subrange(0, p.len() as int));
    assert(q =~= (q + b).subrange(0, q.len() as int));
    assert(a =~= (p + a).skip(p.len() as int));
    assert(b =~= (q + b).skip(q.len() as int));
}

/// How a partially read string body continues: either the body is
/// complete, or what follows is the escape of the next raw character.
proof fn lemma_esc_prefix(a: Seq<char>, t: Seq<char>, s: Seq<char>, r: Seq<char>)
    requires
        escape(a) + t == escape(s) + seq!['"'] + r,
    ensures
        (a == s && t == seq!['"'] + r) || (a.len() < s.len() && a == s.subrange(0, a.len() as int)
            && t == esc_char(s[a.len() as int]) + escape(
            s.subrange(a.len() as int + 1, s.len() as int),
        ) + seq!['"'] + r),
    decreases a.len(),
{
    if a.len() == 0 {
        assert(escape(a) == Seq::<char>::empty());
        assert(t =~= escape(s) + seq!['"'] + r);
        if s.len() == 0 {
            assert(escape(s) == Seq::<char>::empty());
            assert(t =~= seq!['"'] + r);
            assert(a =~= s);
        } else {
            assert(escape(s) == esc_char(s[0]) + escape(s.drop_first()));
            assert(s.drop_first() =~= s.subrange(1, s.len() as int));
            assert(a =~= s.subrange(0, 0));
            assert(t =~= esc_char(s[0]) + escape(s.subrange(1, s.len() as int)) + seq!['"'] + r);
        }
    } else {
        assert(escape(a) == esc_char(a[0]) + escape(a.drop_first()));
        let lhs = escape(a) + t;
        let rhs = escape(s) + seq!['"'] + r;
        if s.len() == 0 {
            assert(escape(s) == Seq::<char>::empty());
            assert(rhs[0] == '"');
            assert(lhs[0] == esc_char(a[0])[0]);
            if a[0] == '"' || a[0] == '\\' {
                assert(esc_char(a[0])[0] == '\\');
            } else {
                assert(esc_char(a[0])[0] == a[0]);
            }
            assert(false);
        } else {
            assert(escape(s) == esc_char(s[0]) + escape(s.drop_first()));
            assert(lhs[0] == esc_char(a[0])[0]);
            assert(rhs[0] == esc_char(s[0])[0]);
            let a0_special = a[0] == '"' || a[0] == '\\';
            let s0_special = s[0] == '"' || s[0] == '\\';
            if a0_special && !s0_special {
                assert(lhs[0] == '\\');
                assert(rhs[0] == s[0]);
                assert(false);
            } else if !a0_special && s0_special {
                assert(lhs[0] == a[0]);
                assert(rhs[0] == '\\');
                assert(false);
            } else if a0_special && s0_special {
                assert(lhs[1] == esc_char(a[0])[1]);
                assert(rhs[1] == esc_char(s[0])[1]);
                assert(a[0] == s[0]);
            } else {
                assert(a[0] == s[0]);
            }
            assert(esc_char(a[0]) == esc_char(s[0]));
            assert(lhs =~= esc_char(a[0]) + (escape(a.drop_first()) + t));
            assert(rhs =~= esc_char(s[0]) + (escape(s.drop_first()) + seq!['"'] + r));
            lemma_strip(
                esc_char(a[0]),
                escape(a.drop_first()) + t,
                esc_char(s[0]),
                escape(s.drop_first()) + seq!['"'] + r,
            );
            lemma_esc_prefix(a.drop_first(), t, s.drop_first(), r);
            if a.drop_first() == s.drop_first() && t == seq!['"'] + r {
                assert(a.len() == s.len());
                assert forall|i: int| 0 <= i < a.len() implies a[i] == s[i] by {
                    if i > 0 {
                        assert(a[i] == a.drop_first()[i - 1]);
                        assert(s[i] == s.drop_first()[i - 1]);
                    }
                }
                assert(a =~= s);
            } else {
                assert(a.drop_first() == s.drop_first().subrange(0, a.len() - 1));
                assert forall|i: int| 0 <= i < a.len() implies a[i] == s.subrange(
                    0,
                    a.len() as int,
                )[i] by {
                    if i > 0 {
                        assert(a[i] == a.drop_first()[i - 1]);
                        assert(a.drop_first()[i - 1] == s.drop_first().subrange(
                            0,
                            a.len() - 1,
                        )[i - 1]);
                        assert(s.drop_first()[i - 1] == s[i]);
                    }
                }
                assert(a =~= s.subrange(0, a.len() as int));
                assert(s.drop_first()[a.len() - 1] == s[a.len() as int]);
                assert(s.drop_first().subrange(a.len() as int, s.len() as int - 1) =~= s.subrange(
                    a.len() as int + 1,
                    s.len() as int,
                ));
            }
        }
    }
}

/// A quoted string and what follows it are determined by the text.
proof fn lemma_enc_string_det(t1: Seq<char>, r1: Seq<char>, t2: Seq<char>, r2: Seq<char>)
    requires
        enc_string(t1) + r1 == enc_string(t2) + r2,
    ensures
        t1 == t2,
        r1 == r2,
{
    assert(enc_string(t1) + r1 =~= seq!['"'] + (escape(t1) + (seq!['"'] + r1)));
    assert(enc_string(t2) + r2 =~= seq!['"'] + (escape(t2) + (seq!['"'] + r2)));
    lemma_strip(
        seq!['"'],
        escape(t1) + (seq!['"'] + r1),
        seq!['"'],
        escape(t2) + (seq!['"'] + r2),
    );
    assert(escape(t1) + (seq!['"'] + r1) =~= escape(t1) + seq!['"'] + r1);
    assert(escape(t2) + (seq!['"'] + r2) =~= escape(t2) + seq!['"'] + r2);
    lemma_esc_prefix(t1, seq!['"'] + r1, t2, r2);
    if t1 == t2 && seq!['"'] + r1 == seq!['"'] + r2 {
        lemma_strip(seq!['"'], r1, seq!['"'], r2);
    } else {
        let c = t2[t1.len() as int];
        assert((seq!['"'] + r1)[0] == '"');
        if c == '"' || c == '\\' {
            assert((esc_char(c) + escape(t2.subrange(t1.len() as int + 1, t2.len() as int)) + seq!['"']
                + r2)[0] == '\\');
        } else {
            assert((esc_char(c) + escape(t2.subrange(t1.len() as int + 1, t2.len() as int)) + seq!['"']
                + r2)[0] == c);
        }
        assert(false);
    }
}

/// Every character of a decimal rendering is a digit, and there is at
/// least one.
proof fn lemma_dd_digits(n: nat)
    ensures
        dec_digits(n).len() >= 1,
        forall|k: int|
            0 <= k < dec_digits(n).len() ==> is_digit_char(#[trigger] dec_digits(n)[k]),
    decreases n,
{
    if n < 10 {
    } else {
        lemma_dd_digits(n / 10);
    }
}

/// Rendering `n * 10 + d` appends the digit `d` to the rendering of `n`.
proof fn lemma_dd_append(n: nat, d: nat)
    requires
        n >= 1,
        d < 10,
    ensures
        dec_digits(n * 10 + d) == dec_digits(n) + seq![dchar(d as int)],
{
    let m = n * 10 + d;
    assert(m >= 10 && m / 10 == n && m % 10 == d) by (nonlinear_arith)
        requires
            n >= 1,
            d < 10,
            m == n * 10 + d,
    ;
}

/// A positive number never renders with a leading zero.
proof fn lemma_dd_no_leading_zero(n: nat)
    requires
        n > 0,
    ensures
        dec_digits(n)[0] != '0',
    decreases n,
{
    if n < 10 {
    } else {
        lemma_dd_no_leading_zero(n / 10);
        assert(dec_digits(n)[0] == dec_digits(n / 10)[0]) by {
            lemma_dd_digits(n / 10);
        }
    }
}

/// Decimal renderings are injective.
proof fn lemma_dd_inj(a: nat, b: nat)
    requires
        dec_digits(a) == dec_digits(b),
    ensures
        a == b,
    decreases a,
{
    lemma_dd_digits(a);
    lemma_dd_digits(b);
    if a < 10 && b < 10 {
        assert(dec_digits(a)[0] == dchar(a as int));
        assert(dec_digits(b)[0] == dchar(b as int));
        assert(dchar(a as int) == dchar(b as int));
    } else if a < 10 {
        assert(dec_digits(b).len() >= 2) by {
            lemma_dd_digits(b / 10);
        }
    } else if b < 10 {
        assert(dec_digits(a).len() >= 2) by {
            lemma_dd_digits(a / 10);
        }
    } else {
        assert(dec_digits(a).last() == dchar((a % 10) as int));
        assert(dec_digits(b).last() == dchar((b % 10) as int));
        assert(a % 10 == b % 10);
        assert(dec_digits(a).drop_last() =~= dec_digits(a / 10));
        assert(dec_digits(b).drop_last() =~= dec_digits(b / 10));
        lemma_dd_inj(a / 10, b / 10);
    }
}

/// A rendering that is a prefix of another belongs to a number no larger.
proof fn lemma_dd_take(a: nat, b: nat, k: int)
    requires
        1 <= k <= dec_digits(b).len(),
        dec_digits(a) == dec_digits(b).subrange(0, k),
    ensures
        a <= b,
    decreases b,
{
    if k == dec_digits(b).len() {
        assert(dec_digits(b).subrange(0, k) =~= dec_digits(b));
        lemma_dd_inj(a, b);
    } else {
        lemma_dd_digits(b);
        if b < 10 {
            assert(false);
        } else {
            lemma_dd_digits(b / 10);
            assert(dec_digits(b).subrange(0, k) =~= dec_digits(b / 10).subrange(0, k));
            lemma_dd_take(a, b / 10, k);
        }
    }
}

/// A maximal digit run and what follows it are determined by the text.
proof fn lemma_dd_prefix_det(a: nat, b: nat, r1: Seq<char>, r2: Seq<char>)
    requires
        dec_digits(a) + r1 == dec_digits(b) + r2,
        r1.len() == 0 || !is_digit_char(r1[0]),
        r2.len() == 0 || !is_digit_char(r2[0]),
    ensures
        a == b,
        r1 == r2,
{
    lemma_dd_digits(a);
    lemma_dd_digits(b);
    let la = dec_digits(a).len() as int;
    let lb = dec_digits(b).len() as int;
    if la < lb {
        assert(r1[0] == (dec_digits(b) + r2)[la]);
        assert((dec_digits(b) + r2)[la] == dec_digits(b)[la]);
        assert(false);
    } else if lb < la {
        assert(r2[0] == (dec_digits(a) + r1)[lb]);
        assert((dec_digits(a) + r1)[lb] == dec_digits(a)[lb]);
        assert(false);
    } else {
        lemma_strip(dec_digits(a), r1, dec_digits(b), r2);
        lemma_dd_inj(a, b);
    }
}

/// A quoted genre tag and what follows it are determined by the text.
proof fn lemma_enc_genre_det(g1: Genre, g2: Genre, r1: Seq<char>, r2: Seq<char>)
    requires
        enc_genre(g1) + r1 == enc_genre(g2) + r2,
    ensures
        g1 == g2,
        r1 == r2,
{
    proof_of_tags();
    if g1 != g2 {
        assert((enc_genre(g1) + r1)[1] == genre_tag(g1)[0]);
        assert((enc_genre(g2) + r2)[1] == genre_tag(g2)[0]);
        assert(false);
    }
    lemma_strip(enc_genre(g1), r1, enc_genre(g2), r2);
}

/// A quoted status tag and what follows it are determined by the text.
proof fn lemma_enc_status_det(s1: Status, s2: Status, r1: Seq<char>, r2: Seq<char>)
    requires
        enc_status(s1) + r1 == enc_status(s2) + r2,
    ensures
        s1 == s2,
        r1 == r2,
{
    proof_of_tags();
    if s1 != s2 {
        assert((enc_status(s1) + r1)[1] == status_tag(s1)[0]);
        assert((enc_status(s2) + r2)[1] == status_tag(s2)[0]);
        assert(false);
    }
    lemma_strip(enc_status(s1), r1, enc_status(s2), r2);
}

/// The contents of the tag literals: their lengths and first characters.
proof fn proof_of_tags()
    ensures
        "Fiction"@.len() == 7 && "Fiction"@[0] == 'F',
        "NonFiction"@.len() == 10 && "NonFiction"@[0] == 'N',
        "ScienceFiction"@.len() == 14 && "ScienceFiction"@[0] == 'S',
        "Mystery"@.len() == 7 && "Mystery"@[0] == 'M',
        "Available"@.len() == 9 && "Available"@[0] == 'A',
        "CheckedOut"@.len() == 10 && "CheckedOut"@[0] == 'C',
        "Lost"@.len() == 4 && "Lost"@[0] == 'L',
{
    reveal_strlit("Fiction");
    reveal_strlit("NonFiction");
    reveal_strlit("ScienceFiction");
    reveal_strlit("Mystery");
    reveal_strlit("Available");
    reveal_strlit("CheckedOut");
    reveal_strlit("Lost");
}

/// The contents of the structural literals the format is built from.
proof fn proof_of_layout()
    ensures
        "{\"title\":"@.len() == 9 && "{\"title\":"@[0] == '{',
        ",\"author\":"@.len() == 10 && ",\"author\":"@[0] == ',',
        ",\"isbn\":"@.len() == 8 && ",\"isbn\":"@[0] == ',',
        ",\"publication_year\":"@.len() == 20 && ",\"publication_year\":"@[0] == ',',
        ",\"genre\":"@.len() == 9 && ",\"genre\":"@[0] == ',',
        ",\"status\":"@.len() == 10 && ",\"status\":"@[0] == ',',
        "}"@.len() == 1 && "}"@[0] == '}',
        "{\"books\":["@.len() == 10 && "{\"books\":["@[0] == '{',
        "],\"owner\":"@.len() == 10 && "],\"owner\":"@[0] == ']',
{
    reveal_strlit("{\"title\":");
    reveal_strlit(",\"author\":");
    reveal_strlit(",\"isbn\":");
    reveal_strlit(",\"publication_year\":");
    reveal_strlit(",\"genre\":");
    reveal_strlit(",\"status\":");
    reveal_strlit("}");
    reveal_strlit("{\"books\":[");
    reveal_strlit("],\"owner\":");
}

/// One book object flattened into a right-nested concatenation ending in
/// `rest`.
spec fn book_chain(b: BookView, rest: Seq<char>) -> Seq<char> {
    "{\"title\":"@ + (enc_string(b.title) + (",\"author\":"@ + (enc_string(b.author) + (
    ",\"isbn\":"@ + (enc_string(b.isbn) + (",\"publication_year\":"@ + (dec_digits(
        b.publication_year as nat,
    ) + (",\"genre\":"@ + (enc_genre(b.genre) + (",\"status\":"@ + (enc_status(b.status) + ("}"@
        + rest))))))))))))
}

/// The two readings of one book's text agree element for element.
proof fn lemma_book_chain(b: BookView, rest: Seq<char>)
    ensures
        enc_book(b) + rest == book_chain(b, rest),
{
    assert(enc_book(b) + rest =~= book_chain(b, rest));
}

/// A book object and what follows it are determined by the text.
proof fn lemma_enc_book_det(b1: BookView, b2: BookView, r1: Seq<char>, r2: Seq<char>)
    requires
        enc_book(b1) + r1 == enc_book(b2) + r2,
    ensures
        b1 == b2,
        r1 == r2,
{
    proof_of_layout();
    lemma_book_chain(b1, r1);
    lemma_book_chain(b2, r2);
    lemma_strip(
        "{\"title\":"@,
        enc_string(b1.title) + (",\"author\":"@ + (enc_string(b1.author) + (",\"isbn\":"@ + (
        enc_string(b1.isbn) + (",\"publication_year\":"@ + (dec_digits(b1.publication_year as nat)
            + (",\"genre\":"@ + (enc_genre(b1.genre) + (",\"status\":"@ + (enc_status(b1.status) + (
        "}"@ + r1))))))))))),
        "{\"title\":"@,
        enc_string(b2.title) + (",\"author\":"@ + (enc_string(b2.author) + (",\"isbn\":"@ + (
        enc_string(b2.isbn) + (",\"publication_year\":"@ + (dec_digits(b2.publication_year as nat)
            + (",\"genre\":"@ + (enc_genre(b2.genre) + (",\"status\":"@ + (enc_status(b2.status) + (
        "}"@ + r2))))))))))),
    );
    lemma_enc_string_det(
        b1.title,
        ",\"author\":"@ + (enc_string(b1.author) + (",\"isbn\":"@ + (enc_string(b1.isbn) + (
        ",\"publication_year\":"@ + (dec_digits(b1.publication_year as nat) + (",\"genre\":"@ + (
        enc_genre(b1.genre) + (",\"status\":"@ + (enc_status(b1.status) + ("}"@ + r1)))))))))),
        b2.title,
        ",\"author\":"@ + (enc_string(b2.author) + (",\"isbn\":"@ + (enc_string(b2.isbn) + (
        ",\"publication_year\":"@ + (dec_digits(b2.publication_year as nat) + (",\"genre\":"@ + (
        enc_genre(b2.genre) + (",\"status\":"@ + (enc_status(b2.status) + ("}"@ + r2)))))))))),
    );
    lemma_strip(
        ",\"author\":"@,
        enc_string(b1.author) + (",\"isbn\":"@ + (enc_string(b1.isbn) + (
        ",\"publication_year\":"@ + (dec_digits(b1.publication_year as nat) + (",\"genre\":"@ + (
        enc_genre(b1.genre) + (",\"status\":"@ + (enc_status(b1.status) + ("}"@ + r1))))))))),
        ",\"author\":"@,
        enc_string(b2.author) + (",\"isbn\":"@ + (enc_string(b2.isbn) + (
        ",\"publication_year\":"@ + (dec_digits(b2.publication_year as nat) + (",\"genre\":"@ + (
        enc_genre(b2.genre) + (",\"status\":"@ + (enc_status(b2.status) + ("}"@ + r2))))))))),
    );
    lemma_enc_string_det(
        b1.author,
        ",\"isbn\":"@ + (enc_string(b1.isbn) + (",\"publication_year\":"@ + (dec_digits(
            b1.publication_year as nat,
        ) + (",\"genre\":"@ + (enc_genre(b1.genre) + (",\"status\":"@ + (enc_status(b1.status) + (
        "}"@ + r1)))))))),
        b2.author,
        ",\"isbn\":"@ + (enc_string(b2.isbn) + (",\"publication_year\":"@ + (dec_digits(
            b2.publication_year as nat,
        ) + (",\"genre\":"@ + (enc_genre(b2.genre) + (",\"status\":"@ + (enc_status(b2.status) + (
        "}"@ + r2)))))))),
    );
    lemma_strip(
        ",\"isbn\":"@,
        enc_string(b1.isbn) + (",\"publication_year\":"@ + (dec_digits(b1.publication_year as nat)
            + (",\"genre\":"@ + (enc_genre(b1.genre) + (",\"status\":"@ + (enc_status(b1.status) + (
        "}"@ + r1))))))),
        ",\"isbn\":"@,
        enc_string(b2.isbn) + (",\"publication_year\":"@ + (dec_digits(b2.publication_year as nat)
            + (",\"genre\":"@ + (enc_genre(b2.genre) + (",\"status\":"@ + (enc_status(b2.status) + (
        "}"@ + r2))))))),
    );
    lemma_enc_string_det(
        b1.isbn,
        ",\"publication_year\":"@ + (dec_digits(b1.publication_year as nat) + (",\"genre\":"@ + (
        enc_genre(b1.genre) + (",\"status\":"@ + (enc_status(b1.status) + ("}"@ + r1)))))),
        b2.isbn,
        ",\"publication_year\":"@ + (dec_digits(b2.publication_year as nat) + (",\"genre\":"@ + (
        enc_genre(b2.genre) + (",\"status\":"@ + (enc_status(b2.status) + ("}"@ + r2)))))),
    );
    lemma_strip(
        ",\"publication_year\":"@,
        dec_digits(b1.publication_year as nat) + (",\"genre\":"@ + (enc_genre(b1.genre) + (
        ",\"status\":"@ + (enc_status(b1.status) + ("}"@ + r1))))),
        ",\"publication_year\":"@,
        dec_digits(b2.publication_year as nat) + (",\"genre\":"@ + (enc_genre(b2.genre) + (
        ",\"status\":"@ + (enc_status(b2.status) + ("}"@ + r2))))),
    );
    assert((",\"genre\":"@ + (enc_genre(b1.genre) + (",\"status\":"@ + (enc_status(b1.status) + (
    "}"@ + r1)))))[0] == ',');
    assert((",\"genre\":"@ + (enc_genre(b2.genre) + (",\"status\":"@ + (enc_status(b2.status) + (
    "}"@ + r2)))))[0] == ',');
    lemma_dd_prefix_det(
        b1.publication_year as nat,
        b2.publication_year as nat,
        ",\"genre\":"@ + (enc_genre(b1.genre) + (",\"status\":"@ + (enc_status(b1.status) + ("}"@
            + r1)))),
        ",\"genre\":"@ + (enc_genre(b2.genre) + (",\"status\":"@ + (enc_status(b2.status) + ("}"@
            + r2)))),
    );
    lemma_strip(
        ",\"genre\":"@,
        enc_genre(b1.genre) + (",\"status\":"@ + (enc_status(b1.status) + ("}"@ + r1))),
        ",\"genre\":"@,
        enc_genre(b2.genre) + (",\"status\":"@ + (enc_status(b2.status) + ("}"@ + r2))),
    );
    lemma_enc_genre_det(
        b1.genre,
        b2.genre,
        ",\"status\":"@ + (enc_status(b1.status) + ("}"@ + r1)),
        ",\"status\":"@ + (enc_status(b2.status) + ("}"@ + r2)),
    );
    lemma_strip(
        ",\"status\":"@,
        enc_status(b1.status) + ("}"@ + r1),
        ",\"status\":"@,
        enc_status(b2.status) + ("}"@ + r2),
    );
    lemma_enc_status_det(b1.status, b2.status, "}"@ + r1, "}"@ + r2);
    lemma_strip("}"@, r1, "}"@, r2);
}

/// The first character of a book's text is an opening brace.
proof fn lemma_enc_book_first(b: BookView)
    ensures
        enc_book(b).len() >= 1,
        enc_book(b)[0] == '{',
{
    proof_of_layout();
    assert(enc_book(b)[0] == "{\"title\":"@[0]);
}

/// A book array body bounded by a closing bracket, and what follows it,
/// are determined by the text.
proof fn lemma_enc_books_det(bs1: Seq<BookView>, bs2: Seq<BookView>, r1: Seq<char>, r2: Seq<char>)
    requires
        enc_books(bs1) + r1 == enc_books(bs2) + r2,
        r1.len() >= 1 && r1[0] == ']',
        r2.len() >= 1 && r2[0] == ']',
    ensures
        bs1 == bs2,
        r1 == r2,
    decreases bs1.len(),
{
    if bs1.len() == 0 && bs2.len() == 0 {
        assert(enc_books(bs1) =~= Seq::<char>::empty());
        assert(r1 =~= enc_books(bs1) + r1);
        assert(r2 =~= enc_books(bs2) + r2);
        assert(bs1 =~= bs2);
    } else if bs1.len() == 0 {
        lemma_enc_book_first(bs2[0]);
        assert((enc_books(bs1) + r1)[0] == r1[0]);
        assert((enc_books(bs2) + r2)[0] == enc_book(bs2[0])[0]);
        assert(false);
    } else if bs2.len() == 0 {
        lemma_enc_book_first(bs1[0]);
        assert((enc_books(bs2) + r2)[0] == r2[0]);
        assert((enc_books(bs1) + r1)[0] == enc_book(bs1[0])[0]);
        assert(false);
    } else {
        let tail1: Seq<char> = if bs1.len() == 1 {
            r1
        } else {
            seq![','] + (enc_books(bs1.drop_first()) + r1)
        };
        let tail2: Seq<char> = if bs2.len() == 1 {
            r2
        } else {
            seq![','] + (enc_books(bs2.drop_first()) + r2)
        };
        assert(enc_books(bs1) + r1 =~= enc_book(bs1[0]) + tail1);
        assert(enc_books(bs2) + r2 =~= enc_book(bs2[0]) + tail2);
        lemma_enc_book_det(bs1[0], bs2[0], tail1, tail2);
        if bs1.len() == 1 && bs2.len() == 1 {
            assert(bs1 =~= bs2);
        } else if bs1.len() == 1 {
            assert(tail1[0] == ']');
            assert(tail2[0] == ',');
            assert(false);
        } else if bs2.len() == 1 {
            assert(tail2[0] == ']');
            assert(tail1[0] == ',');
            assert(false);
        } else {
            lemma_strip(
                seq![','],
                enc_books(bs1.drop_first()) + r1,
                seq![','],
                enc_books(bs2.drop_first()) + r2,
            );
            lemma_enc_books_det(bs1.drop_first(), bs2.drop_first(), r1, r2);
            assert forall|i: int| 0 <= i < bs1.len() implies bs1[i] == bs2[i] by {
                if i > 0 {
                    assert(bs1[i] == bs1.drop_first()[i - 1]);
                    assert(bs2[i] == bs2.drop_first()[i - 1]);
                }
            }
            assert(bs1 =~= bs2);
        }
    }
}

/// Law: the canonical text determines the catalog — saving a catalog and
/// loading what was saved recovers the owner and every book, field for
/// field.
pub proof fn lemma_catalog_json_injective(v1: LibraryView, v2: LibraryView)
    requires
        catalog_json(v1) == catalog_json(v2),
    ensures
        v1 == v2,
{
    proof_of_layout();
    assert(catalog_json(v1) =~= "{\"books\":["@ + (enc_books(v1.books) + ("],\"owner\":"@ + (
    enc_string(v1.owner) + "}"@))));
    assert(catalog_json(v2) =~= "{\"books\":["@ + (enc_books(v2.books) + ("],\"owner\":"@ + (
    enc_string(v2.owner) + "}"@))));
    lemma_strip(
        "{\"books\":["@,
        enc_books(v1.books) + ("],\"owner\":"@ + (enc_string(v1.owner) + "}"@)),
        "{\"books\":["@,
        enc_books(v2.books) + ("],\"owner\":"@ + (enc_string(v2.owner) + "}"@)),
    );
    assert(("],\"owner\":"@ + (enc_string(v1.owner) + "}"@))[0] == ']');
    assert(("],\"owner\":"@ + (enc_string(v2.owner) + "}"@))[0] == ']');
    lemma_enc_books_det(
        v1.books,
        v2.books,
        "],\"owner\":"@ + (enc_string(v1.owner) + "}"@),
        "],\"owner\":"@ + (enc_string(v2.owner) + "}"@),
    );
    lemma_strip(
        "],\"owner\":"@,
        enc_string(v1.owner) + "}"@,
        "],\"owner\":"@,
        enc_string(v2.owner) + "}"@,
    );
    lemma_enc_string_det(v1.owner, "}"@, v2.owner, "}"@);
}

/// A recognized prefix advances the position by exactly its length.
proof fn lemma_step(s: Seq<char>, i: int, j: int, x: Seq<char>, y: Seq<char>)
    requires
        0 <= i <= j <= s.len(),
        s.subrange(i, j) == x,
        s.skip(i) == x + y,
    ensures
        j == i + x.len(),
        s.skip(j) == y,
{
    assert(s.skip(i).len() == s.len() - i);
    assert(j - i == x.len());
    assert forall|k: int| 0 <= k < s.len() - j implies s.skip(j)[k] == y[k] by {
        assert(s.skip(j)[k] == s[j + k]);
        assert(s.skip(i)[j - i + k] == s[j + k]);
        assert((x + y)[j - i + k] == y[k]);
    }
    assert(s.skip(j) =~= y);
}

/// What stands at a position is a prefix of what remains there.
proof fn lemma_prefix_at(s: Seq<char>, i: int, x: Seq<char>, y: Seq<char>)
    requires
        0 <= i <= s.len(),
        s.skip(i) == x + y,
    ensures
        i + x.len() <= s.len(),
        s.subrange(i, i + x.len()) == x,
{
    assert(s.skip(i).len() == s.len() - i);
    assert forall|k: int| 0 <= k < x.len() implies s.subrange(i, i + x.len())[k] == x[k] by {
        assert(s.subrange(i, i + x.len())[k] == s[i + k]);
        assert(s.skip(i)[k] == s[i + k]);
        assert((x + y)[k] == x[k]);
    }
    assert(s.subrange(i, i + x.len() as int) =~= x);
}

/// Recognize the literal `lit` at position `i`.
fn expect_lit(s: &Vec<char>, i: usize, lit: &str) -> (r: Option<usize>)
    requires
        i <= s@.len(),
    ensures
        match r {
            Some(j) => i <= j <= s@.len() && j == i + lit@.len() && s@.subrange(
                i as int,
                j as int,
            ) == lit@,
            None => !(i + lit@.len() <= s@.len() && s@.subrange(i as int, i + lit@.len() as int)
                == lit@),
        },
{
    let v = str_to_chars(lit);
    let m = v.len();
    let n = s.len();
    if m > n - i {
        return None;
    }
    let mut k: usize = 0;
    while k < m
        invariant
            k <= m,
            m == v@.len(),
            v@ == lit@,
            i + m <= n,
            n == s@.len(),
            forall|t: int| 0 <= t < k ==> s@[i + t] == lit@[t],
        decreases m - k,
    {
        if s[i + k] != v[k] {
            proof {
                assert(s@.subrange(i as int, i + lit@.len() as int)[k as int] != lit@[k as int]);
            }
            return None;
        }
        k += 1;
    }
    proof {
        assert(s@.subrange(i as int, i + lit@.len() as int) =~= lit@);
    }
    Some(i + m)
}

/// Decide whether `c` is a decimal digit.
fn is_digit(c: char) -> (r: bool)
    ensures
        r == is_digit_char(c),
{
    c == '0' || c == '1' || c == '2' || c == '3' || c == '4' || c == '5' || c == '6' || c == '7'
        || c == '8' || c == '9'
}

/// The value of the digit `c`.
fn dval(c: char) -> (r: u16)
    requires
        is_digit_char(c),
    ensures
        r == digit_val(c),
        r < 10,
{
    if c == '0' {
        0
    } else if c == '1' {
        1
    } else if c == '2' {
        2
    } else if c == '3' {
        3
    } else if c == '4' {
        4
    } else if c == '5' {
        5
    } else if c == '6' {
        6
    } else if c == '7' {
        7
    } else if c == '8' {
        8
    } else {
        9
    }
}

/// A digit character renders back to itself.
proof fn lemma_digit_char_roundtrip(c: char)
    requires
        is_digit_char(c),
    ensures
        dchar(digit_val(c)) == c,
{
}

/// Read a quoted JSON string at position `i`.
fn parse_string(s: &Vec<char>, i: usize) -> (r: Option<(Vec<char>, usize)>)
    requires
        i <= s@.len(),
    ensures
        match r {
            Some(p) => i < p.1 <= s@.len() && s@.subrange(i as int, p.1 as int) == enc_string(
                p.0@,
            ),
            None => forall|t: Seq<char>, rest: Seq<char>|
                s@.skip(i as int) != #[trigger] (enc_string(t) + rest),
        },
{
    let n = s.len();
    if i == n || s[i] != '"' {
        proof {
            assert forall|t: Seq<char>, rest: Seq<char>|
                s@.skip(i as int) != #[trigger] (enc_string(t) + rest) by {
                if s@.skip(i as int) == enc_string(t) + rest {
                    assert((enc_string(t) + rest).len() >= 2);
                    assert(s@.skip(i as int).len() == s@.len() - i);
                    assert(i < s@.len());
                    assert((enc_string(t) + rest)[0] == '"');
                    assert(s@.skip(i as int)[0] == s@[i as int]);
                    assert(false);
                }
            }
        }
        return None;
    }
    let mut acc: Vec<char> = Vec::new();
    let mut j = i + 1;
    proof {
        assert(escape(acc@) == Seq::<char>::empty());
        assert(s@.subrange(i as int + 1, j as int) =~= Seq::<char>::empty());
    }
    loop
        invariant
            i + 1 <= j <= n,
            n == s@.len(),
            i < n,
            s@[i as int] == '"',
            escape(acc@) == s@.subrange(i as int + 1, j as int),
        decreases n - j,
    {
        proof {
            assert forall|t: Seq<char>, rest: Seq<char>|
                s@.skip(i as int) == enc_string(t) + rest implies escape(acc@) + s@.skip(
                j as int,
            ) == escape(t) + seq!['"'] + rest by {
                assert(s@.skip(i as int).drop_first() =~= s@.skip(i as int + 1));
                assert((enc_string(t) + rest).drop_first() =~= escape(t) + seq!['"'] + rest);
                assert(s@.skip(i as int + 1) =~= s@.subrange(i as int + 1, j as int) + s@.skip(
                    j as int,
                ));
                assert(escape(acc@) + s@.skip(j as int) =~= escape(t) + seq!['"'] + rest);
            }
        }
        if j == n {
            proof {
                assert forall|t: Seq<char>, rest: Seq<char>|
                    s@.skip(i as int) != #[trigger] (enc_string(t) + rest) by {
                    if s@.skip(i as int) == enc_string(t) + rest {
                        lemma_esc_prefix(acc@, s@.skip(j as int), t, rest);
                        assert(s@.skip(j as int).len() == 0);
                        assert(false);
                    }
                }
            }
            return None;
        }
        let c = s[j];
        proof {
            assert(s@.skip(j as int)[0] == s@[j as int]);
        }
        if c == '"' {
            proof {
                assert(s@.subrange(i as int, j + 1) =~= seq!['"'] + escape(acc@) + seq!['"']);
            }
            return Some((acc, j + 1));
        } else if c == '\\' {
            if j + 1 == n {
                proof {
                    assert forall|t: Seq<char>, rest: Seq<char>|
                        s@.skip(i as int) != #[trigger] (enc_string(t) + rest) by {
                        if s@.skip(i as int) == enc_string(t) + rest {
                            lemma_esc_prefix(acc@, s@.skip(j as int), t, rest);
                            if acc@ == t {
                                assert(s@.skip(j as int)[0] == '"');
                                assert(false);
                            } else {
                                let c0 = t[acc@.len() as int];
                                if c0 == '"' || c0 == '\\' {
                                    assert(s@.skip(j as int).len() >= 2);
                                    assert(false);
                                } else {
                                    assert(s@.skip(j as int)[0] == c0);
                                    assert(false);
                                }
                            }
                        }
                    }
                }
                return None;
            }
            let d = s[j + 1];
            proof {
                assert(s@.skip(j as int)[1] == s@[j + 1]);
            }
            if d == '"' || d == '\\' {
                let ghost prev = acc@;
                acc.push(d);
                proof {
                    lemma_escape_snoc(prev, d);
                    assert(esc_char(d) =~= seq!['\\', d]);
                    assert(s@.subrange(i as int + 1, j + 2) =~= s@.subrange(i as int + 1, j as int)
                        + seq!['\\', d]);
                }
                j += 2;
            } else {
                proof {
                    assert forall|t: Seq<char>, rest: Seq<char>|
                        s@.skip(i as int) != #[trigger] (enc_string(t) + rest) by {
                        if s@.skip(i as int) == enc_string(t) + rest {
                            lemma_esc_prefix(acc@, s@.skip(j as int), t, rest);
                            if acc@ == t {
                                assert(s@.skip(j as int)[0] == '"');
                                assert(false);
                            } else {
                                let c0 = t[acc@.len() as int];
                                if c0 == '"' || c0 == '\\' {
                                    assert(s@.skip(j as int)[0] == '\\');
                                    assert(s@.skip(j as int)[1] == c0);
                                    assert(false);
                                } else {
                                    assert(s@.skip(j as int)[0] == c0);
                                    assert(false);
                                }
                            }
                        }
                    }
                }
                return None;
            }
        } else {
            let ghost prev = acc@;
            acc.push(c);
            proof {
                lemma_escape_snoc(prev, c);
                assert(esc_char(c) =~= seq![c]);
                assert(s@.subrange(i as int + 1, j + 1) =~= s@.subrange(i as int + 1, j as int)
                    + seq![c]);
            }
            j += 1;
        }
    }
}

/// Read a decimal number at position `i`: a maximal digit run without a
/// leading zero, fitting a `u16`.
fn parse_u16(s: &Vec<char>, i: usize) -> (r: Option<(u16, usize)>)
    requires
        i <= s@.len(),
    ensures
        match r {
            Some(p) => i < p.1 <= s@.len() && s@.subrange(i as int, p.1 as int) == dec_digits(
                p.0 as nat,
            ) && (p.0 != 0 ==> (p.1 == s@.len() || !is_digit_char(s@[p.1 as int]))),
            None => forall|m: u16, rest: Seq<char>|
                (rest.len() == 0 || !is_digit_char(rest[0])) ==> s@.skip(i as int) != #[trigger] (
                dec_digits(m as nat) + rest),
        },
{
    let n = s.len();
    if i == n || !is_digit(s[i]) {
        proof {
            assert forall|m: u16, rest: Seq<char>|
                (rest.len() == 0 || !is_digit_char(rest[0])) implies s@.skip(i as int)
                != #[trigger] (dec_digits(m as nat) + rest) by {
                if s@.skip(i as int) == dec_digits(m as nat) + rest {
                    lemma_dd_digits(m as nat);
                    assert((dec_digits(m as nat) + rest).len() >= 1);
                    assert(s@.skip(i as int).len() == s@.len() - i);
                    assert(i < s@.len());
                    assert((dec_digits(m as nat) + rest)[0] == dec_digits(m as nat)[0]);
                    assert(s@.skip(i as int)[0] == s@[i as int]);
                    assert(false);
                }
            }
        }
        return None;
    }
    let c0 = s[i];
    proof {
        lemma_digit_char_roundtrip(c0);
        assert(s@.subrange(i as int, i + 1) =~= seq![c0]);
    }
    if c0 == '0' {
        return Some((0, i + 1));
    }
    let mut val: u32 = dval(c0) as u32;
    let mut j = i + 1;
    loop
        invariant
            i < j <= n,
            n == s@.len(),
            1 <= val <= 65535,
            dec_digits(val as nat) == s@.subrange(i as int, j as int),
        decreases n - j,
    {
        if j == n {
            return Some((val as u16, j));
        }
        let c = s[j];
        if !is_digit(c) {
            return Some((val as u16, j));
        }
        let d = dval(c) as u32;
        let nv = val * 10 + d;
        proof {
            lemma_dd_append(val as nat, d as nat);
            lemma_digit_char_roundtrip(c);
            assert(s@.skip(j as int)[0] == s@[j as int]);
            assert(s@.subrange(i as int, j + 1) =~= s@.subrange(i as int, j as int).push(c));
            assert(dec_digits(nv as nat) =~= s@.subrange(i as int, j + 1));
        }
        if nv > 65535 {
            proof {
                assert forall|m: u16, rest: Seq<char>|
                    (rest.len() == 0 || !is_digit_char(rest[0])) implies s@.skip(i as int)
                    != #[trigger] (dec_digits(m as nat) + rest) by {
                    if s@.skip(i as int) == dec_digits(m as nat) + rest {
                        lemma_dd_digits(m as nat);
                        lemma_dd_digits(nv as nat);
                        let la = dec_digits(nv as nat).len() as int;
                        let lb = dec_digits(m as nat).len() as int;
                        assert(s@.skip(i as int).len() == s@.len() - i);
                        assert(la == j + 1 - i);
                        if la > lb {
                            if rest.len() == 0 {
                                assert(s@.skip(i as int).len() == lb);
                                assert(false);
                            } else {
                                assert(s@.skip(i as int)[lb] == rest[0]);
                                assert(s@.skip(i as int)[lb] == s@[i + lb]);
                                assert(dec_digits(nv as nat)[lb] == s@.subrange(i as int, j + 1)[lb]);
                                assert(s@.subrange(i as int, j + 1)[lb] == s@[i + lb]);
                                assert(is_digit_char(dec_digits(nv as nat)[lb]));
                                assert(false);
                            }
                        } else {
                            assert forall|k: int| 0 <= k < la implies dec_digits(nv as nat)[k]
                                == dec_digits(m as nat).subrange(0, la)[k] by {
                                assert(dec_digits(nv as nat)[k] == s@.subrange(i as int, j + 1)[k]);
                                assert(s@.subrange(i as int, j + 1)[k] == s@[i + k]);
                                assert(s@.skip(i as int)[k] == s@[i + k]);
                                assert((dec_digits(m as nat) + rest)[k] == dec_digits(m as nat)[k]);
                            }
                            assert(dec_digits(nv as nat) =~= dec_digits(m as nat).subrange(0, la));
                            lemma_dd_take(nv as nat, m as nat, la);
                            assert(false);
                        }
                    }
                }
            }
            return None;
        }
        val = nv;
        j += 1;
    }
}

/// Read a quoted genre tag at position `i`.
fn parse_genre(s: &Vec<char>, i: usize) -> (r: Option<(Genre, usize)>)
    requires
        i <= s@.len(),
    ensures
        match r {
            Some(p) => i < p.1 <= s@.len() && s@.subrange(i as int, p.1 as int) == enc_genre(p.0),
            None => forall|g: Genre, rest: Seq<char>|
                s@.skip(i as int) != #[trigger] (enc_genre(g) + rest),
        },
{
    proof {
        lemma_genre_literals();
    }
    match expect_lit(s, i, "\"Fiction\"") {
        Some(j) => {
            return Some((Genre::Fiction, j));
        },
        None => {},
    }
    match expect_lit(s, i, "\"NonFiction\"") {
        Some(j) => {
            return Some((Genre::NonFiction, j));
        },
        None => {},
    }
    match expect_lit(s, i, "\"ScienceFiction\"") {
        Some(j) => {
            return Some((Genre::ScienceFiction, j));
        },
        None => {},
    }
    match expect_lit(s, i, "\"Mystery\"") {
        Some(j) => {
            return Some((Genre::Mystery, j));
        },
        None => {},
    }
    proof {
        assert forall|g: Genre, rest: Seq<char>|
            s@.skip(i as int) != #[trigger] (enc_genre(g) + rest) by {
            if s@.skip(i as int) == enc_genre(g) + rest {
                lemma_prefix_at(s@, i as int, enc_genre(g), rest);
            }
        }
    }
    None
}

/// The quoted tag literals coincide with the quoted spec-level tags.
proof fn lemma_genre_literals()
    ensures
        "\"Fiction\""@ == enc_genre(Genre::Fiction),
        "\"NonFiction\""@ == enc_genre(Genre::NonFiction),
        "\"ScienceFiction\""@ == enc_genre(Genre::ScienceFiction),
        "\"Mystery\""@ == enc_genre(Genre::Mystery),
{
    proof_of_tags();
    reveal_strlit("\"Fiction\"");
    reveal_strlit("\"NonFiction\"");
    reveal_strlit("\"ScienceFiction\"");
    reveal_strlit("\"Mystery\"");
    reveal_strlit("Fiction");
    reveal_strlit("NonFiction");
    reveal_strlit("ScienceFiction");
    reveal_strlit("Mystery");
    assert("\"Fiction\""@ =~= enc_genre(Genre::Fiction));
    assert("\"NonFiction\""@ =~= enc_genre(Genre::NonFiction));
    assert("\"ScienceFiction\""@ =~= enc_genre(Genre::ScienceFiction));
    assert("\"Mystery\""@ =~= enc_genre(Genre::Mystery));
}

/// Read a quoted status tag at position `i`.
fn parse_status(s: &Vec<char>, i: usize) -> (r: Option<(Status, usize)>)
    requires
        i <= s@.len(),
    ensures
        match r {
            Some(p) => i < p.1 <= s@.len() && s@.subrange(i as int, p.1 as int) == enc_status(p.0),
            None => forall|st: Status, rest: Seq<char>|
                s@.skip(i as int) != #[trigger] (enc_status(st) + rest),
        },
{
    proof {
        lemma_status_literals();
    }
    match expect_lit(s, i, "\"Available\"") {
        Some(j) => {
            return Some((Status::Available, j));
        },
        None => {},
    }
    match expect_lit(s, i, "\"CheckedOut\"") {
        Some(j) => {
            return Some((Status::CheckedOut, j));
        },
        None => {},
    }
    match expect_lit(s, i, "\"Lost\"") {
        Some(j) => {
            return Some((Status::Lost, j));
        },
        None => {},
    }
    proof {
        assert forall|st: Status, rest: Seq<char>|
            s@.skip(i as int) != #[trigger] (enc_status(st) + rest) by {
            if s@.skip(i as int) == enc_status(st) + rest {
                lemma_prefix_at(s@, i as int, enc_status(st), rest);
            }
        }
    }
    None
}

/// The quoted status literals coincide with the quoted spec-level tags.
proof fn lemma_status_literals()
    ensures
        "\"Available\""@ == enc_status(Status::Available),
        "\"CheckedOut\""@ == enc_status(Status::CheckedOut),
        "\"Lost\""@ == enc_status(Status::Lost),
{
    proof_of_tags();
    reveal_strlit("\"Available\"");
    reveal_strlit("\"CheckedOut\"");
    reveal_strlit("\"Lost\"");
    reveal_strlit("Available");
    reveal_strlit("CheckedOut");
    reveal_strlit("Lost");
    assert("\"Available\""@ =~= enc_status(Status::Available));
    assert("\"CheckedOut\""@ =~= enc_status(Status::CheckedOut));
    assert("\"Lost\""@ =~= enc_status(Status::Lost));
}

/// The first half of a book object: the three quoted text fields, up to
/// and including the year label.
pub open spec fn enc_book_head(t: Seq<char>, a: Seq<char>, isbn: Seq<char>) -> Seq<char> {
    "{\"title\":"@ + enc_string(t) + ",\"author\":"@ + enc_string(a) + ",\"isbn\":"@ + enc_string(
        isbn,
    ) + ",\"publication_year\":"@
}

/// The second half of a book object: year, tags and the closing brace.
pub open spec fn enc_book_tail(y: u16, g: Genre, st: Status) -> Seq<char> {
    dec_digits(y as nat) + ",\"genre\":"@ + enc_genre(g) + ",\"status\":"@ + enc_status(st) + "}"@
}

/// A book's text is its head followed by its tail.
proof fn lemma_book_split(b: BookView, rest: Seq<char>)
    ensures
        enc_book(b) + rest == enc_book_head(b.title, b.author, b.isbn) + (enc_book_tail(
            b.publication_year,
            b.genre,
            b.status,
        ) + rest),
{
    assert(enc_book(b) + rest =~= enc_book_head(b.title, b.author, b.isbn) + (enc_book_tail(
        b.publication_year,
        b.genre,
        b.status,
    ) + rest));
}

/// A book head and what follows it are determined by the text.
proof fn lemma_enc_book_head_det(
    t1: Seq<char>,
    a1: Seq<char>,
    i1: Seq<char>,
    r1: Seq<char>,
    t2: Seq<char>,
    a2: Seq<char>,
    i2: Seq<char>,
    r2: Seq<char>,
)
    requires
        enc_book_head(t1, a1, i1) + r1 == enc_book_head(t2, a2, i2) + r2,
    ensures
        t1 == t2,
        a1 == a2,
        i1 == i2,
        r1 == r2,
{
    assert(enc_book_head(t1, a1, i1) + r1 =~= "{\"title\":"@ + (enc_string(t1) + (",\"author\":"@
        + (enc_string(a1) + (",\"isbn\":"@ + (enc_string(i1) + (",\"publication_year\":"@
        + r1)))))));
    assert(enc_book_head(t2, a2, i2) + r2 =~= "{\"title\":"@ + (enc_string(t2) + (",\"author\":"@
        + (enc_string(a2) + (",\"isbn\":"@ + (enc_string(i2) + (",\"publication_year\":"@
        + r2)))))));
    lemma_strip(
        "{\"title\":"@,
        enc_string(t1) + (",\"author\":"@ + (enc_string(a1) + (",\"isbn\":"@ + (enc_string(i1) + (
        ",\"publication_year\":"@ + r1))))),
        "{\"title\":"@,
        enc_string(t2) + (",\"author\":"@ + (enc_string(a2) + (",\"isbn\":"@ + (enc_string(i2) + (
        ",\"publication_year\":"@ + r2))))),
    );
    lemma_enc_string_det(
        t1,
        ",\"author\":"@ + (enc_string(a1) + (",\"isbn\":"@ + (enc_string(i1) + (
        ",\"publication_year\":"@ + r1)))),
        t2,
        ",\"author\":"@ + (enc_string(a2) + (",\"isbn\":"@ + (enc_string(i2) + (
        ",\"publication_year\":"@ + r2)))),
    );
    lemma_strip(
        ",\"author\":"@,
        enc_string(a1) + (",\"isbn\":"@ + (enc_string(i1) + (",\"publication_year\":"@ + r1))),
        ",\"author\":"@,
        enc_string(a2) + (",\"isbn\":"@ + (enc_string(i2) + (",\"publication_year\":"@ + r2))),
    );
    lemma_enc_string_det(
        a1,
        ",\"isbn\":"@ + (enc_string(i1) + (",\"publication_year\":"@ + r1)),
        a2,
        ",\"isbn\":"@ + (enc_string(i2) + (",\"publication_year\":"@ + r2)),
    );
    lemma_strip(
        ",\"isbn\":"@,
        enc_string(i1) + (",\"publication_year\":"@ + r1),
        ",\"isbn\":"@,
        enc_string(i2) + (",\"publication_year\":"@ + r2),
    );
    lemma_enc_string_det(i1, ",\"publication_year\":"@ + r1, i2, ",\"publication_year\":"@ + r2);
    lemma_strip(",\"publication_year\":"@, r1, ",\"publication_year\":"@, r2);
}

/// A book tail and what follows it are determined by the text.
#[verifier::rlimit(100)]
proof fn lemma_enc_book_tail_det(
    y1: u16,
    g1: Genre,
    s1: Status,
    r1: Seq<char>,
    y2: u16,
    g2: Genre,
    s2: Status,
    r2: Seq<char>,
)
    requires
        enc_book_tail(y1, g1, s1) + r1 == enc_book_tail(y2, g2, s2) + r2,
    ensures
        y1 == y2,
        g1 == g2,
        s1 == s2,
        r1 == r2,
{
    proof_of_layout();
    assert(enc_book_tail(y1, g1, s1) + r1 =~= dec_digits(y1 as nat) + (",\"genre\":"@ + (enc_genre(
        g1,
    ) + (",\"status\":"@ + (enc_status(s1) + ("}"@ + r1))))));
    assert(enc_book_tail(y2, g2, s2) + r2 =~= dec_digits(y2 as nat) + (",\"genre\":"@ + (enc_genre(
        g2,
    ) + (",\"status\":"@ + (enc_status(s2) + ("}"@ + r2))))));
    assert((",\"genre\":"@ + (enc_genre(g1) + (",\"status\":"@ + (enc_status(s1) + ("}"@
        + r1)))))[0] == ',');
    assert((",\"genre\":"@ + (enc_genre(g2) + (",\"status\":"@ + (enc_status(s2) + ("}"@
        + r2)))))[0] == ',');
    lemma_dd_prefix_det(
        y1 as nat,
        y2 as nat,
        ",\"genre\":"@ + (enc_genre(g1) + (",\"status\":"@ + (enc_status(s1) + ("}"@ + r1)))),
        ",\"genre\":"@ + (enc_genre(g2) + (",\"status\":"@ + (enc_status(s2) + ("}"@ + r2)))),
    );
    lemma_strip(
        ",\"genre\":"@,
        enc_genre(g1) + (",\"status\":"@ + (enc_status(s1) + ("}"@ + r1))),
        ",\"genre\":"@,
        enc_genre(g2) + (",\"status\":"@ + (enc_status(s2) + ("}"@ + r2))),
    );
    lemma_enc_genre_det(
        g1,
        g2,
        ",\"status\":"@ + (enc_status(s1) + ("}"@ + r1)),
        ",\"status\":"@ + (enc_status(s2) + ("}"@ + r2)),
    );
    lemma_strip(
        ",\"status\":"@,
        enc_status(s1) + ("}"@ + r1),
        ",\"status\":"@,
        enc_status(s2) + ("}"@ + r2),
    );
    lemma_enc_status_det(s1, s2, "}"@ + r1, "}"@ + r2);
    lemma_strip("}"@, r1, "}"@, r2);
}

/// Read the first half of a book object at position `i`.
#[verifier::rlimit(100)]
fn parse_book_head(s: &Vec<char>, i: usize) -> (r: Option<(Vec<char>, Vec<char>, Vec<char>, usize)>)
    requires
        i <= s@.len(),
    ensures
        match r {
            Some(p) => i < p.3 <= s@.len() && s@.subrange(i as int, p.3 as int) == enc_book_head(
                p.0@,
                p.1@,
                p.2@,
            ),
            None => forall|b: BookView, rest: Seq<char>|
                s@.skip(i as int) != #[trigger] (enc_book(b) + rest),
        },
{
    let ghost premise = exists|b: BookView, rest: Seq<char>|
        s@.skip(i as int) == #[trigger] (enc_book(b) + rest);
    let ghost (gb, grest): (BookView, Seq<char>) = if premise {
        choose|b: BookView, rest: Seq<char>| s@.skip(i as int) == #[trigger] (enc_book(b) + rest)
    } else {
        arbitrary()
    };
    let ghost t7: Seq<char> = enc_book_tail(gb.publication_year, gb.genre, gb.status) + grest;
    let ghost t6: Seq<char> = ",\"publication_year\":"@ + t7;
    let ghost t5: Seq<char> = enc_string(gb.isbn) + t6;
    let ghost t4: Seq<char> = ",\"isbn\":"@ + t5;
    let ghost t3: Seq<char> = enc_string(gb.author) + t4;
    let ghost t2: Seq<char> = ",\"author\":"@ + t3;
    let ghost t1: Seq<char> = enc_string(gb.title) + t2;
    let ghost t0: Seq<char> = "{\"title\":"@ + t1;
    proof {
        if premise {
            lemma_book_split(gb, grest);
            assert(enc_book_head(gb.title, gb.author, gb.isbn) + t7 =~= t0);
            assert(s@.skip(i as int) == t0);
        }
    }
    let j1 = match expect_lit(s, i, "{\"title\":") {
        Some(j) => j,
        None => {
            proof {
                assert forall|b: BookView, rest: Seq<char>|
                    s@.skip(i as int) != #[trigger] (enc_book(b) + rest) by {
                    if s@.skip(i as int) == enc_book(b) + rest {
                        assert(premise);
                        lemma_prefix_at(s@, i as int, "{\"title\":"@, t1);
                        assert(false);
                    }
                }
            }
            return None;
        },
    };
    proof {
        if premise {
            lemma_step(s@, i as int, j1 as int, "{\"title\":"@, t1);
        }
    }
    let (title, j2) = match parse_string(s, j1) {
        Some(p) => p,
        None => {
            proof {
                assert forall|b: BookView, rest: Seq<char>|
                    s@.skip(i as int) != #[trigger] (enc_book(b) + rest) by {
                    if s@.skip(i as int) == enc_book(b) + rest {
                        assert(premise);
                        assert(s@.skip(j1 as int) == enc_string(gb.title) + t2);
                        assert(false);
                    }
                }
            }
            return None;
        },
    };
    proof {
        if premise {
            assert(s@.skip(j1 as int) =~= s@.subrange(j1 as int, j2 as int) + s@.skip(j2 as int));
            lemma_enc_string_det(title@, s@.skip(j2 as int), gb.title, t2);
            assert(title@ == gb.title && s@.skip(j2 as int) == t2);
        }
    }
    let j3 = match expect_lit(s, j2, ",\"author\":") {
        Some(j) => j,
        None => {
            proof {
                assert forall|b: BookView, rest: Seq<char>|
                    s@.skip(i as int) != #[trigger] (enc_book(b) + rest) by {
                    if s@.skip(i as int) == enc_book(b) + rest {
                        assert(premise);
                        lemma_prefix_at(s@, j2 as int, ",\"author\":"@, t3);
                        assert(false);
                    }
                }
            }
            return None;
        },
    };
    proof {
        if premise {
            lemma_step(s@, j2 as int, j3 as int, ",\"author\":"@, t3);
        }
    }
    let (author, j4) = match parse_string(s, j3) {
        Some(p) => p,
        None => {
            proof {
                assert forall|b: BookView, rest: Seq<char>|
                    s@.skip(i as int) != #[trigger] (enc_book(b) + rest) by {
                    if s@.skip(i as int) == enc_book(b) + rest {
                        assert(premise);
                        assert(s@.skip(j3 as int) == enc_string(gb.author) + t4);
                        assert(false);
                    }
                }
            }
            return None;
        },
    };
    proof {
        if premise {
            assert(s@.skip(j3 as int) =~= s@.subrange(j3 as int, j4 as int) + s@.skip(j4 as int));
            lemma_enc_string_det(author@, s@.skip(j4 as int), gb.author, t4);
            assert(author@ == gb.author && s@.skip(j4 as int) == t4);
        }
    }
    let j5 = match expect_lit(s, j4, ",\"isbn\":") {
        Some(j) => j,
        None => {
            proof {
                assert forall|b: BookView, rest: Seq<char>|
                    s@.skip(i as int) != #[trigger] (enc_book(b) + rest) by {
                    if s@.skip(i as int) == enc_book(b) + rest {
                        assert(premise);
                        lemma_prefix_at(s@, j4 as int, ",\"isbn\":"@, t5);
                        assert(false);
                    }
                }
            }
            return None;
        },
    };
    proof {
        if premise {
            lemma_step(s@, j4 as int, j5 as int, ",\"isbn\":"@, t5);
        }
    }
    let (isbn, j6) = match parse_string(s, j5) {
        Some(p) => p,
        None => {
            proof {
                assert forall|b: BookView, rest: Seq<char>|
                    s@.skip(i as int) != #[trigger] (enc_book(b) + rest) by {
                    if s@.skip(i as int) == enc_book(b) + rest {
                        assert(premise);
                        assert(s@.skip(j5 as int) == enc_string(gb.isbn) + t6);
                        assert(false);
                    }
                }
            }
            return None;
        },
    };
    proof {
        if premise {
            assert(s@.skip(j5 as int) =~= s@.subrange(j5 as int, j6 as int) + s@.skip(j6 as int));
            lemma_enc_string_det(isbn@, s@.skip(j6 as int), gb.isbn, t6);
            assert(isbn@ == gb.isbn && s@.skip(j6 as int) == t6);
        }
    }
    let j7 = match expect_lit(s, j6, ",\"publication_year\":") {
        Some(j) => j,
        None => {
            proof {
                assert forall|b: BookView, rest: Seq<char>|
                    s@.skip(i as int) != #[trigger] (enc_book(b) + rest) by {
                    if s@.skip(i as int) == enc_book(b) + rest {
                        assert(premise);
                        lemma_prefix_at(s@, j6 as int, ",\"publication_year\":"@, t7);
                        assert(false);
                    }
                }
            }
            return None;
        },
    };
    proof {
        assert(s@.subrange(i as int, j2 as int) =~= s@.subrange(i as int, j1 as int) + s@.subrange(
            j1 as int,
            j2 as int,
        ));
        assert(s@.subrange(i as int, j4 as int) =~= s@.subrange(i as int, j2 as int) + s@.subrange(
            j2 as int,
            j3 as int,
        ) + s@.subrange(j3 as int, j4 as int));
        assert(s@.subrange(i as int, j6 as int) =~= s@.subrange(i as int, j4 as int) + s@.subrange(
            j4 as int,
            j5 as int,
        ) + s@.subrange(j5 as int, j6 as int));
        assert(s@.subrange(i as int, j7 as int) =~= s@.subrange(i as int, j6 as int) + s@.subrange(
            j6 as int,
            j7 as int,
        ));
        assert(s@.subrange(i as int, j7 as int) =~= enc_book_head(title@, author@, isbn@));
    }
    Some((title, author, isbn, j7))
}

/// Read the second half of a book object at position `i`.
#[verifier::rlimit(100)]
fn parse_book_tail(s: &Vec<char>, i: usize) -> (r: Option<(u16, Genre, Status, usize)>)
    requires
        i <= s@.len(),
    ensures
        match r {
            Some(p) => i < p.3 <= s@.len() && s@.subrange(i as int, p.3 as int) == enc_book_tail(
                p.0,
                p.1,
                p.2,
            ),
            None => forall|y: u16, g: Genre, st: Status, rest: Seq<char>|
                s@.skip(i as int) != #[trigger] (enc_book_tail(y, g, st) + rest),
        },
{
    let ghost premise = exists|y: u16, g: Genre, st: Status, rest: Seq<char>|
        s@.skip(i as int) == #[trigger] (enc_book_tail(y, g, st) + rest);
    let ghost (gy, gg, gst, grest): (u16, Genre, Status, Seq<char>) = if premise {
        choose|y: u16, g: Genre, st: Status, rest: Seq<char>|
            s@.skip(i as int) == #[trigger] (enc_book_tail(y, g, st) + rest)
    } else {
        arbitrary()
    };
    let ghost t5: Seq<char> = "}"@ + grest;
    let ghost t4: Seq<char> = enc_status(gst) + t5;
    let ghost t3: Seq<char> = ",\"status\":"@ + t4;
    let ghost t2: Seq<char> = enc_genre(gg) + t3;
    let ghost t1: Seq<char> = ",\"genre\":"@ + t2;
    let ghost t0: Seq<char> = dec_digits(gy as nat) + t1;
    proof {
        if premise {
            assert(enc_book_tail(gy, gg, gst) + grest =~= t0);
            assert(s@.skip(i as int) == t0);
            proof_of_layout();
            assert(t1[0] == ',');
        }
    }
    let (year, j1) = match parse_u16(s, i) {
        Some(p) => p,
        None => {
            proof {
                assert forall|y: u16, g: Genre, st: Status, rest: Seq<char>|
                    s@.skip(i as int) != #[trigger] (enc_book_tail(y, g, st) + rest) by {
                    if s@.skip(i as int) == enc_book_tail(y, g, st) + rest {
                        assert(premise);
                        assert(s@.skip(i as int) == dec_digits(gy as nat) + t1);
                        assert(t1.len() > 0 && !is_digit_char(t1[0]));
                        assert(false);
                    }
                }
            }
            return None;
        },
    };
    proof {
        if premise {
            proof_of_layout();
            assert(s@.skip(i as int) =~= s@.subrange(i as int, j1 as int) + s@.skip(j1 as int));
            if year != 0 {
                if j1 < s@.len() {
                    assert(s@.skip(j1 as int)[0] == s@[j1 as int]);
                }
                lemma_dd_prefix_det(year as nat, gy as nat, s@.skip(j1 as int), t1);
            } else {
                assert(s@.subrange(i as int, j1 as int) == dec_digits(0));
                assert(dec_digits(0) =~= seq!['0']);
                assert(s@.skip(i as int)[0] == '0');
                if gy != 0 {
                    lemma_dd_no_leading_zero(gy as nat);
                    lemma_dd_digits(gy as nat);
                    assert(s@.skip(i as int)[0] == dec_digits(gy as nat)[0]);
                    assert(false);
                }
                assert(dec_digits(gy as nat) == seq!['0']) by {
                    assert(dec_digits(0) =~= seq!['0']);
                }
                lemma_step(s@, i as int, j1 as int, seq!['0'], t1);
            }
            assert(year == gy && s@.skip(j1 as int) == t1);
        }
    }
    let j2 = match expect_lit(s, j1, ",\"genre\":") {
        Some(j) => j,
        None => {
            proof {
                assert forall|y: u16, g: Genre, st: Status, rest: Seq<char>|
                    s@.skip(i as int) != #[trigger] (enc_book_tail(y, g, st) + rest) by {
                    if s@.skip(i as int) == enc_book_tail(y, g, st) + rest {
                        assert(premise);
                        lemma_prefix_at(s@, j1 as int, ",\"genre\":"@, t2);
                        assert(false);
                    }
                }
            }
            return None;
        },
    };
    proof {
        if premise {
            lemma_step(s@, j1 as int, j2 as int, ",\"genre\":"@, t2);
        }
    }
    let (genre, j3) = match parse_genre(s, j2) {
        Some(p) => p,
        None => {
            proof {
                assert forall|y: u16, g: Genre, st: Status, rest: Seq<char>|
                    s@.skip(i as int) != #[trigger] (enc_book_tail(y, g, st) + rest) by {
                    if s@.skip(i as int) == enc_book_tail(y, g, st) + rest {
                        assert(premise);
                        assert(s@.skip(j2 as int) == enc_genre(gg) + t3);
                        assert(false);
                    }
                }
            }
            return None;
        },
    };
    proof {
        if premise {
            assert(s@.skip(j2 as int) =~= s@.subrange(j2 as int, j3 as int) + s@.skip(j3 as int));
            lemma_enc_genre_det(genre, gg, s@.skip(j3 as int), t3);
            assert(genre == gg && s@.skip(j3 as int) == t3);
        }
    }
    let j4 = match expect_lit(s, j3, ",\"status\":") {
        Some(j) => j,
        None => {
            proof {
                assert forall|y: u16, g: Genre, st: Status, rest: Seq<char>|
                    s@.skip(i as int) != #[trigger] (enc_book_tail(y, g, st) + rest) by {
                    if s@.skip(i as int) == enc_book_tail(y, g, st) + rest {
                        assert(premise);
                        lemma_prefix_at(s@, j3 as int, ",\"status\":"@, t4);
                        assert(false);
                    }
                }
            }
            return None;
        },
    };
    proof {
        if premise {
            lemma_step(s@, j3 as int, j4 as int, ",\"status\":"@, t4);
        }
    }
    let (status, j5) = match parse_status(s, j4) {
        Some(p) => p,
        None => {
            proof {
                assert forall|y: u16, g: Genre, st: Status, rest: Seq<char>|
                    s@.skip(i as int) != #[trigger] (enc_book_tail(y, g, st) + rest) by {
                    if s@.skip(i as int) == enc_book_tail(y, g, st) + rest {
                        assert(premise);
                        assert(s@.skip(j4 as int) == enc_status(gst) + t5);
                        assert(false);
                    }
                }
            }
            return None;
        },
    };
    proof {
        if premise {
            assert(s@.skip(j4 as int) =~= s@.subrange(j4 as int, j5 as int) + s@.skip(j5 as int));
            lemma_enc_status_det(status, gst, s@.skip(j5 as int), t5);
            assert(status == gst && s@.skip(j5 as int) == t5);
        }
    }
    let j6 = match expect_lit(s, j5, "}") {
        Some(j) => j,
        None => {
            proof {
                assert forall|y: u16, g: Genre, st: Status, rest: Seq<char>|
                    s@.skip(i as int) != #[trigger] (enc_book_tail(y, g, st) + rest) by {
                    if s@.skip(i as int) == enc_book_tail(y, g, st) + rest {
                        assert(premise);
                        lemma_prefix_at(s@, j5 as int, "}"@, grest);
                        assert(false);
                    }
                }
            }
            return None;
        },
    };
    proof {
        assert(s@.subrange(i as int, j2 as int) =~= s@.subrange(i as int, j1 as int) + s@.subrange(
            j1 as int,
            j2 as int,
        ));
        assert(s@.subrange(i as int, j4 as int) =~= s@.subrange(i as int, j2 as int) + s@.subrange(
            j2 as int,
            j3 as int,
        ) + s@.subrange(j3 as int, j4 as int));
        assert(s@.subrange(i as int, j6 as int) =~= s@.subrange(i as int, j4 as int) + s@.subrange(
            j4 as int,
            j5 as int,
        ) + s@.subrange(j5 as int, j6 as int));
        assert(s@.subrange(i as int, j6 as int) =~= enc_book_tail(year, genre, status));
    }
    Some((year, genre, status, j6))
}

/// Read one book object at position `i`.
fn parse_book(s: &Vec<char>, i: usize) -> (r: Option<(Book, usize)>)
    requires
        i <= s@.len(),
    ensures
        match r {
            Some(p) => i < p.1 <= s@.len() && s@.subrange(i as int, p.1 as int) == enc_book(p.0@),
            None => forall|b: BookView, rest: Seq<char>|
                s@.skip(i as int) != #[trigger] (enc_book(b) + rest),
        },
{
    let ghost premise = exists|b: BookView, rest: Seq<char>|
        s@.skip(i as int) == #[trigger] (enc_book(b) + rest);
    let ghost (gb, grest): (BookView, Seq<char>) = if premise {
        choose|b: BookView, rest: Seq<char>| s@.skip(i as int) == #[trigger] (enc_book(b) + rest)
    } else {
        arbitrary()
    };
    let ghost gtail: Seq<char> = enc_book_tail(gb.publication_year, gb.genre, gb.status) + grest;
    proof {
        if premise {
            lemma_book_split(gb, grest);
            assert(s@.skip(i as int) == enc_book_head(gb.title, gb.author, gb.isbn) + gtail);
        }
    }
    let (title, author, isbn, j) = match parse_book_head(s, i) {
        Some(p) => p,
        None => {
            return None;
        },
    };
    proof {
        if premise {
            assert(s@.skip(i as int) =~= s@.subrange(i as int, j as int) + s@.skip(j as int));
            lemma_enc_book_head_det(
                title@,
                author@,
                isbn@,
                s@.skip(j as int),
                gb.title,
                gb.author,
                gb.isbn,
                gtail,
            );
            assert(title@ == gb.title && author@ == gb.author && isbn@ == gb.isbn && s@.skip(
                j as int,
            ) == gtail);
        }
    }
    let (year, genre, status, j2) = match parse_book_tail(s, j) {
        Some(p) => p,
        None => {
            proof {
                assert forall|b: BookView, rest: Seq<char>|
                    s@.skip(i as int) != #[trigger] (enc_book(b) + rest) by {
                    if s@.skip(i as int) == enc_book(b) + rest {
                        assert(premise);
                        assert(s@.skip(j as int) == enc_book_tail(
                            gb.publication_year,
                            gb.genre,
                            gb.status,
                        ) + grest);
                        assert(false);
                    }
                }
            }
            return None;
        },
    };
    let book = Book {
        title: chars_to_string(&title),
        author: chars_to_string(&author),
        isbn: chars_to_string(&isbn),
        publication_year: year,
        genre,
        status,
    };
    proof {
        assert(s@.subrange(i as int, j2 as int) =~= s@.subrange(i as int, j as int) + s@.subrange(
            j as int,
            j2 as int,
        ));
        lemma_book_split(book@, Seq::empty());
        assert(enc_book_head(title@, author@, isbn@) + enc_book_tail(year, genre, status)
            =~= enc_book(book@));
        assert(s@.subrange(i as int, j2 as int) == enc_book(book@));
    }
    Some((book, j2))
}

/// Append the characters of `s` to `out`.
fn push_str_chars(out: &mut Vec<char>, s: &str)
    ensures
        final(out)@ == old(out)@ + s@,
{
    let v = str_to_chars(s);
    let n = v.len();
    let mut i: usize = 0;
    while i < n
        invariant
            i <= n,
            n == v@.len(),
            v@ == s@,
            out@ == old(out)@ + s@.subrange(0, i as int),
        decreases n - i,
    {
        out.push(v[i]);
        proof {
            assert(old(out)@ + s@.subrange(0, i + 1) =~= (old(out)@ + s@.subrange(0, i as int)).push(
                s@[i as int],
            ));
        }
        i += 1;
    }
    proof {
        assert(s@.subrange(0, n as int) =~= s@);
        assert(old(out)@ + s@ =~= out@);
    }
}

/// Append the escaped body of `s` to `out`.
fn push_escaped(out: &mut Vec<char>, s: &str)
    ensures
        final(out)@ == old(out)@ + escape(s@),
{
    let v = str_to_chars(s);
    let n = v.len();
    let mut i: usize = 0;
    proof {
        assert(s@.subrange(0, 0) =~= Seq::<char>::empty());
        assert(old(out)@ + escape(s@.subrange(0, 0)) =~= old(out)@);
    }
    while i < n
        invariant
            i <= n,
            n == v@.len(),
            v@ == s@,
            out@ == old(out)@ + escape(s@.subrange(0, i as int)),
        decreases n - i,
    {
        let c = v[i];
        if c == '"' || c == '\\' {
            out.push('\\');
        }
        out.push(c);
        proof {
            assert(s@.subrange(0, i + 1) =~= s@.subrange(0, i as int).push(s@[i as int]));
            lemma_escape_snoc(s@.subrange(0, i as int), s@[i as int]);
            assert(out@ =~= old(out)@ + escape(s@.subrange(0, i + 1)));
        }
        i += 1;
    }
    proof {
        assert(s@.subrange(0, n as int) =~= s@);
    }
}

/// Append a quoted JSON string holding `s` to `out`.
fn push_enc_string(out: &mut Vec<char>, s: &str)
    ensures
        final(out)@ == old(out)@ + enc_string(s@),
{
    out.push('"');
    push_escaped(out, s);
    out.push('"');
    proof {
        assert(out@ =~= old(out)@ + enc_string(s@));
    }
}

/// Append `n` in decimal to `out`.
fn push_u16(out: &mut Vec<char>, n: u16)
    ensures
        final(out)@ == old(out)@ + dec_digits(n as nat),
    decreases n,
{
    if n < 10 {
        let c = digit_char(n);
        out.push(c);
        proof {
            assert(old(out)@ + dec_digits(n as nat) =~= old(out)@.push(dchar(n as int)));
        }
    } else {
        push_u16(out, n / 10);
        let c = digit_char(n % 10);
        out.push(c);
        proof {
            assert(old(out)@ + dec_digits(n as nat) =~= (old(out)@ + dec_digits((n / 10) as nat)).push(
                dchar((n % 10) as int),
            ));
        }
    }
}

/// The character of the digit `d`.
fn digit_char(d: u16) -> (c: char)
    requires
        d < 10,
    ensures
        c == dchar(d as int),
{
    if d == 0 {
        '0'
    } else if d == 1 {
        '1'
    } else if d == 2 {
        '2'
    } else if d == 3 {
        '3'
    } else if d == 4 {
        '4'
    } else if d == 5 {
        '5'
    } else if d == 6 {
        '6'
    } else if d == 7 {
        '7'
    } else if d == 8 {
        '8'
    } else {
        '9'
    }
}

/// Append one book object to `out`.
#[verifier::rlimit(100)]
fn push_book(out: &mut Vec<char>, b: &Book)
    ensures
        final(out)@ == old(out)@ + enc_book(b@),
{
    push_str_chars(out, "{\"title\":");
    push_enc_string(out, b.title.as_str());
    proof {
        assert(out@ =~= old(out)@ + ("{\"title\":"@ + enc_string(b@.title)));
    }
    push_str_chars(out, ",\"author\":");
    push_enc_string(out, b.author.as_str());
    proof {
        assert(out@ =~= old(out)@ + ("{\"title\":"@ + enc_string(b@.title) + ",\"author\":"@
            + enc_string(b@.author)));
    }
    push_str_chars(out, ",\"isbn\":");
    push_enc_string(out, b.isbn.as_str());
    proof {
        assert(out@ =~= old(out)@ + ("{\"title\":"@ + enc_string(b@.title) + ",\"author\":"@
            + enc_string(b@.author) + ",\"isbn\":"@ + enc_string(b@.isbn)));
    }
    push_str_chars(out, ",\"publication_year\":");
    push_u16(out, b.publication_year);
    proof {
        assert(out@ =~= old(out)@ + ("{\"title\":"@ + enc_string(b@.title) + ",\"author\":"@
            + enc_string(b@.author) + ",\"isbn\":"@ + enc_string(b@.isbn)
            + ",\"publication_year\":"@ + dec_digits(b@.publication_year as nat)));
    }
    push_str_chars(out, ",\"genre\":");
    out.push('"');
    match b.genre {
        Genre::Fiction => push_str_chars(out, "Fiction"),
        Genre::NonFiction => push_str_chars(out, "NonFiction"),
        Genre::ScienceFiction => push_str_chars(out, "ScienceFiction"),
        Genre::Mystery => push_str_chars(out, "Mystery"),
    }
    out.push('"');
    proof {
        assert(out@ =~= old(out)@ + ("{\"title\":"@ + enc_string(b@.title) + ",\"author\":"@
            + enc_string(b@.author) + ",\"isbn\":"@ + enc_string(b@.isbn)
            + ",\"publication_year\":"@ + dec_digits(b@.publication_year as nat) + ",\"genre\":"@
            + enc_genre(b@.genre)));
    }
    push_str_chars(out, ",\"status\":");
    out.push('"');
    match b.status {
        Status::Available => push_str_chars(out, "Available"),
        Status::CheckedOut => push_str_chars(out, "CheckedOut"),
        Status::Lost => push_str_chars(out, "Lost"),
    }
    out.push('"');
    push_str_chars(out, "}");
    proof {
        assert(out@ =~= old(out)@ + enc_book(b@));
    }
}

impl Library {
    /// Parse the canonical JSON text of a catalog. Exactly the texts that
    /// [`Library::to_json`] emits are accepted: a parsed catalog re-encodes
    /// to the very input, and any text that is some catalog's canonical
    /// form is never rejected.
    #[verifier::rlimit(100)]
    pub fn from_json(s: &str) -> (r: Option<Library>)
        ensures
            match r {
                Some(lib) => s@ == catalog_json(lib@),
                None => forall|w: LibraryView| s@ != #[trigger] catalog_json(w),
            },
    {
        let v = str_to_chars(s);
        let n = v.len();
        let ghost premise = exists|w: LibraryView| s@ == #[trigger] catalog_json(w);
        let ghost gw: LibraryView = if premise {
            choose|w: LibraryView| s@ == #[trigger] catalog_json(w)
        } else {
            arbitrary()
        };
        let ghost gtail: Seq<char> = "],\"owner\":"@ + (enc_string(gw.owner) + "}"@);
        proof {
            if premise {
                assert(catalog_json(gw) =~= "{\"books\":["@ + (enc_books(gw.books) + gtail));
                assert(v@.skip(0) =~= v@);
            }
        }
        let j0 = match expect_lit(&v, 0, "{\"books\":[") {
            Some(j) => j,
            None => {
                proof {
                    assert forall|w: LibraryView| s@ != #[trigger] catalog_json(w) by {
                        if s@ == catalog_json(w) {
                            assert(premise);
                            lemma_prefix_at(v@, 0, "{\"books\":["@, enc_books(gw.books) + gtail);
                            assert(false);
                        }
                    }
                }
                return None;
            },
        };
        proof {
            if premise {
                lemma_step(v@, 0, j0 as int, "{\"books\":["@, enc_books(gw.books) + gtail);
                proof_of_layout();
            }
        }
        let mut books: Vec<Book> = Vec::new();
        let mut j = j0;
        if j0 < n && v[j0] == ']' {
            proof {
                if premise {
                    if gw.books.len() > 0 {
                        lemma_enc_book_first(gw.books[0]);
                        assert(enc_books(gw.books)[0] == enc_book(gw.books[0])[0]);
                        assert(v@.skip(j0 as int)[0] == v@[j0 as int]);
                        assert(false);
                    }
                    assert(enc_books(gw.books) == Seq::<char>::empty());
                    assert(Seq::<char>::empty() + gtail =~= gtail);
                    assert(v@.skip(j as int) == gtail);
                    assert(books_view(books@) =~= gw.books);
                }
                assert(v@.subrange(j0 as int, j as int) =~= Seq::<char>::empty());
                assert(enc_books(books_view(books@)) == Seq::<char>::empty());
            }
        } else {
            proof {
                if premise {
                    if gw.books.len() == 0 {
                        assert(enc_books(gw.books) == Seq::<char>::empty());
                        assert(Seq::<char>::empty() + gtail =~= gtail);
                        assert(v@.skip(j0 as int) == gtail);
                        assert(gtail.len() > 0);
                        assert(v@.skip(j0 as int)[0] == v@[j0 as int]);
                        assert(v@[j0 as int] == ']');
                        assert(false);
                    }
                    assert(gw.books.skip(0) =~= gw.books);
                    assert(gw.books.subrange(0, 0) =~= Seq::<BookView>::empty());
                    assert(books_view(books@) =~= gw.books.subrange(0, 0));
                }
            }
            loop
                invariant_except_break
                    j0 <= j <= n,
                    n == v@.len(),
                    v@ == s@,
                    premise == (exists|w: LibraryView| s@ == #[trigger] catalog_json(w)),
                    premise ==> s@ == catalog_json(gw),
                    gtail == "],\"owner\":"@ + (enc_string(gw.owner) + "}"@),
                    books@.len() == 0 ==> j == j0,
                    books@.len() > 0 ==> v@.subrange(j0 as int, j as int) == enc_books(
                        books_view(books@),
                    ) + seq![','],
                    premise ==> books_view(books@) == gw.books.subrange(
                        0,
                        books@.len() as int,
                    ) && books@.len() < gw.books.len() && v@.skip(j as int) == enc_books(
                        gw.books.skip(books@.len() as int),
                    ) + gtail,
                ensures
                    j0 <= j <= n,
                    n == v@.len(),
                    v@ == s@,
                    books@.len() > 0,
                    v@.subrange(j0 as int, j as int) == enc_books(books_view(books@)),
                    premise ==> books_view(books@) == gw.books && v@.skip(j as int) == gtail,
                decreases n - j,
            {
                let ghost k = books@.len() as int;
                let ghost grest_k: Seq<char> = if premise {
                    if k + 1 < gw.books.len() {
                        seq![','] + (enc_books(gw.books.skip(k + 1)) + gtail)
                    } else {
                        gtail
                    }
                } else {
                    arbitrary()
                };
                proof {
                    if premise {
                        let sk = gw.books.skip(k);
                        assert(sk.len() == gw.books.len() - k);
                        assert(sk[0] == gw.books[k]);
                        if sk.len() == 1 {
                            assert(enc_books(sk) == enc_book(sk[0]));
                            assert(enc_books(sk) + gtail =~= enc_book(gw.books[k]) + grest_k);
                        } else {
                            assert(sk.drop_first() =~= gw.books.skip(k + 1));
                            assert(enc_books(sk) == enc_book(sk[0]) + seq![','] + enc_books(
                                sk.drop_first(),
                            ));
                            assert(enc_books(sk) + gtail =~= enc_book(gw.books[k]) + grest_k);
                        }
                        assert(v@.skip(j as int) == enc_book(gw.books[k]) + grest_k);
                    }
                }
                let (b, jb) = match parse_book(&v, j) {
                    Some(p) => p,
                    None => {
                        proof {
                            assert forall|w: LibraryView| s@ != #[trigger] catalog_json(w) by {
                                if s@ == catalog_json(w) {
                                    assert(premise);
                                    assert(v@.skip(j as int) == enc_book(gw.books[k]) + grest_k);
                                    assert(false);
                                }
                            }
                        }
                        return None;
                    },
                };
                proof {
                    if premise {
                        assert(v@.skip(j as int) =~= v@.subrange(j as int, jb as int) + v@.skip(
                            jb as int,
                        ));
                        lemma_enc_book_det(b@, gw.books[k], v@.skip(jb as int), grest_k);
                        assert(b@ == gw.books[k] && v@.skip(jb as int) == grest_k);
                    }
                }
                let ghost prev = books@;
                books.push(b);
                proof {
                    assert(books_view(books@) =~= books_view(prev).push(b@));
                    lemma_enc_books_snoc(books_view(prev), b@);
                    assert(enc_books(seq![b@]) == enc_book(b@)) by {
                        assert(seq![b@].len() == 1);
                        assert(seq![b@][0] == b@);
                    }
                    if prev.len() == 0 {
                        assert(v@.subrange(j0 as int, jb as int) =~= v@.subrange(
                            j as int,
                            jb as int,
                        ));
                        assert(v@.subrange(j0 as int, jb as int) == enc_books(books_view(books@)));
                    } else {
                        assert(v@.subrange(j0 as int, jb as int) =~= v@.subrange(
                            j0 as int,
                            j as int,
                        ) + v@.subrange(j as int, jb as int));
                        assert(v@.subrange(j0 as int, jb as int) =~= enc_books(books_view(prev))
                            + seq![','] + enc_book(b@));
                        assert(v@.subrange(j0 as int, jb as int) == enc_books(books_view(books@)));
                    }
                    if premise {
                        assert(books_view(books@) =~= gw.books.subrange(0, k + 1));
                    }
                }
                if jb < n && v[jb] == ',' {
                    proof {
                        assert(v@.subrange(jb as int, jb + 1) =~= seq![v@[jb as int]]);
                        if premise {
                            proof_of_layout();
                            assert(v@.skip(jb as int)[0] == v@[jb as int]);
                            if k + 1 >= gw.books.len() {
                                assert(grest_k == gtail);
                                assert(gtail[0] == ']');
                                assert(false);
                            }
                            assert(grest_k == seq![','] + (enc_books(gw.books.skip(k + 1))
                                + gtail));
                            assert(v@.subrange(jb as int, jb + 1) == seq![',']);
                            lemma_step(
                                v@,
                                jb as int,
                                jb + 1,
                                seq![','],
                                enc_books(gw.books.skip(k + 1)) + gtail,
                            );
                        }
                        assert(v@.subrange(j0 as int, jb + 1) =~= v@.subrange(j0 as int, jb as int)
                            + v@.subrange(jb as int, jb + 1));
                        assert(v@.subrange(j0 as int, jb + 1) == enc_books(books_view(books@))
                            + seq![',']);
                    }
                    j = jb + 1;
                } else {
                    proof {
                        if premise {
                            if k + 1 < gw.books.len() {
                                assert(grest_k == seq![','] + (enc_books(gw.books.skip(k + 1))
                                    + gtail));
                                assert(grest_k.len() > 0);
                                assert(v@.skip(jb as int)[0] == v@[jb as int]);
                                assert(v@[jb as int] == ',');
                                assert(v@.skip(jb as int).len() == n - jb);
                                assert(jb < n);
                                assert(false);
                            }
                            assert(books_view(books@) =~= gw.books);
                            assert(v@.skip(jb as int) == gtail);
                        }
                    }
                    j = jb;
                    break ;
                }
            }
        }
        let jo = match expect_lit(&v, j, "],\"owner\":") {
            Some(p) => p,
            None => {
                proof {
                    assert forall|w: LibraryView| s@ != #[trigger] catalog_json(w) by {
                        if s@ == catalog_json(w) {
                            assert(premise);
                            lemma_prefix_at(
                                v@,
                                j as int,
                                "],\"owner\":"@,
                                enc_string(gw.owner) + "}"@,
                            );
                            assert(false);
                        }
                    }
                }
                return None;
            },
        };
        proof {
            if premise {
                lemma_step(v@, j as int, jo as int, "],\"owner\":"@, enc_string(gw.owner) + "}"@);
            }
        }
        let (owner, js) = match parse_string(&v, jo) {
            Some(p) => p,
            None => {
                proof {
                    assert forall|w: LibraryView| s@ != #[trigger] catalog_json(w) by {
                        if s@ == catalog_json(w) {
                            assert(premise);
                            assert(v@.skip(jo as int) == enc_string(gw.owner) + "}"@);
                            assert(false);
                        }
                    }
                }
                return None;
            },
        };
        proof {
            if premise {
                assert(v@.skip(jo as int) =~= v@.subrange(jo as int, js as int) + v@.skip(
                    js as int,
                ));
                lemma_enc_string_det(owner@, v@.skip(js as int), gw.owner, "}"@);
                assert(owner@ == gw.owner && v@.skip(js as int) == "}"@);
            }
        }
        let je = match expect_lit(&v, js, "}") {
            Some(p) => p,
            None => {
                proof {
                    assert forall|w: LibraryView| s@ != #[trigger] catalog_json(w) by {
                        if s@ == catalog_json(w) {
                            assert(premise);
                            assert(v@.skip(js as int) =~= "}"@ + Seq::<char>::empty());
                            lemma_prefix_at(v@, js as int, "}"@, Seq::empty());
                            assert(false);
                        }
                    }
                }
                return None;
            },
        };
        if je != n {
            proof {
                assert forall|w: LibraryView| s@ != #[trigger] catalog_json(w) by {
                    if s@ == catalog_json(w) {
                        assert(premise);
                        proof_of_layout();
                        assert(v@.skip(js as int).len() == n - js);
                        assert(je == n);
                        assert(false);
                    }
                }
            }
            return None;
        }
        let lib = Library { books, owner: chars_to_string(&owner) };
        proof {
            assert(v@.subrange(0, jo as int) =~= v@.subrange(0, j0 as int) + v@.subrange(
                j0 as int,
                j as int,
            ) + v@.subrange(j as int, jo as int));
            assert(v@.subrange(0, je as int) =~= v@.subrange(0, jo as int) + v@.subrange(
                jo as int,
                js as int,
            ) + v@.subrange(js as int, je as int));
            assert(v@.subrange(0, n as int) =~= v@);
            assert(s@ =~= catalog_json(lib@));
        }
        Some(lib)
    }

    /// The canonical JSON text of this catalog.
    pub fn to_json(&self) -> (r: String)
        ensures
            r@ == catalog_json(self@),
    {
        let mut out: Vec<char> = Vec::new();
        push_str_chars(&mut out, "{\"books\":[");
        let n = self.books.len();
        let mut i: usize = 0;
        proof {
            assert(self@.books.subrange(0, 0) =~= Seq::<BookView>::empty());
        }
        while i < n
            invariant
                i <= n,
                n == self.books@.len(),
                out@ == "{\"books\":["@ + enc_books(self@.books.subrange(0, i as int)),
            decreases n - i,
        {
            if i > 0 {
                out.push(',');
            }
            push_book(&mut out, &self.books[i]);
            proof {
                let prefix = self@.books.subrange(0, i as int);
                assert(self@.books.subrange(0, i + 1) =~= prefix.push(self@.books[i as int]));
                lemma_enc_books_snoc(prefix, self@.books[i as int]);
                if i == 0 {
                    assert(out@ =~= "{\"books\":["@ + enc_books(self@.books.subrange(0, i + 1)));
                } else {
                    assert(enc_books(seq![self@.books[i as int]]) == enc_book(
                        self@.books[i as int],
                    )) by {
                        assert(seq![self@.books[i as int]].len() == 1);
                        assert(seq![self@.books[i as int]][0] == self@.books[i as int]);
                    }
                    assert(out@ =~= "{\"books\":["@ + enc_books(self@.books.subrange(0, i + 1)));
                }
            }
            i += 1;
        }
        proof {
            assert(self@.books.subrange(0, n as int) =~= self@.books);
        }
        push_str_chars(&mut out, "],\"owner\":");
        push_enc_string(&mut out, self.owner.as_str());
        proof {
            assert(out@ =~= "{\"books\":["@ + enc_books(self@.books) + "],\"owner\":"@
                + enc_string(self@.owner));
        }
        push_str_chars(&mut out, "}");
        proof {
            assert(out@ =~= catalog_json(self@));
        }
        chars_to_string(&out)
    }
}

} // verus!
