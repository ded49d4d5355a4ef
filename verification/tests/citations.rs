use bible_lib::BibleLookup;

#[test]
fn detects_a_single_reference() {
    let refs = BibleLookup::detect_from_string("John 3:16");
    assert_eq!(refs.len(), 1);
    assert_eq!(refs[0].book, "john");
    assert_eq!(refs[0].chapter, 3);
    assert_eq!(refs[0].verse, 16);
    assert_eq!(refs[0].thru_verse, None);
}

#[test]
fn detects_a_numeral_prefixed_range() {
    let refs = BibleLookup::detect_from_string("1 Samuel 2:1-3 says something about prayer");
    assert_eq!(refs.len(), 1);
    assert_eq!(refs[0].book, "1 samuel");
    assert_eq!(refs[0].chapter, 2);
    assert_eq!(refs[0].verse, 1);
    assert_eq!(refs[0].thru_verse, Some(3));
}

#[test]
fn detection_is_case_insensitive() {
    let refs = BibleLookup::detect_from_string("have you read SONG OF SOLOMON 1:2 lately?");
    assert_eq!(refs.len(), 1);
    assert_eq!(refs[0].book, "song of solomon");
    assert_eq!(refs[0].chapter, 1);
    assert_eq!(refs[0].verse, 2);
}

#[test]
fn detects_references_in_order_of_appearance() {
    let refs = BibleLookup::detect_from_string("compare Mark 1:2 with Genesis 1:1 please");
    assert_eq!(refs.len(), 2);
    assert_eq!(refs[0].book, "mark");
    assert_eq!(refs[0].chapter, 1);
    assert_eq!(refs[0].verse, 2);
    assert_eq!(refs[1].book, "genesis");
    assert_eq!(refs[1].chapter, 1);
    assert_eq!(refs[1].verse, 1);
}

#[test]
fn backwards_ranges_are_dropped() {
    let refs = BibleLookup::detect_from_string("John 3:16-2 is no real range");
    assert!(refs.is_empty());
}

#[test]
fn plain_text_yields_nothing() {
    let refs = BibleLookup::detect_from_string("nothing to see here, 12:34 alone is no book");
    assert!(refs.is_empty());
}

#[test]
fn a_dash_without_digits_ends_the_match_after_the_verse() {
    let refs = BibleLookup::detect_from_string("John 3:16-brilliant");
    assert_eq!(refs.len(), 1);
    assert_eq!(refs[0].verse, 16);
    assert_eq!(refs[0].thru_verse, None);
}

#[test]
fn a_book_name_without_a_reference_is_ignored() {
    let refs = BibleLookup::detect_from_string("I like the book of John a lot");
    assert!(refs.is_empty());
}

#[test]
fn a_name_embedded_in_a_word_needs_its_own_reference() {
    let refs = BibleLookup::detect_from_string("remark Mark 1:1");
    assert_eq!(refs.len(), 1);
    assert_eq!(refs[0].book, "mark");
    assert_eq!(refs[0].chapter, 1);
    assert_eq!(refs[0].verse, 1);
}

#[test]
fn the_canonical_table_holds_all_books_in_order() {
    let books = bible_lib::detect::canonical_books();
    assert_eq!(books.len(), 66);
    assert_eq!(books[0], "genesis");
    assert_eq!(books[21], "song of solomon");
    assert_eq!(books[39], "matthew");
    assert_eq!(books[65], "revelation");
}
