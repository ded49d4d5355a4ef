use bible_lib::{Bible, BibleLookup};

fn sample() -> Bible {
    let source = "John 3:16 For God so loved the world\n\
                  John 3:17 For God sent not his Son\n\
                  1 Samuel 2:1 And Hannah prayed, and said\n\
                  Song of Solomon 1:2 Let him kiss me\n\
                  Mark 1:2 As it is written\n\
                  Mark 1:1 The beginning of the gospel";
    Bible::parse(source).expect("sample corpus parses")
}

#[test]
fn parse_then_get_verse_round_trips() {
    let bible = sample();
    let text = bible.get_verse(BibleLookup::new("john", 3, 16));
    assert_eq!(text, Some(String::from("For God so loved the world")));
    let text = bible.get_verse(BibleLookup::new("1 samuel", 2, 1));
    assert_eq!(text, Some(String::from("And Hannah prayed, and said")));
    let text = bible.get_verse(BibleLookup::new("song of solomon", 1, 2));
    assert_eq!(text, Some(String::from("Let him kiss me")));
}

#[test]
fn lookup_constructors_lowercase_the_book() {
    let bible = sample();
    let text = bible.get_verse(BibleLookup::new("JoHn", 3, 16));
    assert_eq!(text, Some(String::from("For God so loved the world")));
    let r = BibleLookup::new_range("Song Of Solomon", 1, 2, 3);
    assert_eq!(r.book, "song of solomon");
    assert_eq!(r.thru_verse, Some(3));
}

#[test]
fn unknown_references_are_absent() {
    let bible = sample();
    assert_eq!(bible.get_verse(BibleLookup::new("ruth", 1, 1)), None);
    assert_eq!(bible.get_verse(BibleLookup::new("john", 4, 1)), None);
    assert_eq!(bible.get_verse(BibleLookup::new("john", 3, 18)), None);
    assert_eq!(bible.get_chapter("john", 9), None);
    assert_eq!(bible.get_chapters("ruth"), None);
    assert_eq!(bible.get_verses("john", 9), None);
    assert_eq!(bible.get_max_verse("ruth", 1), None);
}

#[test]
fn last_record_wins_on_repeated_keys() {
    let source = "Job 1:1 first text\nJob 1:1 second text";
    let bible = Bible::parse(source).unwrap();
    let text = bible.get_verse(BibleLookup::new("job", 1, 1));
    assert_eq!(text, Some(String::from("second text")));
}

#[test]
fn parse_reports_the_first_bad_line() {
    let err = Bible::parse("no colon on this line").unwrap_err();
    assert_eq!(err.line_number, 1);
    assert_eq!(err.line, "no colon on this line");

    let err = Bible::parse("Job 1:1 fine\nJob x:2 bad chapter\nJob 1:3 fine").unwrap_err();
    assert_eq!(err.line_number, 2);
    assert_eq!(err.line, "Job x:2 bad chapter");

    let err = Bible::parse("Job 1:1 fine\n\nJob 1:3 fine").unwrap_err();
    assert_eq!(err.line_number, 2);
    assert_eq!(err.line, "");

    let err = Bible::parse("Job 1:x bad verse").unwrap_err();
    assert_eq!(err.line_number, 1);

    let err = Bible::parse(":1 empty head").unwrap_err();
    assert_eq!(err.line_number, 1);

    let err = Bible::parse("Job 1:").unwrap_err();
    assert_eq!(err.line_number, 1);
}

#[test]
fn empty_source_is_an_empty_corpus() {
    let bible = Bible::parse("").unwrap();
    assert!(bible.get_books().is_empty());
}

#[test]
fn a_head_of_one_token_yields_an_empty_book_key() {
    // The chapter is the head's last token; with no tokens before it, the
    // book key is the empty string.
    let bible = Bible::parse("3:16 some text").unwrap();
    assert_eq!(
        bible.get_verse(BibleLookup::new("", 3, 16)),
        Some(String::from("some text"))
    );
}

#[test]
fn extra_whitespace_between_tokens_is_collapsed() {
    let bible = Bible::parse("Song  of   Solomon 1:2   Let  him").unwrap();
    assert_eq!(
        bible.get_verse(BibleLookup::new("song of solomon", 1, 2)),
        Some(String::from("Let him"))
    );
}

#[test]
fn carriage_returns_are_stripped() {
    let bible = Bible::parse("Job 1:1 some text\r\nJob 1:2 more text\r\n").unwrap();
    assert_eq!(
        bible.get_verse(BibleLookup::new("job", 1, 1)),
        Some(String::from("some text"))
    );
    assert_eq!(
        bible.get_verse(BibleLookup::new("job", 1, 2)),
        Some(String::from("more text"))
    );
}

#[test]
fn get_chapter_is_verse_ascending_despite_storage_order() {
    let bible = sample();
    let chapter = bible.get_chapter("mark", 1).unwrap();
    assert_eq!(
        chapter,
        "\u{00b9}The beginning of the gospel \u{00b2}As it is written "
    );
}

#[test]
fn range_skips_missing_verses_and_uses_superscripts() {
    let source = "Psalms 90:11 text eleven\nPsalms 90:12 text twelve\nPsalms 90:14 text fourteen";
    let bible = Bible::parse(source).unwrap();
    let text = bible
        .get_verse(BibleLookup::new_range("psalms", 90, 11, 14))
        .unwrap();
    assert_eq!(
        text,
        "\u{00b9}\u{00b9}text eleven \u{00b9}\u{00b2}text twelve \u{00b9}\u{2074}text fourteen"
    );
}

#[test]
fn range_with_unknown_book_or_chapter_is_absent() {
    let bible = sample();
    assert_eq!(
        bible.get_verse(BibleLookup::new_range("ruth", 1, 1, 2)),
        None
    );
    assert_eq!(
        bible.get_verse(BibleLookup::new_range("john", 9, 1, 2)),
        None
    );
}

#[test]
fn getters_list_the_corpus() {
    let bible = sample();
    let mut books = bible.get_books();
    books.sort();
    assert_eq!(books, vec!["1 samuel", "john", "mark", "song of solomon"]);
    let chapters = bible.get_chapters("john").unwrap();
    assert_eq!(chapters, vec![3]);
    let mut verses = bible.get_verses("john", 3).unwrap();
    verses.sort();
    assert_eq!(verses, vec![16, 17]);
    assert_eq!(bible.get_max_verse("john", 3), Some(17));
}

#[test]
fn replace_superscript_maps_digits() {
    assert_eq!(
        Bible::replace_superscript(String::from("12")),
        "\u{00b9}\u{00b2}"
    );
    assert_eq!(
        Bible::replace_superscript(String::from("a1b0")),
        "a\u{00b9}b\u{2070}"
    );
}

#[test]
fn random_verse_always_points_at_a_present_verse() {
    let bible = sample();
    for _ in 0..50 {
        let lookup = bible.random_verse();
        assert!(lookup.thru_verse.is_none());
        assert!(bible.get_verse(lookup).is_some());
    }
}

#[test]
fn capitalize_book_recovers_title_case() {
    assert_eq!(
        BibleLookup::capitalize_book(&String::from("1 samuel")),
        "1 Samuel"
    );
    assert_eq!(
        BibleLookup::capitalize_book(&String::from("song of solomon")),
        "Song Of Solomon"
    );
    assert_eq!(BibleLookup::capitalize_book(&String::from("john")), "John");
}

#[test]
fn display_string_shows_ranges() {
    let single = BibleLookup::new("john", 3, 16);
    assert_eq!(single.display_string(), "John 3:16");
    let range = BibleLookup::new_range("1 samuel", 2, 1, 3);
    assert_eq!(range.display_string(), "1 Samuel 2:1-3");
}
