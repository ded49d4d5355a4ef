use bible_lib::schedule::canonical_chapter_index;
use bible_lib::{calculate_reading_for_day, Bible, PlanDate};

fn small_bible() -> Bible {
    let source = "Genesis 1:1 in the beginning\n\
                  Genesis 1:31 and it was good\n\
                  Genesis 2:1 thus the heavens\n\
                  Genesis 3:1 now the serpent\n\
                  Genesis 3:7 and their eyes\n\
                  Exodus 1:1 now these are the names\n\
                  Exodus 2:1 and there went a man";
    Bible::parse(source).expect("small corpus parses")
}

fn book_order() -> Vec<String> {
    vec![String::from("genesis"), String::from("exodus")]
}

#[test]
fn index_follows_book_order_with_chapters_ascending() {
    let bible = small_bible();
    let index = canonical_chapter_index(&bible, &book_order());
    let pairs: Vec<(String, u32)> = index
        .iter()
        .map(|cr| (cr.book.clone(), cr.chapter))
        .collect();
    assert_eq!(
        pairs,
        vec![
            (String::from("genesis"), 1),
            (String::from("genesis"), 2),
            (String::from("genesis"), 3),
            (String::from("exodus"), 1),
            (String::from("exodus"), 2),
        ]
    );
}

#[test]
fn index_skips_books_missing_from_the_corpus() {
    let bible = small_bible();
    let order = vec![
        String::from("ruth"),
        String::from("exodus"),
        String::from("genesis"),
    ];
    let index = canonical_chapter_index(&bible, &order);
    assert_eq!(index.len(), 5);
    assert_eq!(index[0].book, "exodus");
    assert_eq!(index[0].chapter, 1);
    assert_eq!(index[2].book, "genesis");
    assert_eq!(index[2].chapter, 1);
}

#[test]
fn first_day_of_a_weekday_year_reads_three_chapters() {
    let bible = small_bible();
    let index = canonical_chapter_index(&bible, &book_order());
    // January 1, 2024 is a Monday.
    let date = PlanDate { year: 2024, ordinal: 1 };
    let reading = calculate_reading_for_day(date, &bible, &index).unwrap();
    assert_eq!(reading.start.book, "genesis");
    assert_eq!(reading.start.chapter, 1);
    assert_eq!(reading.start.verse, 1);
    assert_eq!(reading.end.book, "genesis");
    assert_eq!(reading.end.chapter, 3);
    assert_eq!(reading.end.verse, 7);
}

#[test]
fn first_day_of_a_weekend_year_reads_four_chapters() {
    let bible = small_bible();
    let index = canonical_chapter_index(&bible, &book_order());
    // January 1, 2023 is a Sunday.
    let date = PlanDate { year: 2023, ordinal: 1 };
    let reading = calculate_reading_for_day(date, &bible, &index).unwrap();
    assert_eq!(reading.start.book, "genesis");
    assert_eq!(reading.start.chapter, 1);
    assert_eq!(reading.start.verse, 1);
    assert_eq!(reading.end.book, "exodus");
    assert_eq!(reading.end.chapter, 1);
    assert_eq!(reading.end.verse, 1);
}

#[test]
fn the_plan_is_exhausted_once_all_chapters_are_assigned() {
    let bible = small_bible();
    let index = canonical_chapter_index(&bible, &book_order());
    // January 2, 2024: three chapters were read on January 1.
    let second = PlanDate { year: 2024, ordinal: 2 };
    let reading = calculate_reading_for_day(second, &bible, &index).unwrap();
    assert_eq!(reading.start.book, "exodus");
    assert_eq!(reading.start.chapter, 1);
    assert_eq!(reading.end.book, "exodus");
    assert_eq!(reading.end.chapter, 2);
    // January 3, 2024: all five chapters are assigned.
    let third = PlanDate { year: 2024, ordinal: 3 };
    assert!(calculate_reading_for_day(third, &bible, &index).is_none());
    // The last day of the leap year is a valid date and the plan stays done.
    let last = PlanDate { year: 2024, ordinal: 366 };
    assert!(calculate_reading_for_day(last, &bible, &index).is_none());
}

#[test]
fn weekend_quotas_shift_the_running_offset() {
    let mut source = String::new();
    for c in 1..=20u32 {
        source.push_str(&format!("Genesis {}:1 chapter text\n", c));
    }
    let bible = Bible::parse(&source).unwrap();
    let index = canonical_chapter_index(&bible, &vec![String::from("genesis")]);
    assert_eq!(index.len(), 20);
    // January 6, 2024 is a Saturday: five weekdays of three chapters came
    // first, and the day's quota is four.
    let date = PlanDate { year: 2024, ordinal: 6 };
    let reading = calculate_reading_for_day(date, &bible, &index).unwrap();
    assert_eq!(reading.start.chapter, 16);
    assert_eq!(reading.end.chapter, 19);
}

#[test]
fn a_short_final_day_is_clamped_to_the_corpus_end() {
    let source = "Genesis 1:1 a\nGenesis 2:1 b\nGenesis 3:1 c\nGenesis 4:1 d";
    let bible = Bible::parse(source).unwrap();
    let index = canonical_chapter_index(&bible, &vec![String::from("genesis")]);
    // January 2, 2024: one chapter remains of four.
    let date = PlanDate { year: 2024, ordinal: 2 };
    let reading = calculate_reading_for_day(date, &bible, &index).unwrap();
    assert_eq!(reading.start.chapter, 4);
    assert_eq!(reading.end.chapter, 4);
}
