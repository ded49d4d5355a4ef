//! The reading plan scheduler: a deterministic partition of the whole corpus
//! into per-day chapter ranges across a calendar year — three chapters on
//! weekdays, four on Saturday and Sunday.

use vstd::prelude::*;

use chrono::Datelike;

use crate::bible::{Bible, BookMap, CorpusMap};
use crate::lookup::BibleLookup;

verus! {

/// One entry of the canonical chapter index: a book key and one of its
/// chapter numbers.
#[derive(Clone, Debug)]
pub struct ChapterRef {
    pub book: String,
    pub chapter: u32,
}

/// A calendar date, as a year and a one-based ordinal day within that year.
#[derive(Clone, Copy, Debug, PartialEq, Eq, Structural)]
pub struct PlanDate {
    pub year: i32,
    pub ordinal: u32,
}

/// The proleptic Gregorian leap year rule.
pub open spec fn is_leap_year(y: int) -> bool {
    y % 4 == 0 && (y % 100 != 0 || y % 400 == 0)
}

pub open spec fn days_in_year(y: int) -> int {
    if is_leap_year(y) {
        366
    } else {
        365
    }
}

impl PlanDate {
    /// A date the calendar can represent: a year in range and an ordinal day
    /// that exists in that year.
    pub open spec fn valid(self) -> bool {
        &&& -262143 <= self.year <= 262142
        &&& 1 <= self.ordinal <= days_in_year(self.year as int)
    }
}

/// The weekday of an ordinal day of a year, counted as days from Monday
/// (0 = Monday … 6 = Sunday); a function of the date alone.
pub uninterp spec fn weekday_index(year: int, ordinal: int) -> int;

/// Relies on `chrono::NaiveDate::from_yo_opt`, which names a date for every
/// in-range year and every ordinal the year has, and on
/// `chrono::Weekday::num_days_from_monday`, which counts 0 = Monday …
/// 6 = Sunday; the weekday is a function of year and ordinal alone.
#[verifier::external_body]
fn weekday_from_yo(year: i32, ordinal: u32) -> (r: Option<u8>)
    ensures
        (-262143 <= year <= 262142 && 1 <= ordinal && ordinal <= days_in_year(year as int))
            ==> r is Some,
        r matches Some(w) ==> w < 7 && w as int == weekday_index(year as int, ordinal as int),
{
    chrono::NaiveDate::from_yo_opt(year, ordinal).map(|d| d.weekday().num_days_from_monday() as u8)
}

/// The chapter quota of a day with the given weekday index: four on Saturday
/// (5) and Sunday (6), three otherwise.
pub open spec fn quota_for(w: int) -> int {
    if w == 5 || w == 6 {
        4
    } else {
        3
    }
}

/// Chapters assigned before the given ordinal day of the year: the sum of
/// the quotas of ordinal days `1 .. ordinal`.
pub open spec fn cumulative_quota(year: int, ordinal: int) -> int
    decreases ordinal,
{
    if ordinal <= 1 {
        0
    } else {
        cumulative_quota(year, ordinal - 1) + quota_for(weekday_index(year, ordinal - 1))
    }
}

/// The cumulative quota grows by three or four per day.
pub proof fn lemma_cumulative_quota_bounds(year: int, ordinal: int)
    requires
        ordinal >= 1,
    ensures
        3 * (ordinal - 1) <= cumulative_quota(year, ordinal) <= 4 * (ordinal - 1),
    decreases ordinal,
{
    if ordinal > 1 {
        lemma_cumulative_quota_bounds(year, ordinal - 1);
    }
}

/// One day's reading: a contiguous range of whole chapters, from the first
/// verse of `start` through the last verse of `end`.
#[derive(Clone, Debug)]
pub struct Reading {
    pub start: BibleLookup,
    pub end: BibleLookup,
}

/// Index of today's first chapter in the canonical index.
pub open spec fn plan_start_index(date: PlanDate) -> int {
    cumulative_quota(date.year as int, date.ordinal as int)
}

/// Index of today's last chapter: the quota boundary, clamped to the end of
/// the canonical index.
pub open spec fn plan_end_index(date: PlanDate, total: int) -> int {
    let e = plan_start_index(date) + quota_for(
        weekday_index(date.year as int, date.ordinal as int),
    );
    if e > total {
        total - 1
    } else {
        e - 1
    }
}

/// `v` is the largest verse number of the chapter `(book, chapter)` of
/// `corpus`, or 1 when the corpus does not hold that chapter.
pub open spec fn end_verse_ok(v: u32, book: Seq<char>, chapter: int, corpus: CorpusMap) -> bool {
    if corpus.contains_key(book) && corpus[book].contains_key(chapter) {
        corpus[book][chapter].contains_key(v as int) && forall|k: int|
            #[trigger] corpus[book][chapter].contains_key(k) ==> k <= v
    } else {
        v == 1
    }
}

/// What a returned assignment states: `start` is the canonical index entry
/// at today's cumulative offset with verse one, and `end` is the entry at
/// the quota boundary with its chapter's last verse (or verse one when the
/// corpus does not hold that chapter).
pub open spec fn reading_ok(
    rd: Reading,
    date: PlanDate,
    corpus: CorpusMap,
    index: Seq<ChapterRef>,
) -> bool {
    let si = plan_start_index(date);
    let ei = plan_end_index(date, index.len() as int);
    &&& 0 <= si < index.len()
    &&& 0 <= ei < index.len()
    &&& rd.start.book@ == index[si].book@
    &&& rd.start.chapter == index[si].chapter
    &&& rd.start.verse == 1
    &&& rd.start.thru_verse is None
    &&& rd.end.book@ == index[ei].book@
    &&& rd.end.chapter == index[ei].chapter
    &&& rd.end.thru_verse is None
    &&& end_verse_ok(rd.end.verse, index[ei].book@, index[ei].chapter as int, corpus)
}

/// The reading assignment for one day: the chapters read on earlier days of
/// the year are counted, and the day's quota of chapters starting there is
/// returned. Absent exactly when the whole canonical index has already been
/// assigned — the annual plan is exhausted.
pub fn calculate_reading_for_day(date: PlanDate, bible: &Bible, index: &Vec<ChapterRef>) -> (r:
    Option<Reading>)
    requires
        date.valid(),
    ensures
        match r {
            Some(rd) => plan_start_index(date) < index@.len() && reading_ok(
                rd,
                date,
                bible@,
                index@,
            ),
            None => plan_start_index(date) >= index@.len(),
        },
{
    let total = index.len();
    let mut cum: u32 = 0;
    let mut d: u32 = 1;
    proof {
        lemma_cumulative_quota_bounds(date.year as int, date.ordinal as int);
    }
    while d < date.ordinal
        invariant
            date.valid(),
            1 <= d <= date.ordinal,
            cum == cumulative_quota(date.year as int, d as int),
            cum <= 4 * (d - 1),
        decreases date.ordinal - d,
    {
        proof {
            lemma_cumulative_quota_bounds(date.year as int, d as int + 1);
        }
        let w = weekday_from_yo(date.year, d).unwrap();
        let q: u32 = if w == 5 || w == 6 {
            4
        } else {
            3
        };
        cum = cum + q;
        d = d + 1;
    }
    if cum as usize >= total {
        return None;
    }
    let w = weekday_from_yo(date.year, date.ordinal).unwrap();
    let q: usize = if w == 5 || w == 6 {
        4
    } else {
        3
    };
    let si = cum as usize;
    let e = si + q;
    let ei = if e > total {
        total - 1
    } else {
        e - 1
    };
    let start_ref = &index[si];
    let end_ref = &index[ei];
    let end_verse = match bible.get_max_verse(end_ref.book.as_str(), end_ref.chapter) {
        Some(m) => m,
        None => 1,
    };
    let rd = Reading {
        start: BibleLookup {
            book: start_ref.book.clone(),
            chapter: start_ref.chapter,
            verse: 1,
            thru_verse: None,
        },
        end: BibleLookup {
            book: end_ref.book.clone(),
            chapter: end_ref.chapter,
            verse: end_verse,
            thru_verse: None,
        },
    };
    proof {
        assert(si as int == plan_start_index(date));
        assert(ei as int == plan_end_index(date, index@.len() as int));
        assert(end_verse_ok(end_verse, index@[ei as int].book@, index@[ei as int].chapter as int, bible@));
        assert(reading_ok(rd, date, bible@, index@));
    }
    Some(rd)
}

/// Present chapters of `bm` with numbers up to `hi` inclusive, in ascending
/// order, each paired with the book key `name`.
pub open spec fn book_chapter_pairs(bm: BookMap, name: Seq<char>, hi: int) -> Seq<
    (Seq<char>, u32),
>
    decreases hi + 1,
{
    if hi < 0 {
        Seq::empty()
    } else {
        book_chapter_pairs(bm, name, hi - 1) + if bm.contains_key(hi) {
            seq![(name, hi as u32)]
        } else {
            Seq::empty()
        }
    }
}

/// The canonical chapter index: for each book of `order` in turn that the
/// corpus holds, every one of its chapters, ascending.
pub open spec fn chapter_pairs(corpus: CorpusMap, order: Seq<Seq<char>>) -> Seq<(Seq<char>, u32)>
    decreases order.len(),
{
    if order.len() == 0 {
        Seq::empty()
    } else {
        chapter_pairs(corpus, order.drop_last()) + if corpus.contains_key(order.last()) {
            book_chapter_pairs(corpus[order.last()], order.last(), u32::MAX as int)
        } else {
            Seq::empty()
        }
    }
}

/// Growing the bound past every present chapter adds nothing.
proof fn lemma_book_pairs_extend(bm: BookMap, name: Seq<char>, hi1: int, hi2: int)
    requires
        hi1 <= hi2,
        forall|k: int| #[trigger] bm.contains_key(k) ==> k <= hi1,
    ensures
        book_chapter_pairs(bm, name, hi2) == book_chapter_pairs(bm, name, hi1),
    decreases hi2 - hi1,
{
    if hi1 < hi2 {
        lemma_book_pairs_extend(bm, name, hi1, hi2 - 1);
        assert(!bm.contains_key(hi2));
        assert(book_chapter_pairs(bm, name, hi2) =~= book_chapter_pairs(bm, name, hi2 - 1));
    }
}

/// The book and chapter of each index entry.
pub open spec fn pair_view(s: Seq<ChapterRef>) -> Seq<(Seq<char>, u32)> {
    s.map_values(|cr: ChapterRef| (cr.book@, cr.chapter))
}

/// The largest element of a nonempty vector.
fn max_u32(v: &Vec<u32>) -> (r: u32)
    requires
        v@.len() > 0,
    ensures
        forall|i: int| 0 <= i < v@.len() ==> v@[i] <= r,
{
    let mut best = v[0];
    let mut i: usize = 1;
    while i < v.len()
        invariant
            1 <= i <= v@.len(),
            forall|j: int| 0 <= j < i ==> v@[j] <= best,
        decreases v@.len() - i,
    {
        if v[i] > best {
            best = v[i];
        }
        i = i + 1;
    }
    best
}

/// Whether `x` occurs in `v`.
fn contains_u32(v: &Vec<u32>, x: u32) -> (r: bool)
    ensures
        r == exists|i: int| 0 <= i < v@.len() && v@[i] == x,
{
    let mut i: usize = 0;
    while i < v.len()
        invariant
            i <= v@.len(),
            forall|j: int| 0 <= j < i ==> v@[j] != x,
        decreases v@.len() - i,
    {
        if v[i] == x {
            return true;
        }
        i = i + 1;
    }
    false
}

/// The canonical chapter index of the corpus, derived from an externally
/// supplied book ordering: for each book of `order` in turn that the corpus
/// holds, every one of its chapters in ascending order. The ordering cannot
/// be recovered from the corpus itself, whose maps carry no meaningful
/// order.
pub fn canonical_chapter_index(bible: &Bible, order: &Vec<String>) -> (r: Vec<ChapterRef>)
    ensures
        pair_view(r@) == chapter_pairs(bible@, order@.map_values(|s: String| s@)),
{
    let ghost ov = order@.map_values(|s: String| s@);
    let mut out: Vec<ChapterRef> = Vec::new();
    let mut oi: usize = 0;
    proof {
        assert(ov.take(0) =~= Seq::<Seq<char>>::empty());
        assert(pair_view(out@) =~= chapter_pairs(bible@, ov.take(0)));
    }
    while oi < order.len()
        invariant
            ov == order@.map_values(|s: String| s@),
            oi <= order@.len(),
            pair_view(out@) == chapter_pairs(bible@, ov.take(oi as int)),
        decreases order@.len() - oi,
    {
        let name = &order[oi];
        let ghost prior = pair_view(out@);
        proof {
            assert(ov.take(oi + 1 as int).drop_last() =~= ov.take(oi as int));
            assert(ov.take(oi + 1 as int).last() == name@);
        }
        match bible.get_chapters(name.as_str()) {
            None => {
                proof {
                    assert(pair_view(out@) =~= chapter_pairs(bible@, ov.take(oi + 1 as int)));
                }
            },
            Some(cs) => {
                let ghost bm = bible@[name@];
                if cs.len() == 0 {
                    proof {
                        assert forall|k: int| #[trigger] bm.contains_key(k) implies k <= -1 by {
                            let i = choose|i: int|
                                0 <= i < cs@.len() && (#[trigger] cs@[i]) as int == k;
                        }
                        lemma_book_pairs_extend(bm, name@, -1, u32::MAX as int);
                        assert(pair_view(out@) =~= chapter_pairs(bible@, ov.take(oi + 1 as int)));
                    }
                } else {
                    let maxc = max_u32(&cs);
                    proof {
                        assert forall|k: int| #[trigger] bm.contains_key(k) implies k
                            <= maxc as int by {
                            let i = choose|i: int|
                                0 <= i < cs@.len() && (#[trigger] cs@[i]) as int == k;
                        }
                        assert(book_chapter_pairs(bm, name@, -1) =~= Seq::<(Seq<char>, u32)>::empty());
                    }
                    let mut c: u64 = 0;
                    while c <= maxc as u64
                        invariant
                            c <= maxc as u64 + 1,
                            bm == bible@[name@],
                            forall|i: int|
                                0 <= i < cs@.len() ==> bm.contains_key((#[trigger] cs@[i]) as int),
                            forall|k: int|
                                #[trigger] bm.contains_key(k) ==> exists|i: int|
                                    0 <= i < cs@.len() && (#[trigger] cs@[i]) as int == k,
                            pair_view(out@) == prior + book_chapter_pairs(bm, name@, c as int - 1),
                        decreases maxc as u64 + 1 - c,
                    {
                        let cn = c as u32;
                        if contains_u32(&cs, cn) {
                            let cr = ChapterRef { book: name.clone(), chapter: cn };
                            let ghost c0 = cr;
                            let ghost v1 = out@;
                            out.push(cr);
                            proof {
                                assert(bm.contains_key(c as int));
                                assert(c0.book@ == name@ && c0.chapter == cn);
                                assert(out@ == v1.push(c0));
                                assert(pair_view(out@) =~= pair_view(v1).push(
                                    (c0.book@, c0.chapter),
                                ));
                                assert(book_chapter_pairs(bm, name@, c as int)
                                    == book_chapter_pairs(bm, name@, c as int - 1) + seq![
                                    (name@, (c as int) as u32),
                                ]);
                                assert((c as int) as u32 == cn);
                                assert(pair_view(out@) =~= prior + book_chapter_pairs(
                                    bm,
                                    name@,
                                    c as int,
                                ));
                            }
                        } else {
                            proof {
                                assert(!bm.contains_key(c as int));
                                assert(pair_view(out@) =~= prior + book_chapter_pairs(
                                    bm,
                                    name@,
                                    c as int,
                                ));
                            }
                        }
                        c = c + 1;
                    }
                    proof {
                        lemma_book_pairs_extend(bm, name@, maxc as int, u32::MAX as int);
                        assert(pair_view(out@) =~= chapter_pairs(bible@, ov.take(oi + 1 as int)));
                    }
                }
            },
        }
        oi = oi + 1;
    }
    proof {
        assert(ov.take(oi as int) =~= ov);
    }
    out
}

/// On the first day of any year nothing has been assigned yet: the plan
/// starts at the very first entry of the canonical index, and a returned
/// assignment starts there at verse one and ends at the weekday-appropriate
/// quota boundary.
pub proof fn lemma_first_day_reading(rd: Reading, date: PlanDate, corpus: CorpusMap, index: Seq<ChapterRef>)
    requires
        date.ordinal == 1,
        reading_ok(rd, date, corpus, index),
    ensures
        plan_start_index(date) == 0,
        rd.start.book@ == index[0].book@,
        rd.start.chapter == index[0].chapter,
        rd.start.verse == 1,
        plan_end_index(date, index.len() as int) == if quota_for(
            weekday_index(date.year as int, 1),
        ) > index.len() {
            index.len() - 1
        } else {
            quota_for(weekday_index(date.year as int, 1)) - 1
        },
{
}

} // verus!
