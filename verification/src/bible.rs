//! The corpus: books, chapters and verses, parsed once and queried read-only.
//!
//! The corpus is modelled as a nested map, book key to chapter number to
//! verse number to text. Storage order carries no meaning; every operation
//! that needs an order says so explicitly in its contract.

use vstd::prelude::*;

use crate::lookup::BibleLookup;
use crate::text::{
    all_digits, chars_to_string, copy_range, dec_chars, dec_rep, digits_val, find_char,
    find_char_from, is_ws, join_tokens, join_ws, lemma_find_char_at, lower_seq, lower_vec,
    parse_u32, str_eq, sup, sup_char, to_chars, tokenize, tokens, views_of, ws_char,
};

verus! {

/// The verses of one chapter: verse number to verse text.
pub type ChapterMap = Map<int, Seq<char>>;

/// The chapters of one book: chapter number to its verses.
pub type BookMap = Map<int, ChapterMap>;

/// The whole corpus: normalized book key to its chapters.
pub type CorpusMap = Map<Seq<char>, BookMap>;

#[derive(Debug)]
struct VerseEntry {
    number: u32,
    text: String,
}

#[derive(Debug)]
struct ChapterEntry {
    number: u32,
    verses: Vec<VerseEntry>,
}

#[derive(Debug)]
struct BookEntry {
    name: String,
    chapters: Vec<ChapterEntry>,
}

spec fn verses_map(s: Seq<VerseEntry>) -> ChapterMap
    decreases s.len(),
{
    if s.len() == 0 {
        Map::empty()
    } else {
        verses_map(s.drop_last()).insert(s.last().number as int, s.last().text@)
    }
}

spec fn chapters_map(s: Seq<ChapterEntry>) -> BookMap
    decreases s.len(),
{
    if s.len() == 0 {
        Map::empty()
    } else {
        chapters_map(s.drop_last()).insert(s.last().number as int, verses_map(s.last().verses@))
    }
}

spec fn books_map(s: Seq<BookEntry>) -> CorpusMap
    decreases s.len(),
{
    if s.len() == 0 {
        Map::empty()
    } else {
        books_map(s.drop_last()).insert(s.last().name@, chapters_map(s.last().chapters@))
    }
}

spec fn verses_wf(s: Seq<VerseEntry>) -> bool {
    forall|i: int, j: int|
        0 <= i < j < s.len() ==> s[i].number != s[j].number
}

spec fn chapters_wf(s: Seq<ChapterEntry>) -> bool {
    &&& forall|i: int, j: int| 0 <= i < j < s.len() ==> s[i].number != s[j].number
    &&& forall|i: int|
        0 <= i < s.len() ==> (#[trigger] s[i].verses)@.len() > 0 && verses_wf(s[i].verses@)
}

spec fn books_wf(s: Seq<BookEntry>) -> bool {
    &&& forall|i: int, j: int| 0 <= i < j < s.len() ==> s[i].name@ != s[j].name@
    &&& forall|i: int|
        0 <= i < s.len() ==> (#[trigger] s[i].chapters)@.len() > 0 && chapters_wf(s[i].chapters@)
}

proof fn lemma_verses_map_contains(s: Seq<VerseEntry>)
    ensures
        forall|v: int|
            #[trigger] verses_map(s).contains_key(v) <==> exists|i: int|
                0 <= i < s.len() && (#[trigger] s[i]).number as int == v,
    decreases s.len(),
{
    if s.len() > 0 {
        lemma_verses_map_contains(s.drop_last());
        assert forall|v: int| verses_map(s).contains_key(v) implies exists|i: int|
            0 <= i < s.len() && (#[trigger] s[i]).number as int == v by {
            if s.last().number as int == v {
                assert(s[s.len() - 1].number as int == v);
            } else {
                assert(verses_map(s.drop_last()).contains_key(v));
                let i = choose|i: int|
                    0 <= i < s.drop_last().len() && (#[trigger] s.drop_last()[i]).number as int
                        == v;
                assert(s[i].number as int == v);
            }
        }
        assert forall|v: int|
            (exists|i: int| 0 <= i < s.len() && (#[trigger] s[i]).number as int == v) implies
            verses_map(s).contains_key(v) by {
            let i = choose|i: int| 0 <= i < s.len() && (#[trigger] s[i]).number as int == v;
            if i < s.len() - 1 {
                assert(s.drop_last()[i].number as int == v);
                assert(verses_map(s.drop_last()).contains_key(v));
            }
        }
    }
}

proof fn lemma_verses_map_index(s: Seq<VerseEntry>, i: int)
    requires
        verses_wf(s),
        0 <= i < s.len(),
    ensures
        verses_map(s).contains_key(s[i].number as int),
        verses_map(s)[s[i].number as int] == s[i].text@,
    decreases s.len(),
{
    if i == s.len() - 1 {
    } else {
        assert(verses_wf(s.drop_last()));
        assert(s.drop_last()[i] == s[i]);
        lemma_verses_map_index(s.drop_last(), i);
        assert(s[i].number != s.last().number);
    }
}

proof fn lemma_verses_map_remove(s: Seq<VerseEntry>, i: int)
    requires
        verses_wf(s),
        0 <= i < s.len(),
    ensures
        verses_map(s.remove(i)) =~= verses_map(s).remove(s[i].number as int),
    decreases s.len(),
{
    lemma_verses_map_contains(s.drop_last());
    if i == s.len() - 1 {
        assert(s.remove(i) =~= s.drop_last());
        assert(!verses_map(s.drop_last()).contains_key(s[i].number as int));
    } else {
        let t = s.remove(i);
        assert(t.drop_last() =~= s.drop_last().remove(i));
        assert(verses_wf(s.drop_last()));
        lemma_verses_map_remove(s.drop_last(), i);
        assert(s.drop_last()[i] == s[i]);
        assert(t.last() == s.last());
    }
}

proof fn lemma_chapters_map_contains(s: Seq<ChapterEntry>)
    ensures
        forall|c: int|
            #[trigger] chapters_map(s).contains_key(c) <==> exists|i: int|
                0 <= i < s.len() && (#[trigger] s[i]).number as int == c,
    decreases s.len(),
{
    if s.len() > 0 {
        lemma_chapters_map_contains(s.drop_last());
        assert forall|c: int| chapters_map(s).contains_key(c) implies exists|i: int|
            0 <= i < s.len() && (#[trigger] s[i]).number as int == c by {
            if s.last().number as int == c {
                assert(s[s.len() - 1].number as int == c);
            } else {
                assert(chapters_map(s.drop_last()).contains_key(c));
                let i = choose|i: int|
                    0 <= i < s.drop_last().len() && (#[trigger] s.drop_last()[i]).number as int
                        == c;
                assert(s[i].number as int == c);
            }
        }
        assert forall|c: int|
            (exists|i: int| 0 <= i < s.len() && (#[trigger] s[i]).number as int == c) implies
            chapters_map(s).contains_key(c) by {
            let i = choose|i: int| 0 <= i < s.len() && (#[trigger] s[i]).number as int == c;
            if i < s.len() - 1 {
                assert(s.drop_last()[i].number as int == c);
                assert(chapters_map(s.drop_last()).contains_key(c));
            }
        }
    }
}

proof fn lemma_chapters_map_index(s: Seq<ChapterEntry>, i: int)
    requires
        forall|p: int, q: int| 0 <= p < q < s.len() ==> s[p].number != s[q].number,
        0 <= i < s.len(),
    ensures
        chapters_map(s).contains_key(s[i].number as int),
        chapters_map(s)[s[i].number as int] == verses_map(s[i].verses@),
    decreases s.len(),
{
    if i == s.len() - 1 {
    } else {
        assert(s.drop_last()[i] == s[i]);
        lemma_chapters_map_index(s.drop_last(), i);
        assert(s[i].number != s.last().number);
    }
}

proof fn lemma_chapters_map_remove(s: Seq<ChapterEntry>, i: int)
    requires
        forall|p: int, q: int| 0 <= p < q < s.len() ==> s[p].number != s[q].number,
        0 <= i < s.len(),
    ensures
        chapters_map(s.remove(i)) =~= chapters_map(s).remove(s[i].number as int),
    decreases s.len(),
{
    lemma_chapters_map_contains(s.drop_last());
    if i == s.len() - 1 {
        assert(s.remove(i) =~= s.drop_last());
        assert(!chapters_map(s.drop_last()).contains_key(s[i].number as int));
    } else {
        let t = s.remove(i);
        assert(t.drop_last() =~= s.drop_last().remove(i));
        lemma_chapters_map_remove(s.drop_last(), i);
        assert(s.drop_last()[i] == s[i]);
        assert(t.last() == s.last());
    }
}

proof fn lemma_books_map_contains(s: Seq<BookEntry>)
    ensures
        forall|k: Seq<char>|
            #[trigger] books_map(s).contains_key(k) <==> exists|i: int|
                0 <= i < s.len() && (#[trigger] s[i]).name@ == k,
    decreases s.len(),
{
    if s.len() > 0 {
        lemma_books_map_contains(s.drop_last());
        assert forall|k: Seq<char>| books_map(s).contains_key(k) implies exists|i: int|
            0 <= i < s.len() && (#[trigger] s[i]).name@ == k by {
            if s.last().name@ == k {
                assert(s[s.len() - 1].name@ == k);
            } else {
                assert(books_map(s.drop_last()).contains_key(k));
                let i = choose|i: int|
                    0 <= i < s.drop_last().len() && (#[trigger] s.drop_last()[i]).name@ == k;
                assert(s[i].name@ == k);
            }
        }
        assert forall|k: Seq<char>|
            (exists|i: int| 0 <= i < s.len() && (#[trigger] s[i]).name@ == k) implies books_map(
            s,
        ).contains_key(k) by {
            let i = choose|i: int| 0 <= i < s.len() && (#[trigger] s[i]).name@ == k;
            if i < s.len() - 1 {
                assert(s.drop_last()[i].name@ == k);
                assert(books_map(s.drop_last()).contains_key(k));
            }
        }
    }
}

proof fn lemma_books_map_index(s: Seq<BookEntry>, i: int)
    requires
        forall|p: int, q: int| 0 <= p < q < s.len() ==> s[p].name@ != s[q].name@,
        0 <= i < s.len(),
    ensures
        books_map(s).contains_key(s[i].name@),
        books_map(s)[s[i].name@] == chapters_map(s[i].chapters@),
    decreases s.len(),
{
    if i == s.len() - 1 {
    } else {
        assert(s.drop_last()[i] == s[i]);
        lemma_books_map_index(s.drop_last(), i);
        assert(s[i].name@ != s.last().name@);
    }
}

proof fn lemma_books_map_remove(s: Seq<BookEntry>, i: int)
    requires
        forall|p: int, q: int| 0 <= p < q < s.len() ==> s[p].name@ != s[q].name@,
        0 <= i < s.len(),
    ensures
        books_map(s.remove(i)) =~= books_map(s).remove(s[i].name@),
    decreases s.len(),
{
    lemma_books_map_contains(s.drop_last());
    if i == s.len() - 1 {
        assert(s.remove(i) =~= s.drop_last());
        assert(!books_map(s.drop_last()).contains_key(s[i].name@));
    } else {
        let t = s.remove(i);
        assert(t.drop_last() =~= s.drop_last().remove(i));
        lemma_books_map_remove(s.drop_last(), i);
        assert(s.drop_last()[i] == s[i]);
        assert(t.last() == s.last());
    }
}

/// The superscript digits of a verse number.
pub open spec fn sup_rep(n: nat) -> Seq<char> {
    dec_rep(n).map_values(|c: char| sup(c))
}

/// One rendered verse: its superscript number, its text, one trailing space.
pub open spec fn verse_chunk(n: nat, text: Seq<char>) -> Seq<char> {
    sup_rep(n) + text + seq![' ']
}

/// Every verse present in `m` with a number in `lo..=hi`, rendered in
/// ascending order of verse number; absent numbers contribute nothing.
pub open spec fn render_range(m: ChapterMap, lo: int, hi: int) -> Seq<char>
    decreases hi - lo + 1,
{
    if lo > hi {
        Seq::empty()
    } else {
        render_range(m, lo, hi - 1) + if m.contains_key(hi) {
            verse_chunk(hi as nat, m[hi])
        } else {
            Seq::empty()
        }
    }
}

/// `s` without trailing whitespace.
pub open spec fn trim_end(s: Seq<char>) -> Seq<char>
    decreases s.len(),
{
    if s.len() > 0 && is_ws(s.last()) {
        trim_end(s.drop_last())
    } else {
        s
    }
}

/// `s` without leading whitespace.
pub open spec fn trim_start(s: Seq<char>) -> Seq<char>
    decreases s.len(),
{
    if s.len() > 0 && is_ws(s[0]) {
        trim_start(s.subrange(1, s.len() as int))
    } else {
        s
    }
}

/// `s` without leading and trailing whitespace.
pub open spec fn trim_ws(s: Seq<char>) -> Seq<char> {
    trim_start(trim_end(s))
}

proof fn lemma_trim_end_at(s: Seq<char>, e: int)
    requires
        0 <= e <= s.len(),
        forall|i: int| e <= i < s.len() ==> is_ws(s[i]),
        e > 0 ==> !is_ws(s[e - 1]),
    ensures
        trim_end(s) == s.subrange(0, e),
    decreases s.len(),
{
    if s.len() > 0 && is_ws(s.last()) {
        assert(e < s.len());
        lemma_trim_end_at(s.drop_last(), e);
        assert(s.drop_last().subrange(0, e) =~= s.subrange(0, e));
    } else {
        assert(e == s.len());
        assert(s.subrange(0, e) =~= s);
    }
}

proof fn lemma_trim_start_at(s: Seq<char>, b: int)
    requires
        0 <= b <= s.len(),
        forall|i: int| 0 <= i < b ==> is_ws(s[i]),
        b < s.len() ==> !is_ws(s[b]),
    ensures
        trim_start(s) == s.subrange(b, s.len() as int),
    decreases s.len(),
{
    if s.len() > 0 && is_ws(s[0]) {
        assert(b > 0);
        let t = s.subrange(1, s.len() as int);
        assert(forall|i: int| 0 <= i < b - 1 ==> t[i] == s[i + 1] && is_ws(s[i + 1]));
        lemma_trim_start_at(t, b - 1);
        assert(t.subrange(b - 1, t.len() as int) =~= s.subrange(b, s.len() as int));
    } else {
        assert(b == 0);
        assert(s.subrange(0, s.len() as int) =~= s);
    }
}

/// `s` with whitespace trimmed from both ends.
fn trim_chars(s: &Vec<char>) -> (r: Vec<char>)
    ensures
        r@ == trim_ws(s@),
{
    let mut e: usize = s.len();
    while e > 0 && ws_char(s[e - 1])
        invariant
            e <= s@.len(),
            forall|i: int| e <= i < s@.len() ==> is_ws(s@[i]),
        decreases e,
    {
        e = e - 1;
    }
    proof {
        lemma_trim_end_at(s@, e as int);
    }
    let mut b: usize = 0;
    while b < e && ws_char(s[b])
        invariant
            b <= e <= s@.len(),
            forall|i: int| 0 <= i < b ==> is_ws(s@[i]),
        decreases e - b,
    {
        b = b + 1;
    }
    let r = copy_range(s, b, e);
    proof {
        let te = s@.subrange(0, e as int);
        assert(forall|i: int| 0 <= i < b ==> te[i] == s@[i]);
        if b < e {
            assert(te[b as int] == s@[b as int]);
        }
        lemma_trim_start_at(te, b as int);
        assert(te.subrange(b as int, te.len() as int) =~= s@.subrange(b as int, e as int));
    }
    r
}

/// The superscript digits of `n`, as characters.
fn sup_chars(n: u32) -> (r: Vec<char>)
    ensures
        r@ == sup_rep(n as nat),
{
    let d = dec_chars(n);
    let mut r: Vec<char> = Vec::new();
    let mut i: usize = 0;
    while i < d.len()
        invariant
            i <= d@.len(),
            d@ == dec_rep(n as nat),
            r@ == sup_rep(n as nat).subrange(0, i as int),
        decreases d@.len() - i,
    {
        r.push(sup_char(d[i]));
        assert(r@ =~= sup_rep(n as nat).subrange(0, i + 1 as int));
        i = i + 1;
    }
    assert(r@ =~= sup_rep(n as nat));
    r
}

/// `v` lists exactly the keys of `m`, each once.
pub open spec fn lists_keys_of<V>(v: Seq<u32>, m: Map<int, V>) -> bool {
    &&& forall|i: int| 0 <= i < v.len() ==> m.contains_key((#[trigger] v[i]) as int)
    &&& forall|c: int|
        #[trigger] m.contains_key(c) ==> exists|i: int| 0 <= i < v.len() && (#[trigger] v[i]) as int == c
    &&& forall|i: int, j: int| 0 <= i < j < v.len() ==> v[i] != v[j]
}

/// The parsed corpus. Built once by [`Bible::parse`], immutable afterwards.
#[derive(Debug)]
pub struct Bible {
    books: Vec<BookEntry>,
}

impl View for Bible {
    type V = CorpusMap;

    closed spec fn view(&self) -> CorpusMap {
        books_map(self.books@)
    }
}

impl Bible {
    #[verifier::type_invariant]
    spec fn inv(self) -> bool {
        books_wf(self.books@)
    }

    /// Parse a whole corpus source: one record per line, in the form
    /// `<Book> <Chapter>:<Verse> <Text>`. The first malformed line fails the
    /// whole parse — a partially loaded corpus would corrupt every later
    /// lookup — and the error identifies that line. A record repeating an
    /// earlier book, chapter and verse replaces the earlier text.
    pub fn parse(source: &str) -> (r: Result<Bible, CorpusFormatError>)
        ensures
            match r {
                Ok(b) => lines_wf(split_lines(source@)) && b@ == corpus_model(
                    split_lines(source@),
                ),
                Err(e) => reports_first_bad_line(source@, e),
            },
    {
        let chars = to_chars(source);
        let ghost lines = split_lines(source@);
        let mut books: Vec<BookEntry> = Vec::new();
        let mut start: usize = 0;
        let mut li: usize = 0;
        let n = chars.len();
        proof {
            assert(chars@.subrange(0, n as int) =~= chars@);
            assert(lines.take(0) =~= Seq::<Seq<char>>::empty());
        }
        while start < n
            invariant
                chars@ == source@,
                lines == split_lines(source@),
                n == chars@.len(),
                start <= n,
                li <= start || (li == 0 && start == 0),
                li <= lines.len(),
                books_wf(books@),
                books_map(books@) == corpus_model(lines.take(li as int)),
                lines_wf(lines.take(li as int)),
                lines =~= lines.take(li as int) + split_lines(
                    chars@.subrange(start as int, n as int),
                ),
            decreases n - start,
        {
            let ghost s0 = start as int;
            let ghost suf = chars@.subrange(start as int, n as int);
            let j = find_char_from(&chars, start, '\n');
            let hi = if j > start && chars[j - 1] == '\r' {
                j - 1
            } else {
                j
            };
            let line = copy_range(&chars, start, hi);
            proof {
                let k = j - start;
                assert(forall|x: int| 0 <= x < k ==> suf[x] == chars@[start + x]);
                if j < n {
                    assert(suf[k] == chars@[j as int]);
                }
                lemma_split_lines_first(suf, k);
                let raw = suf.subrange(0, k);
                assert(raw =~= chars@.subrange(start as int, j as int));
                if j > start && chars@[j - 1] == '\r' {
                    assert(raw.last() == '\r');
                    assert(strip_cr(raw) =~= chars@.subrange(start as int, j - 1));
                    assert(line@ == strip_cr(raw));
                } else {
                    if raw.len() > 0 {
                        assert(raw.last() == chars@[j - 1]);
                    }
                    assert(strip_cr(raw) =~= raw);
                    assert(line@ == strip_cr(raw));
                }
                assert(lines[li as int] == line@);
                assert(li < lines.len());
            }
            match parse_line(&line) {
                None => {
                    proof {
                        assert forall|x: int| 0 <= x < li implies (#[trigger] line_record(
                            lines[x],
                        )) is Some by {
                            assert(lines.take(li as int)[x] == lines[x]);
                            assert(line_record(lines.take(li as int)[x]) is Some);
                        }
                    }
                    let err = CorpusFormatError { line_number: li + 1, line: chars_to_string(&line) };
                    proof {
                        assert(err.line_number - 1 == li as int);
                        assert(reports_first_bad_line(source@, err));
                    }
                    return Err(err);
                },
                Some((bk, ch, vs, tx)) => {
                    let ghost rec = line_record(line@)->Some_0;
                    proof {
                        assert(rec.book == bk@ && rec.chapter == ch as int && rec.verse == vs as int
                            && rec.text == tx@);
                    }
                    insert_record(&mut books, bk, ch, vs, tx);
                    proof {
                        let taken = lines.take(li + 1 as int);
                        assert(taken.drop_last() =~= lines.take(li as int));
                        assert(taken.last() == lines[li as int]);
                        assert(books_map(books@) == corpus_model(taken));
                        assert forall|x: int| 0 <= x < li + 1 implies (#[trigger] line_record(
                            taken[x],
                        )) is Some by {
                            if x < li {
                                assert(taken[x] == lines.take(li as int)[x]);
                                assert(line_record(lines.take(li as int)[x]) is Some);
                            }
                        }
                        assert(lines_wf(taken));
                    }
                },
            }
            li = li + 1;
            if j == n {
                start = n;
                proof {
                    assert(split_lines(chars@.subrange(n as int, n as int)) =~= Seq::<
                        Seq<char>,
                    >::empty());
                    assert(lines =~= lines.take(li as int) + split_lines(
                        chars@.subrange(start as int, n as int),
                    ));
                }
            } else {
                start = j + 1;
                proof {
                    assert(chars@.subrange(start as int, n as int) =~= suf.subrange(
                        j - s0 + 1,
                        suf.len() as int,
                    ));
                    assert(lines =~= lines.take(li as int) + split_lines(
                        chars@.subrange(start as int, n as int),
                    ));
                }
            }
        }
        proof {
            assert(chars@.subrange(start as int, n as int) =~= Seq::<char>::empty());
            assert(split_lines(Seq::<char>::empty()) =~= Seq::<Seq<char>>::empty());
            assert(lines =~= lines.take(li as int));
            assert(lines == lines.take(li as int));
        }
        Ok(Bible { books })
    }

    /// All book keys of the corpus, each exactly once; the order carries no
    /// meaning.
    pub fn get_books(&self) -> (r: Vec<String>)
        ensures
            forall|i: int| 0 <= i < r@.len() ==> self@.contains_key((#[trigger] r@[i])@),
            forall|k: Seq<char>|
                #[trigger] self@.contains_key(k) ==> exists|i: int|
                    0 <= i < r@.len() && (#[trigger] r@[i])@ == k,
            forall|i: int, j: int| 0 <= i < j < r@.len() ==> r@[i]@ != r@[j]@,
    {
        proof {
            use_type_invariant(self);
            lemma_books_map_contains(self.books@);
        }
        let mut r: Vec<String> = Vec::new();
        let mut i: usize = 0;
        while i < self.books.len()
            invariant
                i <= self.books@.len(),
                r@.len() == i,
                forall|j: int| 0 <= j < i ==> (#[trigger] r@[j])@ == self.books@[j].name@,
                books_wf(self.books@),
            decreases self.books@.len() - i,
        {
            r.push(self.books[i].name.clone());
            i = i + 1;
        }
        proof {
            assert forall|k: Seq<char>| #[trigger]
                self@.contains_key(k) implies exists|i: int|
                0 <= i < r@.len() && (#[trigger] r@[i])@ == k by {
                let i = choose|i: int|
                    0 <= i < self.books@.len() && (#[trigger] self.books@[i]).name@ == k;
                assert(r@[i]@ == k);
            }
            assert forall|i: int| 0 <= i < r@.len() implies self@.contains_key(
                (#[trigger] r@[i])@,
            ) by {
                assert(self.books@[i].name@ == r@[i]@);
            }
        }
        r
    }

    /// All chapter numbers of `book`, each exactly once, in no meaningful
    /// order; absent when the book is unknown.
    pub fn get_chapters(&self, book: &str) -> (r: Option<Vec<u32>>)
        ensures
            match r {
                Some(v) => self@.contains_key(book@) && lists_keys_of(v@, self@[book@]),
                None => !self@.contains_key(book@),
            },
    {
        proof {
            use_type_invariant(self);
            lemma_books_map_contains(self.books@);
        }
        match find_book_entry(&self.books, book) {
            None => None,
            Some(bi) => {
                proof {
                    lemma_books_map_index(self.books@, bi as int);
                    lemma_chapters_map_contains(self.books@[bi as int].chapters@);
                }
                let chapters = &self.books[bi].chapters;
                let mut v: Vec<u32> = Vec::new();
                let mut i: usize = 0;
                while i < chapters.len()
                    invariant
                        i <= chapters@.len(),
                        v@.len() == i,
                        forall|j: int| 0 <= j < i ==> (#[trigger] v@[j]) == chapters@[j].number,
                        chapters_wf(chapters@),
                    decreases chapters@.len() - i,
                {
                    v.push(chapters[i].number);
                    i = i + 1;
                }
                proof {
                    let cs = self.books@[bi as int].chapters@;
                    assert forall|c: int| #[trigger]
                        self@[book@].contains_key(c) implies exists|i: int|
                        0 <= i < v@.len() && (#[trigger] v@[i]) as int == c by {
                        let i = choose|i: int|
                            0 <= i < cs.len() && (#[trigger] cs[i]).number as int == c;
                        assert(v@[i] as int == c);
                    }
                    assert forall|i: int| 0 <= i < v@.len() implies self@[book@].contains_key(
                        (#[trigger] v@[i]) as int,
                    ) by {
                        assert(cs[i].number as int == v@[i] as int);
                    }
                    assert forall|i: int, j: int| 0 <= i < j < v@.len() implies v@[i] != v@[j] by {
                        assert(cs[i].number != cs[j].number);
                    }
                    assert(self@.contains_key(book@));
                    assert(self@[book@] == chapters_map(cs));
                    assert(lists_keys_of(v@, self@[book@]));
                }
                Some(v)
            },
        }
    }

    /// All verse numbers of `book`'s chapter `chapter`, each exactly once,
    /// in no meaningful order; absent when the book or chapter is unknown.
    pub fn get_verses(&self, book: &str, chapter: u32) -> (r: Option<Vec<u32>>)
        ensures
            match r {
                Some(v) => self@.contains_key(book@) && self@[book@].contains_key(chapter as int)
                    && lists_keys_of(v@, self@[book@][chapter as int]),
                None => !self@.contains_key(book@) || !self@[book@].contains_key(chapter as int),
            },
    {
        proof {
            use_type_invariant(self);
            lemma_books_map_contains(self.books@);
        }
        let bi = match find_book_entry(&self.books, book) {
            None => {
                return None;
            },
            Some(bi) => bi,
        };
        proof {
            lemma_books_map_index(self.books@, bi as int);
            lemma_chapters_map_contains(self.books@[bi as int].chapters@);
        }
        let ci = match find_chapter(&self.books[bi].chapters, chapter) {
            None => {
                return None;
            },
            Some(ci) => ci,
        };
        proof {
            lemma_chapters_map_index(self.books@[bi as int].chapters@, ci as int);
            lemma_verses_map_contains(self.books@[bi as int].chapters@[ci as int].verses@);
        }
        let verses = &self.books[bi].chapters[ci].verses;
        let mut v: Vec<u32> = Vec::new();
        let mut i: usize = 0;
        while i < verses.len()
            invariant
                i <= verses@.len(),
                v@.len() == i,
                forall|j: int| 0 <= j < i ==> (#[trigger] v@[j]) == verses@[j].number,
                verses_wf(verses@),
            decreases verses@.len() - i,
        {
            v.push(verses[i].number);
            i = i + 1;
        }
        proof {
            let vs = self.books@[bi as int].chapters@[ci as int].verses@;
            let m = self@[book@][chapter as int];
            assert(m == verses_map(vs));
            assert forall|k: int| #[trigger] m.contains_key(k) implies exists|i: int|
                0 <= i < v@.len() && (#[trigger] v@[i]) as int == k by {
                let i = choose|i: int| 0 <= i < vs.len() && (#[trigger] vs[i]).number as int == k;
                assert(v@[i] as int == k);
            }
            assert forall|i: int| 0 <= i < v@.len() implies m.contains_key(
                (#[trigger] v@[i]) as int,
            ) by {
                assert(vs[i].number as int == v@[i] as int);
            }
            assert forall|i: int, j: int| 0 <= i < j < v@.len() implies v@[i] != v@[j] by {
                assert(vs[i].number != vs[j].number);
            }
            assert(lists_keys_of(v@, m));
        }
        Some(v)
    }

    /// The largest verse number of `book`'s chapter `chapter`; absent when
    /// the book or chapter is unknown.
    pub fn get_max_verse(&self, book: &str, chapter: u32) -> (r: Option<u32>)
        ensures
            match r {
                Some(m) => self@.contains_key(book@) && self@[book@].contains_key(chapter as int)
                    && self@[book@][chapter as int].contains_key(m as int) && forall|k: int|
                    #[trigger] self@[book@][chapter as int].contains_key(k) ==> k <= m,
                None => !self@.contains_key(book@) || !self@[book@].contains_key(chapter as int),
            },
    {
        proof {
            use_type_invariant(self);
            lemma_books_map_contains(self.books@);
        }
        let bi = match find_book_entry(&self.books, book) {
            None => {
                return None;
            },
            Some(bi) => bi,
        };
        proof {
            lemma_books_map_index(self.books@, bi as int);
            lemma_chapters_map_contains(self.books@[bi as int].chapters@);
        }
        let ci = match find_chapter(&self.books[bi].chapters, chapter) {
            None => {
                return None;
            },
            Some(ci) => ci,
        };
        proof {
            lemma_chapters_map_index(self.books@[bi as int].chapters@, ci as int);
            lemma_verses_map_contains(self.books@[bi as int].chapters@[ci as int].verses@);
        }
        let verses = &self.books[bi].chapters[ci].verses;
        let ghost vs = verses@;
        let mut best: u32 = verses[0].number;
        let mut i: usize = 1;
        while i < verses.len()
            invariant
                1 <= i <= vs.len(),
                vs == verses@,
                exists|j: int| 0 <= j < i && (#[trigger] vs[j]).number == best,
                forall|j: int| 0 <= j < i ==> (#[trigger] vs[j]).number <= best,
            decreases vs.len() - i,
        {
            if verses[i].number > best {
                best = verses[i].number;
            }
            i = i + 1;
        }
        proof {
            let m = self@[book@][chapter as int];
            assert(m == verses_map(vs));
            let j = choose|j: int| 0 <= j < vs.len() && (#[trigger] vs[j]).number == best;
            assert(m.contains_key(vs[j].number as int));
            assert forall|k: int| #[trigger] m.contains_key(k) implies k <= best by {
                let i = choose|i: int| 0 <= i < vs.len() && (#[trigger] vs[i]).number as int == k;
            }
        }
        Some(best)
    }

    /// Each decimal digit of `s` replaced by its Unicode superscript form;
    /// all other characters kept.
    pub fn replace_superscript(s: String) -> (r: String)
        ensures
            r@ == s@.map_values(|c: char| sup(c)),
    {
        let chars = to_chars(s.as_str());
        let mut out: Vec<char> = Vec::new();
        let mut i: usize = 0;
        while i < chars.len()
            invariant
                i <= chars@.len(),
                chars@ == s@,
                out@ == s@.map_values(|c: char| sup(c)).subrange(0, i as int),
            decreases chars@.len() - i,
        {
            out.push(sup_char(chars[i]));
            assert(out@ =~= s@.map_values(|c: char| sup(c)).subrange(0, i + 1 as int));
            i = i + 1;
        }
        assert(out@ =~= s@.map_values(|c: char| sup(c)));
        chars_to_string(&out)
    }

    /// The whole chapter rendered: every verse in ascending order of verse
    /// number — the storage order carries no meaning — each prefixed with its
    /// superscript number and followed by one space. Absent when the book or
    /// chapter is unknown.
    pub fn get_chapter(&self, book: &str, chapter: u32) -> (r: Option<String>)
        ensures
            match r {
                Some(t) => self@.contains_key(book@) && self@[book@].contains_key(chapter as int)
                    && t@ == render_range(self@[book@][chapter as int], 0, u32::MAX as int),
                None => !self@.contains_key(book@) || !self@[book@].contains_key(chapter as int),
            },
    {
        proof {
            use_type_invariant(self);
            lemma_books_map_contains(self.books@);
        }
        let bi = match find_book_entry(&self.books, book) {
            None => {
                return None;
            },
            Some(bi) => bi,
        };
        proof {
            lemma_books_map_index(self.books@, bi as int);
            lemma_chapters_map_contains(self.books@[bi as int].chapters@);
        }
        let ci = match find_chapter(&self.books[bi].chapters, chapter) {
            None => {
                return None;
            },
            Some(ci) => ci,
        };
        proof {
            lemma_chapters_map_index(self.books@[bi as int].chapters@, ci as int);
            lemma_verses_map_contains(self.books@[bi as int].chapters@[ci as int].verses@);
        }
        let verses = &self.books[bi].chapters[ci].verses;
        let hi = max_verse_of(verses);
        let out = render_span(verses, 0, hi);
        proof {
            let m = self@[book@][chapter as int];
            assert(m == verses_map(verses@));
            assert forall|k: int| #[trigger] m.contains_key(k) implies k <= hi as int by {
                let i = choose|i: int|
                    0 <= i < verses@.len() && (#[trigger] verses@[i]).number as int == k;
            }
            lemma_render_range_extend(m, 0, hi as int, u32::MAX as int);
        }
        Some(chars_to_string(&out))
    }

    /// The verse or verse range that `lookup` points at. For a single verse,
    /// the stored text; absent when book, chapter or verse is unknown. For a
    /// range, every present verse in `verse..=thru_verse` rendered ascending
    /// with superscript numbers, trimmed of outer whitespace; absent when
    /// the book or chapter is unknown, while missing verse numbers inside
    /// the range are skipped silently.
    pub fn get_verse(&self, lookup: BibleLookup) -> (r: Option<String>)
        ensures
            match lookup.thru_verse {
                None => match r {
                    Some(t) => self@.contains_key(lookup.book@) && self@[lookup.book@].contains_key(
                        lookup.chapter as int,
                    ) && self@[lookup.book@][lookup.chapter as int].contains_key(lookup.verse as int)
                        && t@ == self@[lookup.book@][lookup.chapter as int][lookup.verse as int],
                    None => !self@.contains_key(lookup.book@) || !self@[lookup.book@].contains_key(
                        lookup.chapter as int,
                    ) || !self@[lookup.book@][lookup.chapter as int].contains_key(
                        lookup.verse as int,
                    ),
                },
                Some(th) => match r {
                    Some(t) => self@.contains_key(lookup.book@) && self@[lookup.book@].contains_key(
                        lookup.chapter as int,
                    ) && t@ == trim_ws(
                        render_range(
                            self@[lookup.book@][lookup.chapter as int],
                            lookup.verse as int,
                            th as int,
                        ),
                    ),
                    None => !self@.contains_key(lookup.book@) || !self@[lookup.book@].contains_key(
                        lookup.chapter as int,
                    ),
                },
            },
    {
        proof {
            use_type_invariant(self);
            lemma_books_map_contains(self.books@);
        }
        let bi = match find_book_entry(&self.books, lookup.book.as_str()) {
            None => {
                return None;
            },
            Some(bi) => bi,
        };
        proof {
            lemma_books_map_index(self.books@, bi as int);
            lemma_chapters_map_contains(self.books@[bi as int].chapters@);
        }
        let ci = match find_chapter(&self.books[bi].chapters, lookup.chapter) {
            None => {
                return None;
            },
            Some(ci) => ci,
        };
        proof {
            lemma_chapters_map_index(self.books@[bi as int].chapters@, ci as int);
            lemma_verses_map_contains(self.books@[bi as int].chapters@[ci as int].verses@);
        }
        let verses = &self.books[bi].chapters[ci].verses;
        match lookup.thru_verse {
            Some(th) => {
                let out = render_span(verses, lookup.verse, th);
                let trimmed = trim_chars(&out);
                Some(chars_to_string(&trimmed))
            },
            None => {
                match find_verse(verses, lookup.verse) {
                    None => {
                        proof {
                            assert(!self@[lookup.book@][lookup.chapter as int].contains_key(
                                lookup.verse as int,
                            ));
                        }
                        None
                    },
                    Some(vi) => {
                        proof {
                            lemma_verses_map_index(verses@, vi as int);
                        }
                        Some(verses[vi].text.clone())
                    },
                }
            },
        }
    }

    /// A uniformly random book, then a uniformly random chapter of it, then
    /// a uniformly random verse of that chapter — three independent draws,
    /// not one flat draw over all verses, so verses in short books are drawn
    /// more often. The result always points at a verse present in the
    /// corpus.
    pub fn random_verse(&self) -> (r: BibleLookup)
        requires
            exists|k: Seq<char>| (#[trigger] self@.contains_key(k)),
        ensures
            self@.contains_key(r.book@),
            self@[r.book@].contains_key(r.chapter as int),
            self@[r.book@][r.chapter as int].contains_key(r.verse as int),
            r.thru_verse is None,
    {
        proof {
            use_type_invariant(self);
            lemma_books_map_contains(self.books@);
            let k = choose|k: Seq<char>| self@.contains_key(k);
            assert(self@.contains_key(k));
            let i = choose|i: int|
                0 <= i < self.books@.len() && (#[trigger] self.books@[i]).name@ == k;
            assert(self.books@.len() > 0);
        }
        let bi = random_below(self.books.len());
        let book = &self.books[bi];
        proof {
            lemma_books_map_index(self.books@, bi as int);
            lemma_chapters_map_contains(book.chapters@);
        }
        let ci = random_below(book.chapters.len());
        let chapter = &book.chapters[ci];
        proof {
            lemma_chapters_map_index(book.chapters@, ci as int);
            lemma_verses_map_contains(chapter.verses@);
        }
        let vi = random_below(chapter.verses.len());
        proof {
            lemma_verses_map_index(chapter.verses@, vi as int);
        }
        BibleLookup {
            book: book.name.clone(),
            chapter: chapter.number,
            verse: chapter.verses[vi].number,
            thru_verse: None,
        }
    }
}

/// Growing the upper bound past every present key does not change the
/// rendering.
pub proof fn lemma_render_range_extend(m: ChapterMap, lo: int, hi1: int, hi2: int)
    requires
        hi1 <= hi2,
        forall|k: int| #[trigger] m.contains_key(k) ==> k <= hi1,
    ensures
        render_range(m, lo, hi2) == render_range(m, lo, hi1),
    decreases hi2 - hi1,
{
    if hi1 < hi2 {
        lemma_render_range_extend(m, lo, hi1, hi2 - 1);
        assert(!m.contains_key(hi2));
        assert(render_range(m, lo, hi2) =~= render_range(m, lo, hi2 - 1));
    }
}

/// Index of the stored verse entry numbered `verse`, if any.
fn find_verse(verses: &Vec<VerseEntry>, verse: u32) -> (r: Option<usize>)
    ensures
        match r {
            Some(i) => i < verses@.len() && verses@[i as int].number == verse,
            None => forall|i: int|
                0 <= i < verses@.len() ==> (#[trigger] verses@[i]).number != verse,
        },
{
    let mut i: usize = 0;
    while i < verses.len()
        invariant
            i <= verses@.len(),
            forall|j: int| 0 <= j < i ==> (#[trigger] verses@[j]).number != verse,
        decreases verses@.len() - i,
    {
        if verses[i].number == verse {
            return Some(i);
        }
        i = i + 1;
    }
    None
}

/// The largest verse number among the entries.
fn max_verse_of(verses: &Vec<VerseEntry>) -> (r: u32)
    requires
        verses@.len() > 0,
    ensures
        exists|j: int| 0 <= j < verses@.len() && (#[trigger] verses@[j]).number == r,
        forall|j: int| 0 <= j < verses@.len() ==> (#[trigger] verses@[j]).number <= r,
{
    let mut best: u32 = verses[0].number;
    let mut i: usize = 1;
    while i < verses.len()
        invariant
            1 <= i <= verses@.len(),
            exists|j: int| 0 <= j < i && (#[trigger] verses@[j]).number == best,
            forall|j: int| 0 <= j < i ==> (#[trigger] verses@[j]).number <= best,
        decreases verses@.len() - i,
    {
        if verses[i].number > best {
            best = verses[i].number;
        }
        i = i + 1;
    }
    best
}

/// Every verse of `verses` with a number in `lo..=hi`, rendered in ascending
/// order, each as its superscript number, its text, and a trailing space.
fn render_span(verses: &Vec<VerseEntry>, lo: u32, hi: u32) -> (out: Vec<char>)
    requires
        verses_wf(verses@),
    ensures
        out@ == render_range(verses_map(verses@), lo as int, hi as int),
{
    let ghost m = verses_map(verses@);
    proof {
        lemma_verses_map_contains(verses@);
    }
    let mut out: Vec<char> = Vec::new();
    if lo > hi {
        assert(out@ =~= render_range(m, lo as int, hi as int));
        return out;
    }
    let mut v: u64 = lo as u64;
    assert(out@ =~= render_range(m, lo as int, lo as int - 1));
    while v <= hi as u64
        invariant
            lo as u64 <= v <= hi as u64 + 1,
            m == verses_map(verses@),
            verses_wf(verses@),
            forall|k: int|
                #[trigger] m.contains_key(k) <==> exists|i: int|
                    0 <= i < verses@.len() && (#[trigger] verses@[i]).number as int == k,
            out@ == render_range(m, lo as int, v as int - 1),
        decreases hi as u64 + 1 - v,
    {
        let vn: u32 = v as u32;
        match find_verse(verses, vn) {
            Some(k) => {
                proof {
                    lemma_verses_map_index(verses@, k as int);
                }
                let mut sv = sup_chars(vn);
                out.append(&mut sv);
                let mut tc = to_chars(verses[k].text.as_str());
                out.append(&mut tc);
                out.push(' ');
                assert(out@ =~= render_range(m, lo as int, v as int));
            },
            None => {
                proof {
                    assert(!m.contains_key(v as int));
                    assert(out@ =~= render_range(m, lo as int, v as int));
                }
            },
        }
        v = v + 1;
    }
    out
}

/// Index of the stored chapter entry numbered `chapter`, if any.
fn find_chapter(chapters: &Vec<ChapterEntry>, chapter: u32) -> (r: Option<usize>)
    ensures
        match r {
            Some(i) => i < chapters@.len() && chapters@[i as int].number == chapter,
            None => forall|i: int|
                0 <= i < chapters@.len() ==> (#[trigger] chapters@[i]).number != chapter,
        },
{
    let mut i: usize = 0;
    while i < chapters.len()
        invariant
            i <= chapters@.len(),
            forall|j: int| 0 <= j < i ==> (#[trigger] chapters@[j]).number != chapter,
        decreases chapters@.len() - i,
    {
        if chapters[i].number == chapter {
            return Some(i);
        }
        i = i + 1;
    }
    None
}

/// Relies on `rand::random_range`: a value drawn from the thread-local
/// generator lies within the given range, and the call panics only on an
/// empty range.
#[verifier::external_body]
fn random_below(n: usize) -> (r: usize)
    requires
        n > 0,
    ensures
        r < n,
{
    rand::random_range(0..n)
}

/// Two records naming the same book, chapter and verse.
pub open spec fn same_key(a: LineRec, b: LineRec) -> bool {
    a.book == b.book && a.chapter == b.chapter && a.verse == b.verse
}

/// Round trip: a well-formed corpus line whose book, chapter and verse no
/// later line repeats is found in the parsed corpus with its text unchanged.
pub proof fn lemma_parse_round_trip(lines: Seq<Seq<char>>, i: int)
    requires
        0 <= i < lines.len(),
        line_record(lines[i]) is Some,
        forall|j: int|
            i < j < lines.len() ==> ((#[trigger] line_record(lines[j])) matches Some(r2)
                ==> !same_key(r2, line_record(lines[i])->Some_0)),
    ensures
        ({
            let rec = line_record(lines[i])->Some_0;
            let m = corpus_model(lines);
            &&& m.contains_key(rec.book)
            &&& m[rec.book].contains_key(rec.chapter)
            &&& m[rec.book][rec.chapter].contains_key(rec.verse)
            &&& m[rec.book][rec.chapter][rec.verse] == rec.text
        }),
    decreases lines.len(),
{
    let rec = line_record(lines[i])->Some_0;
    if i == lines.len() - 1 {
    } else {
        let prev = lines.drop_last();
        assert(prev[i] == lines[i]);
        assert forall|j: int|
            i < j < prev.len() implies ((#[trigger] line_record(prev[j])) matches Some(r2)
            ==> !same_key(r2, line_record(prev[i])->Some_0)) by {
            assert(prev[j] == lines[j]);
        }
        lemma_parse_round_trip(prev, i);
        let m = corpus_model(prev);
        match line_record(lines.last()) {
            None => {
                assert(corpus_model(lines) == m);
            },
            Some(r2) => {
                assert(lines[lines.len() - 1] == lines.last());
                assert(!same_key(r2, rec));
                let m2 = corpus_model(lines);
                assert(m2 == model_insert(m, r2));
                if r2.book != rec.book {
                    assert(m2[rec.book] == m[rec.book]);
                } else if r2.chapter != rec.chapter {
                    assert(m2[rec.book][rec.chapter] == m[rec.book][rec.chapter]);
                } else {
                    assert(r2.verse != rec.verse);
                    assert(m2[rec.book][rec.chapter][rec.verse]
                        == m[rec.book][rec.chapter][rec.verse]);
                }
            },
        }
    }
}

/// The verse numbers present in `m` between `lo` and `hi` inclusive, in
/// ascending order.
pub open spec fn present_keys(m: ChapterMap, lo: int, hi: int) -> Seq<int>
    decreases hi - lo + 1,
{
    if lo > hi {
        Seq::empty()
    } else {
        present_keys(m, lo, hi - 1) + if m.contains_key(hi) {
            seq![hi]
        } else {
            Seq::empty()
        }
    }
}

/// The chunks of the given verse numbers, rendered in their order.
pub open spec fn chunks_concat(m: ChapterMap, ks: Seq<int>) -> Seq<char>
    decreases ks.len(),
{
    if ks.len() == 0 {
        Seq::empty()
    } else {
        chunks_concat(m, ks.drop_last()) + verse_chunk(ks.last() as nat, m[ks.last()])
    }
}

/// Rendering a range yields exactly the verses present in it, in strictly
/// ascending order of verse number, each rendered as its chunk: superscript
/// number, text, one space.
pub proof fn lemma_render_ascending(m: ChapterMap, lo: int, hi: int)
    ensures
        render_range(m, lo, hi) == chunks_concat(m, present_keys(m, lo, hi)),
        forall|a: int, b: int|
            0 <= a < b < present_keys(m, lo, hi).len() ==> present_keys(m, lo, hi)[a]
                < present_keys(m, lo, hi)[b],
        forall|a: int|
            0 <= a < present_keys(m, lo, hi).len() ==> lo <= #[trigger] present_keys(m, lo, hi)[a]
                <= hi && m.contains_key(present_keys(m, lo, hi)[a]),
        forall|k: int|
            lo <= k <= hi && #[trigger] m.contains_key(k) ==> present_keys(m, lo, hi).contains(k),
    decreases hi - lo + 1,
{
    if lo > hi {
    } else {
        lemma_render_ascending(m, lo, hi - 1);
        let ks0 = present_keys(m, lo, hi - 1);
        let ks = present_keys(m, lo, hi);
        if m.contains_key(hi) {
            assert(ks =~= ks0.push(hi));
            assert(ks.drop_last() =~= ks0);
            assert(chunks_concat(m, ks) == chunks_concat(m, ks0) + verse_chunk(hi as nat, m[hi]));
            assert(render_range(m, lo, hi) == render_range(m, lo, hi - 1) + verse_chunk(
                hi as nat,
                m[hi],
            ));
        } else {
            assert(ks =~= ks0);
            assert(render_range(m, lo, hi) =~= render_range(m, lo, hi - 1));
        }
        assert forall|k: int|
            lo <= k <= hi && #[trigger] m.contains_key(k) implies ks.contains(k) by {
            if k < hi {
                assert(ks0.contains(k));
                let a = choose|a: int| 0 <= a < ks0.len() && ks0[a] == k;
                assert(ks[a] == k);
            } else {
                assert(ks[ks.len() - 1] == k);
            }
        }
    }
}

/// Index of the stored book entry named `book`, if any.
fn find_book_entry(books: &Vec<BookEntry>, book: &str) -> (r: Option<usize>)
    ensures
        match r {
            Some(i) => i < books@.len() && books@[i as int].name@ == book@,
            None => forall|i: int|
                0 <= i < books@.len() ==> (#[trigger] books@[i]).name@ != book@,
        },
{
    let mut i: usize = 0;
    while i < books.len()
        invariant
            i <= books@.len(),
            forall|j: int| 0 <= j < i ==> (#[trigger] books@[j]).name@ != book@,
        decreases books@.len() - i,
    {
        if str_eq(books[i].name.as_str(), book) {
            return Some(i);
        }
        i = i + 1;
    }
    None
}

/// A line with one trailing carriage return removed.
pub open spec fn strip_cr(l: Seq<char>) -> Seq<char> {
    if l.len() > 0 && l.last() == '\r' {
        l.drop_last()
    } else {
        l
    }
}

/// The lines of the source text: split at every line feed, one trailing
/// carriage return per line removed, and no empty line after a final line
/// feed.
pub open spec fn split_lines(s: Seq<char>) -> Seq<Seq<char>>
    decreases s.len(),
    via split_lines_decreases
{
    if s.len() == 0 {
        Seq::empty()
    } else {
        let k = find_char(s, '\n');
        if k == s.len() {
            seq![strip_cr(s)]
        } else {
            seq![strip_cr(s.subrange(0, k))] + split_lines(s.subrange(k + 1, s.len() as int))
        }
    }
}

#[via_fn]
proof fn split_lines_decreases(s: Seq<char>) {
    if s.len() > 0 {
        crate::text::lemma_find_char_bounds(s, '\n');
    }
}

/// Splitting takes the first line off the front.
proof fn lemma_split_lines_first(s: Seq<char>, k: int)
    requires
        s.len() > 0,
        0 <= k <= s.len(),
        forall|i: int| 0 <= i < k ==> s[i] != '\n',
        k < s.len() ==> s[k] == '\n',
    ensures
        split_lines(s) == seq![strip_cr(s.subrange(0, k))] + if k < s.len() {
            split_lines(s.subrange(k + 1, s.len() as int))
        } else {
            Seq::<Seq<char>>::empty()
        },
{
    lemma_find_char_at(s, '\n', k);
    if k == s.len() {
        assert(s.subrange(0, k) =~= s);
        assert(split_lines(s) =~= seq![strip_cr(s)] + Seq::<Seq<char>>::empty());
    }
}

/// One corpus record: what a well-formed line states.
pub struct LineRec {
    pub book: Seq<char>,
    pub chapter: int,
    pub verse: int,
    pub text: Seq<char>,
}

/// What one line of the corpus states, if it is well formed: the line is
/// split at its first colon; in the head the last whitespace-separated token
/// must be the chapter number and the remaining tokens, rejoined and
/// lowercased, form the book key; in the tail the first token must be the
/// verse number and the remaining tokens, rejoined, form the verse text.
pub open spec fn line_record(l: Seq<char>) -> Option<LineRec> {
    let p = find_char(l, ':');
    if p == l.len() {
        None
    } else {
        let hts = tokens(l.subrange(0, p));
        let tts = tokens(l.subrange(p + 1, l.len() as int));
        if hts.len() == 0 || tts.len() == 0 {
            None
        } else if !all_digits(hts.last()) || digits_val(hts.last()) > u32::MAX || !all_digits(
            tts[0],
        ) || digits_val(tts[0]) > u32::MAX {
            None
        } else {
            Some(
                LineRec {
                    book: lower_seq(join_ws(hts.drop_last())),
                    chapter: digits_val(hts.last()) as int,
                    verse: digits_val(tts[0]) as int,
                    text: join_ws(tts.subrange(1, tts.len() as int)),
                },
            )
        }
    }
}

/// A record folded into the corpus: existing books and chapters are kept,
/// and a record for an already-present verse replaces its text.
pub open spec fn model_insert(m: CorpusMap, rec: LineRec) -> CorpusMap {
    let bm = if m.contains_key(rec.book) {
        m[rec.book]
    } else {
        Map::empty()
    };
    let cm = if bm.contains_key(rec.chapter) {
        bm[rec.chapter]
    } else {
        Map::empty()
    };
    m.insert(rec.book, bm.insert(rec.chapter, cm.insert(rec.verse, rec.text)))
}

/// The corpus stated by a sequence of well-formed lines, in order; lines
/// without a record contribute nothing.
pub open spec fn corpus_model(lines: Seq<Seq<char>>) -> CorpusMap
    decreases lines.len(),
{
    if lines.len() == 0 {
        Map::empty()
    } else {
        let m = corpus_model(lines.drop_last());
        match line_record(lines.last()) {
            Some(rec) => model_insert(m, rec),
            None => m,
        }
    }
}

/// Every line carries a record.
pub open spec fn lines_wf(lines: Seq<Seq<char>>) -> bool {
    forall|i: int| 0 <= i < lines.len() ==> (#[trigger] line_record(lines[i])) is Some
}

/// A malformed corpus line, identified by its one-based line number and its
/// content.
#[derive(Debug, Clone)]
pub struct CorpusFormatError {
    pub line_number: usize,
    pub line: String,
}

/// The error names the first malformed line of the source, one-based, and
/// carries that line's content.
pub open spec fn reports_first_bad_line(src: Seq<char>, e: CorpusFormatError) -> bool {
    let lines = split_lines(src);
    &&& 1 <= e.line_number <= lines.len()
    &&& line_record(lines[e.line_number - 1]) is None
    &&& forall|j: int| 0 <= j < e.line_number - 1 ==> (#[trigger] line_record(lines[j])) is Some
    &&& e.line@ == lines[e.line_number - 1]
}

/// The record of one line, as executable values.
fn parse_line(line: &Vec<char>) -> (r: Option<(String, u32, u32, String)>)
    ensures
        r is Some <==> line_record(line@) is Some,
        r matches Some(p) ==> line_record(line@) matches Some(rec) && p.0@ == rec.book && p.1
            as int == rec.chapter && p.2 as int == rec.verse && p.3@ == rec.text,
{
    let n = line.len();
    let p = find_char_from(line, 0, ':');
    proof {
        lemma_find_char_at(line@, ':', p as int);
    }
    if p == n {
        return None;
    }
    let hts = tokenize(line, 0, p);
    let tts = tokenize(line, p + 1, n);
    if hts.len() == 0 || tts.len() == 0 {
        return None;
    }
    let chapter = match parse_u32(&hts[hts.len() - 1]) {
        None => {
            proof {
                assert(views_of(hts@).last() == hts@[hts@.len() - 1]@);
            }
            return None;
        },
        Some(c) => c,
    };
    let verse = match parse_u32(&tts[0]) {
        None => {
            proof {
                assert(views_of(tts@)[0] == tts@[0]@);
            }
            return None;
        },
        Some(v) => v,
    };
    let book_chars = join_tokens(&hts, 0, hts.len() - 1);
    let book = chars_to_string(&lower_vec(&book_chars));
    let text = chars_to_string(&join_tokens(&tts, 1, tts.len()));
    proof {
        let hv = views_of(hts@);
        let tv = views_of(tts@);
        assert(hv.last() == hts@[hts@.len() - 1]@);
        assert(tv[0] == tts@[0]@);
        assert(hv.subrange(0, hv.len() - 1) =~= hv.drop_last());
        assert(tv.subrange(1, tv.len() as int) =~= tv.subrange(1, tts@.len() as int));
    }
    Some((book, chapter, verse, text))
}

proof fn lemma_verses_wf_remove(s: Seq<VerseEntry>, k: int)
    requires
        verses_wf(s),
        0 <= k < s.len(),
    ensures
        verses_wf(s.remove(k)),
        forall|i: int| 0 <= i < s.remove(k).len() ==> (#[trigger] s.remove(k)[i]).number != s[k].number,
{
    let t = s.remove(k);
    assert forall|i: int| 0 <= i < t.len() implies (#[trigger] t[i]).number != s[k].number by {
        if i < k {
            assert(t[i] == s[i]);
        } else {
            assert(t[i] == s[i + 1]);
        }
    }
    assert forall|p: int, q: int| 0 <= p < q < t.len() implies t[p].number != t[q].number by {
        if q < k {
        } else if p < k {
            assert(t[p] == s[p] && t[q] == s[q + 1]);
        } else {
            assert(t[p] == s[p + 1] && t[q] == s[q + 1]);
        }
    }
}

proof fn lemma_chapters_wf_remove(s: Seq<ChapterEntry>, k: int)
    requires
        chapters_wf(s),
        0 <= k < s.len(),
    ensures
        chapters_wf(s.remove(k)),
        forall|i: int|
            0 <= i < s.remove(k).len() ==> (#[trigger] s.remove(k)[i]).number != s[k].number,
{
    let t = s.remove(k);
    assert forall|i: int| 0 <= i < t.len() implies (#[trigger] t[i]).number != s[k].number && (
    #[trigger] t[i]).verses@.len() > 0 && verses_wf(t[i].verses@) by {
        if i < k {
            assert(t[i] == s[i]);
            assert(s[i].verses@.len() > 0 && verses_wf(s[i].verses@));
        } else {
            assert(t[i] == s[i + 1]);
            assert(s[i + 1].verses@.len() > 0 && verses_wf(s[i + 1].verses@));
        }
    }
    assert forall|p: int, q: int| 0 <= p < q < t.len() implies t[p].number != t[q].number by {
        if q < k {
        } else if p < k {
            assert(t[p] == s[p] && t[q] == s[q + 1]);
        } else {
            assert(t[p] == s[p + 1] && t[q] == s[q + 1]);
        }
    }
}

proof fn lemma_books_wf_remove(s: Seq<BookEntry>, k: int)
    requires
        books_wf(s),
        0 <= k < s.len(),
    ensures
        books_wf(s.remove(k)),
        forall|i: int| 0 <= i < s.remove(k).len() ==> (#[trigger] s.remove(k)[i]).name@ != s[k].name@,
{
    let t = s.remove(k);
    assert forall|i: int| 0 <= i < t.len() implies (#[trigger] t[i]).name@ != s[k].name@ && (
    #[trigger] t[i]).chapters@.len() > 0 && chapters_wf(t[i].chapters@) by {
        if i < k {
            assert(t[i] == s[i]);
            assert(s[i].chapters@.len() > 0 && chapters_wf(s[i].chapters@));
        } else {
            assert(t[i] == s[i + 1]);
            assert(s[i + 1].chapters@.len() > 0 && chapters_wf(s[i + 1].chapters@));
        }
    }
    assert forall|p: int, q: int| 0 <= p < q < t.len() implies t[p].name@ != t[q].name@ by {
        if q < k {
        } else if p < k {
            assert(t[p] == s[p] && t[q] == s[q + 1]);
        } else {
            assert(t[p] == s[p + 1] && t[q] == s[q + 1]);
        }
    }
}

/// One record folded into the stored corpus.
fn insert_record(books: &mut Vec<BookEntry>, book: String, chapter: u32, verse: u32, text: String)
    requires
        books_wf(old(books)@),
    ensures
        books_wf(final(books)@),
        books_map(final(books)@) == model_insert(
            books_map(old(books)@),
            LineRec { book: book@, chapter: chapter as int, verse: verse as int, text: text@ },
        ),
{
    let ghost s0 = books@;
    let ghost m0 = books_map(s0);
    let ghost rec = LineRec {
        book: book@,
        chapter: chapter as int,
        verse: verse as int,
        text: text@,
    };
    proof {
        lemma_books_map_contains(s0);
    }
    match find_book_entry(books, book.as_str()) {
        None => {
            let mut vs: Vec<VerseEntry> = Vec::new();
            vs.push(VerseEntry { number: verse, text });
            let mut cs: Vec<ChapterEntry> = Vec::new();
            cs.push(ChapterEntry { number: chapter, verses: vs });
            let ghost csv = cs@;
            books.push(BookEntry { name: book, chapters: cs });
            proof {
                assert(!m0.contains_key(rec.book));
                let s1 = books@;
                assert(s1.drop_last() =~= s0);
                let vsv = csv[0].verses@;
                assert(vsv.len() == 1);
                assert(vsv.last().number == verse);
                assert(vsv.last().text@ == rec.text);
                assert(vsv.drop_last() =~= Seq::<VerseEntry>::empty());
                assert(verses_map(Seq::<VerseEntry>::empty()) =~= Map::<int, Seq<char>>::empty());
                assert(verses_map(vsv) =~= Map::<int, Seq<char>>::empty().insert(
                    verse as int,
                    rec.text,
                ));
                assert(csv.drop_last() =~= Seq::<ChapterEntry>::empty());
                assert(csv.len() == 1);
                assert(csv.last().number == chapter);
                assert(csv.last().verses@ == vsv);
                assert(chapters_map(Seq::<ChapterEntry>::empty())
                    =~= Map::<int, ChapterMap>::empty());
                assert(chapters_map(csv) =~= Map::<int, ChapterMap>::empty().insert(
                    chapter as int,
                    verses_map(vsv),
                ));
                assert(books_map(s1) =~= m0.insert(rec.book, chapters_map(csv)));
                assert(books_map(s1) =~= model_insert(m0, rec));
                assert(verses_wf(vsv));
                assert(chapters_wf(csv));
                assert forall|p: int, q: int| 0 <= p < q < s1.len() implies s1[p].name@
                    != s1[q].name@ by {
                    if q < s1.len() - 1 {
                        assert(s1[p] == s0[p] && s1[q] == s0[q]);
                    } else {
                        assert(s1[p] == s0[p]);
                    }
                }
                assert(books_wf(s1));
            }
        },
        Some(i) => {
            proof {
                lemma_books_map_index(s0, i as int);
                lemma_books_map_remove(s0, i as int);
                lemma_books_wf_remove(s0, i as int);
            }
            let ghost b0 = s0[i as int];
            let ghost cs0 = b0.chapters@;
            let ghost bm0 = chapters_map(cs0);
            let mut b = books.remove(i);
            proof {
                lemma_chapters_map_contains(cs0);
            }
            match find_chapter(&b.chapters, chapter) {
                None => {
                    let mut vs: Vec<VerseEntry> = Vec::new();
                    vs.push(VerseEntry { number: verse, text });
                    let ghost vsv = vs@;
                    b.chapters.push(ChapterEntry { number: chapter, verses: vs });
                    let ghost cs1 = b.chapters@;
                    books.push(b);
                    proof {
                        assert(!bm0.contains_key(rec.chapter));
                        assert(vsv.len() == 1);
                        assert(vsv.last().number == verse);
                        assert(vsv.last().text@ == rec.text);
                        assert(vsv.drop_last() =~= Seq::<VerseEntry>::empty());
                        assert(verses_map(Seq::<VerseEntry>::empty())
                            =~= Map::<int, Seq<char>>::empty());
                        assert(verses_map(vsv) =~= Map::<int, Seq<char>>::empty().insert(
                            verse as int,
                            rec.text,
                        ));
                        assert(cs1.drop_last() =~= cs0);
                        assert(chapters_map(cs1) =~= bm0.insert(chapter as int, verses_map(vsv)));
                        let s2 = books@;
                        assert(s2.drop_last() =~= s0.remove(i as int));
                        assert(books_map(s2) =~= books_map(s0.remove(i as int)).insert(
                            rec.book,
                            chapters_map(cs1),
                        ));
                        assert(books_map(s2) =~= m0.insert(rec.book, chapters_map(cs1)));
                        assert(chapters_map(cs1) == bm0.insert(
                            rec.chapter,
                            Map::<int, Seq<char>>::empty().insert(rec.verse, rec.text),
                        ));
                        assert(books_map(s2) =~= model_insert(m0, rec));
                        // well-formedness
                        assert(verses_wf(vsv));
                        assert forall|p: int, q: int| 0 <= p < q < cs1.len() implies cs1[p].number
                            != cs1[q].number by {
                            if q < cs1.len() - 1 {
                                assert(cs1[p] == cs0[p] && cs1[q] == cs0[q]);
                            } else {
                                assert(cs1[p] == cs0[p]);
                            }
                        }
                        assert forall|x: int| 0 <= x < cs1.len() implies (#[trigger] cs1[x]).verses@.len()
                            > 0 && verses_wf(cs1[x].verses@) by {
                            if x < cs1.len() - 1 {
                                assert(cs1[x] == cs0[x]);
                                assert(cs0[x].verses@.len() > 0 && verses_wf(cs0[x].verses@));
                            }
                        }
                        assert(chapters_wf(cs1));
                        let t = s0.remove(i as int);
                        assert forall|p: int, q: int| 0 <= p < q < s2.len() implies s2[p].name@
                            != s2[q].name@ by {
                            if q < s2.len() - 1 {
                                assert(s2[p] == t[p] && s2[q] == t[q]);
                            } else {
                                assert(s2[p] == t[p]);
                                assert(t[p].name@ != s0[i as int].name@);
                            }
                        }
                        assert forall|x: int| 0 <= x < s2.len() implies (#[trigger] s2[x]).chapters@.len()
                            > 0 && chapters_wf(s2[x].chapters@) by {
                            if x < s2.len() - 1 {
                                assert(s2[x] == t[x]);
                                assert(t[x].chapters@.len() > 0 && chapters_wf(t[x].chapters@));
                            }
                        }
                        assert(books_wf(s2));
                    }
                },
                Some(j) => {
                    proof {
                        lemma_chapters_map_index(cs0, j as int);
                        lemma_chapters_map_remove(cs0, j as int);
                        lemma_chapters_wf_remove(cs0, j as int);
                    }
                    let ghost c0 = cs0[j as int];
                    let ghost vs0 = c0.verses@;
                    let ghost cm0 = verses_map(vs0);
                    let mut c = b.chapters.remove(j);
                    proof {
                        lemma_verses_map_contains(vs0);
                    }
                    match find_verse(&c.verses, verse) {
                        None => {
                            c.verses.push(VerseEntry { number: verse, text });
                            proof {
                                assert(!cm0.contains_key(rec.verse));
                                assert(c.verses@.drop_last() =~= vs0);
                                assert(verses_map(c.verses@) =~= cm0.insert(rec.verse, rec.text));
                                assert forall|p: int, q: int|
                                    0 <= p < q < c.verses@.len() implies c.verses@[p].number
                                    != c.verses@[q].number by {
                                    if q < c.verses@.len() - 1 {
                                        assert(c.verses@[p] == vs0[p] && c.verses@[q] == vs0[q]);
                                    } else {
                                        assert(c.verses@[p] == vs0[p]);
                                    }
                                }
                                assert(verses_wf(c.verses@));
                            }
                        },
                        Some(k) => {
                            proof {
                                lemma_verses_map_remove(vs0, k as int);
                                lemma_verses_wf_remove(vs0, k as int);
                            }
                            let ghost vs1 = vs0.remove(k as int);
                            c.verses.remove(k);
                            c.verses.push(VerseEntry { number: verse, text });
                            proof {
                                assert(c.verses@.drop_last() =~= vs1);
                                assert(verses_map(c.verses@) =~= cm0.insert(rec.verse, rec.text));
                                assert forall|p: int, q: int|
                                    0 <= p < q < c.verses@.len() implies c.verses@[p].number
                                    != c.verses@[q].number by {
                                    if q < c.verses@.len() - 1 {
                                        assert(c.verses@[p] == vs1[p] && c.verses@[q] == vs1[q]);
                                    } else {
                                        assert(c.verses@[p] == vs1[p]);
                                        assert(vs1[p].number != vs0[k as int].number);
                                    }
                                }
                                assert(verses_wf(c.verses@));
                            }
                        },
                    }
                    let ghost vs2 = c.verses@;
                    let ghost cs1 = cs0.remove(j as int);
                    b.chapters.push(c);
                    let ghost cs2 = b.chapters@;
                    books.push(b);
                    proof {
                        let s2 = books@;
                        let t = s0.remove(i as int);
                        assert(cs2.drop_last() =~= cs1);
                        assert(chapters_map(cs2) =~= bm0.insert(rec.chapter, verses_map(vs2)));
                        assert(s2.drop_last() =~= t);
                        assert(books_map(s2) =~= m0.insert(rec.book, chapters_map(cs2)));
                        assert(verses_map(vs2) == cm0.insert(rec.verse, rec.text));
                        assert(chapters_map(cs2) == bm0.insert(
                            rec.chapter,
                            cm0.insert(rec.verse, rec.text),
                        ));
                        assert(books_map(s2) =~= model_insert(m0, rec));
                        // well-formedness
                        assert(vs2.len() > 0);
                        assert forall|p: int, q: int| 0 <= p < q < cs2.len() implies cs2[p].number
                            != cs2[q].number by {
                            if q < cs2.len() - 1 {
                                assert(cs2[p] == cs1[p] && cs2[q] == cs1[q]);
                            } else {
                                assert(cs2[p] == cs1[p]);
                                assert(cs1[p].number != cs0[j as int].number);
                            }
                        }
                        assert forall|x: int| 0 <= x < cs2.len() implies (#[trigger] cs2[x]).verses@.len()
                            > 0 && verses_wf(cs2[x].verses@) by {
                            if x < cs2.len() - 1 {
                                assert(cs2[x] == cs1[x]);
                                assert(cs1[x].verses@.len() > 0 && verses_wf(cs1[x].verses@));
                            }
                        }
                        assert(chapters_wf(cs2));
                        assert forall|p: int, q: int| 0 <= p < q < s2.len() implies s2[p].name@
                            != s2[q].name@ by {
                            if q < s2.len() - 1 {
                                assert(s2[p] == t[p] && s2[q] == t[q]);
                            } else {
                                assert(s2[p] == t[p]);
                                assert(t[p].name@ != s0[i as int].name@);
                            }
                        }
                        assert forall|x: int| 0 <= x < s2.len() implies (#[trigger] s2[x]).chapters@.len()
                            > 0 && chapters_wf(s2[x].chapters@) by {
                            if x < s2.len() - 1 {
                                assert(s2[x] == t[x]);
                                assert(t[x].chapters@.len() > 0 && chapters_wf(t[x].chapters@));
                            }
                        }
                        assert(books_wf(s2));
                    }
                },
            }
        },
    }
}

} // verus!
