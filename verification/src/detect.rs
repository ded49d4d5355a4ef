//! The citation detector: scans free text for the 66 canonical book names,
//! case-insensitively, each followed by `chapter:verse` or
//! `chapter:verse-thru_verse`, and yields structured references in order of
//! appearance.

use vstd::prelude::*;
use vstd::string::StrSliceExecFns;

use crate::lookup::BibleLookup;
use crate::text::{
    copy_range, digits_val, is_digit, is_ws, lower, lower_char, parse_u32, to_chars, ws_char,
};

verus! {

/// The 66 canonical book names, lowercased, in canonical order.
pub open spec fn book_names() -> Seq<Seq<char>> {
    seq![
        "genesis"@,
        "exodus"@,
        "leviticus"@,
        "numbers"@,
        "deuteronomy"@,
        "joshua"@,
        "judges"@,
        "ruth"@,
        "1 samuel"@,
        "2 samuel"@,
        "1 kings"@,
        "2 kings"@,
        "1 chronicles"@,
        "2 chronicles"@,
        "ezra"@,
        "nehemiah"@,
        "esther"@,
        "job"@,
        "psalms"@,
        "proverbs"@,
        "ecclesiastes"@,
        "song of solomon"@,
        "isaiah"@,
        "jeremiah"@,
        "lamentations"@,
        "ezekiel"@,
        "daniel"@,
        "hosea"@,
        "joel"@,
        "amos"@,
        "obadiah"@,
        "jonah"@,
        "micah"@,
        "nahum"@,
        "habakkuk"@,
        "zephaniah"@,
        "haggai"@,
        "zechariah"@,
        "malachi"@,
        "matthew"@,
        "mark"@,
        "luke"@,
        "john"@,
        "acts"@,
        "romans"@,
        "1 corinthians"@,
        "2 corinthians"@,
        "galatians"@,
        "ephesians"@,
        "philippians"@,
        "colossians"@,
        "1 thessalonians"@,
        "2 thessalonians"@,
        "1 timothy"@,
        "2 timothy"@,
        "titus"@,
        "philemon"@,
        "hebrews"@,
        "james"@,
        "1 peter"@,
        "2 peter"@,
        "1 john"@,
        "2 john"@,
        "3 john"@,
        "jude"@,
        "revelation"@,
    ]
}

/// The canonical book table as strings, in canonical order: the valid book
/// keys of a full corpus, and the detector's search list.
pub fn canonical_books() -> (r: Vec<String>)
    ensures
        r@.len() == book_names().len(),
        forall|i: int| 0 <= i < r@.len() ==> (#[trigger] r@[i])@ == book_names()[i],
{
    let mut r: Vec<String> = Vec::new();
    r.push(String::from_str("genesis"));
    r.push(String::from_str("exodus"));
    r.push(String::from_str("leviticus"));
    r.push(String::from_str("numbers"));
    r.push(String::from_str("deuteronomy"));
    r.push(String::from_str("joshua"));
    r.push(String::from_str("judges"));
    r.push(String::from_str("ruth"));
    r.push(String::from_str("1 samuel"));
    r.push(String::from_str("2 samuel"));
    r.push(String::from_str("1 kings"));
    r.push(String::from_str("2 kings"));
    r.push(String::from_str("1 chronicles"));
    r.push(String::from_str("2 chronicles"));
    r.push(String::from_str("ezra"));
    r.push(String::from_str("nehemiah"));
    r.push(String::from_str("esther"));
    r.push(String::from_str("job"));
    r.push(String::from_str("psalms"));
    r.push(String::from_str("proverbs"));
    r.push(String::from_str("ecclesiastes"));
    r.push(String::from_str("song of solomon"));
    r.push(String::from_str("isaiah"));
    r.push(String::from_str("jeremiah"));
    r.push(String::from_str("lamentations"));
    r.push(String::from_str("ezekiel"));
    r.push(String::from_str("daniel"));
    r.push(String::from_str("hosea"));
    r.push(String::from_str("joel"));
    r.push(String::from_str("amos"));
    r.push(String::from_str("obadiah"));
    r.push(String::from_str("jonah"));
    r.push(String::from_str("micah"));
    r.push(String::from_str("nahum"));
    r.push(String::from_str("habakkuk"));
    r.push(String::from_str("zephaniah"));
    r.push(String::from_str("haggai"));
    r.push(String::from_str("zechariah"));
    r.push(String::from_str("malachi"));
    r.push(String::from_str("matthew"));
    r.push(String::from_str("mark"));
    r.push(String::from_str("luke"));
    r.push(String::from_str("john"));
    r.push(String::from_str("acts"));
    r.push(String::from_str("romans"));
    r.push(String::from_str("1 corinthians"));
    r.push(String::from_str("2 corinthians"));
    r.push(String::from_str("galatians"));
    r.push(String::from_str("ephesians"));
    r.push(String::from_str("philippians"));
    r.push(String::from_str("colossians"));
    r.push(String::from_str("1 thessalonians"));
    r.push(String::from_str("2 thessalonians"));
    r.push(String::from_str("1 timothy"));
    r.push(String::from_str("2 timothy"));
    r.push(String::from_str("titus"));
    r.push(String::from_str("philemon"));
    r.push(String::from_str("hebrews"));
    r.push(String::from_str("james"));
    r.push(String::from_str("1 peter"));
    r.push(String::from_str("2 peter"));
    r.push(String::from_str("1 john"));
    r.push(String::from_str("2 john"));
    r.push(String::from_str("3 john"));
    r.push(String::from_str("jude"));
    r.push(String::from_str("revelation"));
    r
}

/// Length of the whitespace run at position `j`.
pub open spec fn ws_run(s: Seq<char>, j: int) -> int
    decreases s.len() - j,
{
    if j < 0 || j >= s.len() || !is_ws(s[j]) {
        0
    } else {
        1 + ws_run(s, j + 1)
    }
}

/// Length of the decimal digit run at position `j`.
pub open spec fn digit_run(s: Seq<char>, j: int) -> int
    decreases s.len() - j,
{
    if j < 0 || j >= s.len() || !is_digit(s[j]) {
        0
    } else {
        1 + digit_run(s, j + 1)
    }
}

proof fn lemma_ws_run_at(s: Seq<char>, j: int, p: int)
    requires
        0 <= j <= p <= s.len(),
        forall|x: int| j <= x < p ==> is_ws(s[x]),
        p < s.len() ==> !is_ws(s[p]),
    ensures
        ws_run(s, j) == p - j,
    decreases p - j,
{
    if j < p {
        lemma_ws_run_at(s, j + 1, p);
    }
}

proof fn lemma_digit_run_at(s: Seq<char>, j: int, p: int)
    requires
        0 <= j <= p <= s.len(),
        forall|x: int| j <= x < p ==> is_digit(s[x]),
        p < s.len() ==> !is_digit(s[p]),
    ensures
        digit_run(s, j) == p - j,
    decreases p - j,
{
    if j < p {
        lemma_digit_run_at(s, j + 1, p);
    }
}

proof fn lemma_ws_run_bounds(s: Seq<char>, j: int)
    requires
        0 <= j <= s.len(),
    ensures
        0 <= ws_run(s, j) <= s.len() - j,
    decreases s.len() - j,
{
    if j < s.len() && is_ws(s[j]) {
        lemma_ws_run_bounds(s, j + 1);
    }
}

proof fn lemma_digit_run_bounds(s: Seq<char>, j: int)
    requires
        0 <= j <= s.len(),
    ensures
        0 <= digit_run(s, j) <= s.len() - j,
    decreases s.len() - j,
{
    if j < s.len() && is_digit(s[j]) {
        lemma_digit_run_bounds(s, j + 1);
    }
}

/// The chapter-and-verse reference at position `j`, right after a book name:
/// whitespace, chapter digits, a colon, verse digits, and optionally a dash
/// and the range's last verse. The result carries chapter, verse, the
/// optional last verse, and the position after the match. A backwards range
/// is malformed and yields nothing.
pub open spec fn ref_at(s: Seq<char>, j: int) -> Option<(int, int, Option<int>, int)> {
    let w = ws_run(s, j);
    let cd = digit_run(s, j + w);
    if w == 0 || cd == 0 {
        None
    } else {
        let cval = digits_val(s.subrange(j + w, j + w + cd));
        let jc = j + w + cd;
        if cval > u32::MAX || jc >= s.len() || s[jc] != ':' {
            None
        } else {
            let vd = digit_run(s, jc + 1);
            if vd == 0 {
                None
            } else {
                let vval = digits_val(s.subrange(jc + 1, jc + 1 + vd));
                let jv = jc + 1 + vd;
                if vval > u32::MAX {
                    None
                } else {
                    let td = if jv < s.len() && s[jv] == '-' {
                        digit_run(s, jv + 1)
                    } else {
                        0
                    };
                    if td == 0 {
                        Some((cval as int, vval as int, None, jv))
                    } else {
                        let tval = digits_val(s.subrange(jv + 1, jv + 1 + td));
                        if tval > u32::MAX || tval < vval {
                            None
                        } else {
                            Some((cval as int, vval as int, Some(tval as int), jv + 1 + td))
                        }
                    }
                }
            }
        }
    }
}

/// A match ends strictly after where it began, within the text.
proof fn lemma_ref_at_end(s: Seq<char>, j: int)
    requires
        0 <= j <= s.len(),
        ref_at(s, j) is Some,
    ensures
        j < ref_at(s, j)->Some_0.3 <= s.len(),
{
    lemma_ws_run_bounds(s, j);
    let w = ws_run(s, j);
    lemma_digit_run_bounds(s, j + w);
    let cd = digit_run(s, j + w);
    let jc = j + w + cd;
    lemma_digit_run_bounds(s, jc + 1);
    let vd = digit_run(s, jc + 1);
    let jv = jc + 1 + vd;
    if jv < s.len() && s[jv] == '-' {
        lemma_digit_run_bounds(s, jv + 1);
    }
}

/// Case-insensitive match of `name` at position `i` of `s`.
pub open spec fn name_matches_at(s: Seq<char>, i: int, name: Seq<char>) -> bool {
    &&& 0 <= i
    &&& i + name.len() <= s.len()
    &&& forall|k: int| 0 <= k < name.len() ==> lower(s[i + k]) == name[k]
}

/// A full citation of book `bi` at position `i`: the name matches and a
/// reference follows.
pub open spec fn cites_at(s: Seq<char>, i: int, bi: int) -> bool {
    &&& name_matches_at(s, i, book_names()[bi])
    &&& ref_at(s, i + book_names()[bi].len()) is Some
}

/// The first book of the canonical list, from `bi` on, cited at position
/// `i`; the length of the list when none is.
pub open spec fn first_cited(s: Seq<char>, i: int, bi: int) -> int
    decreases book_names().len() - bi,
{
    if bi < 0 || bi >= book_names().len() {
        book_names().len() as int
    } else if cites_at(s, i, bi) {
        bi
    } else {
        first_cited(s, i, bi + 1)
    }
}

proof fn lemma_first_cited_at(s: Seq<char>, i: int, bi: int)
    requires
        0 <= bi <= book_names().len(),
        forall|x: int| 0 <= x < bi ==> !cites_at(s, i, x),
        bi < book_names().len() ==> cites_at(s, i, bi),
    ensures
        first_cited(s, i, 0) == bi,
{
    lemma_first_cited_from(s, i, 0, bi);
}

proof fn lemma_first_cited_from(s: Seq<char>, i: int, b: int, bi: int)
    requires
        0 <= b <= bi <= book_names().len(),
        forall|x: int| b <= x < bi ==> !cites_at(s, i, x),
        bi < book_names().len() ==> cites_at(s, i, bi),
    ensures
        first_cited(s, i, b) == bi,
    decreases bi - b,
{
    if b < bi {
        lemma_first_cited_from(s, i, b + 1, bi);
    }
}

/// One detected citation.
pub struct Citation {
    pub book: Seq<char>,
    pub chapter: int,
    pub verse: int,
    pub thru: Option<int>,
}

/// The citations of `s` from position `i` on, by position of first
/// appearance, non-overlapping: at each position the first cited canonical
/// book is taken with its reference and the scan resumes after the match,
/// else the scan moves one character on.
pub open spec fn scan_refs(s: Seq<char>, i: int) -> Seq<Citation>
    decreases s.len() - i,
    via scan_refs_decreases
{
    if i < 0 || i >= s.len() {
        Seq::empty()
    } else {
        let bi = first_cited(s, i, 0);
        if bi < book_names().len() {
            let name = book_names()[bi];
            let r = ref_at(s, i + name.len())->Some_0;
            seq![
                Citation { book: name, chapter: r.0, verse: r.1, thru: r.2 },
            ] + scan_refs(s, r.3)
        } else {
            scan_refs(s, i + 1)
        }
    }
}

#[via_fn]
proof fn scan_refs_decreases(s: Seq<char>, i: int) {
    if 0 <= i < s.len() {
        let bi = first_cited(s, i, 0);
        lemma_first_cited_some(s, i);
        if bi < book_names().len() {
            let name = book_names()[bi];
            lemma_ref_at_end(s, i + name.len());
        }
    }
}

/// Where `first_cited` lands on a book, that book is cited there.
proof fn lemma_first_cited_some(s: Seq<char>, i: int)
    ensures
        first_cited(s, i, 0) < book_names().len() ==> cites_at(s, i, first_cited(s, i, 0)),
        0 <= first_cited(s, i, 0) <= book_names().len(),
{
    lemma_first_cited_props(s, i, 0);
}

proof fn lemma_first_cited_props(s: Seq<char>, i: int, b: int)
    requires
        0 <= b <= book_names().len(),
    ensures
        b <= first_cited(s, i, b) <= book_names().len(),
        first_cited(s, i, b) < book_names().len() ==> cites_at(s, i, first_cited(s, i, b)),
    decreases book_names().len() - b,
{
    if b < book_names().len() && !cites_at(s, i, b) {
        lemma_first_cited_props(s, i, b + 1);
    }
}

/// Every scanned citation respects the range invariant: a range never runs
/// backwards, because a backwards range is dropped as malformed.
pub proof fn lemma_scan_refs_wf(s: Seq<char>, i: int)
    ensures
        forall|x: int|
            0 <= x < scan_refs(s, i).len() ==> ((#[trigger] scan_refs(s, i)[x]).thru matches Some(
                t,
            ) ==> scan_refs(s, i)[x].verse <= t),
    decreases s.len() - i,
{
    if 0 <= i < s.len() {
        let bi = first_cited(s, i, 0);
        lemma_first_cited_some(s, i);
        if bi < book_names().len() {
            let name = book_names()[bi];
            lemma_ref_at_end(s, i + name.len());
            let r = ref_at(s, i + name.len())->Some_0;
            lemma_scan_refs_wf(s, r.3);
            assert forall|x: int|
                0 <= x < scan_refs(s, i).len() implies ((#[trigger] scan_refs(s, i)[x]).thru
                matches Some(t) ==> scan_refs(s, i)[x].verse <= t) by {
                if x > 0 {
                    assert(scan_refs(s, i)[x] == scan_refs(s, r.3)[x - 1]);
                }
            }
        } else {
            lemma_scan_refs_wf(s, i + 1);
        }
    }
}

/// `r` carries exactly the citations `recs`, as lookups.
pub open spec fn lookups_match(r: Seq<BibleLookup>, recs: Seq<Citation>) -> bool {
    &&& r.len() == recs.len()
    &&& forall|i: int|
        0 <= i < r.len() ==> {
            let l = #[trigger] r[i];
            let c = recs[i];
            &&& l.book@ == c.book
            &&& l.chapter as int == c.chapter
            &&& l.verse as int == c.verse
            &&& (l.thru_verse is Some <==> c.thru is Some)
            &&& (l.thru_verse matches Some(t) ==> c.thru == Some(t as int))
        }
}

/// The executable tuple `p` carries the reference that [`ref_at`] states at
/// position `j`.
pub open spec fn ref_corresponds(
    p: (u32, u32, Option<u32>, usize),
    s: Seq<char>,
    j: int,
) -> bool {
    &&& ref_at(s, j) is Some
    &&& p.0 as int == ref_at(s, j)->Some_0.0
    &&& p.1 as int == ref_at(s, j)->Some_0.1
    &&& (p.2 is Some <==> ref_at(s, j)->Some_0.2 is Some)
    &&& (p.2 matches Some(t) ==> ref_at(s, j)->Some_0.2 == Some(t as int))
    &&& p.3 as int == ref_at(s, j)->Some_0.3
}

/// The state of a successful search at position `i`: `mi` is the first
/// cited book and `best` carries its reference.
pub open spec fn found_state(
    s: Seq<char>,
    i: int,
    mi: int,
    best: Option<(u32, u32, Option<u32>, usize)>,
) -> bool {
    &&& 0 <= mi < book_names().len()
    &&& cites_at(s, i, mi)
    &&& forall|x: int| 0 <= x < mi ==> !cites_at(s, i, x)
    &&& best is Some
    &&& ref_corresponds(best->Some_0, s, i + book_names()[mi].len())
}

/// The reference following a book name, as executable values: chapter,
/// verse, the optional last verse of a range, and the position after the
/// match.
fn try_ref(chars: &Vec<char>, j: usize) -> (r: Option<(u32, u32, Option<u32>, usize)>)
    requires
        j <= chars@.len(),
    ensures
        r is Some <==> ref_at(chars@, j as int) is Some,
        r matches Some(p) ==> ref_corresponds(p, chars@, j as int),
{
    let ghost s = chars@;
    let n = chars.len();
    let mut p: usize = j;
    while p < n && ws_char(chars[p])
        invariant
            j <= p <= n == s.len(),
            s == chars@,
            forall|x: int| j <= x < p ==> is_ws(s[x]),
        decreases n - p,
    {
        p = p + 1;
    }
    proof {
        lemma_ws_run_at(s, j as int, p as int);
    }
    if p == j {
        return None;
    }
    let mut q: usize = p;
    while q < n && chars[q] >= '0' && chars[q] <= '9'
        invariant
            p <= q <= n == s.len(),
            s == chars@,
            forall|x: int| p <= x < q ==> is_digit(s[x]),
        decreases n - q,
    {
        q = q + 1;
    }
    proof {
        lemma_digit_run_at(s, p as int, q as int);
    }
    if q == p {
        return None;
    }
    let ctok = copy_range(chars, p, q);
    let cval = match parse_u32(&ctok) {
        None => {
            return None;
        },
        Some(c) => c,
    };
    if q == n || chars[q] != ':' {
        return None;
    }
    let mut v: usize = q + 1;
    while v < n && chars[v] >= '0' && chars[v] <= '9'
        invariant
            q + 1 <= v <= n == s.len(),
            s == chars@,
            forall|x: int| q + 1 <= x < v ==> is_digit(s[x]),
        decreases n - v,
    {
        v = v + 1;
    }
    proof {
        lemma_digit_run_at(s, q as int + 1, v as int);
    }
    if v == q + 1 {
        return None;
    }
    let vtok = copy_range(chars, q + 1, v);
    let vval = match parse_u32(&vtok) {
        None => {
            return None;
        },
        Some(x) => x,
    };
    if v < n && chars[v] == '-' {
        let mut t: usize = v + 1;
        while t < n && chars[t] >= '0' && chars[t] <= '9'
            invariant
                v + 1 <= t <= n == s.len(),
                s == chars@,
                forall|x: int| v + 1 <= x < t ==> is_digit(s[x]),
            decreases n - t,
        {
            t = t + 1;
        }
        proof {
            lemma_digit_run_at(s, v as int + 1, t as int);
        }
        if t == v + 1 {
            return Some((cval, vval, None, v));
        }
        let ttok = copy_range(chars, v + 1, t);
        let tval = match parse_u32(&ttok) {
            None => {
                return None;
            },
            Some(x) => x,
        };
        if tval < vval {
            return None;
        }
        Some((cval, vval, Some(tval), t))
    } else {
        Some((cval, vval, None, v))
    }
}

/// Case-insensitive test of `name` at position `i`.
fn name_match(chars: &Vec<char>, i: usize, name: &str) -> (r: bool)
    requires
        i <= chars@.len(),
    ensures
        r == name_matches_at(chars@, i as int, name@),
{
    let nl = name.unicode_len();
    let n = chars.len();
    if nl > n - i {
        return false;
    }
    let mut k: usize = 0;
    while k < nl
        invariant
            nl == name@.len(),
            n == chars@.len(),
            i + nl <= n,
            k <= nl,
            forall|x: int| 0 <= x < k ==> lower(chars@[i + x]) == name@[x],
        decreases nl - k,
    {
        if lower_char(chars[i + k]) != name.get_char(k) {
            return false;
        }
        k = k + 1;
    }
    true
}

impl BibleLookup {
    /// Every scripture citation in the text, in order of first appearance:
    /// a canonical book name matched case-insensitively, then
    /// `chapter:verse` or `chapter:verse-thru_verse`. A backwards range is
    /// dropped rather than returned.
    pub fn detect_from_string(text: &str) -> (r: Vec<BibleLookup>)
        ensures
            lookups_match(r@, scan_refs(text@, 0)),
            forall|x: int| 0 <= x < r@.len() ==> (#[trigger] r@[x]).wf(),
    {
        proof {
            lemma_scan_refs_wf(text@, 0);
        }
        let chars = to_chars(text);
        let books = canonical_books();
        let ghost s = text@;
        let mut out: Vec<BibleLookup> = Vec::new();
        let mut i: usize = 0;
        let mut done_g: Ghost<Seq<Citation>> = Ghost(Seq::empty());
        proof {
            assert(done_g@ + scan_refs(s, 0) =~= scan_refs(s, 0));
        }
        while i < chars.len()
            invariant
                chars@ == s,
                books@.len() == book_names().len(),
                forall|x: int| 0 <= x < books@.len() ==> (#[trigger] books@[x])@ == book_names()[x],
                i <= s.len(),
                lookups_match(out@, done_g@),
                scan_refs(s, 0) == done_g@ + scan_refs(s, i as int),
            decreases s.len() - i,
        {
            let mut found: bool = false;
            let mut bi: usize = 0;
            let mut mi: usize = 0;
            let mut best: Option<(u32, u32, Option<u32>, usize)> = None;
            while bi < books.len()
                invariant
                    chars@ == s,
                    i < s.len(),
                    books@.len() == book_names().len(),
                    forall|x: int|
                        0 <= x < books@.len() ==> (#[trigger] books@[x])@ == book_names()[x],
                    bi <= books@.len(),
                    !found ==> best is None && forall|x: int| 0 <= x < bi ==> !cites_at(
                        s,
                        i as int,
                        x,
                    ),
                    found ==> bi == books@.len(),
                    found ==> found_state(s, i as int, mi as int, best),
                decreases books@.len() - bi,
            {
                let name = &books[bi];
                if name_match(&chars, i, name.as_str()) {
                    let nl = name.as_str().unicode_len();
                    let nc = chars.len();
                    proof {
                        assert(i + nl <= nc);
                    }
                    match try_ref(&chars, i + nl) {
                        Some(p) => {
                            proof {
                                assert(books@[bi as int]@ == book_names()[bi as int]);
                                assert(name_matches_at(s, i as int, book_names()[bi as int]));
                                assert(ref_corresponds(
                                    p,
                                    s,
                                    i as int + book_names()[bi as int].len(),
                                ));
                                assert(cites_at(s, i as int, bi as int));
                                assert(found_state(s, i as int, bi as int, Some(p)));
                            }
                            best = Some(p);
                            found = true;
                            mi = bi;
                            bi = books.len();
                        },
                        None => {
                            bi = bi + 1;
                        },
                    }
                } else {
                    bi = bi + 1;
                }
            }
            if found {
                let p = best.unwrap();
                let name = &books[mi];
                proof {
                    lemma_first_cited_at(s, i as int, mi as int);
                    lemma_ref_at_end(s, i as int + book_names()[mi as int].len());
                }
                let lk = BibleLookup {
                    book: name.clone(),
                    chapter: p.0,
                    verse: p.1,
                    thru_verse: p.2,
                };
                out.push(lk);
                let ghost q = ref_at(s, i as int + book_names()[mi as int].len())->Some_0;
                let ghost c = Citation {
                    book: book_names()[mi as int],
                    chapter: q.0,
                    verse: q.1,
                    thru: q.2,
                };
                proof {
                    assert(scan_refs(s, i as int) == seq![c] + scan_refs(s, q.3));
                }
                done_g = Ghost(done_g@.push(c));
                proof {
                    assert(lookups_match(out@, done_g@));
                    assert(scan_refs(s, 0) =~= done_g@ + scan_refs(s, q.3));
                }
                i = p.3;
            } else {
                proof {
                    lemma_first_cited_at(s, i as int, book_names().len() as int);
                    assert(scan_refs(s, i as int) == scan_refs(s, i as int + 1));
                }
                i = i + 1;
            }
        }
        proof {
            assert(scan_refs(s, i as int) =~= Seq::<Citation>::empty());
            assert(done_g@ =~= done_g@ + scan_refs(s, i as int));
            assert(scan_refs(s, 0) == done_g@);
        }
        out
    }
}

} // verus!
