//! Character-level helpers shared by the parser, the renderer and the
//! citation detector: whitespace classification, ASCII case mapping,
//! tokenization, and decimal digits.

use vstd::prelude::*;
use vstd::string::StrSliceExecFns;

verus! {

/// Whitespace as the corpus grammar understands it: the ASCII whitespace
/// characters. Corpus lines and citations are ASCII-delimited, so wider
/// Unicode whitespace is deliberately not recognized.
pub open spec fn is_ws(c: char) -> bool {
    c == ' ' || c == '\t' || c == '\n' || c == '\r' || c == '\x0c'
}

/// Executable mirror of [`is_ws`].
pub fn ws_char(c: char) -> (r: bool)
    ensures
        r == is_ws(c),
{
    c == ' ' || c == '\t' || c == '\n' || c == '\r' || c == '\x0c'
}

/// ASCII lowercase mapping; characters outside `A..=Z` are unchanged.
pub open spec fn lower(c: char) -> char {
    if 'A' <= c && c <= 'Z' {
        ((c as u8) + 32) as char
    } else {
        c
    }
}

/// Executable mirror of [`lower`].
pub fn lower_char(c: char) -> (r: char)
    ensures
        r == lower(c),
{
    if 'A' <= c && c <= 'Z' {
        (((c as u8) + 32) as char)
    } else {
        c
    }
}

/// ASCII uppercase mapping; characters outside `a..=z` are unchanged.
pub open spec fn upper(c: char) -> char {
    if 'a' <= c && c <= 'z' {
        ((c as u8) - 32) as char
    } else {
        c
    }
}

/// Executable mirror of [`upper`].
pub fn upper_char(c: char) -> (r: char)
    ensures
        r == upper(c),
{
    if 'a' <= c && c <= 'z' {
        (((c as u8) - 32) as char)
    } else {
        c
    }
}

/// Lowercase applied to a whole sequence of characters.
pub open spec fn lower_seq(s: Seq<char>) -> Seq<char> {
    s.map_values(|c: char| lower(c))
}

/// Normalization is idempotent: lowercasing an already lowercased key
/// changes nothing, so a corpus key fed back through a constructor that
/// lowercases is the same key.
pub proof fn lemma_lower_seq_idempotent(s: Seq<char>)
    ensures
        lower_seq(lower_seq(s)) == lower_seq(s),
{
    assert forall|i: int| 0 <= i < s.len() implies lower(lower(s[i])) == lower(s[i]) by {
        if 'A' <= s[i] && s[i] <= 'Z' {
            assert(!('A' <= lower(s[i]) && lower(s[i]) <= 'Z'));
        }
    }
    assert(lower_seq(lower_seq(s)) =~= lower_seq(s));
}

pub open spec fn is_digit(c: char) -> bool {
    '0' <= c && c <= '9'
}

/// Numeric value of a decimal digit character.
pub open spec fn digit_val(c: char) -> nat {
    (c as nat - '0' as nat) as nat
}

/// The decimal digit character for a value below ten.
pub open spec fn digit_char(d: nat) -> char {
    if d == 0 { '0' }
    else if d == 1 { '1' }
    else if d == 2 { '2' }
    else if d == 3 { '3' }
    else if d == 4 { '4' }
    else if d == 5 { '5' }
    else if d == 6 { '6' }
    else if d == 7 { '7' }
    else if d == 8 { '8' }
    else { '9' }
}

/// Unicode superscript form of a decimal digit; other characters are kept.
pub open spec fn sup(c: char) -> char {
    if c == '0' { '\u{2070}' }
    else if c == '1' { '\u{00b9}' }
    else if c == '2' { '\u{00b2}' }
    else if c == '3' { '\u{00b3}' }
    else if c == '4' { '\u{2074}' }
    else if c == '5' { '\u{2075}' }
    else if c == '6' { '\u{2076}' }
    else if c == '7' { '\u{2077}' }
    else if c == '8' { '\u{2078}' }
    else if c == '9' { '\u{2079}' }
    else { c }
}

/// Executable mirror of [`sup`].
pub fn sup_char(c: char) -> (r: char)
    ensures
        r == sup(c),
{
    match c {
        '0' => '\u{2070}',
        '1' => '\u{00b9}',
        '2' => '\u{00b2}',
        '3' => '\u{00b3}',
        '4' => '\u{2074}',
        '5' => '\u{2075}',
        '6' => '\u{2076}',
        '7' => '\u{2077}',
        '8' => '\u{2078}',
        '9' => '\u{2079}',
        _ => c,
    }
}

/// Decimal representation of a natural number, most significant digit first.
pub open spec fn dec_rep(n: nat) -> Seq<char>
    decreases n,
{
    if n < 10 {
        seq![digit_char(n)]
    } else {
        dec_rep(n / 10).push(digit_char(n % 10))
    }
}

/// True when the whole token is one or more decimal digits.
pub open spec fn all_digits(s: Seq<char>) -> bool {
    s.len() > 0 && forall|i: int| 0 <= i < s.len() ==> is_digit(#[trigger] s[i])
}

/// Value of a digit string read in base ten.
pub open spec fn digits_val(s: Seq<char>) -> nat
    decreases s.len(),
{
    if s.len() == 0 {
        0
    } else {
        digits_val(s.drop_last()) * 10 + digit_val(s.last())
    }
}

/// Length of the maximal prefix of `s` free of whitespace.
pub open spec fn token_end(s: Seq<char>) -> int
    decreases s.len(),
{
    if s.len() == 0 || is_ws(s[0]) {
        0
    } else {
        1 + token_end(s.subrange(1, s.len() as int))
    }
}

/// The whitespace-separated tokens of `s`, in order.
pub open spec fn tokens(s: Seq<char>) -> Seq<Seq<char>>
    decreases s.len(),
    via tokens_decreases
{
    if s.len() == 0 {
        Seq::empty()
    } else if is_ws(s[0]) {
        tokens(s.subrange(1, s.len() as int))
    } else {
        let k = token_end(s);
        seq![s.subrange(0, k)] + tokens(s.subrange(k, s.len() as int))
    }
}

#[via_fn]
proof fn tokens_decreases(s: Seq<char>) {
    lemma_token_end_bounds(s);
    if s.len() > 0 && !is_ws(s[0]) {
        lemma_token_end_bounds(s.subrange(1, s.len() as int));
    }
}

/// Tokens rejoined with single spaces.
pub open spec fn join_ws(ts: Seq<Seq<char>>) -> Seq<char>
    decreases ts.len(),
{
    if ts.len() == 0 {
        Seq::empty()
    } else if ts.len() == 1 {
        ts[0]
    } else {
        ts[0] + seq![' '] + join_ws(ts.subrange(1, ts.len() as int))
    }
}

/// A word in title case: the first character uppercased, unless the word is
/// led by a digit, in which case it is unchanged.
pub open spec fn cap_word(w: Seq<char>) -> Seq<char> {
    if w.len() == 0 {
        w
    } else if is_digit(w[0]) {
        w
    } else {
        seq![upper(w[0])] + w.subrange(1, w.len() as int)
    }
}

/// A whole name in title case: each word capitalized, words rejoined with
/// single spaces.
pub open spec fn capitalized(s: Seq<char>) -> Seq<char> {
    join_ws(tokens(s).map_values(|w: Seq<char>| cap_word(w)))
}

proof fn lemma_token_end_bounds(s: Seq<char>)
    ensures
        0 <= token_end(s) <= s.len(),
        forall|i: int| 0 <= i < token_end(s) ==> !is_ws(s[i]),
        token_end(s) < s.len() ==> is_ws(s[token_end(s)]),
    decreases s.len(),
{
    if s.len() == 0 || is_ws(s[0]) {
    } else {
        let t = s.subrange(1, s.len() as int);
        lemma_token_end_bounds(t);
        assert(forall|i: int| 1 <= i < token_end(s) ==> s[i] == t[i - 1]);
    }
}

/// `token_end` is determined by the first whitespace position.
proof fn lemma_token_end_at(s: Seq<char>, k: int)
    requires
        0 <= k <= s.len(),
        forall|i: int| 0 <= i < k ==> !is_ws(s[i]),
        k < s.len() ==> is_ws(s[k]),
    ensures
        token_end(s) == k,
    decreases s.len(),
{
    if s.len() == 0 || is_ws(s[0]) {
    } else {
        let t = s.subrange(1, s.len() as int);
        assert(forall|i: int| 0 <= i < k - 1 ==> t[i] == s[i + 1] && !is_ws(s[i + 1]));
        lemma_token_end_at(t, k - 1);
    }
}

/// Views of a sequence of character vectors.
pub open spec fn views_of(ts: Seq<Vec<char>>) -> Seq<Seq<char>> {
    ts.map_values(|t: Vec<char>| t@)
}

/// Joining recursion, unrolled at the back.
proof fn lemma_join_push(q: Seq<Seq<char>>, t: Seq<char>)
    ensures
        join_ws(q.push(t)) == if q.len() == 0 {
            t
        } else {
            join_ws(q) + seq![' '] + t
        },
    decreases q.len(),
{
    let p = q.push(t);
    if q.len() == 0 {
        assert(p.len() == 1);
        assert(p[0] == t);
    } else {
        let qr = q.subrange(1, q.len() as int);
        assert(p.subrange(1, p.len() as int) =~= qr.push(t));
        lemma_join_push(qr, t);
        if q.len() == 1 {
            assert(join_ws(p) == p[0] + seq![' '] + join_ws(p.subrange(1, p.len() as int)));
            assert(join_ws(q) == q[0]);
            assert(join_ws(p) =~= join_ws(q) + seq![' '] + t);
        } else {
            assert(join_ws(p) =~= join_ws(q) + seq![' '] + t);
        }
    }
}

/// A value carried past the largest `u32` stays past it as digits follow.
proof fn lemma_digits_val_mono(s: Seq<char>, i: int)
    requires
        0 <= i <= s.len(),
        digits_val(s.subrange(0, i)) > u32::MAX,
    ensures
        digits_val(s) > u32::MAX,
    decreases s.len() - i,
{
    if i == s.len() {
        assert(s.subrange(0, i) =~= s);
    } else {
        let p = s.subrange(0, i + 1);
        assert(p.drop_last() =~= s.subrange(0, i));
        assert(digits_val(p) == digits_val(s.subrange(0, i)) * 10 + digit_val(p.last()));
        lemma_digits_val_mono(s, i + 1);
    }
}

/// Position of the first occurrence of `c` in `s`, or the length of `s`.
pub open spec fn find_char(s: Seq<char>, c: char) -> int
    decreases s.len(),
{
    if s.len() == 0 {
        0
    } else if s[0] == c {
        0
    } else {
        1 + find_char(s.subrange(1, s.len() as int), c)
    }
}

pub proof fn lemma_find_char_bounds(s: Seq<char>, c: char)
    ensures
        0 <= find_char(s, c) <= s.len(),
    decreases s.len(),
{
    if s.len() > 0 && s[0] != c {
        lemma_find_char_bounds(s.subrange(1, s.len() as int), c);
    }
}

/// `find_char` is determined by the first position holding `c`.
pub proof fn lemma_find_char_at(s: Seq<char>, c: char, k: int)
    requires
        0 <= k <= s.len(),
        forall|i: int| 0 <= i < k ==> s[i] != c,
        k < s.len() ==> s[k] == c,
    ensures
        find_char(s, c) == k,
    decreases s.len(),
{
    if s.len() == 0 || s[0] == c {
    } else {
        let t = s.subrange(1, s.len() as int);
        assert(forall|i: int| 0 <= i < k - 1 ==> t[i] == s[i + 1] && s[i + 1] != c);
        lemma_find_char_at(t, c, k - 1);
    }
}

/// Position of the first occurrence of `c` in `v` at or after `from`, or the
/// length of `v`.
pub fn find_char_from(v: &Vec<char>, from: usize, c: char) -> (r: usize)
    requires
        from <= v@.len(),
    ensures
        from <= r <= v@.len(),
        forall|i: int| from <= i < r ==> v@[i] != c,
        r < v@.len() ==> v@[r as int] == c,
{
    let mut i: usize = from;
    while i < v.len()
        invariant
            from <= i <= v@.len(),
            forall|j: int| from <= j < i ==> v@[j] != c,
        decreases v@.len() - i,
    {
        if v[i] == c {
            return i;
        }
        i = i + 1;
    }
    i
}

/// A copy of `v` with every character lowercased.
pub fn lower_vec(v: &Vec<char>) -> (r: Vec<char>)
    ensures
        r@ == lower_seq(v@),
{
    let mut r: Vec<char> = Vec::new();
    let mut i: usize = 0;
    while i < v.len()
        invariant
            i <= v@.len(),
            r@ == lower_seq(v@).subrange(0, i as int),
        decreases v@.len() - i,
    {
        r.push(lower_char(v[i]));
        assert(r@ =~= lower_seq(v@).subrange(0, i + 1 as int));
        i = i + 1;
    }
    assert(r@ =~= lower_seq(v@));
    r
}

/// Relies on `String::push`: appends one character to the string.
#[verifier::external_body]
pub fn push_char(s: &mut String, c: char)
    ensures
        final(s)@ == old(s)@.push(c),
{
    s.push(c);
}

/// The characters of a string slice, as an indexable vector.
pub fn to_chars(s: &str) -> (r: Vec<char>)
    ensures
        r@ == s@,
{
    let n = s.unicode_len();
    let mut r: Vec<char> = Vec::new();
    let mut i: usize = 0;
    while i < n
        invariant
            n == s@.len(),
            i <= n,
            r@ == s@.subrange(0, i as int),
        decreases n - i,
    {
        r.push(s.get_char(i));
        assert(r@ =~= s@.subrange(0, i + 1 as int));
        i = i + 1;
    }
    assert(r@ =~= s@);
    r
}

/// A string holding exactly the given characters.
pub fn chars_to_string(v: &Vec<char>) -> (r: String)
    ensures
        r@ == v@,
{
    let mut r = String::new();
    let mut i: usize = 0;
    while i < v.len()
        invariant
            i <= v@.len(),
            r@ == v@.subrange(0, i as int),
        decreases v@.len() - i,
    {
        push_char(&mut r, v[i]);
        assert(r@ =~= v@.subrange(0, i + 1 as int));
        i = i + 1;
    }
    assert(r@ =~= v@);
    r
}

/// A copy of `s` with every character lowercased.
pub fn lower_string(s: &str) -> (r: String)
    ensures
        r@ == lower_seq(s@),
{
    let n = s.unicode_len();
    let mut r = String::new();
    let mut i: usize = 0;
    while i < n
        invariant
            n == s@.len(),
            i <= n,
            r@ == lower_seq(s@).subrange(0, i as int),
        decreases n - i,
    {
        push_char(&mut r, lower_char(s.get_char(i)));
        assert(r@ =~= lower_seq(s@).subrange(0, i + 1 as int));
        i = i + 1;
    }
    assert(r@ =~= lower_seq(s@));
    r
}

/// Character-wise string equality.
pub fn str_eq(a: &str, b: &str) -> (r: bool)
    ensures
        r == (a@ == b@),
{
    let na = a.unicode_len();
    let nb = b.unicode_len();
    if na != nb {
        return false;
    }
    let mut i: usize = 0;
    while i < na
        invariant
            na == a@.len(),
            na == b@.len(),
            i <= na,
            forall|j: int| 0 <= j < i ==> a@[j] == b@[j],
        decreases na - i,
    {
        if a.get_char(i) != b.get_char(i) {
            return false;
        }
        i = i + 1;
    }
    assert(a@ =~= b@);
    true
}

/// A copy of the characters of `v` between `lo` (inclusive) and `hi`
/// (exclusive).
pub fn copy_range(v: &Vec<char>, lo: usize, hi: usize) -> (r: Vec<char>)
    requires
        lo <= hi <= v@.len(),
    ensures
        r@ == v@.subrange(lo as int, hi as int),
{
    let mut r: Vec<char> = Vec::new();
    let mut i: usize = lo;
    while i < hi
        invariant
            lo <= i <= hi <= v@.len(),
            r@ == v@.subrange(lo as int, i as int),
        decreases hi - i,
    {
        r.push(v[i]);
        assert(r@ =~= v@.subrange(lo as int, i + 1 as int));
        i = i + 1;
    }
    r
}

/// The whitespace-separated tokens of `v[lo..hi]`.
pub fn tokenize(v: &Vec<char>, lo: usize, hi: usize) -> (r: Vec<Vec<char>>)
    requires
        lo <= hi <= v@.len(),
    ensures
        views_of(r@) == tokens(v@.subrange(lo as int, hi as int)),
{
    let ghost s = v@.subrange(lo as int, hi as int);
    let mut out: Vec<Vec<char>> = Vec::new();
    let mut i: usize = lo;
    while i < hi
        invariant
            lo <= i <= hi <= v@.len(),
            s == v@.subrange(lo as int, hi as int),
            views_of(out@) + tokens(v@.subrange(i as int, hi as int)) =~= tokens(s),
        decreases hi - i,
    {
        let ghost cur = v@.subrange(i as int, hi as int);
        if ws_char(v[i]) {
            assert(cur.subrange(1, cur.len() as int) =~= v@.subrange(i + 1 as int, hi as int));
            i = i + 1;
        } else {
            let mut j: usize = i + 1;
            while j < hi && !ws_char(v[j])
                invariant
                    i < j <= hi <= v@.len(),
                    forall|m: int| i <= m < j ==> !is_ws(v@[m]),
                decreases hi - j,
            {
                j = j + 1;
            }
            assert(j < hi ==> is_ws(v@[j as int]));
            let tok = copy_range(v, i, j);
            proof {
                assert(forall|m: int| 0 <= m < j - i ==> cur[m] == v@[i + m] && !is_ws(v@[i + m]));
                if (j - i) < cur.len() {
                    assert(cur[j - i] == v@[j as int]);
                }
                lemma_token_end_at(cur, j - i);
                assert(cur.subrange(0, j - i) =~= tok@);
                assert(cur.subrange(j - i, cur.len() as int) =~= v@.subrange(
                    j as int,
                    hi as int,
                ));
                assert(tokens(cur) == seq![tok@] + tokens(v@.subrange(j as int, hi as int)));
            }
            out.push(tok);
            proof {
                assert(views_of(out@).drop_last() =~= views_of(out@.drop_last()));
                assert(views_of(out@) =~= views_of(out@.drop_last()).push(tok@));
            }
            i = j;
        }
    }
    assert(tokens(v@.subrange(i as int, hi as int)).len() == 0);
    assert(views_of(out@) =~= tokens(s));
    out
}

/// The tokens between `from` (inclusive) and `to` (exclusive), rejoined with
/// single spaces.
pub fn join_tokens(ts: &Vec<Vec<char>>, from: usize, to: usize) -> (r: Vec<char>)
    requires
        from <= to <= ts@.len(),
    ensures
        r@ == join_ws(views_of(ts@).subrange(from as int, to as int)),
{
    let mut r: Vec<char> = Vec::new();
    let mut i: usize = from;
    while i < to
        invariant
            from <= i <= to <= ts@.len(),
            r@ == join_ws(views_of(ts@).subrange(from as int, i as int)),
        decreases to - i,
    {
        let ghost pre = views_of(ts@).subrange(from as int, i as int);
        if i > from {
            r.push(' ');
        }
        let mut k: usize = 0;
        let ghost base = r@;
        let t = &ts[i];
        while k < t.len()
            invariant
                k <= t@.len(),
                r@ == base + t@.subrange(0, k as int),
            decreases t@.len() - k,
        {
            r.push(t[k]);
            assert(r@ =~= base + t@.subrange(0, k + 1 as int));
            k = k + 1;
        }
        proof {
            lemma_join_push(pre, ts@[i as int]@);
            assert(views_of(ts@).subrange(from as int, i + 1 as int) =~= pre.push(
                ts@[i as int]@,
            ));
            assert(t@.subrange(0, t@.len() as int) =~= t@);
            if i > from {
                assert(pre.len() > 0);
                assert(r@ =~= join_ws(pre) + seq![' '] + ts@[i as int]@);
            } else {
                assert(pre.len() == 0);
                assert(r@ =~= ts@[i as int]@);
            }
        }
        i = i + 1;
    }
    assert(views_of(ts@).subrange(from as int, i as int) =~= views_of(ts@).subrange(
        from as int,
        to as int,
    ));
    r
}

/// The value of a digit token, read in base ten; absent when the token is
/// not all digits or its value does not fit.
pub fn parse_u32(tok: &Vec<char>) -> (r: Option<u32>)
    ensures
        match r {
            Some(x) => all_digits(tok@) && digits_val(tok@) <= u32::MAX && x == digits_val(tok@),
            None => !all_digits(tok@) || digits_val(tok@) > u32::MAX,
        },
{
    if tok.len() == 0 {
        return None;
    }
    let mut acc: u64 = 0;
    let mut i: usize = 0;
    while i < tok.len()
        invariant
            i <= tok@.len(),
            tok@.len() > 0,
            forall|j: int| 0 <= j < i ==> is_digit(#[trigger] tok@[j]),
            acc == digits_val(tok@.subrange(0, i as int)),
            acc <= u32::MAX,
        decreases tok@.len() - i,
    {
        let c = tok[i];
        if c < '0' || c > '9' {
            return None;
        }
        let d: u64 = (c as u64) - 48;
        assert(d == digit_val(c));
        acc = acc * 10 + d;
        proof {
            let p = tok@.subrange(0, i + 1 as int);
            assert(p.drop_last() =~= tok@.subrange(0, i as int));
            assert(acc == digits_val(p));
        }
        if acc > 0xffff_ffff {
            proof {
                lemma_digits_val_mono(tok@, i + 1);
            }
            return None;
        }
        i = i + 1;
    }
    assert(tok@.subrange(0, i as int) =~= tok@);
    Some(acc as u32)
}

/// Executable mirror of [`digit_char`].
fn digit_exec(d: u32) -> (r: char)
    requires
        d < 10,
    ensures
        r == digit_char(d as nat),
{
    match d {
        0 => '0',
        1 => '1',
        2 => '2',
        3 => '3',
        4 => '4',
        5 => '5',
        6 => '6',
        7 => '7',
        8 => '8',
        _ => '9',
    }
}

/// The decimal digits of `n`, most significant first.
pub fn dec_chars(n: u32) -> (r: Vec<char>)
    ensures
        r@ == dec_rep(n as nat),
    decreases n,
{
    if n < 10 {
        let mut r: Vec<char> = Vec::new();
        r.push(digit_exec(n));
        assert(r@ =~= dec_rep(n as nat));
        r
    } else {
        let mut r = dec_chars(n / 10);
        r.push(digit_exec(n % 10));
        assert(r@ =~= dec_rep(n as nat));
        r
    }
}

} // verus!
