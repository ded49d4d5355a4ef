//! A normalized pointer to a single verse or to an inclusive verse range,
//! together with its display form.

use vstd::prelude::*;

use crate::text::{
    capitalized, cap_word, chars_to_string, copy_range, dec_chars, dec_rep, is_digit, lower_seq,
    lower_string, to_chars, tokenize, tokens, upper_char, views_of,
};

verus! {

/// A reference into the corpus: a normalized book key, a chapter, a verse,
/// and optionally the last verse of an inclusive range.
#[derive(Clone, Debug)]
pub struct BibleLookup {
    pub book: String,
    pub chapter: u32,
    pub verse: u32,
    pub thru_verse: Option<u32>,
}

impl BibleLookup {
    /// A range reference is well formed when it does not run backwards.
    pub open spec fn wf(self) -> bool {
        match self.thru_verse {
            Some(t) => self.verse <= t,
            None => true,
        }
    }

    /// The display form: title-cased book, then `chapter:verse` or
    /// `chapter:verse-thru_verse`.
    pub open spec fn display_spec(self) -> Seq<char> {
        let base = capitalized(self.book@) + seq![' '] + dec_rep(self.chapter as nat) + seq![':']
            + dec_rep(self.verse as nat);
        match self.thru_verse {
            None => base,
            Some(t) => base + seq!['-'] + dec_rep(t as nat),
        }
    }

    /// A reference to a single verse; the book name is lowercased into its
    /// corpus key form.
    pub fn new(book: &str, chapter: u32, verse: u32) -> (r: Self)
        ensures
            r.book@ == lower_seq(book@),
            r.chapter == chapter,
            r.verse == verse,
            r.thru_verse is None,
    {
        Self { book: lower_string(book), chapter, verse, thru_verse: None }
    }

    /// A reference to an inclusive verse range; the book name is lowercased
    /// into its corpus key form.
    pub fn new_range(book: &str, chapter: u32, verse: u32, thru_verse: u32) -> (r: Self)
        ensures
            r.book@ == lower_seq(book@),
            r.chapter == chapter,
            r.verse == verse,
            r.thru_verse == Some(thru_verse),
    {
        Self { book: lower_string(book), chapter, verse, thru_verse: Some(thru_verse) }
    }

    /// Title-case a book key for display: the first character of each word
    /// is uppercased, except that a word led by a digit (a numeral prefix
    /// such as "1") is kept as it is.
    pub fn capitalize_book(name: &String) -> (r: String)
        ensures
            r@ == capitalized(name@),
    {
        let chars = to_chars(name.as_str());
        let ts = tokenize(&chars, 0, chars.len());
        assert(chars@.subrange(0, chars@.len() as int) =~= chars@);
        let mut out: Vec<Vec<char>> = Vec::new();
        let mut i: usize = 0;
        while i < ts.len()
            invariant
                i <= ts@.len(),
                views_of(out@) =~= views_of(ts@).subrange(0, i as int).map_values(
                    |w: Seq<char>| cap_word(w),
                ),
            decreases ts@.len() - i,
        {
            let w = &ts[i];
            let cw: Vec<char>;
            if w.len() == 0 {
                cw = copy_range(w, 0, 0);
                assert(cw@ =~= cap_word(w@));
            } else if '0' <= w[0] && w[0] <= '9' {
                cw = copy_range(w, 0, w.len());
                assert(cw@ =~= w@);
                assert(cw@ =~= cap_word(w@));
            } else {
                let mut nw: Vec<char> = Vec::new();
                nw.push(upper_char(w[0]));
                let mut rest = copy_range(w, 1, w.len());
                nw.append(&mut rest);
                cw = nw;
                assert(cw@ =~= cap_word(w@));
            }
            out.push(cw);
            proof {
                let f = |w: Seq<char>| cap_word(w);
                assert(views_of(out@).drop_last() =~= views_of(out@.drop_last()));
                assert(views_of(ts@).subrange(0, i + 1 as int).drop_last() =~= views_of(
                    ts@,
                ).subrange(0, i as int));
                assert(views_of(ts@).subrange(0, i + 1 as int).map_values(f) =~= views_of(
                    ts@,
                ).subrange(0, i as int).map_values(f).push(cap_word(ts@[i as int]@)));
                assert(views_of(out@) =~= views_of(ts@).subrange(0, i + 1 as int).map_values(f));
            }
            i = i + 1;
        }
        assert(views_of(ts@).subrange(0, i as int) =~= views_of(ts@));
        let joined = crate::text::join_tokens(&out, 0, out.len());
        proof {
            let m = views_of(ts@).map_values(|w: Seq<char>| cap_word(w));
            assert(views_of(out@).subrange(0, views_of(out@).len() as int) =~= m);
        }
        chars_to_string(&joined)
    }

    /// The display form of this reference, recovering title case, for
    /// example "1 Samuel 2:1-3".
    pub fn display_string(&self) -> (r: String)
        ensures
            r@ == self.display_spec(),
    {
        let cap = Self::capitalize_book(&self.book);
        let mut out = to_chars(cap.as_str());
        out.push(' ');
        let mut ch = dec_chars(self.chapter);
        out.append(&mut ch);
        out.push(':');
        let mut vs = dec_chars(self.verse);
        out.append(&mut vs);
        if let Some(t) = self.thru_verse {
            out.push('-');
            let mut tv = dec_chars(t);
            out.append(&mut tv);
            assert(out@ =~= self.display_spec());
        } else {
            assert(out@ =~= self.display_spec());
        }
        chars_to_string(&out)
    }
}

} // verus!
