use vstd::prelude::*;

verus! {

/// How one guessed character relates to the target word.
#[derive(Copy, Clone, Debug, PartialEq, Eq, Hash, Structural)]
pub enum CharAlignment {
    NotFound,
    Misplaced,
    Exact,
}

impl CharAlignment {
    /// The one-character symbol used when printing feedback.
    pub fn as_char(&self) -> (r: char)
        ensures
            r == alignment_symbol(*self),
    {
        match self {
            CharAlignment::NotFound => '.',
            CharAlignment::Misplaced => '-',
            CharAlignment::Exact => 'x',
        }
    }
}

pub open spec fn alignment_symbol(a: CharAlignment) -> char {
    match a {
        CharAlignment::NotFound => '.',
        CharAlignment::Misplaced => '-',
        CharAlignment::Exact => 'x',
    }
}

/// One guessed character together with its feedback.
#[derive(Copy, Clone, Debug, PartialEq, Eq, Hash, Structural)]
pub struct CharMatch {
    pub c: char,
    pub align: CharAlignment,
}

/// The feedback for one guessed word: one alignment per character.
#[derive(Clone, Debug, PartialEq, Eq, Hash)]
pub struct WordMatch {
    pub word: String,
    pub aligns: Vec<CharAlignment>,
}

/// The guessed characters paired with their alignments, as far as both reach.
pub open spec fn pair_up(word: Seq<char>, aligns: Seq<CharAlignment>) -> Seq<CharMatch> {
    Seq::new(paired_len(word, aligns), |i: int| char_match(word[i], aligns[i]))
}

pub open spec fn char_match(c: char, align: CharAlignment) -> CharMatch {
    CharMatch { c, align }
}

pub open spec fn paired_len(word: Seq<char>, aligns: Seq<CharAlignment>) -> nat {
    if word.len() <= aligns.len() {
        word.len()
    } else {
        aligns.len()
    }
}

impl WordMatch {
    /// Each character of the guessed word with its alignment.
    pub fn char_matches(&self) -> (r: Vec<CharMatch>)
        ensures
            r@ == pair_up(self.word@, self.aligns@),
    {
        let w = crate::text::chars_of(self.word.as_str());
        let n: usize = if w.len() <= self.aligns.len() { w.len() } else { self.aligns.len() };
        let ghost p = pair_up(self.word@, self.aligns@);
        let mut r: Vec<CharMatch> = Vec::new();
        let mut i: usize = 0;
        while i < n
            invariant
                w@ == self.word@,
                p == pair_up(self.word@, self.aligns@),
                n == p.len(),
                n <= w.len(),
                n <= self.aligns.len(),
                i <= n,
                r@ == p.subrange(0, i as int),
            decreases n - i,
        {
            let m = CharMatch { c: w[i], align: self.aligns[i] };
            assert(m == p[i as int]);
            r.push(m);
            i += 1;
            assert(r@ =~= p.subrange(0, i as int));
        }
        assert(r@ =~= p);
        r
    }
}

} // verus!
