//! The tokenizer at the parser's edge: splits input text into tokens on
//! delimiter characters, cutting the registered special tokens out of longer
//! runs by longest match.  Only the delimiter characters it is built with
//! count as blank; the parser supplies the four ASCII whitespace characters.

use vstd::prelude::*;

use crate::strs::views;

verus! {

/// Length of the longest registered special token that matches at `pos`, or
/// zero when none does.
pub open spec fn longest_special(
    specials: Seq<Seq<char>>,
    s: Seq<char>,
    pos: int,
) -> int
    decreases specials.len(),
{
    if specials.len() == 0 {
        0
    } else {
        let rest = longest_special(specials.drop_first(), s, pos);
        let sp = specials[0];
        if sp.len() > rest && 0 <= pos && pos + sp.len() <= s.len() && s.subrange(
            pos,
            pos + sp.len(),
        ) == sp {
            sp.len() as int
        } else {
            rest
        }
    }
}

pub proof fn lemma_longest_special(specials: Seq<Seq<char>>, s: Seq<char>, pos: int)
    ensures
        longest_special(specials, s, pos) >= 0,
        0 <= pos <= s.len() ==> pos + longest_special(specials, s, pos) <= s.len(),
    decreases specials.len(),
{
    if specials.len() > 0 {
        lemma_longest_special(specials.drop_first(), s, pos);
    }
}

/// End of the plain token that continues at `k`: the first position holding
/// a delimiter or starting a special token, or the length.
pub open spec fn word_end(
    specials: Seq<Seq<char>>,
    delims: Seq<char>,
    s: Seq<char>,
    k: int,
) -> int
    decreases s.len() - k,
{
    if k < 0 || k >= s.len() {
        s.len() as int
    } else if delims.contains(s[k]) || longest_special(specials, s, k) > 0 {
        k
    } else {
        word_end(specials, delims, s, k + 1)
    }
}

pub proof fn lemma_word_end(specials: Seq<Seq<char>>, delims: Seq<char>, s: Seq<char>, k: int)
    requires
        0 <= k <= s.len(),
    ensures
        k <= word_end(specials, delims, s, k) <= s.len(),
    decreases s.len() - k,
{
    if k < s.len() && !(delims.contains(s[k]) || longest_special(specials, s, k) > 0) {
        lemma_word_end(specials, delims, s, k + 1);
    }
}

/// The tokens of `s` from `pos` on: delimiters are dropped, the longest
/// special token at a position is cut out whole, and any other maximal run
/// up to the next delimiter or special token is one token.
pub open spec fn spec_tokenize_from(
    specials: Seq<Seq<char>>,
    delims: Seq<char>,
    s: Seq<char>,
    pos: int,
) -> Seq<Seq<char>>
    decreases s.len() - pos,
{
    if pos < 0 || pos >= s.len() {
        Seq::empty()
    } else if delims.contains(s[pos]) {
        spec_tokenize_from(specials, delims, s, pos + 1)
    } else {
        proof {
            lemma_longest_special(specials, s, pos);
        }
        let m = longest_special(specials, s, pos);
        if m > 0 {
            seq![s.subrange(pos, pos + m)] + spec_tokenize_from(specials, delims, s, pos + m)
        } else {
            proof {
                lemma_word_end(specials, delims, s, pos + 1);
            }
            let e = word_end(specials, delims, s, pos + 1);
            seq![s.subrange(pos, e)] + spec_tokenize_from(specials, delims, s, e)
        }
    }
}

/// The tokens a text denotes under given special tokens and delimiters.
pub open spec fn spec_tokenize(
    specials: Seq<Seq<char>>,
    delims: Seq<char>,
    s: Seq<char>,
) -> Seq<Seq<char>> {
    spec_tokenize_from(specials, delims, s, 0)
}

/// Splits text into tokens: delimiter characters separate tokens and are
/// dropped; wherever a registered special token begins, the longest one is
/// cut out as a token of its own; any other maximal run is one token.
#[derive(Debug)]
pub struct Tokenizer {
    pub special_tokens: Vec<String>,
    pub delimiters: Vec<char>,
}

impl Tokenizer {
    /// A tokenizer over the given special tokens and delimiters.
    pub fn new(special_tokens: Vec<String>, delimiters: Vec<char>) -> (r: Tokenizer)
        ensures
            r.special_tokens == special_tokens,
            r.delimiters == delimiters,
    {
        Tokenizer { special_tokens, delimiters }
    }

    /// Is the character a delimiter?
    fn is_delim(&self, c: char) -> (r: bool)
        ensures
            r == self.delimiters@.contains(c),
    {
        let n = self.delimiters.len();
        for i in 0..n
            invariant
                n == self.delimiters@.len(),
                forall|k: int| 0 <= k < i ==> self.delimiters@[k] != c,
        {
            if self.delimiters[i] == c {
                return true;
            }
        }
        proof {
            if self.delimiters@.contains(c) {
                let w = choose|w: int|
                    0 <= w < self.delimiters@.len() && self.delimiters@[w] == c;
                assert(self.delimiters@[w] == c);
            }
        }
        false
    }

    /// Length of the longest special token that begins at `pos`, or zero.
    fn longest_special_at(&self, input: &str, pos: usize) -> (m: usize)
        requires
            pos <= input@.len(),
        ensures
            m as int == longest_special(views(self.special_tokens@), input@, pos as int),
            pos + m <= input@.len(),
    {
        let n = input.unicode_len();
        let mut best: usize = 0;
        let ns = self.special_tokens.len();
        let ghost sv = views(self.special_tokens@);
        proof {
            assert(sv.skip(0) =~= sv);
            lemma_longest_special(sv, input@, pos as int);
        }
        for i in 0..ns
            invariant
                ns == self.special_tokens@.len(),
                sv == views(self.special_tokens@),
                n == input@.len(),
                pos <= n,
                pos + best <= n,
                longest_special(sv, input@, pos as int) == (if longest_special(
                    sv.skip(i as int),
                    input@,
                    pos as int,
                ) > best {
                    longest_special(sv.skip(i as int), input@, pos as int)
                } else {
                    best as int
                }),
        {
            proof {
                assert(sv.skip(i as int)[0] == self.special_tokens@[i as int]@);
                assert(sv.skip(i as int).drop_first() =~= sv.skip(i as int + 1));
                lemma_longest_special(sv.skip(i as int), input@, pos as int);
                lemma_longest_special(sv.skip(i as int + 1), input@, pos as int);
            }
            let sp = &self.special_tokens[i];
            let m = sp.unicode_len();
            if m > best && m <= n - pos {
                let w = input.substring_char(pos, pos + m);
                if crate::strs::str_eq(w, sp.as_str()) {
                    proof {
                        assert(input@.subrange(pos as int, pos as int + m as int) =~= sp@);
                    }
                    best = m;
                } else {
                    proof {
                        assert(w@ =~= input@.subrange(pos as int, pos as int + m as int));
                    }
                }
            }
        }
        proof {
            assert(sv.skip(ns as int) =~= Seq::<Seq<char>>::empty());
        }
        best
    }

    /// Split the input into tokens, as `spec_tokenize` states; every token
    /// is non-empty.
    pub fn tokenize(&self, input: &str) -> (r: Vec<String>)
        ensures
            views(r@) == spec_tokenize(views(self.special_tokens@), self.delimiters@, input@),
            forall|i: int| 0 <= i < r@.len() ==> views(r@)[i].len() > 0,
    {
        let n = input.unicode_len();
        let mut toks: Vec<String> = Vec::new();
        let mut pos: usize = 0;
        let ghost sv = views(self.special_tokens@);
        let ghost dv = self.delimiters@;
        while pos < n
            invariant
                n == input@.len(),
                sv == views(self.special_tokens@),
                dv == self.delimiters@,
                pos <= n,
                spec_tokenize(sv, dv, input@) =~= views(toks@) + spec_tokenize_from(
                    sv,
                    dv,
                    input@,
                    pos as int,
                ),
                forall|i: int| 0 <= i < toks@.len() ==> views(toks@)[i].len() > 0,
            decreases n - pos,
        {
            {
                let c = input.get_char(pos);
                if self.is_delim(c) {
                    pos += 1;
                } else {
                    let m = self.longest_special_at(input, pos);
                    if m > 0 {
                        let w = input.substring_char(pos, pos + m);
                        let ghost old_toks = views(toks@);
                        toks.push(String::from_str(w));
                        proof {
                            assert(w@ =~= input@.subrange(pos as int, pos as int + m as int));
                            assert(views(toks@) =~= old_toks.push(w@));
                        }
                        pos += m;
                    } else {
                        let start = pos;
                        pos += 1;
                        while pos < n && !self.is_delim(input.get_char(pos))
                            && self.longest_special_at(input, pos) == 0
                            invariant
                                n == input@.len(),
                                sv == views(self.special_tokens@),
                                dv == self.delimiters@,
                                start < pos <= n,
                                word_end(sv, dv, input@, start as int + 1) == word_end(
                                    sv,
                                    dv,
                                    input@,
                                    pos as int,
                                ),
                            decreases n - pos,
                        {
                            pos += 1;
                        }
                        proof {
                            assert(word_end(sv, dv, input@, pos as int) == pos as int);
                        }
                        let w = input.substring_char(start, pos);
                        let ghost old_toks = views(toks@);
                        toks.push(String::from_str(w));
                        proof {
                            assert(w@ =~= input@.subrange(start as int, pos as int));
                            assert(views(toks@) =~= old_toks.push(w@));
                        }
                    }
                }
            }
        }
        proof {
            assert(pos >= n);
            assert(spec_tokenize_from(sv, dv, input@, pos as int) =~= Seq::<Seq<char>>::empty());
        }
        toks
    }
}

} // verus!
