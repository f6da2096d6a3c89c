//! The tokenizer: splits a source text into whitespace-delimited words, each
//! carrying the line and column of its first character.
//!
//! Whitespace is a separator and never part of a token. A newline increments
//! the line counter and resets the column to 1; any other whitespace advances
//! the column by one. A token is a maximal run of non-whitespace characters;
//! its location is that of its first character.

use crate::text::{opt_str_view, Location, LocationModel};
use vstd::prelude::*;
use vstd::string::*;

verus! {

/// Whether `c` separates tokens. This is exactly the Unicode `White_Space`
/// property: the ASCII space and control whitespace, next line, no-break
/// space, ogham space mark, the en-quad..hair-space range, the line and
/// paragraph separators, narrow no-break space, medium mathematical space,
/// and ideographic space.
pub open spec fn is_space(c: char) -> bool {
    c == ' ' || c == '\t' || c == '\n' || c == '\r' || c == '\u{0b}' || c == '\u{0c}'
        || c == '\u{85}' || c == '\u{a0}' || c == '\u{1680}'
        || (0x2000 <= (c as u32) && (c as u32) <= 0x200a)
        || c == '\u{2028}' || c == '\u{2029}' || c == '\u{202f}' || c == '\u{205f}'
        || c == '\u{3000}'
}

/// Decides [`is_space`].
pub fn is_space_char(c: char) -> (b: bool)
    ensures
        b == is_space(c),
{
    c == ' ' || c == '\t' || c == '\n' || c == '\r' || c == '\u{0b}' || c == '\u{0c}'
        || c == '\u{85}' || c == '\u{a0}' || c == '\u{1680}'
        || (0x2000 <= (c as u32) && (c as u32) <= 0x200a)
        || c == '\u{2028}' || c == '\u{2029}' || c == '\u{202f}' || c == '\u{205f}'
        || c == '\u{3000}'
}

/// The length of the maximal non-whitespace prefix of `s`.
pub open spec fn word_len(s: Seq<char>) -> nat
    decreases s.len(),
{
    if s.len() == 0 || is_space(s[0]) {
        0
    } else {
        1 + word_len(s.drop_first())
    }
}

/// A word never runs past the end of the input.
pub proof fn lemma_word_len_le(s: Seq<char>)
    ensures
        word_len(s) <= s.len(),
    decreases s.len(),
{
    if s.len() != 0 && !is_space(s[0]) {
        lemma_word_len_le(s.drop_first());
    }
}

/// `word_len(s)` is the unique `w` such that the first `w` characters are
/// non-whitespace and the run stops at `w` (end of input or a whitespace
/// character).
pub proof fn lemma_word_len_is(s: Seq<char>, w: int)
    requires
        0 <= w <= s.len(),
        forall|k: int| 0 <= k < w ==> !is_space(s[k]),
        w == s.len() || is_space(s[w]),
    ensures
        word_len(s) == w,
    decreases w,
{
    if w == 0 {
    } else {
        assert(!is_space(s[0]));
        let t = s.drop_first();
        assert forall|k: int| 0 <= k < w - 1 implies !is_space(t[k]) by {
            assert(t[k] == s[k + 1]);
        }
        if w - 1 < t.len() {
            assert(t[w - 1] == s[w]);
        }
        lemma_word_len_is(t, w - 1);
    }
}

/// Mathematical model of a [`Token`].
pub ghost struct TokenModel {
    pub content: Seq<char>,
    pub location: LocationModel,
}

/// One whitespace-delimited word of the source, with the location of its
/// first character.
#[derive(Debug, Clone)]
pub struct Token {
    pub content: String,
    pub location: Location,
}

impl View for Token {
    type V = TokenModel;

    open spec fn view(&self) -> TokenModel {
        TokenModel { content: self.content@, location: self.location@ }
    }
}

/// The token sequence of `s`, scanning with the given path and the current
/// 1-based line and column.
pub open spec fn spec_tokens(
    s: Seq<char>,
    path: Option<Seq<char>>,
    line: int,
    col: int,
) -> Seq<TokenModel>
    decreases s.len(),
{
    if s.len() == 0 {
        Seq::empty()
    } else if s[0] == '\n' {
        spec_tokens(s.drop_first(), path, line + 1, 1)
    } else if is_space(s[0]) {
        spec_tokens(s.drop_first(), path, line, col + 1)
    } else {
        proof {
            lemma_word_len_le(s);
            assert(word_len(s) >= 1);
        }
        let w = word_len(s) as int;
        seq![
            TokenModel {
                content: s.take(w),
                location: LocationModel { path, line, column: col },
            },
        ] + spec_tokens(s.skip(w), path, line, col + w)
    }
}

impl Token {
    /// A copy of this token.
    pub fn dup(&self) -> (r: Token)
        ensures
            r@ == self@,
    {
        Token { content: self.content.clone(), location: self.location.dup() }
    }
}

/// The token stream of one source text, fully scanned up front and handed
/// out one token per call of [`Tokenizer::next`].
pub struct Tokenizer {
    toks: Vec<Token>,
    pos: usize,
}

impl Tokenizer {
    /// The stream never stands past its end.
    #[verifier::type_invariant]
    pub open spec fn wf(&self) -> bool {
        0 <= self.position() <= self.all_tokens().len()
    }

    /// The models of all tokens of the source this tokenizer was built from.
    pub closed spec fn all_tokens(&self) -> Seq<TokenModel> {
        self.toks@.map_values(|t: Token| t@)
    }

    /// How many tokens have been handed out so far.
    pub closed spec fn position(&self) -> int {
        self.pos as int
    }

    /// The models of the tokens not yet handed out.
    pub open spec fn remaining(&self) -> Seq<TokenModel> {
        self.all_tokens().skip(self.position())
    }

    /// Scans the whole source into tokens.
    pub fn new(source: &str, path: Option<&str>) -> (r: Tokenizer)
        requires
            source@.len() < usize::MAX,
        ensures
            r.all_tokens() == spec_tokens(source@, opt_str_view(path), 1, 1),
            r.position() == 0,
    {
        let ghost src = source@;
        let ghost p = opt_str_view(path);
        let n = source.unicode_len();
        let mut toks: Vec<Token> = Vec::new();
        let mut i: usize = 0;
        let mut line: usize = 1;
        let mut col: usize = 1;
        proof {
            assert(src.skip(0) =~= src);
            assert(toks@.map_values(|t: Token| t@) + spec_tokens(src.skip(0), p, 1, 1)
                =~= spec_tokens(src, p, 1, 1));
        }
        while i < n
            invariant
                n == src.len(),
                n < usize::MAX,
                src == source@,
                p == opt_str_view(path),
                i <= n,
                1 <= line <= 1 + i,
                1 <= col <= 1 + i,
                spec_tokens(src, p, 1, 1) == toks@.map_values(|t: Token| t@) + spec_tokens(
                    src.skip(i as int),
                    p,
                    line as int,
                    col as int,
                ),
            decreases n - i,
        {
            let c = source.get_char(i);
            if c == '\n' {
                proof {
                    assert(src.skip(i as int).drop_first() =~= src.skip(i as int + 1));
                }
                line = line + 1;
                col = 1;
                i = i + 1;
            } else if is_space_char(c) {
                proof {
                    assert(src.skip(i as int).drop_first() =~= src.skip(i as int + 1));
                }
                col = col + 1;
                i = i + 1;
            } else {
                let mut j = i + 1;
                loop
                    invariant_except_break
                        i < j <= n,
                        n == src.len(),
                        src == source@,
                        forall|k: int| i <= k < j ==> !is_space(src[k]),
                    ensures
                        i < j <= n,
                        forall|k: int| i <= k < j ==> !is_space(src[k]),
                        j == n || is_space(src[j as int]),
                    decreases n - j,
                {
                    if j >= n {
                        break ;
                    }
                    let cj = source.get_char(j);
                    if is_space_char(cj) {
                        break ;
                    }
                    j = j + 1;
                }
                let ghost rem = src.skip(i as int);
                let ghost w = j - i;
                proof {
                    assert forall|k: int| 0 <= k < w implies !is_space(rem[k]) by {
                        assert(rem[k] == src[i + k]);
                    }
                    if w < rem.len() {
                        assert(rem[w as int] == src[j as int]);
                    }
                    lemma_word_len_is(rem, w as int);
                    assert(rem.take(w as int) =~= src.subrange(i as int, j as int));
                    assert(rem.skip(w as int) =~= src.skip(j as int));
                }
                let word = source.substring_char(i, j);
                let t = Token {
                    content: String::from_str(word),
                    location: Location {
                        path: match path {
                            Some(q) => Some(String::from_str(q)),
                            None => None,
                        },
                        line,
                        column: col,
                    },
                };
                let ghost old_toks = toks@;
                toks.push(t);
                proof {
                    let f = |t: Token| t@;
                    assert(toks@.map_values(f) =~= old_toks.map_values(f).push(toks@.last()@));
                    let tm = TokenModel {
                        content: rem.take(w as int),
                        location: LocationModel { path: p, line: line as int, column: col as int },
                    };
                    assert(toks@.last()@ == tm);
                    assert(spec_tokens(rem, p, line as int, col as int) == seq![tm] + spec_tokens(
                        src.skip(j as int),
                        p,
                        line as int,
                        col as int + w,
                    ));
                    assert(old_toks.map_values(f) + (seq![tm] + spec_tokens(
                        src.skip(j as int),
                        p,
                        line as int,
                        col as int + w,
                    )) =~= toks@.map_values(f) + spec_tokens(
                        src.skip(j as int),
                        p,
                        line as int,
                        col as int + w,
                    ));
                }
                col = col + (j - i);
                i = j;
            }
        }
        proof {
            assert(src.skip(n as int).len() == 0);
            assert(toks@.map_values(|t: Token| t@) + spec_tokens(
                src.skip(n as int),
                p,
                line as int,
                col as int,
            ) =~= toks@.map_values(|t: Token| t@));
        }
        Tokenizer { toks, pos: 0 }
    }

    /// Hands out the next token, advancing the stream; `None` at the end.
    pub fn next(&mut self) -> (r: Option<Token>)
        ensures
            final(self).all_tokens() == old(self).all_tokens(),
            old(self).position() < old(self).all_tokens().len() ==> r is Some
                && r.unwrap()@ == old(self).all_tokens()[old(self).position()]
                && final(self).position() == old(self).position() + 1,
            old(self).position() >= old(self).all_tokens().len() ==> r is None
                && final(self).position() == old(self).position(),
    {
        if self.pos < self.toks.len() {
            let t = self.toks[self.pos].dup();
            self.pos = self.pos + 1;
            Some(t)
        } else {
            None
        }
    }
}

/// Scans `source` into a token stream; `path` is only a display name for
/// diagnostic locations.
pub fn tokenize(source: &str, path: Option<&str>) -> (r: Tokenizer)
    requires
        source@.len() < usize::MAX,
    ensures
        r.all_tokens() == spec_tokens(source@, opt_str_view(path), 1, 1),
        r.position() == 0,
{
    Tokenizer::new(source, path)
}

} // verus!
