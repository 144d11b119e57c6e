//! The code-aware tokenizer.
//!
//! Source text is split into lowercase tokens.  A character that is not an
//! ASCII letter or digit separates tokens, and a token also ends inside a
//! run of word characters at a case or letter/digit transition: before an
//! upper-case letter that follows a lower-case one (`fooBar`), between a
//! letter and a digit in either order (`utf8`, `8bit`), and before the last
//! upper-case letter of an upper-case run that an lower-case letter follows
//! (`HTTPServer` splits before `Server`).  Empty tokens do not arise.

use vstd::prelude::*;

verus! {

use crate::text::{lower_char, to_lower_char, chars_vec, string_from_chars, string_views};

/// Whether `c` is an ASCII digit.
pub open spec fn is_digit(c: char) -> bool {
    0x30 <= c as u32 <= 0x39
}

/// Whether `c` is an ASCII lower-case letter.
pub open spec fn is_lower(c: char) -> bool {
    0x61 <= c as u32 <= 0x7a
}

/// Whether `c` is an ASCII upper-case letter.
pub open spec fn is_upper(c: char) -> bool {
    0x41 <= c as u32 <= 0x5a
}

/// Whether `c` is an ASCII letter.
pub open spec fn is_letter(c: char) -> bool {
    is_lower(c) || is_upper(c)
}

/// Whether `c` belongs to a token.
pub open spec fn is_word(c: char) -> bool {
    is_letter(c) || is_digit(c)
}

/// Whether a token ends just before position `i` of a run of word
/// characters: at a lower-to-upper transition, at a transition between
/// letters and digits, or before the upper-case letter that starts the
/// lower-case tail of an upper-case run.
pub open spec fn is_break(s: Seq<char>, i: int) -> bool
    recommends
        0 < i < s.len(),
{
    ||| (is_lower(s[i - 1]) && is_upper(s[i]))
    ||| (is_letter(s[i - 1]) && is_digit(s[i]))
    ||| (is_digit(s[i - 1]) && is_letter(s[i]))
    ||| (is_upper(s[i - 1]) && is_upper(s[i]) && i + 1 < s.len() && is_lower(s[i + 1]))
}

/// The position one past the last character of the token that starts at
/// `i`: the first later position that leaves the text, leaves the word run,
/// or sits at a break.
pub open spec fn token_end(s: Seq<char>, i: int) -> int
    recommends
        0 <= i < s.len(),
    decreases s.len() - i,
    when 0 <= i < s.len()
{
    if i + 1 >= s.len() || !is_word(s[i + 1]) || is_break(s, i + 1) {
        i + 1
    } else {
        token_end(s, i + 1)
    }
}

/// A token's end lies after its start and within the text.
pub proof fn lemma_token_end_bounds(s: Seq<char>, i: int)
    requires
        0 <= i < s.len(),
    ensures
        i < token_end(s, i) <= s.len(),
    decreases s.len() - i,
{
    if !(i + 1 >= s.len() || !is_word(s[i + 1]) || is_break(s, i + 1)) {
        lemma_token_end_bounds(s, i + 1);
    }
}

/// The characters of `t`, each ASCII-lowercased.
pub open spec fn lower_seq(t: Seq<char>) -> Seq<char> {
    t.map_values(|c: char| lower_char(c))
}

/// The tokens of `s` from position `i` on.
pub open spec fn tokens_from(s: Seq<char>, i: int) -> Seq<Seq<char>>
    decreases s.len() - i,
    when 0 <= i <= s.len()
    via tokens_from_decreases
{
    if i >= s.len() {
        Seq::empty()
    } else if !is_word(s[i]) {
        tokens_from(s, i + 1)
    } else {
        seq![lower_seq(s.subrange(i, token_end(s, i)))] + tokens_from(s, token_end(s, i))
    }
}

#[via_fn]
proof fn tokens_from_decreases(s: Seq<char>, i: int) {
    if 0 <= i < s.len() && is_word(s[i]) {
        lemma_token_end_bounds(s, i);
    }
}

/// The tokens of a text.
pub open spec fn spec_tokens(s: Seq<char>) -> Seq<Seq<char>> {
    tokens_from(s, 0)
}

/// Whether `c` belongs to a token.
fn is_word_char(c: char) -> (r: bool)
    ensures
        r == is_word(c),
{
    let u = c as u32;
    (0x30 <= u && u <= 0x39) || (0x41 <= u && u <= 0x5a) || (0x61 <= u && u <= 0x7a)
}

/// Whether a token ends just before position `i`.
fn break_at(chars: &Vec<char>, i: usize) -> (r: bool)
    requires
        0 < i < chars@.len(),
    ensures
        r == is_break(chars@, i as int),
{
    let prev = chars[i - 1];
    let here = chars[i];
    let pu = prev as u32;
    let hu = here as u32;
    let prev_lower = 0x61 <= pu && pu <= 0x7a;
    let prev_upper = 0x41 <= pu && pu <= 0x5a;
    let prev_digit = 0x30 <= pu && pu <= 0x39;
    let here_lower = 0x61 <= hu && hu <= 0x7a;
    let here_upper = 0x41 <= hu && hu <= 0x5a;
    let here_digit = 0x30 <= hu && hu <= 0x39;
    if prev_lower && here_upper {
        return true;
    }
    if (prev_lower || prev_upper) && here_digit {
        return true;
    }
    if prev_digit && (here_lower || here_upper) {
        return true;
    }
    let len = chars.len();
    if prev_upper && here_upper && i < len - 1 {
        let next = chars[i + 1];
        let nu = next as u32;
        if 0x61 <= nu && nu <= 0x7a {
            return true;
        }
    }
    false
}

/// The code-aware tokenizer that the schema binds to the searchable fields.
/// It is stateless: tokenizing is a function of the text alone.
pub struct CodeTokenizer;

impl CodeTokenizer {
    /// Splits `text` into its lowercase tokens, in order.
    pub fn tokenize(text: &str) -> (r: Vec<String>)
        ensures
            string_views(r@) == spec_tokens(text@),
    {
        let chars = chars_vec(text);
        let n = chars.len();
        let mut out: Vec<String> = Vec::new();
        let mut i: usize = 0;
        proof {
            assert(string_views(out@) + tokens_from(chars@, 0) =~~= spec_tokens(text@));
        }
        while i < n
            invariant
                chars@ == text@,
                n == chars@.len(),
                i <= n,
                spec_tokens(text@) == string_views(out@) + tokens_from(chars@, i as int),
            decreases n - i,
        {
            if !is_word_char(chars[i]) {
                proof {
                    assert(tokens_from(chars@, i as int) == tokens_from(chars@, i + 1));
                }
                i = i + 1;
            } else {
                let start = i;
                let mut j = i;
                while !(j + 1 >= n || !is_word_char(chars[j + 1]) || break_at(&chars, j + 1))
                    invariant
                        n == chars@.len(),
                        start <= j < n,
                        token_end(chars@, start as int) == token_end(chars@, j as int),
                    decreases n - j,
                {
                    proof {
                        assert(token_end(chars@, j as int) == token_end(chars@, j + 1));
                    }
                    j = j + 1;
                }
                let end = j + 1;
                proof {
                    assert(token_end(chars@, start as int) == end as int);
                }

                let mut tok: Vec<char> = Vec::new();
                let mut k = start;
                while k < end
                    invariant
                        n == chars@.len(),
                        start <= k <= end <= n,
                        tok@ == lower_seq(chars@.subrange(start as int, k as int)),
                    decreases end - k,
                {
                    tok.push(to_lower_char(chars[k]));
                    proof {
                        assert(lower_seq(chars@.subrange(start as int, k + 1)) =~~= tok@);
                    }
                    k = k + 1;
                }
                let ghost old_out = out@;
                out.push(string_from_chars(&tok));
                proof {
                    assert(string_views(out@) =~~= string_views(old_out).push(tok@));
                    assert(tokens_from(chars@, start as int) == seq![
                        lower_seq(chars@.subrange(start as int, end as int)),
                    ] + tokens_from(chars@, end as int));
                    assert(string_views(old_out) + (seq![tok@] + tokens_from(chars@, end as int))
                        =~~= string_views(out@) + tokens_from(chars@, end as int));
                }
                i = end;
            }
        }
        proof {
            assert(string_views(out@) + tokens_from(chars@, n as int) =~~= string_views(out@));
        }
        out
    }
}

} // verus!
