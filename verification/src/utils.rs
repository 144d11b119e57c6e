//! Small text utilities: human-readable sizes, the text-file filter, and
//! the snippet extractor that search results use.
//!
//! Positions and lengths are counted in characters throughout.

use vstd::prelude::*;

verus! {

use crate::text::{dec_digits, u64_to_string, lower_char, to_lower_char, chars_vec,
    string_from_chars, push_char, str_eq, string_views};
use crate::tokenizer::{is_word, lower_seq};

/// The rendering of a byte count: plain bytes below one kibibyte, and
/// otherwise the value in KB, MB or GB rounded to the nearest tenth.
pub open spec fn spec_format_size(bytes: u64) -> Seq<char> {
    if bytes < 1024 {
        dec_digits(bytes as nat) + " B"@
    } else {
        let unit: int = if bytes < 0x10_0000 {
            1024
        } else if bytes < 0x4000_0000 {
            0x10_0000
        } else {
            0x4000_0000
        };
        let name = if bytes < 0x10_0000 {
            " KB"@
        } else if bytes < 0x4000_0000 {
            " MB"@
        } else {
            " GB"@
        };
        let tenths = (bytes * 10 + unit / 2) / unit;
        dec_digits((tenths / 10) as nat) + "."@ + dec_digits((tenths % 10) as nat) + name
    }
}

/// Renders a byte count as text: `512 B`, `1.5 KB`, `1.0 MB`, `1.0 GB`.
pub fn format_size(bytes: u64) -> (r: String)
    ensures
        r@ == spec_format_size(bytes),
{
    if bytes < 1024 {
        let r = u64_to_string(bytes).concat(" B");
        r
    } else {
        let unit: u64 = if bytes < 0x10_0000 {
            1024
        } else if bytes < 0x4000_0000 {
            0x10_0000
        } else {
            0x4000_0000
        };
        let wide = (bytes as u128) * 10 + ((unit / 2) as u128);
        let tenths_wide = wide / (unit as u128);
        proof {
            assert(tenths_wide <= wide / 1024);
            assert(wide / 1024 < 0x1_0000_0000_0000_0000);
        }
        let tenths = tenths_wide as u64;
        let whole = u64_to_string(tenths / 10);
        let frac = u64_to_string(tenths % 10);
        let r = whole.concat(".").concat(frac.as_str());
        let r = if bytes < 0x10_0000 {
            r.concat(" KB")
        } else if bytes < 0x4000_0000 {
            r.concat(" MB")
        } else {
            r.concat(" GB")
        };
        proof {
            assert(tenths as int == (bytes as int * 10 + unit as int / 2) / unit as int);
        }
        r
    }
}

/// The position of the last occurrence of `c` in `s`, or -1 when `c` does
/// not occur.
pub open spec fn last_index_of(s: Seq<char>, c: char) -> int
    decreases s.len(),
{
    if s.len() == 0 {
        -1
    } else if s.last() == c {
        s.len() - 1
    } else {
        last_index_of(s.drop_last(), c)
    }
}

/// The file name of a path: everything after the last `/`.
pub open spec fn file_name_of(p: Seq<char>) -> Seq<char> {
    p.subrange(last_index_of(p, '/') + 1, p.len() as int)
}

/// The extension of a path: what follows the last `.` of the file name,
/// unless the name has no `.` or starts with its only `.` (a hidden file).
pub open spec fn extension_of(p: Seq<char>) -> Option<Seq<char>> {
    let name = file_name_of(p);
    let d = last_index_of(name, '.');
    if d <= 0 {
        None
    } else {
        Some(name.subrange(d + 1, name.len() as int))
    }
}

/// Whether a lowercased extension belongs to a file format that holds no
/// searchable text.
pub open spec fn is_binary_extension(e: Seq<char>) -> bool {
    ||| e == "exe"@
    ||| e == "dll"@
    ||| e == "so"@
    ||| e == "dylib"@
    ||| e == "bin"@
    ||| e == "obj"@
    ||| e == "o"@
    ||| e == "jpg"@
    ||| e == "jpeg"@
    ||| e == "png"@
    ||| e == "gif"@
    ||| e == "bmp"@
    ||| e == "ico"@
    ||| e == "mp3"@
    ||| e == "mp4"@
    ||| e == "avi"@
    ||| e == "mov"@
    ||| e == "wav"@
    ||| e == "zip"@
    ||| e == "tar"@
    ||| e == "gz"@
    ||| e == "rar"@
    ||| e == "7z"@
    ||| e == "pdf"@
    ||| e == "doc"@
    ||| e == "docx"@
    ||| e == "xls"@
    ||| e == "xlsx"@
}

/// Whether a path looks like a text file: it has no extension, or its
/// lowercased extension is not a known binary format.
pub open spec fn spec_is_text_file(p: Seq<char>) -> bool {
    match extension_of(p) {
        None => true,
        Some(e) => !is_binary_extension(lower_seq(e)),
    }
}

/// The position of the last occurrence of `c`, scanning a character vector.
fn find_last_char(chars: &Vec<char>, c: char) -> (r: Option<usize>)
    ensures
        match r {
            Some(j) => j < chars@.len() && last_index_of(chars@, c) == j as int,
            None => last_index_of(chars@, c) == -1,
        },
{
    let mut j = chars.len();
    proof {
        assert(chars@.subrange(0, chars@.len() as int) =~= chars@);
    }
    while j > 0
        invariant
            j <= chars@.len(),
            chars@.len() <= usize::MAX,
            last_index_of(chars@, c) == last_index_of(chars@.subrange(0, j as int), c),
        decreases j,
    {
        proof {
            assert(chars@.subrange(0, j as int).drop_last() =~= chars@.subrange(0, j - 1));
            assert(chars@.subrange(0, j as int).last() == chars@[j - 1]);
        }
        j = j - 1;
        if chars[j] == c {
            return Some(j);
        }
    }
    None
}

/// Decides whether a path names a likely text file, by its extension.
pub fn is_text_file(path: &str) -> (r: bool)
    ensures
        r == spec_is_text_file(path@),
{
    let chars = chars_vec(path);
    let n = chars.len();
    let name_start: usize = match find_last_char(&chars, '/') {
        Some(j) => j + 1,
        None => 0,
    };
    let mut name: Vec<char> = Vec::new();
    let mut i = name_start;
    proof {
        assert(name@ =~= chars@.subrange(name_start as int, name_start as int));
    }
    while i < n
        invariant
            n == chars@.len(),
            name_start <= i <= chars@.len(),
            name@ == chars@.subrange(name_start as int, i as int),
        decreases chars@.len() - i,
    {
        name.push(chars[i]);
        proof {
            assert(chars@.subrange(name_start as int, i + 1) =~= chars@.subrange(
                name_start as int,
                i as int,
            ).push(chars@[i as int]));
        }
        i = i + 1;
    }
    proof {
        assert(name@ =~= file_name_of(path@));
    }

    match find_last_char(&name, '.') {
        None => true,
        Some(d) => {
            if d == 0 {
                return true;
            }
            let nlen = name.len();
            let mut ext: Vec<char> = Vec::new();
            let mut k = d + 1;
            proof {
                assert(ext@ =~= lower_seq(name@.subrange(d + 1, d + 1)));
            }
            while k < nlen
                invariant
                    nlen == name@.len(),
                    d + 1 <= k <= name@.len(),
                    ext@ == lower_seq(name@.subrange(d + 1, k as int)),
                decreases name@.len() - k,
            {
                ext.push(to_lower_char(name[k]));
                proof {
                    assert(lower_seq(name@.subrange(d + 1, k + 1)) =~= ext@);
                }
                k = k + 1;
            }
            let e = string_from_chars(&ext);
            proof {
                assert(ext@ =~= lower_seq(name@.subrange(d + 1, name@.len() as int)));
            }
            let binary = str_eq(e.as_str(), "exe") || str_eq(e.as_str(), "dll") || str_eq(
                e.as_str(),
                "so",
            ) || str_eq(e.as_str(), "dylib") || str_eq(e.as_str(), "bin") || str_eq(
                e.as_str(),
                "obj",
            ) || str_eq(e.as_str(), "o") || str_eq(e.as_str(), "jpg") || str_eq(
                e.as_str(),
                "jpeg",
            ) || str_eq(e.as_str(), "png") || str_eq(e.as_str(), "gif") || str_eq(
                e.as_str(),
                "bmp",
            ) || str_eq(e.as_str(), "ico") || str_eq(e.as_str(), "mp3") || str_eq(
                e.as_str(),
                "mp4",
            ) || str_eq(e.as_str(), "avi") || str_eq(e.as_str(), "mov") || str_eq(
                e.as_str(),
                "wav",
            ) || str_eq(e.as_str(), "zip") || str_eq(e.as_str(), "tar") || str_eq(
                e.as_str(),
                "gz",
            ) || str_eq(e.as_str(), "rar") || str_eq(e.as_str(), "7z") || str_eq(
                e.as_str(),
                "pdf",
            ) || str_eq(e.as_str(), "doc") || str_eq(e.as_str(), "docx") || str_eq(
                e.as_str(),
                "xls",
            ) || str_eq(e.as_str(), "xlsx");
            !binary
        },
    }
}


/// The extension of a path as a string, or the empty string when the path
/// has none.
pub fn extension_string(path: &str) -> (r: String)
    ensures
        r@ == match extension_of(path@) {
            Some(e) => e,
            None => Seq::<char>::empty(),
        },
{
    let chars = chars_vec(path);
    let n = chars.len();
    let name_start: usize = match find_last_char(&chars, '/') {
        Some(j) => j + 1,
        None => 0,
    };
    let mut name: Vec<char> = Vec::new();
    let mut i = name_start;
    proof {
        assert(name@ =~= chars@.subrange(name_start as int, name_start as int));
    }
    while i < n
        invariant
            n == chars@.len(),
            name_start <= i <= chars@.len(),
            name@ == chars@.subrange(name_start as int, i as int),
        decreases chars@.len() - i,
    {
        name.push(chars[i]);
        proof {
            assert(chars@.subrange(name_start as int, i + 1) =~= chars@.subrange(
                name_start as int,
                i as int,
            ).push(chars@[i as int]));
        }
        i = i + 1;
    }
    proof {
        assert(name@ =~= file_name_of(path@));
    }

    match find_last_char(&name, '.') {
        None => {
            let r = String::new();
            proof {
                assert(r@ =~= Seq::<char>::empty());
            }
            r
        },
        Some(d) => {
            if d == 0 {
                let r = String::new();
                proof {
                    assert(r@ =~= Seq::<char>::empty());
                }
                return r;
            }
            let mut ext: Vec<char> = Vec::new();
            let mut k = d + 1;
            proof {
                assert(ext@ =~= name@.subrange(d + 1, d + 1));
            }
            while k < name.len()
                invariant
                    d + 1 <= k <= name@.len(),
                    ext@ == name@.subrange(d + 1, k as int),
                decreases name@.len() - k,
            {
                ext.push(name[k]);
                proof {
                    assert(name@.subrange(d + 1, k + 1) =~= name@.subrange(d + 1, k as int).push(
                        name@[k as int],
                    ));
                }
                k = k + 1;
            }
            string_from_chars(&ext)
        },
    }
}

/// Whether `c` is ASCII whitespace: space, tab, line feed, vertical tab,
/// form feed, or carriage return.
pub open spec fn is_space(c: char) -> bool {
    c == ' ' || c == '\t' || c == '\n' || (c as u32 == 0x0b) || (c as u32 == 0x0c) || c == '\r'
}

/// The position one past the last character of the whitespace-delimited
/// word that starts at `i`.
pub open spec fn word_run_end(s: Seq<char>, i: int) -> int
    recommends
        0 <= i < s.len(),
    decreases s.len() - i,
    when 0 <= i < s.len()
{
    if i + 1 >= s.len() || is_space(s[i + 1]) {
        i + 1
    } else {
        word_run_end(s, i + 1)
    }
}

/// A word's end lies after its start and within the text.
proof fn lemma_word_run_end_bounds(s: Seq<char>, i: int)
    requires
        0 <= i < s.len(),
    ensures
        i < word_run_end(s, i) <= s.len(),
    decreases s.len() - i,
{
    if !(i + 1 >= s.len() || is_space(s[i + 1])) {
        lemma_word_run_end_bounds(s, i + 1);
    }
}

/// The whitespace-delimited words of `s` from position `i` on.
pub open spec fn words_from(s: Seq<char>, i: int) -> Seq<Seq<char>>
    decreases s.len() - i,
    when 0 <= i <= s.len()
    via words_from_decreases
{
    if i >= s.len() {
        Seq::empty()
    } else if is_space(s[i]) {
        words_from(s, i + 1)
    } else {
        seq![s.subrange(i, word_run_end(s, i))] + words_from(s, word_run_end(s, i))
    }
}

#[via_fn]
proof fn words_from_decreases(s: Seq<char>, i: int) {
    if 0 <= i < s.len() && !is_space(s[i]) {
        lemma_word_run_end_bounds(s, i);
    }
}

/// The whitespace-delimited words of a text.
pub open spec fn spec_words(s: Seq<char>) -> Seq<Seq<char>> {
    words_from(s, 0)
}

/// The words joined by single spaces.
pub open spec fn join_spaces(ws: Seq<Seq<char>>) -> Seq<char>
    decreases ws.len(),
{
    if ws.len() == 0 {
        Seq::empty()
    } else if ws.len() == 1 {
        ws[0]
    } else {
        join_spaces(ws.drop_last()) + seq![' '] + ws.last()
    }
}

/// The cleaned form of a snippet: its words joined by single spaces, which
/// collapses every whitespace run (tabs and newlines included) and drops
/// leading and trailing whitespace.
pub open spec fn spec_clean(s: Seq<char>) -> Seq<char> {
    join_spaces(spec_words(s))
}

/// Whether `c` is ASCII whitespace.
fn is_space_char(c: char) -> (r: bool)
    ensures
        r == is_space(c),
{
    let u = c as u32;
    u == 0x20 || u == 0x09 || u == 0x0a || u == 0x0b || u == 0x0c || u == 0x0d
}

/// The whitespace-delimited words of `text`, in order.
fn split_words(text: &str) -> (r: Vec<String>)
    ensures
        string_views(r@) == spec_words(text@),
{
    let chars = chars_vec(text);
    let n = chars.len();
    let mut out: Vec<String> = Vec::new();
    let mut i: usize = 0;
    proof {
        assert(string_views(out@) + words_from(chars@, 0) =~~= spec_words(text@));
    }
    while i < n
        invariant
            chars@ == text@,
            n == chars@.len(),
            i <= n,
            spec_words(text@) == string_views(out@) + words_from(chars@, i as int),
        decreases n - i,
    {
        if is_space_char(chars[i]) {
            proof {
                assert(words_from(chars@, i as int) == words_from(chars@, i + 1));
            }
            i = i + 1;
        } else {
            let start = i;
            let mut j = i;
            while !(j + 1 >= n || is_space_char(chars[j + 1]))
                invariant
                    n == chars@.len(),
                    start <= j < n,
                    word_run_end(chars@, start as int) == word_run_end(chars@, j as int),
                decreases n - j,
            {
                proof {
                    assert(word_run_end(chars@, j as int) == word_run_end(chars@, j + 1));
                }
                j = j + 1;
            }
            let end = j + 1;
            proof {
                assert(word_run_end(chars@, start as int) == end as int);
            }
            let mut w: Vec<char> = Vec::new();
            let mut k = start;
            proof {
                assert(w@ =~= chars@.subrange(start as int, start as int));
            }
            while k < end
                invariant
                    n == chars@.len(),
                    start <= k <= end <= n,
                    w@ == chars@.subrange(start as int, k as int),
                decreases end - k,
            {
                w.push(chars[k]);
                proof {
                    assert(chars@.subrange(start as int, k + 1) =~= chars@.subrange(
                        start as int,
                        k as int,
                    ).push(chars@[k as int]));
                }
                k = k + 1;
            }
            let ghost old_out = out@;
            out.push(string_from_chars(&w));
            proof {
                assert(string_views(out@) =~~= string_views(old_out).push(w@));
                assert(words_from(chars@, start as int) == seq![
                    chars@.subrange(start as int, end as int),
                ] + words_from(chars@, end as int));
                assert(string_views(old_out) + (seq![w@] + words_from(chars@, end as int)) =~~=
                string_views(out@) + words_from(chars@, end as int));
            }
            i = end;
        }
    }
    proof {
        assert(string_views(out@) + words_from(chars@, n as int) =~~= string_views(out@));
    }
    out
}

/// Collapses every whitespace run of `snippet` into one space and drops
/// leading and trailing whitespace.
pub fn clean_snippet(snippet: &str) -> (r: String)
    ensures
        r@ == spec_clean(snippet@),
{
    let words = split_words(snippet);
    let mut r = String::new();
    let mut i: usize = 0;
    let ghost ws = string_views(words@);
    proof {
        assert(r@ =~= join_spaces(ws.subrange(0, 0)));
    }
    while i < words.len()
        invariant
            ws == string_views(words@),
            i <= words@.len(),
            r@ == join_spaces(ws.subrange(0, i as int)),
        decreases words@.len() - i,
    {
        if i > 0 {
            push_char(&mut r, ' ');
        }
        let r2 = r.concat(words[i].as_str());
        r = r2;
        proof {
            let sub = ws.subrange(0, i + 1);
            assert(sub.drop_last() =~~= ws.subrange(0, i as int));
            assert(sub.last() == ws[i as int]);
            assert(ws[i as int] == words@[i as int]@);
            if i == 0 {
                assert(r@ =~= join_spaces(sub));
            } else {
                assert(r@ =~= join_spaces(ws.subrange(0, i as int)) + seq![' '] + ws[i as int]);
            }
        }
        i = i + 1;
    }
    proof {
        assert(ws.subrange(0, ws.len() as int) =~~= ws);
    }
    r
}

/// The text without leading whitespace.
pub open spec fn trim_start_spaces(s: Seq<char>) -> Seq<char>
    decreases s.len(),
{
    if s.len() > 0 && is_space(s[0]) {
        trim_start_spaces(s.drop_first())
    } else {
        s
    }
}

/// The text without trailing whitespace.
pub open spec fn trim_end_spaces(s: Seq<char>) -> Seq<char>
    decreases s.len(),
{
    if s.len() > 0 && is_space(s.last()) {
        trim_end_spaces(s.drop_last())
    } else {
        s
    }
}

/// The text without leading or trailing whitespace.
pub open spec fn trim_spaces(s: Seq<char>) -> Seq<char> {
    trim_end_spaces(trim_start_spaces(s))
}

/// A text unchanged when it fits, and otherwise its first `max_length`
/// characters, trimmed of edge whitespace, with a trailing ellipsis.
pub open spec fn spec_truncate(text: Seq<char>, max_length: int) -> Seq<char> {
    if text.len() > max_length {
        trim_spaces(text.subrange(0, max_length)) + "..."@
    } else {
        text
    }
}

/// Shortens `text` to at most `max_length` characters plus an ellipsis.
pub fn truncate_text(text: &str, max_length: usize) -> (r: String)
    ensures
        r@ == spec_truncate(text@, max_length as int),
{
    let chars = chars_vec(text);
    let n = chars.len();
    if n <= max_length {
        let mut r = String::new();
        let r2 = r.concat(text);
        proof {
            assert(r2@ =~= text@);
        }
        return r2;
    }
    let mut a: usize = 0;
    proof {
        assert(chars@.subrange(0, max_length as int).skip(0) =~= chars@.subrange(
            0,
            max_length as int,
        ));
    }
    let ghost cut = chars@.subrange(0, max_length as int);
    while a < max_length && is_space_char(chars[a])
        invariant
            a <= max_length < chars@.len(),
            cut == chars@.subrange(0, max_length as int),
            trim_start_spaces(cut) == trim_start_spaces(cut.skip(a as int)),
        decreases max_length - a,
    {
        proof {
            assert(cut.skip(a as int)[0] == chars@[a as int]);
            assert(cut.skip(a as int).drop_first() =~= cut.skip(a + 1));
        }
        a = a + 1;
    }
    proof {
        if a < max_length {
            assert(cut.skip(a as int)[0] == chars@[a as int]);
        }
        assert(trim_start_spaces(cut) == cut.skip(a as int));
    }
    let mut b: usize = max_length;
    proof {
        assert(cut.skip(a as int).take(max_length - a) =~= cut.skip(a as int));
    }
    while b > a && is_space_char(chars[b - 1])
        invariant
            a <= b <= max_length < chars@.len(),
            cut == chars@.subrange(0, max_length as int),
            trim_start_spaces(cut) == cut.skip(a as int),
            trim_end_spaces(cut.skip(a as int)) == trim_end_spaces(
                cut.skip(a as int).take(b - a),
            ),
        decreases b,
    {
        proof {
            let t = cut.skip(a as int).take(b - a);
            assert(t.last() == chars@[b - 1]);
            assert(t.drop_last() =~= cut.skip(a as int).take(b - 1 - a));
        }
        b = b - 1;
    }
    proof {
        let t = cut.skip(a as int).take(b - a);
        if b > a {
            assert(t.last() == chars@[b - 1]);
        }
        assert(trim_end_spaces(t) == t);
        assert(trim_spaces(cut) == cut.skip(a as int).take(b - a));
    }
    let mut out: Vec<char> = Vec::new();
    let mut k = a;
    proof {
        assert(out@ =~= chars@.subrange(a as int, a as int));
    }
    while k < b
        invariant
            a <= k <= b <= max_length < chars@.len(),
            out@ == chars@.subrange(a as int, k as int),
        decreases b - k,
    {
        out.push(chars[k]);
        proof {
            assert(chars@.subrange(a as int, k + 1) =~= chars@.subrange(a as int, k as int).push(
                chars@[k as int],
            ));
        }
        k = k + 1;
    }
    proof {
        assert(chars@.subrange(a as int, b as int) =~= cut.skip(a as int).take(b - a));
    }
    let r = string_from_chars(&out).concat("...");
    r
}


/// The word without leading non-alphanumeric characters.
pub open spec fn trim_start_nonword(w: Seq<char>) -> Seq<char>
    decreases w.len(),
{
    if w.len() > 0 && !is_word(w[0]) {
        trim_start_nonword(w.drop_first())
    } else {
        w
    }
}

/// The word without trailing non-alphanumeric characters.
pub open spec fn trim_end_nonword(w: Seq<char>) -> Seq<char>
    decreases w.len(),
{
    if w.len() > 0 && !is_word(w.last()) {
        trim_end_nonword(w.drop_last())
    } else {
        w
    }
}

/// The word with every non-alphanumeric character stripped from both ends;
/// empty when it holds no alphanumeric character at all.
pub open spec fn trim_nonword(w: Seq<char>) -> Seq<char> {
    trim_end_nonword(trim_start_nonword(w))
}

/// The trimmed, non-empty forms of the given words, in order.
pub open spec fn keep_nonempty_trimmed(ws: Seq<Seq<char>>) -> Seq<Seq<char>>
    decreases ws.len(),
{
    if ws.len() == 0 {
        Seq::empty()
    } else {
        let rest = keep_nonempty_trimmed(ws.drop_last());
        let t = trim_nonword(ws.last());
        if t.len() > 0 {
            rest.push(t)
        } else {
            rest
        }
    }
}

/// The search terms of a query: its whitespace-delimited words, stripped of
/// punctuation at either end, with words that were all punctuation dropped.
pub open spec fn spec_query_words(q: Seq<char>) -> Seq<Seq<char>> {
    keep_nonempty_trimmed(spec_words(q))
}

/// Whether `c` is an ASCII letter or digit.
fn is_word_char_here(c: char) -> (r: bool)
    ensures
        r == is_word(c),
{
    let u = c as u32;
    (0x30 <= u && u <= 0x39) || (0x41 <= u && u <= 0x5a) || (0x61 <= u && u <= 0x7a)
}

/// Strips non-alphanumeric characters from both ends of a word.
fn trim_word(w: &str) -> (r: String)
    ensures
        r@ == trim_nonword(w@),
{
    let chars = chars_vec(w);
    let n = chars.len();
    let mut a: usize = 0;
    proof {
        assert(chars@.skip(0) =~= chars@);
    }
    while a < n && !is_word_char_here(chars[a])
        invariant
            a <= n == chars@.len(),
            trim_start_nonword(chars@) == trim_start_nonword(chars@.skip(a as int)),
        decreases n - a,
    {
        proof {
            assert(chars@.skip(a as int)[0] == chars@[a as int]);
            assert(chars@.skip(a as int).drop_first() =~= chars@.skip(a + 1));
        }
        a = a + 1;
    }
    proof {
        if a < n {
            assert(chars@.skip(a as int)[0] == chars@[a as int]);
        } else {
            assert(chars@.skip(a as int) =~= Seq::<char>::empty());
        }
        assert(trim_start_nonword(chars@) == chars@.skip(a as int));
        assert(chars@.skip(a as int).take(n - a) =~= chars@.skip(a as int));
    }
    let mut b: usize = n;
    while b > a && !is_word_char_here(chars[b - 1])
        invariant
            a <= b <= n == chars@.len(),
            trim_start_nonword(chars@) == chars@.skip(a as int),
            trim_end_nonword(chars@.skip(a as int)) == trim_end_nonword(
                chars@.skip(a as int).take(b - a),
            ),
        decreases b,
    {
        proof {
            let t = chars@.skip(a as int).take(b - a);
            assert(t.last() == chars@[b - 1]);
            assert(t.drop_last() =~= chars@.skip(a as int).take(b - 1 - a));
        }
        b = b - 1;
    }
    proof {
        let t = chars@.skip(a as int).take(b - a);
        if b > a {
            assert(t.last() == chars@[b - 1]);
        }
        assert(trim_end_nonword(t) == t);
        assert(trim_nonword(chars@) == chars@.subrange(a as int, b as int)) by {
            assert(chars@.skip(a as int).take(b - a) =~= chars@.subrange(a as int, b as int));
        }
    }
    let mut out: Vec<char> = Vec::new();
    let mut k = a;
    proof {
        assert(out@ =~= chars@.subrange(a as int, a as int));
    }
    while k < b
        invariant
            a <= k <= b <= chars@.len(),
            out@ == chars@.subrange(a as int, k as int),
        decreases b - k,
    {
        out.push(chars[k]);
        proof {
            assert(chars@.subrange(a as int, k + 1) =~= chars@.subrange(a as int, k as int).push(
                chars@[k as int],
            ));
        }
        k = k + 1;
    }
    string_from_chars(&out)
}

/// The search terms of a query.
pub fn query_words(query: &str) -> (r: Vec<String>)
    ensures
        string_views(r@) == spec_query_words(query@),
{
    let words = split_words(query);
    let ghost ws = string_views(words@);
    let mut out: Vec<String> = Vec::new();
    let mut i: usize = 0;
    proof {
        assert(string_views(out@) =~~= keep_nonempty_trimmed(ws.subrange(0, 0)));
    }
    while i < words.len()
        invariant
            ws == string_views(words@),
            i <= words@.len(),
            string_views(out@) == keep_nonempty_trimmed(ws.subrange(0, i as int)),
        decreases words@.len() - i,
    {
        let t = trim_word(words[i].as_str());
        proof {
            assert(ws.subrange(0, i + 1).drop_last() =~~= ws.subrange(0, i as int));
            assert(ws.subrange(0, i + 1).last() == words@[i as int]@);
        }
        if t.as_str().unicode_len() > 0 {
            let ghost old_out = out@;
            out.push(t);
            proof {
                assert(string_views(out@) =~~= string_views(old_out).push(trim_nonword(
                    words@[i as int]@,
                )));
                assert(string_views(out@) =~~= keep_nonempty_trimmed(ws.subrange(0, i + 1)));
            }
        } else {
            proof {
                assert(string_views(out@) =~~= keep_nonempty_trimmed(ws.subrange(0, i + 1)));
            }
        }
        i = i + 1;
    }
    proof {
        assert(ws.subrange(0, ws.len() as int) =~~= ws);
    }
    out
}


/// The least position at or after `i` where `pat` occurs in `text`.
pub open spec fn find_from(text: Seq<char>, pat: Seq<char>, i: int) -> Option<int>
    decreases text.len() + 1 - i,
    when 0 <= i <= text.len() + 1
{
    if i + pat.len() > text.len() {
        None
    } else if text.subrange(i, i + pat.len()) == pat {
        Some(i)
    } else {
        find_from(text, pat, i + 1)
    }
}

/// The least position where `pat` occurs in `text`.
pub open spec fn spec_find(text: Seq<char>, pat: Seq<char>) -> Option<int> {
    find_from(text, pat, 0)
}

/// A found occurrence lies within the text.
pub proof fn lemma_find_from_bounds(text: Seq<char>, pat: Seq<char>, i: int)
    requires
        0 <= i <= text.len() + 1,
    ensures
        find_from(text, pat, i) matches Some(j) ==> i <= j && j + pat.len() <= text.len(),
    decreases text.len() + 1 - i,
{
    if i + pat.len() <= text.len() && text.subrange(i, i + pat.len()) != pat {
        lemma_find_from_bounds(text, pat, i + 1);
    }
}

/// The first occurrence of `pat` in `text`, by characters.
fn find_sub(text: &Vec<char>, pat: &Vec<char>) -> (r: Option<usize>)
    ensures
        match r {
            Some(j) => spec_find(text@, pat@) == Some(j as int),
            None => spec_find(text@, pat@) is None,
        },
{
    let n = text.len();
    let m = pat.len();
    if m > n {
        return None;
    }
    if m == 0 {
        proof {
            assert(text@.subrange(0, 0) =~= pat@);
        }
        return Some(0);
    }
    let mut i: usize = 0;
    while i <= n - m
        invariant
            0 < m <= n == text@.len(),
            m == pat@.len(),
            i <= n - m + 1,
            spec_find(text@, pat@) == find_from(text@, pat@, i as int),
        decreases n - i,
    {
        let mut k: usize = 0;
        let mut matched = true;
        proof {
            assert(text@.subrange(i as int, i as int) =~= pat@.subrange(0, 0));
        }
        while k < m
            invariant
                0 < m <= n == text@.len(),
                m == pat@.len(),
                i + m <= n,
                k <= m,
                matched ==> text@.subrange(i as int, i + k) == pat@.subrange(0, k as int),
                !matched ==> text@.subrange(i as int, i + m) != pat@,
            decreases m - k,
        {
            if text[i + k] != pat[k] {
                proof {
                    assert(text@.subrange(i as int, i + m)[k as int] == text@[i + k]);
                }
                matched = false;
            } else {
                proof {
                    if matched {
                        assert(text@.subrange(i as int, i + k + 1) =~= text@.subrange(
                            i as int,
                            i + k,
                        ).push(text@[i + k]));
                        assert(pat@.subrange(0, k + 1) =~= pat@.subrange(0, k as int).push(
                            pat@[k as int],
                        ));
                    }
                }
            }
            k = k + 1;
        }
        if matched {
            proof {
                assert(pat@.subrange(0, m as int) =~= pat@);
            }
            return Some(i);
        }
        proof {
            assert(find_from(text@, pat@, i as int) == find_from(text@, pat@, i + 1));
        }
        i = i + 1;
    }
    proof {
        assert(find_from(text@, pat@, i as int) is None);
    }
    None
}

/// The best snippet anchor from word `k` on: the earliest first occurrence
/// of any remaining lowercased word in the lowercased text, carried as the
/// position and the word's length; an earlier word wins ties.
pub open spec fn best_from(
    lowered: Seq<char>,
    words: Seq<Seq<char>>,
    k: int,
    cur: Option<(int, int)>,
) -> Option<(int, int)>
    decreases words.len() - k,
    when 0 <= k
{
    if k >= words.len() {
        cur
    } else {
        let cand = spec_find(lowered, lower_seq(words[k]));
        let next = if cand is Some {
            let pos = cand.unwrap();
            if cur is None || pos < cur.unwrap().0 {
                Some((pos, words[k].len() as int))
            } else {
                cur
            }
        } else {
            cur
        };
        best_from(lowered, words, k + 1, next)
    }
}

/// The position and word length the snippet window centres on.
pub open spec fn spec_best_match(text: Seq<char>, words: Seq<Seq<char>>) -> Option<(int, int)> {
    best_from(lower_seq(text), words, 0, None)
}

/// A best match starts a whole word occurrence inside the text.
proof fn lemma_best_from_bounds(
    lowered: Seq<char>,
    words: Seq<Seq<char>>,
    k: int,
    cur: Option<(int, int)>,
)
    requires
        0 <= k,
        cur matches Some(c) ==> 0 <= c.0 && c.0 + c.1 <= lowered.len(),
    ensures
        best_from(lowered, words, k, cur) matches Some(c) ==> 0 <= c.0 && c.0 + c.1
            <= lowered.len(),
    decreases words.len() - k,
{
    if k < words.len() {
        let cand = spec_find(lowered, lower_seq(words[k]));
        lemma_find_from_bounds(lowered, lower_seq(words[k]), 0);
        let next = if cand is Some {
            let pos = cand.unwrap();
            if cur is None || pos < cur.unwrap().0 {
                Some((pos, words[k].len() as int))
            } else {
                cur
            }
        } else {
            cur
        };
        lemma_best_from_bounds(lowered, words, k + 1, next);
    }
}

/// ASCII-lowercases a word into characters.
fn lower_chars_of(w: &str) -> (r: Vec<char>)
    ensures
        r@ == lower_seq(w@),
{
    let chars = chars_vec(w);
    let mut out: Vec<char> = Vec::new();
    let mut i: usize = 0;
    proof {
        assert(out@ =~= lower_seq(chars@.subrange(0, 0)));
    }
    while i < chars.len()
        invariant
            i <= chars@.len(),
            out@ == lower_seq(chars@.subrange(0, i as int)),
        decreases chars@.len() - i,
    {
        out.push(to_lower_char(chars[i]));
        proof {
            assert(lower_seq(chars@.subrange(0, i + 1)) =~= out@);
        }
        i = i + 1;
    }
    proof {
        assert(chars@.subrange(0, chars@.len() as int) =~= chars@);
    }
    out
}

/// Finds where a snippet should centre: the earliest occurrence of any
/// query word in the text, compared without regard to ASCII case, together
/// with that word's length.
pub fn find_best_match_position(text: &str, query_words: &Vec<String>) -> (r: Option<
    (usize, usize),
>)
    ensures
        match r {
            Some(c) => spec_best_match(text@, string_views(query_words@)) == Some(
                (c.0 as int, c.1 as int),
            ) && c.0 + c.1 <= text@.len(),
            None => spec_best_match(text@, string_views(query_words@)) is None,
        },
{
    let lowered = lower_chars_of(text);
    let ghost ws = string_views(query_words@);
    let mut cur: Option<(usize, usize)> = None;
    let mut k: usize = 0;
    while k < query_words.len()
        invariant
            ws == string_views(query_words@),
            lowered@ == lower_seq(text@),
            k <= ws.len(),
            match cur {
                Some(c) => c.0 + c.1 <= lowered@.len() && best_from(lowered@, ws, 0, None)
                    == best_from(lowered@, ws, k as int, Some((c.0 as int, c.1 as int))),
                None => best_from(lowered@, ws, 0, None) == best_from(
                    lowered@,
                    ws,
                    k as int,
                    None,
                ),
            },
        decreases ws.len() - k,
    {
        let wl = lower_chars_of(query_words[k].as_str());
        proof {
            assert(wl@ == lower_seq(ws[k as int]));
        }
        let cand = find_sub(&lowered, &wl);
        proof {
            lemma_find_from_bounds(lowered@, wl@, 0);
        }
        let wlen = query_words[k].as_str().unicode_len();
        match cand {
            Some(pos) => {
                let replace = match cur {
                    None => true,
                    Some(c) => pos < c.0,
                };
                if replace {
                    proof {
                        assert(wl@.len() == ws[k as int].len());
                        assert(pos + wl@.len() <= lowered@.len());
                    }
                    cur = Some((pos, wlen));
                }
            },
            None => {},
        }
        k = k + 1;
    }
    cur
}


/// The snippet window around a match at `pos` of length `word_len`: half
/// the remaining budget of context on each side, cleaned, with an ellipsis
/// on each side that was cut.
pub open spec fn spec_around(text: Seq<char>, pos: int, word_len: int, max_length: int) -> Seq<
    char,
> {
    let context = if word_len <= max_length {
        (max_length - word_len) / 2
    } else {
        0
    };
    let start = if pos > context {
        pos - context
    } else {
        0
    };
    let end = if pos + word_len + context < text.len() {
        pos + word_len + context
    } else {
        text.len() as int
    };
    let prefix = if start > 0 {
        "..."@
    } else {
        Seq::<char>::empty()
    };
    let suffix = if end < text.len() {
        "..."@
    } else {
        Seq::<char>::empty()
    };
    prefix + spec_clean(text.subrange(start, end)) + suffix
}

/// Cuts the snippet window around a match out of the text.
pub fn extract_snippet_around_position(
    text: &str,
    pos: usize,
    word_len: usize,
    max_length: usize,
) -> (r: String)
    requires
        pos + word_len <= text@.len(),
    ensures
        r@ == spec_around(text@, pos as int, word_len as int, max_length as int),
{
    let chars = chars_vec(text);
    let n = chars.len();
    let context: usize = if word_len <= max_length {
        (max_length - word_len) / 2
    } else {
        0
    };
    let start: usize = if pos > context {
        pos - context
    } else {
        0
    };
    let rem: usize = n - (pos + word_len);
    let end: usize = if context < rem {
        pos + word_len + context
    } else {
        n
    };
    let mut window: Vec<char> = Vec::new();
    let mut k = start;
    proof {
        assert(window@ =~= chars@.subrange(start as int, start as int));
    }
    while k < end
        invariant
            start <= k <= end <= n == chars@.len(),
            window@ == chars@.subrange(start as int, k as int),
        decreases end - k,
    {
        window.push(chars[k]);
        proof {
            assert(chars@.subrange(start as int, k + 1) =~= chars@.subrange(
                start as int,
                k as int,
            ).push(chars@[k as int]));
        }
        k = k + 1;
    }
    let window_str = string_from_chars(&window);
    let cleaned = clean_snippet(window_str.as_str());
    let prefix = if start > 0 {
        String::from_str("...")
    } else {
        String::new()
    };
    let r = prefix.concat(cleaned.as_str());
    let r = if end < n {
        r.concat("...")
    } else {
        r
    };
    proof {
        if !(start > 0) {
            assert(Seq::<char>::empty() + spec_clean(chars@.subrange(start as int, end as int))
                =~= spec_clean(chars@.subrange(start as int, end as int)));
        }
        if !(end < n) {
            assert(r@ =~= spec_around(text@, pos as int, word_len as int, max_length as int));
        }
    }
    r
}

/// The snippet for a query: the cleaned window around the earliest match of
/// any query word, compared without regard to ASCII case, with ellipses for
/// the cut ends; when the query has no searchable word, the text is empty,
/// or nothing matches, the head of the text, trimmed and shortened to
/// `max_length` characters.
pub open spec fn spec_extract_snippet(text: Seq<char>, query: Seq<char>, max_length: int) -> Seq<
    char,
> {
    let words = spec_query_words(query);
    if words.len() == 0 || text.len() == 0 {
        spec_truncate(text, max_length)
    } else {
        match spec_best_match(text, words) {
            Some(c) => spec_around(text, c.0, c.1, max_length),
            None => spec_truncate(text, max_length),
        }
    }
}

/// Extracts a snippet of about `max_length` characters around the first
/// place where the text matches a word of the query.
pub fn extract_snippet(text: &str, query: &str, max_length: usize) -> (r: String)
    ensures
        r@ == spec_extract_snippet(text@, query@, max_length as int),
{
    let words = query_words(query);
    if words.len() == 0 || text.unicode_len() == 0 {
        return truncate_text(text, max_length);
    }
    match find_best_match_position(text, &words) {
        Some((pos, word_len)) => extract_snippet_around_position(text, pos, word_len, max_length),
        None => truncate_text(text, max_length),
    }
}

} // verus!
