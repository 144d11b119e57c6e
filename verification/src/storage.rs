//! Per-index metadata and its on-disk framing.
//!
//! Each index lives in `<root>/<name>/` with a `meta.json` file, an `index/`
//! directory for the inverted index, and a `file_index_snapshot.bin` blob.
//! The metadata file is a small JSON object with the three fields of
//! [`IndexStorageMetadata`]; this module emits and parses that framing
//! itself, character-exactly, so that the storage layer outside the library
//! only moves whole files.

use vstd::prelude::*;

verus! {

use crate::text::{push_char, chars_vec, string_from_chars};

broadcast use vstd::utf8::char_u32_cast;

/// What is known of one index: its name, where it lives, and the directory
/// it indexes.
pub struct IndexStorageMetadata {
    pub index_name: String,
    pub index_path: String,
    pub target_path: String,
}

/// The mathematical value of a metadata record.
pub struct MetaView {
    pub index_name: Seq<char>,
    pub index_path: Seq<char>,
    pub target_path: Seq<char>,
}

impl View for IndexStorageMetadata {
    type V = MetaView;

    open spec fn view(&self) -> MetaView {
        MetaView {
            index_name: self.index_name@,
            index_path: self.index_path@,
            target_path: self.target_path@,
        }
    }
}

/// The views of a list of metadata records.
pub open spec fn meta_views(s: Seq<IndexStorageMetadata>) -> Seq<MetaView> {
    s.map_values(|m: IndexStorageMetadata| m@)
}

/// The lowercase hexadecimal digit for a value below sixteen.
pub open spec fn hex_digit(d: nat) -> char
    recommends
        d < 16,
{
    if d < 10 {
        ((d + 0x30) as u8) as char
    } else {
        ((d - 10 + 0x61) as u8) as char
    }
}

/// The canonical JSON escape of one character: the two-character escapes
/// for quote, backslash and the common control characters, `\u00XX` for the
/// remaining control characters, and the character itself otherwise.
pub open spec fn esc_char(c: char) -> Seq<char> {
    if c == '"' {
        seq!['\\', '"']
    } else if c == '\\' {
        seq!['\\', '\\']
    } else if c == '\u{8}' {
        seq!['\\', 'b']
    } else if c == '\t' {
        seq!['\\', 't']
    } else if c == '\n' {
        seq!['\\', 'n']
    } else if c == '\u{c}' {
        seq!['\\', 'f']
    } else if c == '\r' {
        seq!['\\', 'r']
    } else if (c as u32) < 0x20 {
        seq!['\\', 'u', '0', '0', hex_digit((c as u32 / 16) as nat), hex_digit(
            (c as u32 % 16) as nat,
        )]
    } else {
        seq![c]
    }
}

/// The canonical JSON escape of a string body.
pub open spec fn json_escape(s: Seq<char>) -> Seq<char>
    decreases s.len(),
{
    if s.len() == 0 {
        Seq::empty()
    } else {
        json_escape(s.drop_last()) + esc_char(s.last())
    }
}

/// The canonical `meta.json` text for a metadata record.
pub open spec fn meta_json(m: MetaView) -> Seq<char> {
    "{\"index_name\":\""@ + json_escape(m.index_name) + "\",\"index_path\":\""@ + json_escape(
        m.index_path,
    ) + "\",\"target_path\":\""@ + json_escape(m.target_path) + "\"}"@
}

/// The canonical JSON escape of one character, as characters.
fn esc_char_exec(c: char) -> (r: Vec<char>)
    ensures
        r@ == esc_char(c),
{
    let u = c as u32;
    let mut r: Vec<char> = Vec::new();
    proof {
        assert('\u{8}' as u32 == 0x08 && '\t' as u32 == 0x09 && '\n' as u32 == 0x0a
            && '\u{c}' as u32 == 0x0c && '\r' as u32 == 0x0d);
    }
    if c == '"' {
        r.push('\\');
        r.push('"');
        proof {
            assert(r@ =~= esc_char(c));
        }
    } else if c == '\\' {
        r.push('\\');
        r.push('\\');
        proof {
            assert(r@ =~= esc_char(c));
        }
    } else if u == 0x08 {
        r.push('\\');
        r.push('b');
        proof {
            assert(r@ =~= esc_char(c));
        }
    } else if u == 0x09 {
        r.push('\\');
        r.push('t');
        proof {
            assert(r@ =~= esc_char(c));
        }
    } else if u == 0x0a {
        r.push('\\');
        r.push('n');
        proof {
            assert(r@ =~= esc_char(c));
        }
    } else if u == 0x0c {
        r.push('\\');
        r.push('f');
        proof {
            assert(r@ =~= esc_char(c));
        }
    } else if u == 0x0d {
        r.push('\\');
        r.push('r');
        proof {
            assert(r@ =~= esc_char(c));
        }
    } else if u < 0x20 {
        r.push('\\');
        r.push('u');
        r.push('0');
        r.push('0');
        let hi = u / 16;
        let lo = u % 16;
        let hic = if hi < 10 {
            ((hi as u8) + 0x30) as char
        } else {
            ((hi as u8) - 10 + 0x61) as char
        };
        let loc = if lo < 10 {
            ((lo as u8) + 0x30) as char
        } else {
            ((lo as u8) - 10 + 0x61) as char
        };
        r.push(hic);
        r.push(loc);
        proof {
            assert(r@ =~= esc_char(c));
        }
    } else {
        r.push(c);
        proof {
            assert(r@ =~= esc_char(c));
        }
    }
    r
}

/// Appends the canonical JSON escape of `s`.
fn push_escaped(out: &mut String, s: &str)
    ensures
        final(out)@ == old(out)@ + json_escape(s@),
{
    let chars = chars_vec(s);
    let mut i: usize = 0;
    proof {
        assert(out@ + json_escape(chars@.subrange(0, 0)) =~= out@);
    }
    while i < chars.len()
        invariant
            chars@ == s@,
            i <= chars@.len(),
            out@ == old(out)@ + json_escape(chars@.subrange(0, i as int)),
        decreases chars@.len() - i,
    {
        let esc = esc_char_exec(chars[i]);
        let ghost pre = out@;
        let mut k: usize = 0;
        while k < esc.len()
            invariant
                k <= esc@.len(),
                out@ == pre + esc@.subrange(0, k as int),
            decreases esc@.len() - k,
        {
            push_char(out, esc[k]);
            proof {
                assert(esc@.subrange(0, k + 1) =~= esc@.subrange(0, k as int).push(
                    esc@[k as int],
                ));
                assert(out@ =~= pre + esc@.subrange(0, k + 1));
            }
            k = k + 1;
        }
        proof {
            let sub = chars@.subrange(0, i + 1);
            assert(sub.drop_last() =~= chars@.subrange(0, i as int));
            assert(sub.last() == chars@[i as int]);
            assert(esc@.subrange(0, esc@.len() as int) =~= esc@);
            assert(out@ =~= old(out)@ + json_escape(sub));
        }
        i = i + 1;
    }
    proof {
        assert(chars@.subrange(0, chars@.len() as int) =~= chars@);
    }
}

impl IndexStorageMetadata {
    /// Renders the record as its canonical `meta.json` text.
    pub fn to_json(&self) -> (r: String)
        ensures
            r@ == meta_json(self@),
    {
        let mut out = String::from_str("{\"index_name\":\"");
        push_escaped(&mut out, self.index_name.as_str());
        let mut out2 = out.concat("\",\"index_path\":\"");
        push_escaped(&mut out2, self.index_path.as_str());
        let mut out3 = out2.concat("\",\"target_path\":\"");
        push_escaped(&mut out3, self.target_path.as_str());
        let out4 = out3.concat("\"}");
        proof {
            assert(out4@ =~= meta_json(self@));
        }
        out4
    }
}

/// The value of a lowercase hexadecimal digit, or 16 when the character is
/// not one.
pub open spec fn hex_val(c: char) -> nat {
    if 0x30 <= c as u32 && c as u32 <= 0x39 {
        (c as u32 - 0x30) as nat
    } else if 0x61 <= c as u32 && c as u32 <= 0x66 {
        (c as u32 - 0x61 + 10) as nat
    } else {
        16
    }
}

/// Whether a control character has a two-character shorthand escape.
pub open spec fn has_short_escape(c: char) -> bool {
    c as u32 == 0x08 || c as u32 == 0x09 || c as u32 == 0x0a || c as u32 == 0x0c || c as u32
        == 0x0d
}

/// Parses one string body from position `i` up to its closing quote,
/// accepting exactly the canonical escapes that [`json_escape`] emits, and
/// returning the decoded characters and the position after the quote.
pub open spec fn parse_string_body(s: Seq<char>, i: int) -> Option<(Seq<char>, int)>
    decreases s.len() - i,
    when 0 <= i <= s.len()
{
    if i >= s.len() {
        None
    } else if s[i] == '"' {
        Some((Seq::empty(), i + 1))
    } else if s[i] == '\\' {
        if i + 1 >= s.len() {
            None
        } else {
            let e = s[i + 1];
            if e == '"' || e == '\\' || e == 'b' || e == 't' || e == 'n' || e == 'f' || e == 'r' {
                let c = if e == '"' {
                    '"'
                } else if e == '\\' {
                    '\\'
                } else if e == 'b' {
                    '\u{8}'
                } else if e == 't' {
                    '\t'
                } else if e == 'n' {
                    '\n'
                } else if e == 'f' {
                    '\u{c}'
                } else {
                    '\r'
                };
                match parse_string_body(s, i + 2) {
                    None => None,
                    Some((rest, j)) => Some((seq![c] + rest, j)),
                }
            } else if e == 'u' {
                if i + 6 > s.len() || s[i + 2] != '0' || s[i + 3] != '0' || hex_val(s[i + 4]) >= 16
                    || hex_val(s[i + 5]) >= 16 {
                    None
                } else {
                    let v = hex_val(s[i + 4]) * 16 + hex_val(s[i + 5]);
                    if v >= 0x20 || has_short_escape(((v as u8) as char)) {
                        None
                    } else {
                        match parse_string_body(s, i + 6) {
                            None => None,
                            Some((rest, j)) => Some((seq![(v as u8) as char] + rest, j)),
                        }
                    }
                }
            } else {
                None
            }
        }
    } else if (s[i] as u32) < 0x20 {
        None
    } else {
        match parse_string_body(s, i + 1) {
            None => None,
            Some((rest, j)) => Some((seq![s[i]] + rest, j)),
        }
    }
}

/// Whether `lit` occurs at position `i` of `s`; on success the position
/// after it.
pub open spec fn expect_lit(s: Seq<char>, i: int, lit: Seq<char>) -> Option<int> {
    if 0 <= i && i + lit.len() <= s.len() && s.subrange(i, i + lit.len()) == lit {
        Some(i + lit.len())
    } else {
        None
    }
}

/// The metadata a canonical `meta.json` text holds, when the whole text is
/// exactly such a framing.
pub open spec fn spec_parse_meta(s: Seq<char>) -> Option<MetaView> {
    match expect_lit(s, 0, "{\"index_name\":\""@) {
        None => None,
        Some(i1) => match parse_string_body(s, i1) {
            None => None,
            Some((name, i2)) => match expect_lit(s, i2, ",\"index_path\":\""@) {
                None => None,
                Some(i3) => match parse_string_body(s, i3) {
                    None => None,
                    Some((ipath, i4)) => match expect_lit(s, i4, ",\"target_path\":\""@) {
                        None => None,
                        Some(i5) => match parse_string_body(s, i5) {
                            None => None,
                            Some((tpath, i6)) => {
                                if i6 + 1 == s.len() && s[i6] == '}' {
                                    Some(
                                        MetaView {
                                            index_name: name,
                                            index_path: ipath,
                                            target_path: tpath,
                                        },
                                    )
                                } else {
                                    None
                                }
                            },
                        },
                    },
                },
            },
        },
    }
}


/// The value of a lowercase hexadecimal digit character.
fn hex_val_exec(c: char) -> (r: u32)
    ensures
        r as nat == hex_val(c),
{
    let u = c as u32;
    if 0x30 <= u && u <= 0x39 {
        u - 0x30
    } else if 0x61 <= u && u <= 0x66 {
        u - 0x61 + 10
    } else {
        16
    }
}

/// Checks that `lit` occurs at position `i` of `chars`.
fn expect_lit_exec(chars: &Vec<char>, i: usize, lit: &str) -> (r: Option<usize>)
    requires
        i <= chars@.len(),
    ensures
        match r {
            Some(j) => expect_lit(chars@, i as int, lit@) == Some(j as int) && i <= j
                <= chars@.len(),
            None => expect_lit(chars@, i as int, lit@) is None,
        },
{
    let lits = chars_vec(lit);
    let m = lits.len();
    let n = chars.len();
    if n - i < m {
        return None;
    }
    let mut k: usize = 0;
    while k < m
        invariant
            lits@ == lit@,
            m == lits@.len(),
            i + m <= chars@.len(),
            chars@.len() <= usize::MAX,
            k <= m,
            chars@.subrange(i as int, i + k) == lits@.subrange(0, k as int),
        decreases m - k,
    {
        if chars[i + k] != lits[k] {
            proof {
                if chars@.subrange(i as int, i + m as int) == lit@ {
                    assert(chars@.subrange(i as int, i + m as int)[k as int] == chars@[i + k]);
                }
            }
            return None;
        }
        proof {
            assert(chars@.subrange(i as int, i + k + 1) =~= chars@.subrange(i as int, i + k).push(
                chars@[i + k],
            ));
            assert(lits@.subrange(0, k + 1) =~= lits@.subrange(0, k as int).push(
                lits@[k as int],
            ));
        }
        k = k + 1;
    }
    proof {
        assert(lits@.subrange(0, m as int) =~= lit@);
    }
    Some(i + m)
}

/// Parses one canonical string body up to its closing quote.
fn parse_string_exec(chars: &Vec<char>, start: usize) -> (r: Option<(Vec<char>, usize)>)
    requires
        start <= chars@.len(),
    ensures
        match r {
            Some(p) => parse_string_body(chars@, start as int) == Some((p.0@, p.1 as int))
                && p.1 <= chars@.len(),
            None => parse_string_body(chars@, start as int) is None,
        },
{
    let n = chars.len();
    let mut acc: Vec<char> = Vec::new();
    let mut i = start;
    loop
        invariant
            start <= i <= n == chars@.len(),
            parse_string_body(chars@, start as int) == match parse_string_body(
                chars@,
                i as int,
            ) {
                None => None::<(Seq<char>, int)>,
                Some(p) => Some((acc@ + p.0, p.1)),
            },
        decreases n - i,
    {
        if i >= n {
            return None;
        }
        let c = chars[i];
        if c == '"' {
            proof {
                assert(acc@ + Seq::<char>::empty() =~= acc@);
            }
            return Some((acc, i + 1));
        }
        if c == '\\' {
            if i + 1 >= n {
                return None;
            }
            let e = chars[i + 1];
            if e == '"' || e == '\\' || e == 'b' || e == 't' || e == 'n' || e == 'f' || e == 'r' {
                let c2 = if e == '"' {
                    '"'
                } else if e == '\\' {
                    '\\'
                } else if e == 'b' {
                    '\u{8}'
                } else if e == 't' {
                    '\t'
                } else if e == 'n' {
                    '\n'
                } else if e == 'f' {
                    '\u{c}'
                } else {
                    '\r'
                };
                let ghost old_acc = acc@;
                acc.push(c2);
                proof {
                    let tail = parse_string_body(chars@, i + 2);
                    match tail {
                        Some(p) => {
                            assert(old_acc + (seq![c2] + p.0) =~= acc@ + p.0);
                        },
                        None => {},
                    }
                }
                i = i + 2;
            } else if e == 'u' {
                if n - i < 6 || chars[i + 2] != '0' || chars[i + 3] != '0' {
                    return None;
                }
                let h1 = hex_val_exec(chars[i + 4]);
                let h2 = hex_val_exec(chars[i + 5]);
                if h1 >= 16 || h2 >= 16 {
                    return None;
                }
                let v = h1 * 16 + h2;
                let c2 = (v as u8) as char;
                proof {
                    assert((c2 as u32) == v) by {
                        assert(v < 0x100);
                    }
                }
                if v >= 0x20 {
                    return None;
                }
                if v == 0x08 || v == 0x09 || v == 0x0a || v == 0x0c || v == 0x0d {
                    proof {
                        assert(has_short_escape(c2));
                    }
                    return None;
                }
                let ghost old_acc = acc@;
                acc.push(c2);
                proof {
                    assert(!has_short_escape(c2));
                    let tail = parse_string_body(chars@, i + 6);
                    match tail {
                        Some(p) => {
                            assert(old_acc + (seq![c2] + p.0) =~= acc@ + p.0);
                        },
                        None => {},
                    }
                }
                i = i + 6;
            } else {
                return None;
            }
        } else {
            let u = c as u32;
            if u < 0x20 {
                return None;
            }
            let ghost old_acc = acc@;
            acc.push(c);
            proof {
                let tail = parse_string_body(chars@, i + 1);
                match tail {
                    Some(p) => {
                        assert(old_acc + (seq![c] + p.0) =~= acc@ + p.0);
                    },
                    None => {},
                }
            }
            i = i + 1;
        }
    }
}

/// Parses a canonical `meta.json` text; anything else is rejected.
pub fn parse_meta(s: &str) -> (r: Option<IndexStorageMetadata>)
    ensures
        match r {
            Some(m) => spec_parse_meta(s@) == Some(m@),
            None => spec_parse_meta(s@) is None,
        },
{
    let chars = chars_vec(s);
    let i1 = match expect_lit_exec(&chars, 0, "{\"index_name\":\"") {
        None => {
            return None;
        },
        Some(j) => j,
    };
    let (name, i2) = match parse_string_exec(&chars, i1) {
        None => {
            return None;
        },
        Some(p) => p,
    };
    let i3 = match expect_lit_exec(&chars, i2, ",\"index_path\":\"") {
        None => {
            return None;
        },
        Some(j) => j,
    };
    let (ipath, i4) = match parse_string_exec(&chars, i3) {
        None => {
            return None;
        },
        Some(p) => p,
    };
    let i5 = match expect_lit_exec(&chars, i4, ",\"target_path\":\"") {
        None => {
            return None;
        },
        Some(j) => j,
    };
    let (tpath, i6) = match parse_string_exec(&chars, i5) {
        None => {
            return None;
        },
        Some(p) => p,
    };
    if !(i6 < chars.len() && chars[i6] == '}' && i6 + 1 == chars.len()) {
        return None;
    }
    Some(
        IndexStorageMetadata {
            index_name: string_from_chars(&name),
            index_path: string_from_chars(&ipath),
            target_path: string_from_chars(&tpath),
        },
    )
}


/// Lexicographic order on character sequences, by Unicode scalar value:
/// the order index names are listed in.
pub open spec fn lex_le(x: Seq<char>, y: Seq<char>) -> bool
    decreases x.len(),
{
    if x.len() == 0 {
        true
    } else if y.len() == 0 {
        false
    } else if (x[0] as u32) < (y[0] as u32) {
        true
    } else if (x[0] as u32) > (y[0] as u32) {
        false
    } else {
        lex_le(x.drop_first(), y.drop_first())
    }
}

/// The order is total.
pub proof fn lemma_lex_le_total(x: Seq<char>, y: Seq<char>)
    ensures
        lex_le(x, y) || lex_le(y, x),
    decreases x.len(),
{
    if x.len() > 0 && y.len() > 0 && (x[0] as u32) == (y[0] as u32) {
        lemma_lex_le_total(x.drop_first(), y.drop_first());
    }
}

/// The order is transitive.
pub proof fn lemma_lex_le_trans(x: Seq<char>, y: Seq<char>, z: Seq<char>)
    requires
        lex_le(x, y),
        lex_le(y, z),
    ensures
        lex_le(x, z),
    decreases x.len(),
{
    if x.len() > 0 && y.len() > 0 && z.len() > 0 && (x[0] as u32) == (y[0] as u32) && (
    y[0] as u32) == (z[0] as u32) {
        lemma_lex_le_trans(x.drop_first(), y.drop_first(), z.drop_first());
    }
}

/// Whether a listing is ordered by index name.
pub open spec fn sorted_by_name(ms: Seq<MetaView>) -> bool {
    forall|i: int, j: int|
        0 <= i < j < ms.len() ==> lex_le(#[trigger] ms[i].index_name, #[trigger] ms[j].index_name)
}

/// Compares two strings in the listing order.
fn lex_le_exec(a: &String, b: &String) -> (r: bool)
    ensures
        r == lex_le(a@, b@),
{
    let x = chars_vec(a.as_str());
    let y = chars_vec(b.as_str());
    let mut i: usize = 0;
    proof {
        assert(x@.skip(0) =~= x@);
        assert(y@.skip(0) =~= y@);
    }
    while i < x.len() && i < y.len()
        invariant
            x@ == a@,
            y@ == b@,
            i <= x@.len(),
            i <= y@.len(),
            lex_le(a@, b@) == lex_le(x@.skip(i as int), y@.skip(i as int)),
        decreases x@.len() - i,
    {
        let cx = x[i] as u32;
        let cy = y[i] as u32;
        proof {
            assert(x@.skip(i as int)[0] == x@[i as int]);
            assert(y@.skip(i as int)[0] == y@[i as int]);
            assert(x@.skip(i as int).drop_first() =~= x@.skip(i + 1));
            assert(y@.skip(i as int).drop_first() =~= y@.skip(i + 1));
        }
        if cx < cy {
            return true;
        }
        if cx > cy {
            return false;
        }
        i = i + 1;
    }
    proof {
        if i >= x@.len() {
            assert(x@.skip(i as int) =~= Seq::<char>::empty());
        } else {
            assert(y@.skip(i as int) =~= Seq::<char>::empty());
            assert(x@.skip(i as int).len() > 0);
        }
    }
    i >= x.len()
}

impl IndexStorageMetadata {
    /// A record with the same name and paths.
    pub fn duplicate(&self) -> (r: Self)
        ensures
            r@ == self@,
    {
        IndexStorageMetadata {
            index_name: self.index_name.clone(),
            index_path: self.index_path.clone(),
            target_path: self.target_path.clone(),
        }
    }
}

/// Sorts a listing by index name, ascending.  The result holds exactly the
/// given records; with distinct names the order is strict.
pub fn sort_by_index_name(items: Vec<IndexStorageMetadata>) -> (r: Vec<IndexStorageMetadata>)
    ensures
        sorted_by_name(meta_views(r@)),
        meta_views(r@).to_multiset() == meta_views(items@).to_multiset(),
{
    broadcast use vstd::seq_lib::to_multiset_insert, vstd::seq_lib::to_multiset_build;

    let mut out: Vec<IndexStorageMetadata> = Vec::new();
    let mut i: usize = 0;
    proof {
        assert(meta_views(out@) =~~= Seq::<MetaView>::empty());
        assert(meta_views(items@.subrange(0, 0)) =~~= Seq::<MetaView>::empty());
        assert(Seq::<MetaView>::empty().to_multiset() =~~= Seq::<
            MetaView,
        >::empty().to_multiset());
    }
    while i < items.len()
        invariant
            i <= items@.len(),
            sorted_by_name(meta_views(out@)),
            meta_views(out@).to_multiset() == meta_views(items@.subrange(0, i as int)).to_multiset(),
        decreases items@.len() - i,
    {
        let item = items[i].duplicate();
        let mut pos: usize = 0;
        while pos < out.len() && lex_le_exec(&out[pos].index_name, &item.index_name)
            invariant
                pos <= out@.len(),
                item@ == items@[i as int]@,
                forall|k: int| 0 <= k < pos ==> lex_le(
                    (#[trigger] meta_views(out@)[k]).index_name,
                    item@.index_name,
                ),
            decreases out@.len() - pos,
        {
            pos = pos + 1;
        }
        let ghost gi = item@;
        let ghost old_m = meta_views(out@);
        proof {
            if pos < out@.len() {
                lemma_lex_le_total(old_m[pos as int].index_name, gi.index_name);
            }
        }
        let ghost old_out = out@;
        let ghost gfull = item;
        out.insert(pos, item);
        proof {
            assert(out@ == old_out.insert(pos as int, gfull));
            old_out.insert_ensures(pos as int, gfull);
            old_m.insert_ensures(pos as int, gi);
            assert(gfull@ == gi);
            let m = meta_views(out@);
            assert forall|k: int| 0 <= k < m.len() implies #[trigger] m[k] == old_m.insert(
                pos as int,
                gi,
            )[k] by {
                if k < pos {
                    assert(out@[k] == old_out[k]);
                } else if k == pos {
                } else {
                    assert(out@[k] == old_out[k - 1]);
                }
            }
            assert(m =~~= old_m.insert(pos as int, gi));
            vstd::seq_lib::to_multiset_insert(old_m, pos as int, gi);
            assert(gi == items@[i as int]@);
            let sub = items@.subrange(0, i + 1);
            assert(meta_views(sub) =~~= meta_views(items@.subrange(0, i as int)).push(gi));
            vstd::seq_lib::to_multiset_build(meta_views(items@.subrange(0, i as int)), gi);
            assert(sorted_by_name(m)) by {
                assert forall|a: int, b: int| 0 <= a < b < m.len() implies lex_le(
                    (#[trigger] m[a]).index_name,
                    (#[trigger] m[b]).index_name,
                ) by {
                    if b < pos {
                    } else if a < pos && b == pos {
                    } else if a < pos && b > pos {
                        assert(m[a] == old_m[a]);
                        assert(m[b] == old_m[b - 1]);
                    } else if a == pos {
                        assert(m[b] == old_m[b - 1]);
                        assert(lex_le(gi.index_name, old_m[pos as int].index_name));
                        if b - 1 > pos {
                            assert(lex_le(
                                old_m[pos as int].index_name,
                                old_m[b - 1].index_name,
                            ));
                            lemma_lex_le_trans(
                                gi.index_name,
                                old_m[pos as int].index_name,
                                old_m[b - 1].index_name,
                            );
                        }
                    } else {
                        assert(m[a] == old_m[a - 1]);
                        assert(m[b] == old_m[b - 1]);
                    }
                }
            }
        }
        i = i + 1;
    }
    proof {
        assert(items@.subrange(0, items@.len() as int) =~= items@);
    }
    out
}

/// Law: a listing that is sorted by name and has pairwise distinct names is
/// strictly ordered: every earlier entry's name comes strictly before every
/// later one's.
pub proof fn lemma_sorted_strictly(ms: Seq<MetaView>, i: int, j: int)
    requires
        sorted_by_name(ms),
        forall|a: int, b: int|
            0 <= a < b < ms.len() ==> (#[trigger] ms[a]).index_name != (#[trigger]
            ms[b]).index_name,
        0 <= i < j < ms.len(),
    ensures
        lex_le(ms[i].index_name, ms[j].index_name),
        ms[i].index_name != ms[j].index_name,
{
}

/// The first record of a listing with the given name.
pub fn find_metadata(items: &Vec<IndexStorageMetadata>, index_name: &String) -> (r: Option<
    IndexStorageMetadata,
>)
    ensures
        match r {
            Some(m) => exists|k: int|
                0 <= k < items@.len() && meta_views(items@)[k] == m@ && m@.index_name
                    == index_name@,
            None => forall|k: int|
                0 <= k < items@.len() ==> (#[trigger] meta_views(items@)[k]).index_name
                    != index_name@,
        },
{
    let mut k: usize = 0;
    while k < items.len()
        invariant
            k <= items@.len(),
            forall|j: int| 0 <= j < k ==> (#[trigger] meta_views(items@)[j]).index_name
                != index_name@,
        decreases items@.len() - k,
    {
        if items[k].index_name.eq(index_name) {
            let m = items[k].duplicate();
            proof {
                assert(meta_views(items@)[k as int] == m@);
            }
            return Some(m);
        }
        k = k + 1;
    }
    None
}

/// The filesystem storage root: every index lives in a directory of its own
/// under it.
pub struct FsStorage {
    pub root: String,
}

impl FsStorage {
    /// A storage over the given root directory.
    pub fn new(root: String) -> (r: Self)
        ensures
            r.root@ == root@,
    {
        FsStorage { root }
    }

    /// The root directory that holds every index.
    pub fn index_dir(&self) -> (r: String)
        ensures
            r@ == self.root@,
    {
        self.root.clone()
    }

    /// The directory of the named index.
    pub fn index_root_path(&self, index_name: &String) -> (r: String)
        ensures
            r@ == self.root@ + "/"@ + index_name@,
    {
        self.root.clone().concat("/").concat(index_name.as_str())
    }

    /// The `meta.json` path of the named index.
    pub fn meta_file_path(&self, index_name: &String) -> (r: String)
        ensures
            r@ == self.root@ + "/"@ + index_name@ + "/meta.json"@,
    {
        self.index_root_path(index_name).concat("/meta.json")
    }

    /// The inverted-index directory of the named index.
    pub fn inverted_index_path(&self, index_name: &String) -> (r: String)
        ensures
            r@ == self.root@ + "/"@ + index_name@ + "/index"@,
    {
        self.index_root_path(index_name).concat("/index")
    }

    /// The snapshot blob path under the given index directory.
    pub fn snapshot_file_path(index_path: &String) -> (r: String)
        ensures
            r@ == index_path@ + "/file_index_snapshot.bin"@,
    {
        index_path.clone().concat("/file_index_snapshot.bin")
    }
}


proof fn lemma_hex_digit_val(d: nat)
    requires
        d < 16,
    ensures
        hex_val(hex_digit(d)) == d,
{
    if d < 10 {
        assert((((d + 0x30) as u8) as char) as u32 == d + 0x30);
    } else {
        assert((((d - 10 + 0x61) as u8) as char) as u32 == d - 10 + 0x61);
    }
}

/// `json_escape` peeled from the front.
proof fn lemma_json_escape_front(w: Seq<char>)
    requires
        w.len() > 0,
    ensures
        json_escape(w) == esc_char(w[0]) + json_escape(w.drop_first()),
    decreases w.len(),
{
    if w.len() == 1 {
        assert(w.drop_last() =~= Seq::<char>::empty());
        assert(w.drop_first() =~= Seq::<char>::empty());
        assert(json_escape(w) =~= esc_char(w[0]) + json_escape(w.drop_first()));
    } else {
        lemma_json_escape_front(w.drop_last());
        assert(w.drop_last()[0] == w[0]);
        assert(w.drop_last().drop_first() =~= w.drop_first().drop_last());
        assert(w.drop_first().last() == w.last());
        assert((esc_char(w[0]) + json_escape(w.drop_first().drop_last())) + esc_char(w.last())
            =~= esc_char(w[0]) + json_escape(w.drop_first()));
    }
}

/// Parsing a canonically escaped string body recovers the characters.
proof fn lemma_parse_escaped(s: Seq<char>, i: int, w: Seq<char>, j: int)
    requires
        0 <= i,
        j == i + json_escape(w).len() + 1,
        j <= s.len(),
        s.subrange(i, j) == json_escape(w) + seq!['"'],
    ensures
        parse_string_body(s, i) == Some((w, j)),
    decreases w.len(),
{
    assert('\u{8}' as u32 == 0x08 && '\t' as u32 == 0x09 && '\n' as u32 == 0x0a && '\u{c}' as u32
        == 0x0c && '\r' as u32 == 0x0d && '"' as u32 == 0x22 && '\\' as u32 == 0x5c && 'b' as u32
        == 0x62 && 't' as u32 == 0x74 && 'n' as u32 == 0x6e && 'f' as u32 == 0x66 && 'r' as u32
        == 0x72 && 'u' as u32 == 0x75 && '0' as u32 == 0x30);
    let t = s.subrange(i, j);
    assert forall|k: int| 0 <= k < t.len() implies s[i + k] == #[trigger] t[k] by {
        assert(t[k] == s.subrange(i, j)[k]);
    }
    if w.len() == 0 {
        assert(json_escape(w).len() == 0);
        assert(s[i] == t[0]);
        assert(t[0] == '"');
    } else {
        lemma_json_escape_front(w);
        let c = w[0];
        let e = esc_char(c);
        let tail = json_escape(w.drop_first());
        assert(t =~= e + (tail + seq!['"']));
        assert forall|k: int| 0 <= k < e.len() implies s[i + k] == #[trigger] e[k] by {
            assert(t[k] == e[k]);
        }
        let i2 = i + e.len();
        assert(s.subrange(i2, j) =~= tail + seq!['"']) by {
            assert forall|k: int| 0 <= k < j - i2 implies #[trigger] s.subrange(i2, j)[k] == (tail
                + seq!['"'])[k] by {
                assert(s.subrange(i2, j)[k] == s[i2 + k]);
                assert(t[e.len() + k] == (e + (tail + seq!['"']))[e.len() + k]);
            }
        }
        lemma_parse_escaped(s, i2, w.drop_first(), j);
        assert(seq![c] + w.drop_first() =~= w);
        if c == '"' {
            assert(s[i] == '\\' && s[i + 1] == '"');
        } else if c == '\\' {
            assert(s[i] == '\\' && s[i + 1] == '\\');
        } else if c == '\u{8}' {
            assert(s[i] == '\\' && s[i + 1] == 'b');
        } else if c == '\t' {
            assert(s[i] == '\\' && s[i + 1] == 't');
        } else if c == '\n' {
            assert(s[i] == '\\' && s[i + 1] == 'n');
        } else if c == '\u{c}' {
            assert(s[i] == '\\' && s[i + 1] == 'f');
        } else if c == '\r' {
            assert(s[i] == '\\' && s[i + 1] == 'r');
        } else if (c as u32) < 0x20 {
            let hi = (c as u32 / 16) as nat;
            let lo = (c as u32 % 16) as nat;
            assert(s[i] == '\\' && s[i + 1] == 'u' && s[i + 2] == '0' && s[i + 3] == '0' && s[i
                + 4] == hex_digit(hi) && s[i + 5] == hex_digit(lo));
            lemma_hex_digit_val(hi);
            lemma_hex_digit_val(lo);
            assert(hex_val(s[i + 4]) * 16 + hex_val(s[i + 5]) == c as u32);
            vstd::utf8::char_u32_cast(c, c as u32);
            assert(((c as u32) as u8) as char == c);
            assert(!has_short_escape(c));
            assert(s[i + 4] != '"' && s[i + 5] != '"');
        } else {
            assert(s[i] == c);
            assert(c != '"' && c != '\\' && (c as u32) >= 0x20);
        }
    }
}

/// Law: parsing the canonical `meta.json` text of a record yields the
/// record back, whatever characters its fields hold.
#[verifier::rlimit(100)]
pub proof fn lemma_meta_json_round_trip(m: MetaView)
    ensures
        spec_parse_meta(meta_json(m)) == Some(m),
{
    reveal_strlit("{\"index_name\":\"");
    reveal_strlit("\",\"index_path\":\"");
    reveal_strlit(",\"index_path\":\"");
    reveal_strlit("\",\"target_path\":\"");
    reveal_strlit(",\"target_path\":\"");
    reveal_strlit("\"}");
    let l1 = "{\"index_name\":\""@;
    let l2 = ",\"index_path\":\""@;
    let l3 = ",\"target_path\":\""@;
    let e1 = json_escape(m.index_name);
    let e2 = json_escape(m.index_path);
    let e3 = json_escape(m.target_path);
    let s = meta_json(m);
    assert(s =~= l1 + (e1 + seq!['"']) + l2 + (e2 + seq!['"']) + l3 + (e3 + seq!['"'])
        + seq!['}']) by {
        assert("\",\"index_path\":\""@ =~= seq!['"'] + l2);
        assert("\",\"target_path\":\""@ =~= seq!['"'] + l3);
        assert("\"}"@ =~= seq!['"'] + seq!['}']);
    }
    let i1 = l1.len() as int;
    let i2 = i1 + e1.len() + 1;
    let i3 = i2 + l2.len();
    let i4 = i3 + e2.len() + 1;
    let i5 = i4 + l3.len();
    let i6 = i5 + e3.len() + 1;
    assert forall|k: int| 0 <= k < s.len() implies #[trigger] s[k] == (l1 + (e1 + seq!['"']) + l2
        + (e2 + seq!['"']) + l3 + (e3 + seq!['"']) + seq!['}'])[k] by {}

    assert(s.subrange(0, i1) =~= l1);
    assert(expect_lit(s, 0, l1) == Some(i1));
    assert(s.subrange(i1, i2) =~= e1 + seq!['"']);
    lemma_parse_escaped(s, i1, m.index_name, i2);
    assert(s.subrange(i2, i3) =~= l2);
    assert(expect_lit(s, i2, l2) == Some(i3));
    assert(s.subrange(i3, i4) =~= e2 + seq!['"']);
    lemma_parse_escaped(s, i3, m.index_path, i4);
    assert(s.subrange(i4, i5) =~= l3);
    assert(expect_lit(s, i4, l3) == Some(i5));
    assert(s.subrange(i5, i6) =~= e3 + seq!['"']);
    lemma_parse_escaped(s, i5, m.target_path, i6);
    assert(s[i6] == '}');
    assert(i6 + 1 == s.len());
    assert(MetaView {
        index_name: m.index_name,
        index_path: m.index_path,
        target_path: m.target_path,
    } == m);
}

} // verus!
