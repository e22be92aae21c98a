//! The parameter language that the filters read: entries separated by `,`,
//! `;` or a line break, each entry `key=value` or `key:value`, with braces,
//! double quotes and surrounding white space ignored and keys and values
//! compared without regard to ASCII case.
use vstd::prelude::*;

verus! {

/// `c` with ASCII upper-case letters turned into lower case; every other
/// character is kept (what `char::to_ascii_lowercase` does).
pub open spec fn ascii_lower(c: char) -> char {
    if 'A' <= c && c <= 'Z' {
        ((c as u32) + 32) as char
    } else {
        c
    }
}

/// `s` with every character passed through `ascii_lower`.
pub open spec fn lower(s: Seq<char>) -> Seq<char> {
    s.map_values(|c: char| ascii_lower(c))
}

/// The characters with the Unicode `White_Space` property, which is what
/// `char::is_whitespace` and `str::trim` go by.
pub open spec fn is_whitespace(c: char) -> bool {
    ||| c == ' '
    ||| ('\t' <= c && c <= '\r')
    ||| c == '\u{85}'
    ||| c == '\u{a0}'
    ||| c == '\u{1680}'
    ||| ('\u{2000}' <= c && c <= '\u{200a}')
    ||| c == '\u{2028}'
    ||| c == '\u{2029}'
    ||| c == '\u{202f}'
    ||| c == '\u{205f}'
    ||| c == '\u{3000}'
}

/// The raw parameter bytes, `None` standing for no parameter text at all.
pub open spec fn bytes_view(params: Option<&[u8]>) -> Option<Seq<u8>> {
    match params {
        Some(b) => Some(b@),
        None => None,
    }
}

/// The characters that separate entries.
pub open spec fn is_separator(c: char) -> bool {
    c == ',' || c == '\n' || c == ';'
}

/// What a trim removes from the ends of a text.
pub enum TrimPattern {
    Whitespace,
    Exactly(char),
}

pub open spec fn trim_matches(p: TrimPattern, c: char) -> bool {
    match p {
        TrimPattern::Whitespace => is_whitespace(c),
        TrimPattern::Exactly(d) => c == d,
    }
}

/// `s` without the characters matching `p` at its front.
pub open spec fn strip_leading(s: Seq<char>, p: TrimPattern) -> Seq<char>
    decreases s.len(),
{
    if s.len() > 0 && trim_matches(p, s[0]) {
        strip_leading(s.drop_first(), p)
    } else {
        s
    }
}

/// `s` without the characters matching `p` at its end.
pub open spec fn strip_trailing(s: Seq<char>, p: TrimPattern) -> Seq<char>
    decreases s.len(),
{
    if s.len() > 0 && trim_matches(p, s.last()) {
        strip_trailing(s.drop_last(), p)
    } else {
        s
    }
}

/// `s` without the characters matching `p` at either end (`str::trim` for
/// white space, `str::trim_matches` for a single character).
pub open spec fn trim(s: Seq<char>, p: TrimPattern) -> Seq<char> {
    strip_trailing(strip_leading(s, p), p)
}

/// `s` without any occurrence of `ch`.
pub open spec fn remove_char(s: Seq<char>, ch: char) -> Seq<char>
    decreases s.len(),
{
    if s.len() == 0 {
        s
    } else if s.last() == ch {
        remove_char(s.drop_last(), ch)
    } else {
        remove_char(s.drop_last(), ch).push(s.last())
    }
}

/// The pieces of `s` between separators, in order; a text with `k`
/// separators has `k + 1` pieces, some of which may be empty.
pub open spec fn split_pieces(s: Seq<char>) -> Seq<Seq<char>>
    decreases s.len(),
{
    if s.len() == 0 {
        seq![Seq::<char>::empty()]
    } else {
        let prev = split_pieces(s.drop_last());
        if is_separator(s.last()) {
            prev.push(Seq::<char>::empty())
        } else {
            prev.update(prev.len() - 1, prev.last().push(s.last()))
        }
    }
}

/// Position of the first `ch` in `s`, if there is one.
pub open spec fn index_of(s: Seq<char>, ch: char) -> Option<int>
    decreases s.len(),
{
    if s.len() == 0 {
        None
    } else {
        match index_of(s.drop_last(), ch) {
            Some(k) => Some(k),
            None => if s.last() == ch {
                Some(s.len() - 1)
            } else {
                None
            },
        }
    }
}

/// The text before and the text after the first `ch` in `s`.
pub open spec fn split_once(s: Seq<char>, ch: char) -> Option<(Seq<char>, Seq<char>)> {
    match index_of(s, ch) {
        Some(k) => Some((s.subrange(0, k), s.subrange(k + 1, s.len() as int))),
        None => None,
    }
}

/// An entry split at its first `=`, or, where it holds none, at its first
/// `:`.
pub open spec fn split_key_value(s: Seq<char>) -> Option<(Seq<char>, Seq<char>)> {
    match split_once(s, '=') {
        Some(kv) => Some(kv),
        None => split_once(s, ':'),
    }
}

/// A piece with surrounding white space and braces taken away, then all
/// double quotes removed (white space that stood between quotes stays).
pub open spec fn clean_piece(raw: Seq<char>) -> Seq<char> {
    remove_char(
        trim(
            trim(
                trim(trim(raw, TrimPattern::Whitespace), TrimPattern::Exactly('{')),
                TrimPattern::Exactly('}'),
            ),
            TrimPattern::Whitespace,
        ),
        '"',
    )
}

/// What a piece contributes: `None` for a piece that is empty once
/// cleaned, `Some(None)` for one without `=` or `:`, and otherwise the key
/// and the value, trimmed and in lower case.
pub open spec fn piece_entry(raw: Seq<char>) -> Option<Option<(Seq<char>, Seq<char>)>> {
    let cleaned = clean_piece(raw);
    if cleaned.len() == 0 {
        None
    } else {
        match split_key_value(cleaned) {
            Some(kv) => Some(
                Some(
                    (
                        lower(trim(kv.0, TrimPattern::Whitespace)),
                        lower(trim(kv.1, TrimPattern::Whitespace)),
                    ),
                ),
            ),
            None => Some(None),
        }
    }
}

/// The key/value pairs of the pieces, in order, skipping empty pieces and
/// pieces without `=` or `:`.
pub open spec fn pairs_of(pieces: Seq<Seq<char>>) -> Seq<(Seq<char>, Seq<char>)>
    decreases pieces.len(),
{
    if pieces.len() == 0 {
        Seq::empty()
    } else {
        let prev = pairs_of(pieces.drop_last());
        match piece_entry(pieces.last()) {
            Some(Some(kv)) => prev.push(kv),
            _ => prev,
        }
    }
}

/// Some non-empty piece has neither `=` nor `:`.
pub open spec fn has_malformed_piece(pieces: Seq<Seq<char>>) -> bool {
    exists|i: int| 0 <= i < pieces.len() && #[trigger] piece_entry(pieces[i]) == Some(
        None::<(Seq<char>, Seq<char>)>,
    )
}

/// The key/value pairs of `text`, in order.
pub open spec fn text_pairs(text: Seq<char>) -> Seq<(Seq<char>, Seq<char>)> {
    pairs_of(split_pieces(text))
}

/// `text` holds a non-empty entry with neither `=` nor `:`.
pub open spec fn text_has_malformed_entry(text: Seq<char>) -> bool {
    has_malformed_piece(split_pieces(text))
}

/// The characters with the Unicode `White_Space` property, listed one by
/// one.
pub open spec fn listed_white_space(c: char) -> bool {
    c == '\t' || c == '\n' || c == '\u{b}' || c == '\u{c}' || c == '\r' || c == ' ' || c
        == '\u{85}' || c == '\u{a0}' || c == '\u{1680}' || c == '\u{2000}' || c == '\u{2001}'
        || c == '\u{2002}' || c == '\u{2003}' || c == '\u{2004}' || c == '\u{2005}' || c
        == '\u{2006}' || c == '\u{2007}' || c == '\u{2008}' || c == '\u{2009}' || c == '\u{200a}'
        || c == '\u{2028}' || c == '\u{2029}' || c == '\u{202f}' || c == '\u{205f}' || c
        == '\u{3000}'
}

proof fn lemma_strip_leading_push(s: Seq<char>, c: char, p: TrimPattern)
    requires
        trim_matches(p, c),
    ensures
        strip_leading(s.push(c), p) == if strip_leading(s, p).len() > 0 {
            strip_leading(s, p).push(c)
        } else {
            Seq::<char>::empty()
        },
    decreases s.len(),
{
    if s.len() > 0 && trim_matches(p, s[0]) {
        assert(s.push(c).drop_first() =~= s.drop_first().push(c));
        lemma_strip_leading_push(s.drop_first(), c, p);
    } else if s.len() == 0 {
        assert(s.push(c).drop_first() =~= Seq::<char>::empty());
        assert(strip_leading(Seq::<char>::empty(), p) == Seq::<char>::empty());
    }
}

/// Trimming ignores a white-space character added at either end.
proof fn lemma_trim_ignores_outer_white_space(s: Seq<char>, c: char)
    requires
        is_whitespace(c),
    ensures
        trim(s.push(c), TrimPattern::Whitespace) == trim(s, TrimPattern::Whitespace),
        trim(seq![c] + s, TrimPattern::Whitespace) == trim(s, TrimPattern::Whitespace),
{
    let p = TrimPattern::Whitespace;
    lemma_strip_leading_push(s, c, p);
    let l = strip_leading(s, p);
    if l.len() > 0 {
        assert(l.push(c).drop_last() =~= l);
    } else {
        assert(strip_trailing(Seq::<char>::empty(), p) == Seq::<char>::empty());
        assert(strip_trailing(l, p) == Seq::<char>::empty());
    }
    assert((seq![c] + s).drop_first() =~= s);
}

/// Trimming takes nothing but white space: a text that neither starts nor
/// ends with a character of the Unicode `White_Space` property is left as
/// it is.
pub proof fn lemma_trim_keeps_text_without_outer_white_space(s: Seq<char>)
    requires
        s.len() > 0,
        !listed_white_space(s[0]),
        !listed_white_space(s.last()),
    ensures
        trim(s, TrimPattern::Whitespace) == s,
{
    assert(!is_whitespace(s[0]));
    assert(!is_whitespace(s.last()));
}

/// Every character with the Unicode `White_Space` property, carriage
/// return included, is trimmed away: an entry with such a character added
/// before or after it (a line that ends in `\r\n`, for one) gives the same
/// pair, or the same verdict, as the entry without it.
pub proof fn lemma_entry_ignores_outer_white_space(raw: Seq<char>, c: char)
    requires
        listed_white_space(c),
    ensures
        piece_entry(raw.push(c)) == piece_entry(raw),
        piece_entry(seq![c] + raw) == piece_entry(raw),
{
    assert(is_whitespace(c));
    lemma_trim_ignores_outer_white_space(raw, c);
}

/// The pieces, in order, without those that have neither `=` nor `:`.
pub open spec fn well_formed_pieces(pieces: Seq<Seq<char>>) -> Seq<Seq<char>>
    decreases pieces.len(),
{
    if pieces.len() == 0 {
        pieces
    } else {
        let prev = well_formed_pieces(pieces.drop_last());
        if piece_entry(pieces.last()) == Some(None::<(Seq<char>, Seq<char>)>) {
            prev
        } else {
            prev.push(pieces.last())
        }
    }
}

proof fn lemma_well_formed_pieces(pieces: Seq<Seq<char>>)
    ensures
        !has_malformed_piece(well_formed_pieces(pieces)),
        pairs_of(well_formed_pieces(pieces)) == pairs_of(pieces),
        !has_malformed_piece(pieces) ==> well_formed_pieces(pieces) == pieces,
    decreases pieces.len(),
{
    if pieces.len() > 0 {
        let init = pieces.drop_last();
        let x = pieces.last();
        lemma_well_formed_pieces(init);
        let prev = well_formed_pieces(init);
        if piece_entry(x) != Some(None::<(Seq<char>, Seq<char>)>) {
            let w = prev.push(x);
            assert(w.drop_last() =~= prev);
            assert forall|i: int| 0 <= i < w.len() implies #[trigger] piece_entry(w[i]) != Some(
                None::<(Seq<char>, Seq<char>)>,
            ) by {
                if i < prev.len() {
                    assert(w[i] == prev[i]);
                }
            }
        }
        if !has_malformed_piece(pieces) {
            assert forall|i: int| 0 <= i < init.len() implies #[trigger] piece_entry(init[i])
                != Some(None::<(Seq<char>, Seq<char>)>) by {
                assert(init[i] == pieces[i]);
            }
            assert(piece_entry(pieces[pieces.len() - 1]) != Some(
                None::<(Seq<char>, Seq<char>)>,
            ));
            assert(init.push(x) =~= pieces);
        }
    }
}

/// The two plugins' pair parsers agree: the mirror plugin's finds in any
/// text exactly the pairs of the text's well-formed pieces, which hold no
/// malformed entry and so pass the blur plugin's check; and a text that
/// the blur plugin's parser accepts is made of well-formed pieces only, so
/// there both give the same pairs.
pub proof fn lemma_pair_parsers_agree(text: Seq<char>)
    ensures
        !has_malformed_piece(well_formed_pieces(split_pieces(text))),
        pairs_of(well_formed_pieces(split_pieces(text))) == text_pairs(text),
        !text_has_malformed_entry(text) ==> well_formed_pieces(split_pieces(text)) == split_pieces(
            text,
        ),
{
    lemma_well_formed_pieces(split_pieces(text));
}

fn is_whitespace_char(c: char) -> (r: bool)
    ensures
        r == is_whitespace(c),
{
    c == ' ' || ('\t' <= c && c <= '\r') || c == '\u{85}' || c == '\u{a0}' || c == '\u{1680}' || (
    '\u{2000}' <= c && c <= '\u{200a}') || c == '\u{2028}' || c == '\u{2029}' || c == '\u{202f}'
        || c == '\u{205f}' || c == '\u{3000}'
}

fn pattern_matches(p: &TrimPattern, c: char) -> (r: bool)
    ensures
        r == trim_matches(*p, c),
{
    match p {
        TrimPattern::Whitespace => is_whitespace_char(c),
        TrimPattern::Exactly(d) => c == *d,
    }
}

fn ascii_lower_char(c: char) -> (r: char)
    ensures
        r == ascii_lower(c),
{
    if 'A' <= c && c <= 'Z' {
        ((c as u8) + 32) as char
    } else {
        c
    }
}

/// The characters of `text`, in order.
pub(crate) fn chars_of(text: &str) -> (r: Vec<char>)
    ensures
        r@ == text@,
{
    broadcast use vstd::string::axiom_spec_iter;

    let mut out: Vec<char> = Vec::new();
    for c in iter: text.chars()
        invariant
            out@ == iter.seq().take(iter.index() as int),
    {
        out.push(c);
    }
    out
}

fn copy_range(s: &Vec<char>, from: usize, to: usize) -> (r: Vec<char>)
    requires
        from <= to <= s@.len(),
    ensures
        r@ == s@.subrange(from as int, to as int),
{
    let mut out: Vec<char> = Vec::new();
    let mut k = from;
    while k < to
        invariant
            from <= k <= to <= s@.len(),
            out@ == s@.subrange(from as int, k as int),
        decreases to - k,
    {
        out.push(s[k]);
        proof {
            assert(out@ =~= s@.subrange(from as int, (k + 1) as int));
        }
        k = k + 1;
    }
    out
}

/// `s` without the characters matching `p` at either end.
fn trim_pattern(s: &Vec<char>, p: TrimPattern) -> (r: Vec<char>)
    ensures
        r@ == trim(s@, p),
{
    let len = s.len();
    let mut i: usize = 0;
    proof {
        assert(s@.subrange(0, len as int) =~= s@);
    }
    while i < len && pattern_matches(&p, s[i])
        invariant
            len == s@.len(),
            i <= len,
            strip_leading(s@, p) == strip_leading(s@.subrange(i as int, len as int), p),
        decreases len - i,
    {
        proof {
            assert(s@.subrange(i as int, len as int).drop_first() =~= s@.subrange(
                i + 1,
                len as int,
            ));
        }
        i = i + 1;
    }
    proof {
        assert(strip_leading(s@.subrange(i as int, len as int), p) == s@.subrange(
            i as int,
            len as int,
        ));
        assert(s@.subrange(i as int, len as int).subrange(0, (len - i) as int) =~= s@.subrange(
            i as int,
            len as int,
        ));
    }
    let mut j: usize = len;
    while j > i && pattern_matches(&p, s[j - 1])
        invariant
            len == s@.len(),
            i <= j <= len,
            strip_trailing(s@.subrange(i as int, len as int), p) == strip_trailing(
                s@.subrange(i as int, j as int),
                p,
            ),
        decreases j - i,
    {
        proof {
            assert(s@.subrange(i as int, j as int).drop_last() =~= s@.subrange(
                i as int,
                j - 1,
            ));
        }
        j = j - 1;
    }
    copy_range(s, i, j)
}

/// `s` without any occurrence of `ch`.
fn remove_all(s: &Vec<char>, ch: char) -> (r: Vec<char>)
    ensures
        r@ == remove_char(s@, ch),
{
    let mut out: Vec<char> = Vec::new();
    let len = s.len();
    let mut k: usize = 0;
    while k < len
        invariant
            len == s@.len(),
            k <= len,
            out@ == remove_char(s@.subrange(0, k as int), ch),
        decreases len - k,
    {
        proof {
            assert(s@.subrange(0, k + 1).drop_last() =~= s@.subrange(0, k as int));
        }
        if s[k] != ch {
            out.push(s[k]);
        }
        k = k + 1;
    }
    proof {
        assert(s@.subrange(0, len as int) =~= s@);
    }
    out
}

/// `s` in ASCII lower case.
fn lowercase(s: &Vec<char>) -> (r: Vec<char>)
    ensures
        r@ == lower(s@),
{
    let mut out: Vec<char> = Vec::new();
    let len = s.len();
    let mut k: usize = 0;
    while k < len
        invariant
            len == s@.len(),
            k <= len,
            out@ == lower(s@.subrange(0, k as int)),
        decreases len - k,
    {
        out.push(ascii_lower_char(s[k]));
        proof {
            assert(out@ =~= lower(s@.subrange(0, k + 1)));
        }
        k = k + 1;
    }
    proof {
        assert(s@.subrange(0, len as int) =~= s@);
    }
    out
}

/// Collects characters into a `String` through `FromIterator<char>`; the
/// string holds exactly those characters, in order.
#[verifier::external_body]
pub(crate) fn string_of(chars: &Vec<char>) -> (r: String)
    ensures
        r@ == chars@,
{
    chars.iter().collect()
}

/// The pairs as strings.
pub(crate) fn strings_of_pairs(pairs: &Vec<(Vec<char>, Vec<char>)>) -> (r: Vec<(String, String)>)
    ensures
        r.deep_view() == pairs.deep_view(),
{
    let mut out: Vec<(String, String)> = Vec::new();
    let mut k: usize = 0;
    while k < pairs.len()
        invariant
            k <= pairs.len(),
            out@.len() == k,
            out.deep_view() == pairs.deep_view().subrange(0, k as int),
        decreases pairs.len() - k,
    {
        let a = string_of(&pairs[k].0);
        let b = string_of(&pairs[k].1);
        proof {
            assert(pairs[k as int].0.deep_view() =~= pairs[k as int].0@);
            assert(pairs[k as int].1.deep_view() =~= pairs[k as int].1@);
        }
        let ghost prev = out@;
        let ghost prev_deep = out.deep_view();
        out.push((a, b));
        proof {
            assert forall|i: int| 0 <= i < k + 1 implies #[trigger] out.deep_view()[i]
                == pairs.deep_view()[i] by {
                if i < k {
                    assert(out@[i] == prev[i]);
                    assert(prev_deep[i] == prev[i].deep_view());
                    assert(prev_deep[i] == pairs.deep_view().subrange(0, k as int)[i]);
                    assert(out.deep_view()[i] == out@[i].deep_view());
                } else {
                    assert(out@[i] == (a, b));
                }
            }
            assert(out.deep_view() =~= pairs.deep_view().subrange(0, k + 1));
        }
        k = k + 1;
    }
    proof {
        assert(pairs.deep_view().subrange(0, pairs.len() as int) =~= pairs.deep_view());
    }
    out
}

/// Position of the first `ch` in `s`, if there is one.
fn find_char(s: &Vec<char>, ch: char) -> (r: Option<usize>)
    ensures
        match r {
            Some(k) => index_of(s@, ch) == Some(k as int),
            None => index_of(s@, ch) is None,
        },
{
    let len = s.len();
    let mut k: usize = 0;
    while k < len
        invariant
            len == s@.len(),
            k <= len,
            index_of(s@.subrange(0, k as int), ch) is None,
        decreases len - k,
    {
        proof {
            assert(s@.subrange(0, k + 1).drop_last() =~= s@.subrange(0, k as int));
        }
        if s[k] == ch {
            proof {
                lemma_index_of_prefix(s@, ch, k + 1);
            }
            return Some(k);
        }
        k = k + 1;
    }
    proof {
        assert(s@.subrange(0, len as int) =~= s@);
    }
    None
}

/// Once a prefix of `s` holds `ch`, the first `ch` of `s` is the first `ch`
/// of that prefix.
proof fn lemma_index_of_prefix(s: Seq<char>, ch: char, k: int)
    requires
        0 <= k <= s.len(),
        index_of(s.subrange(0, k), ch) is Some,
    ensures
        index_of(s, ch) == index_of(s.subrange(0, k), ch),
    decreases s.len() - k,
{
    if k < s.len() {
        assert(s.subrange(0, k + 1).drop_last() =~= s.subrange(0, k));
        lemma_index_of_prefix(s, ch, k + 1);
    } else {
        assert(s.subrange(0, k) =~= s);
    }
}

/// The text before and after the first `ch` in `s`.
fn split_at_char(s: &Vec<char>, ch: char) -> (r: Option<(Vec<char>, Vec<char>)>)
    ensures
        match r {
            Some((a, b)) => split_once(s@, ch) == Some((a@, b@)),
            None => split_once(s@, ch) is None,
        },
{
    let len = s.len();
    match find_char(s, ch) {
        Some(k) => {
            proof {
                lemma_index_of_bound(s@, ch);
                assert(k < s@.len());
            }
            let a = copy_range(s, 0, k);
            let b = copy_range(s, k + 1, len);
            Some((a, b))
        },
        None => None,
    }
}

proof fn lemma_index_of_bound(s: Seq<char>, ch: char)
    ensures
        index_of(s, ch) matches Some(k) ==> 0 <= k < s.len() && s[k] == ch,
    decreases s.len(),
{
    if s.len() > 0 {
        lemma_index_of_bound(s.drop_last(), ch);
    }
}

/// What one piece contributes (see `piece_entry`).
fn entry_of_piece(raw: &Vec<char>) -> (r: Option<Option<(Vec<char>, Vec<char>)>>)
    ensures
        match r {
            None => piece_entry(raw@) is None,
            Some(None) => piece_entry(raw@) == Some(None::<(Seq<char>, Seq<char>)>),
            Some(Some((k, v))) => piece_entry(raw@) == Some(Some((k@, v@))),
        },
{
    let t1 = trim_pattern(raw, TrimPattern::Whitespace);
    let t2 = trim_pattern(&t1, TrimPattern::Exactly('{'));
    let t3 = trim_pattern(&t2, TrimPattern::Exactly('}'));
    let t4 = trim_pattern(&t3, TrimPattern::Whitespace);
    let cleaned = remove_all(&t4, '"');
    if cleaned.len() == 0 {
        return None;
    }
    let kv = match split_at_char(&cleaned, '=') {
        Some(kv) => Some(kv),
        None => split_at_char(&cleaned, ':'),
    };
    match kv {
        Some((k, v)) => {
            let k1 = trim_pattern(&k, TrimPattern::Whitespace);
            let v1 = trim_pattern(&v, TrimPattern::Whitespace);
            Some(Some((lowercase(&k1), lowercase(&v1))))
        },
        None => Some(None),
    }
}

proof fn lemma_split_pieces_not_empty(s: Seq<char>)
    ensures
        split_pieces(s).len() >= 1,
    decreases s.len(),
{
    if s.len() > 0 {
        lemma_split_pieces_not_empty(s.drop_last());
    }
}

/// The key/value pairs of `text` and whether it holds a malformed entry.
pub(crate) fn scan_pairs(text: &str) -> (r: (Vec<(Vec<char>, Vec<char>)>, bool))
    ensures
        r.0.deep_view() == text_pairs(text@),
        r.1 == text_has_malformed_entry(text@),
{
    let chars = chars_of(text);
    let len = chars.len();
    let mut out: Vec<(Vec<char>, Vec<char>)> = Vec::new();
    let mut malformed = false;
    let mut current: Vec<char> = Vec::new();
    let ghost mut done: Seq<Seq<char>> = Seq::empty();
    let mut k: usize = 0;
    while k < len
        invariant
            len == chars@.len(),
            chars@ == text@,
            k <= len,
            split_pieces(chars@.subrange(0, k as int)) == done.push(current@),
            out.deep_view() == pairs_of(done),
            malformed == has_malformed_piece(done),
        decreases len - k,
    {
        let c = chars[k];
        let ghost prefix = chars@.subrange(0, k as int);
        proof {
            assert(chars@.subrange(0, k + 1).drop_last() =~= prefix);
            lemma_split_pieces_not_empty(prefix);
        }
        if c == ',' || c == '\n' || c == ';' {
            let entry = entry_of_piece(&current);
            let ghost new_done = done.push(current@);
            proof {
                assert(new_done.drop_last() =~= done);
            }
            match entry {
                Some(Some(kv)) => {
                    proof {
                        assert(kv.0.deep_view() =~= kv.0@);
                        assert(kv.1.deep_view() =~= kv.1@);
                    }
                    out.push(kv);
                },
                Some(None) => {
                    malformed = true;
                    proof {
                        assert(piece_entry(new_done[new_done.len() - 1]) == Some(
                            None::<(Seq<char>, Seq<char>)>,
                        ));
                    }
                },
                None => {},
            }
            proof {
                assert(out.deep_view() =~= pairs_of(new_done));
                assert(malformed == has_malformed_piece(new_done)) by {
                    if has_malformed_piece(new_done) && !has_malformed_piece(done) {
                        let i = choose|i: int|
                            0 <= i < new_done.len() && #[trigger] piece_entry(new_done[i]) == Some(
                                None::<(Seq<char>, Seq<char>)>,
                            );
                        if i < done.len() {
                            assert(new_done[i] == done[i]);
                        }
                    }
                    if has_malformed_piece(done) {
                        let i = choose|i: int|
                            0 <= i < done.len() && #[trigger] piece_entry(done[i]) == Some(
                                None::<(Seq<char>, Seq<char>)>,
                            );
                        assert(new_done[i] == done[i]);
                    }
                }
                done = new_done;
            }
            current = Vec::new();
            proof {
                assert(split_pieces(chars@.subrange(0, k + 1)) =~= done.push(current@));
            }
        } else {
            current.push(c);
            proof {
                assert(split_pieces(chars@.subrange(0, k + 1)) =~= done.push(current@));
            }
        }
        k = k + 1;
    }
    let entry = entry_of_piece(&current);
    let ghost all = done.push(current@);
    proof {
        assert(chars@.subrange(0, len as int) =~= chars@);
        assert(all.drop_last() =~= done);
    }
    match entry {
        Some(Some(kv)) => {
            proof {
                assert(kv.0.deep_view() =~= kv.0@);
                assert(kv.1.deep_view() =~= kv.1@);
            }
            out.push(kv);
        },
        Some(None) => {
            malformed = true;
            proof {
                assert(piece_entry(all[all.len() - 1]) == Some(None::<(Seq<char>, Seq<char>)>));
            }
        },
        None => {},
    }
    proof {
        assert(out.deep_view() =~= pairs_of(all));
        assert(malformed == has_malformed_piece(all)) by {
            if has_malformed_piece(all) && !has_malformed_piece(done) {
                let i = choose|i: int|
                    0 <= i < all.len() && #[trigger] piece_entry(all[i]) == Some(
                        None::<(Seq<char>, Seq<char>)>,
                    );
                if i < done.len() {
                    assert(all[i] == done[i]);
                }
            }
            if has_malformed_piece(done) {
                let i = choose|i: int|
                    0 <= i < done.len() && #[trigger] piece_entry(done[i]) == Some(
                        None::<(Seq<char>, Seq<char>)>,
                    );
                assert(all[i] == done[i]);
            }
        }
    }
    (out, malformed)
}


pub open spec fn is_ascii_digit(c: char) -> bool {
    '0' <= c && c <= '9'
}

/// The number that the decimal digits `s` spell.
pub open spec fn digits_value(s: Seq<char>) -> int
    decreases s.len(),
{
    if s.len() == 0 {
        0
    } else {
        digits_value(s.drop_last()) * 10 + (s.last() as int - '0' as int)
    }
}

/// The part of `s` that holds the digits of a `usize`: `s` without a
/// leading `+`.
pub open spec fn usize_digits(s: Seq<char>) -> Seq<char> {
    if s.len() > 0 && s[0] == '+' {
        s.drop_first()
    } else {
        s
    }
}

pub open spec fn all_digits(d: Seq<char>) -> bool {
    forall|i: int| 0 <= i < d.len() ==> is_ascii_digit(#[trigger] d[i])
}

/// What `str::parse::<usize>` gives for `s`: an optional `+` followed by
/// at least one ASCII digit, read as a decimal number that must fit in a
/// `usize`.
pub open spec fn parse_usize_spec(s: Seq<char>) -> Option<usize> {
    let d = usize_digits(s);
    if d.len() > 0 && all_digits(d) && digits_value(d) <= usize::MAX {
        Some(digits_value(d) as usize)
    } else {
        None
    }
}

/// The words that read as `true` and as `false`.
pub open spec fn parse_bool_spec(s: Seq<char>) -> Option<bool> {
    if s == seq!['t', 'r', 'u', 'e'] || s == seq!['1'] || s == seq!['y', 'e', 's'] || s == seq![
        'o',
        'n',
    ] {
        Some(true)
    } else if s == seq!['f', 'a', 'l', 's', 'e'] || s == seq!['0'] || s == seq!['n', 'o'] || s
        == seq!['o', 'f', 'f'] {
        Some(false)
    } else {
        None
    }
}

proof fn lemma_digits_value_grows(s: Seq<char>, k: int)
    requires
        0 <= k <= s.len(),
        forall|i: int| 0 <= i < s.len() ==> is_ascii_digit(#[trigger] s[i]),
    ensures
        digits_value(s.subrange(0, k)) <= digits_value(s),
        0 <= digits_value(s.subrange(0, k)),
    decreases s.len() - k,
{
    if k < s.len() {
        lemma_digits_value_grows(s, k + 1);
        assert(s.subrange(0, k + 1).drop_last() =~= s.subrange(0, k));
        assert(is_ascii_digit(s[k]));
    } else {
        assert(s.subrange(0, k) =~= s);
        lemma_digits_value_nonneg(s);
    }
}

proof fn lemma_digits_value_nonneg(s: Seq<char>)
    requires
        forall|i: int| 0 <= i < s.len() ==> is_ascii_digit(#[trigger] s[i]),
    ensures
        0 <= digits_value(s),
    decreases s.len(),
{
    if s.len() > 0 {
        assert(is_ascii_digit(s[s.len() - 1]));
        lemma_digits_value_nonneg(s.drop_last());
    }
}

/// Reads `s` the way `str::parse::<usize>` does.
pub fn parse_usize(s: &Vec<char>) -> (r: Option<usize>)
    ensures
        r == parse_usize_spec(s@),
{
    let len = s.len();
    let start: usize = if len > 0 && s[0] == '+' {
        1
    } else {
        0
    };
    let ghost d = s@.subrange(start as int, len as int);
    proof {
        if start == 1 {
            assert(s@.drop_first() =~= d);
        } else {
            assert(s@ =~= d);
        }
    }
    if start == len {
        return None;
    }
    let mut acc: usize = 0;
    let mut k: usize = start;
    while k < len
        invariant
            start <= k <= len,
            len == s@.len(),
            d == s@.subrange(start as int, len as int),
            d == usize_digits(s@),
            forall|i: int| 0 <= i < k - start ==> is_ascii_digit(#[trigger] d[i]),
            acc == digits_value(d.subrange(0, k - start)),
        decreases len - k,
    {
        let c = s[k];
        assert(c == d[k - start]);
        if !('0' <= c && c <= '9') {
            proof {
                assert(!is_ascii_digit(d[k - start]));
            }
            return None;
        }
        let digit = (c as u32 - '0' as u32) as usize;
        proof {
            assert(d.subrange(0, k + 1 - start).drop_last() =~= d.subrange(0, k - start));
            assert(d.subrange(0, k + 1 - start).last() == c);
            assert(digits_value(d.subrange(0, k + 1 - start)) == acc * 10 + digit);
        }
        match acc.checked_mul(10) {
            Some(t) => match t.checked_add(digit) {
                Some(v) => {
                    acc = v;
                },
                None => {
                    proof {
                        lemma_no_fit(d, (k + 1 - start) as int);
                    }
                    return None;
                },
            },
            None => {
                proof {
                    lemma_no_fit(d, (k + 1 - start) as int);
                }
                return None;
            },
        }
        k = k + 1;
    }
    proof {
        assert(d.subrange(0, len - start) =~= d);
    }
    Some(acc)
}

/// Once a prefix of digits spells a number too large for a `usize`, the
/// whole text does not read as a `usize`.
proof fn lemma_no_fit(d: Seq<char>, k: int)
    requires
        0 < k <= d.len(),
        forall|i: int| 0 <= i < k - 1 ==> is_ascii_digit(#[trigger] d[i]),
        is_ascii_digit(d[k - 1]),
        digits_value(d.subrange(0, k)) > usize::MAX,
    ensures
        !(all_digits(d) && digits_value(d) <= usize::MAX),
{
    if all_digits(d) {
        lemma_digits_value_grows(d, k);
    }
}

pub(crate) fn equals_word(s: &Vec<char>, w: &[char]) -> (r: bool)
    ensures
        r == (s@ == w@),
{
    if s.len() != w.len() {
        return false;
    }
    let mut k: usize = 0;
    while k < s.len()
        invariant
            s@.len() == w@.len(),
            k <= s@.len(),
            forall|i: int| 0 <= i < k ==> s@[i] == w@[i],
        decreases s@.len() - k,
    {
        if s[k] != w[k] {
            return false;
        }
        k = k + 1;
    }
    proof {
        assert(s@ =~= w@);
    }
    true
}

/// Reads `true`, `1`, `yes`, `on` as true and `false`, `0`, `no`, `off` as
/// false; any other word gives `None`.
pub fn parse_bool(value: &Vec<char>) -> (r: Option<bool>)
    ensures
        r == parse_bool_spec(value@),
{
    let t1 = ['t', 'r', 'u', 'e'];
    let t2 = ['1'];
    let t3 = ['y', 'e', 's'];
    let t4 = ['o', 'n'];
    let f1 = ['f', 'a', 'l', 's', 'e'];
    let f2 = ['0'];
    let f3 = ['n', 'o'];
    let f4 = ['o', 'f', 'f'];
    proof {
        assert(t1@ =~= seq!['t', 'r', 'u', 'e']);
        assert(t2@ =~= seq!['1']);
        assert(t3@ =~= seq!['y', 'e', 's']);
        assert(t4@ =~= seq!['o', 'n']);
        assert(f1@ =~= seq!['f', 'a', 'l', 's', 'e']);
        assert(f2@ =~= seq!['0']);
        assert(f3@ =~= seq!['n', 'o']);
        assert(f4@ =~= seq!['o', 'f', 'f']);
    }
    if equals_word(value, t1.as_slice()) || equals_word(value, t2.as_slice()) || equals_word(
        value,
        t3.as_slice(),
    ) || equals_word(value, t4.as_slice()) {
        Some(true)
    } else if equals_word(value, f1.as_slice()) || equals_word(value, f2.as_slice())
        || equals_word(value, f3.as_slice()) || equals_word(value, f4.as_slice()) {
        Some(false)
    } else {
        None
    }
}

/// Calls `std::str::from_utf8`. It returns text exactly when the bytes are
/// well-formed UTF-8, and that text's characters are the bytes' UTF-8
/// decoding.
#[verifier::external_body]
pub(crate) fn utf8_text(bytes: &[u8]) -> (r: Option<&str>)
    ensures
        r is Some <==> vstd::utf8::valid_utf8(bytes@),
        r matches Some(t) ==> t@ == vstd::utf8::decode_utf8(bytes@),
{
    std::str::from_utf8(bytes).ok()
}

} // verus!
