//! Comments that keep symbols alive: `# dead-code-finder: allow [codes]` on
//! a symbol's line or on the comment line just above it, and
//! `# dead-code-finder: allow-file [codes]` for a whole file.
use vstd::prelude::*;

use crate::index::{IndexedSymbol, RootSymbol};
use crate::report::{code_for_kind, kind_code, SymbolKind};
use crate::text::{
    char_is_space, chars_of, concat_text, contains_string, copy_string, first_piece, has_prefix, holds, is_space,
    lemma_first_index, pieces, split_all, split_once, split_once_char, starts_with, string_of, trim, trim_chars,
    views,
};

verus! {

// ---------------------------------------------------------------------------
// Lines and words
// ---------------------------------------------------------------------------

/// A line without the `\r` of a `\r\n` ending.
pub open spec fn strip_cr(x: Seq<char>) -> Seq<char> {
    if x.len() > 0 && x.last() == '\r' {
        x.drop_last()
    } else {
        x
    }
}

/// The lines of a text (`str::lines`): the pieces between newlines, each
/// ended by a newline losing a `\r` before it, and no empty last line.
pub open spec fn text_lines(s: Seq<char>) -> Seq<Seq<char>> {
    let ps = pieces(s, '\n');
    let body = ps.drop_last().map_values(|x: Seq<char>| strip_cr(x));
    if ps.last().len() == 0 {
        body
    } else {
        body.push(ps.last())
    }
}

proof fn lemma_pieces_nonempty(s: Seq<char>, c: char)
    ensures
        pieces(s, c).len() >= 1,
    decreases s.len(),
{
    lemma_first_index(s, c);
    match split_once(s, c) {
        Some(p) => lemma_pieces_nonempty(p.1, c),
        None => {},
    }
}

/// The lines of a source text.
pub fn source_lines(source: &str) -> (r: Vec<String>)
    ensures
        views(r@) == text_lines(source@),
{
    let ps = split_all(source, '\n');
    proof {
        lemma_pieces_nonempty(source@, '\n');
    }
    let ghost pv = views(ps@);
    let n = ps.len();
    let mut out: Vec<String> = Vec::new();
    let mut i: usize = 0;
    while i + 1 < n
        invariant
            n == ps@.len(),
            n >= 1,
            pv == views(ps@),
            i <= n - 1,
            out@.len() == i,
            forall|k: int| 0 <= k < i ==> #[trigger] out@[k]@ == strip_cr(pv[k]),
        decreases n - i,
    {
        let x = chars_of(ps[i].as_str());
        let line = if x.len() > 0 && x[x.len() - 1] == '\r' {
            let t = crate::text::take_chars(&x, x.len() - 1);
            assert(t@ =~= x@.drop_last());
            string_of(&t)
        } else {
            copy_string(&ps[i])
        };
        assert(pv[i as int] == ps@[i as int]@);
        out.push(line);
        i = i + 1;
    }
    let last = ps[n - 1].as_str();
    let ghost body = out@;
    if last.unicode_len() > 0 {
        out.push(String::from_str(last));
    }
    proof {
        let b = pv.drop_last().map_values(|x: Seq<char>| strip_cr(x));
        assert(views(body) =~= b);
        if pv.last().len() == 0 {
            assert(views(out@) =~= b);
        } else {
            assert(views(out@) =~= b.push(pv.last()));
        }
    }
    out
}

/// The first position at or after `i` that is not whitespace.
pub open spec fn skip_spaces(s: Seq<char>, i: int) -> int
    decreases s.len() - i,
{
    if i < 0 || i >= s.len() {
        if i < 0 {
            0
        } else {
            i
        }
    } else if is_space(s[i]) {
        skip_spaces(s, i + 1)
    } else {
        i
    }
}

/// The first position at or after `j` that is whitespace, or the end.
pub open spec fn word_end(s: Seq<char>, j: int) -> int
    decreases s.len() - j,
{
    if j < 0 || j >= s.len() {
        if j < 0 {
            0
        } else {
            j
        }
    } else if is_space(s[j]) {
        j
    } else {
        word_end(s, j + 1)
    }
}

pub proof fn lemma_skip_spaces(s: Seq<char>, i: int)
    requires
        0 <= i,
    ensures
        i <= skip_spaces(s, i),
        i <= s.len() ==> skip_spaces(s, i) <= s.len(),
        skip_spaces(s, i) < s.len() ==> !is_space(s[skip_spaces(s, i)]),
    decreases s.len() - i,
{
    if i < s.len() && is_space(s[i]) {
        lemma_skip_spaces(s, i + 1);
    }
}

pub proof fn lemma_word_end(s: Seq<char>, j: int)
    requires
        0 <= j <= s.len(),
    ensures
        j <= word_end(s, j) <= s.len(),
        j < s.len() && !is_space(s[j]) ==> j < word_end(s, j),
    decreases s.len() - j,
{
    if j < s.len() && !is_space(s[j]) {
        lemma_word_end(s, j + 1);
    }
}

/// The whitespace-separated words of `s` from position `i` on
/// (`str::split_whitespace`).
pub open spec fn words_from(s: Seq<char>, i: int) -> Seq<Seq<char>>
    decreases s.len() - i,
{
    if i < 0 || i > s.len() {
        Seq::empty()
    } else {
        let j = skip_spaces(s, i);
        if j >= s.len() {
            Seq::empty()
        } else {
            let k = word_end(s, j);
            proof {
                lemma_skip_spaces(s, i);
                lemma_word_end(s, j);
            }
            seq![s.subrange(j, k)] + words_from(s, k)
        }
    }
}

fn words(x: &Vec<char>) -> (r: Vec<String>)
    ensures
        views(r@) == words_from(x@, 0),
{
    let mut out: Vec<String> = Vec::new();
    let mut i: usize = 0;
    while i < x.len()
        invariant
            i <= x@.len(),
            words_from(x@, 0) == views(out@) + words_from(x@, i as int),
        decreases x@.len() - i,
    {
        let mut j: usize = i;
        while j < x.len() && char_is_space(x[j])
            invariant
                i <= j <= x@.len(),
                skip_spaces(x@, i as int) == skip_spaces(x@, j as int),
            decreases x@.len() - j,
        {
            j = j + 1;
        }
        if j >= x.len() {
            assert(words_from(x@, i as int) =~= Seq::<Seq<char>>::empty());
            assert(views(out@) + Seq::<Seq<char>>::empty() =~= views(out@));
            i = x.len();
            assert(words_from(x@, i as int) =~= Seq::<Seq<char>>::empty());
        } else {
            let mut k: usize = j;
            while k < x.len() && !char_is_space(x[k])
                invariant
                    j <= k <= x@.len(),
                    word_end(x@, j as int) == word_end(x@, k as int),
                decreases x@.len() - k,
            {
                k = k + 1;
            }
            let piece = crate::text::skip_chars(&crate::text::take_chars(x, k), j);
            assert(piece@ =~= x@.subrange(j as int, k as int));
            let ghost before = views(out@);
            out.push(string_of(&piece));
            proof {
                lemma_word_end(x@, j as int);
                assert(views(out@) =~= before.push(x@.subrange(j as int, k as int)));
                assert(words_from(x@, i as int) == seq![x@.subrange(j as int, k as int)] + words_from(x@, k as int));
                assert(views(out@) + words_from(x@, k as int) =~= before + words_from(x@, i as int));
            }
            i = k;
        }
    }
    assert(words_from(x@, i as int) =~= Seq::<Seq<char>>::empty()) by {
        assert(skip_spaces(x@, i as int) == i);
    }
    assert(views(out@) + Seq::<Seq<char>>::empty() =~= views(out@));
    out
}

// ---------------------------------------------------------------------------
// One comment
// ---------------------------------------------------------------------------

/// The finding codes among comma-separated pieces: each trimmed, kept when
/// it starts with `DCF`.
pub open spec fn dcf_codes(ps: Seq<Seq<char>>) -> Seq<Seq<char>>
    decreases ps.len(),
{
    if ps.len() == 0 {
        Seq::empty()
    } else {
        let rest = dcf_codes(ps.drop_last());
        let code = trim(ps.last());
        if has_prefix(code, "DCF"@) {
            rest.push(code)
        } else {
            rest
        }
    }
}

/// The finding codes named by words, each word split at commas.
pub open spec fn codes_of_words(ws: Seq<Seq<char>>) -> Seq<Seq<char>>
    decreases ws.len(),
{
    if ws.len() == 0 {
        Seq::empty()
    } else {
        codes_of_words(ws.drop_last()) + dcf_codes(pieces(ws.last(), ','))
    }
}

/// Every comma-separated piece of a word that starts with `DCF` once
/// trimmed is among the codes, wherever it stands in the word.
pub proof fn lemma_every_dcf_piece_is_kept(ps: Seq<Seq<char>>, i: int)
    requires
        0 <= i < ps.len(),
        has_prefix(trim(ps[i]), "DCF"@),
    ensures
        dcf_codes(ps).contains(trim(ps[i])),
    decreases ps.len(),
{
    let r = dcf_codes(ps);
    if i == ps.len() - 1 {
        assert(r[r.len() - 1] == trim(ps[i]));
    } else {
        let rest = dcf_codes(ps.drop_last());
        assert(ps.drop_last()[i] == ps[i]);
        lemma_every_dcf_piece_is_kept(ps.drop_last(), i);
        let k = choose|k: int| 0 <= k < rest.len() && rest[k] == trim(ps[i]);
        assert(r[k] == rest[k]);
    }
}

/// Every code is a trimmed piece that starts with `DCF`.
pub proof fn lemma_kept_codes_are_dcf_pieces(ps: Seq<Seq<char>>)
    ensures
        forall|x: Seq<char>| #[trigger] dcf_codes(ps).contains(x) ==> has_prefix(x, "DCF"@) && exists|j: int|
            0 <= j < ps.len() && trim(#[trigger] ps[j]) == x,
    decreases ps.len(),
{
    if ps.len() > 0 {
        lemma_kept_codes_are_dcf_pieces(ps.drop_last());
        let rest = dcf_codes(ps.drop_last());
        assert forall|x: Seq<char>| #[trigger] dcf_codes(ps).contains(x) implies has_prefix(x, "DCF"@) && exists|j: int|
            0 <= j < ps.len() && trim(#[trigger] ps[j]) == x by {
            let r = dcf_codes(ps);
            let k = choose|k: int| 0 <= k < r.len() && r[k] == x;
            if k < rest.len() {
                assert(r[k] == rest[k]);
                assert(rest.contains(x));
                let j = choose|j: int| 0 <= j < ps.drop_last().len() && trim(#[trigger] ps.drop_last()[j]) == x;
                assert(ps[j] == ps.drop_last()[j]);
            } else {
                assert(trim(ps[ps.len() - 1]) == x);
            }
        }
    }
}

/// Every `DCF` piece of every word after the command is among the codes of
/// the words.
pub proof fn lemma_every_dcf_piece_of_the_words_is_kept(ws: Seq<Seq<char>>, k: int, i: int)
    requires
        0 <= k < ws.len(),
        0 <= i < pieces(ws[k], ',').len(),
        has_prefix(trim(pieces(ws[k], ',')[i]), "DCF"@),
    ensures
        codes_of_words(ws).contains(trim(pieces(ws[k], ',')[i])),
    decreases ws.len(),
{
    let x = trim(pieces(ws[k], ',')[i]);
    let r = codes_of_words(ws);
    let rest = codes_of_words(ws.drop_last());
    if k == ws.len() - 1 {
        lemma_every_dcf_piece_is_kept(pieces(ws[k], ','), i);
        let d = dcf_codes(pieces(ws[k], ','));
        let q = choose|q: int| 0 <= q < d.len() && d[q] == x;
        assert(r[rest.len() + q] == d[q]);
    } else {
        assert(ws.drop_last()[k] == ws[k]);
        lemma_every_dcf_piece_of_the_words_is_kept(ws.drop_last(), k, i);
        let q = choose|q: int| 0 <= q < rest.len() && rest[q] == x;
        assert(r[q] == rest[q]);
    }
}

/// What a line's comment asks for: whether the whole file is meant, and
/// the finding codes (none: all of them); nothing when the line has no
/// `dead-code-finder: allow` or `allow-file` comment.
pub open spec fn parse_allow(line: Seq<char>) -> Option<(bool, Seq<Seq<char>>)> {
    match split_once(line, '#') {
        None => None,
        Some(p) => {
            let comment = trim(p.1);
            if !has_prefix(comment, "dead-code-finder:"@) {
                None
            } else {
                let directive = trim(comment.skip("dead-code-finder:"@.len() as int));
                let ws = words_from(directive, 0);
                if ws.len() == 0 {
                    None
                } else if ws[0] != "allow"@ && ws[0] != "allow-file"@ {
                    None
                } else {
                    Some((ws[0] == "allow-file"@, codes_of_words(ws.skip(1))))
                }
            }
        },
    }
}

/// A parsed allow comment.
pub struct ParsedAllow {
    pub file_level: bool,
    pub codes: Vec<String>,
}

fn dcf_pieces(word: &str, out: &mut Vec<String>)
    ensures
        views(final(out)@) == views(old(out)@) + dcf_codes(pieces(word@, ',')),
{
    let ps = split_all(word, ',');
    let ghost pv = views(ps@);
    let ghost start = views(out@);
    let mut i: usize = 0;
    assert(pv.take(0) =~= Seq::<Seq<char>>::empty());
    while i < ps.len()
        invariant
            pv == views(ps@),
            pv == pieces(word@, ','),
            i <= ps@.len(),
            views(out@) == start + dcf_codes(pv.take(i as int)),
        decreases ps@.len() - i,
    {
        let ghost t = pv.take(i + 1);
        assert(t.drop_last() =~= pv.take(i as int));
        assert(t.last() == ps@[i as int]@);
        let code = string_of(&trim_chars(&chars_of(ps[i].as_str())));
        if starts_with(code.as_str(), "DCF") {
            let ghost before = views(out@);
            out.push(code);
            assert(views(out@) =~= before.push(code@));
        }
        i = i + 1;
    }
    assert(pv.take(pv.len() as int) =~= pv);
}

/// `parse_allow_comment`
pub fn parse_allow_comment(line: &str) -> (r: Option<ParsedAllow>)
    ensures
        match r {
            Some(a) => parse_allow(line@) == Some((a.file_level, views(a.codes@))),
            None => parse_allow(line@) is None,
        },
{
    let parts = match split_once_char(line, '#') {
        Some(p) => p,
        None => {
            return None;
        },
    };
    let comment = trim_chars(&chars_of(parts.1.as_str()));
    let comment_text = string_of(&comment);
    if !starts_with(comment_text.as_str(), "dead-code-finder:") {
        return None;
    }
    let skip = "dead-code-finder:".unicode_len();
    let directive = trim_chars(&crate::text::skip_chars(&comment, skip));
    let ws = words(&directive);
    if ws.len() == 0 {
        return None;
    }
    let command = ws[0].as_str();
    let file_level = crate::text::same_text(command, "allow-file");
    if !crate::text::same_text(command, "allow") && !file_level {
        return None;
    }
    let ghost wv = views(ws@);
    let mut codes: Vec<String> = Vec::new();
    let mut i: usize = 1;
    assert(wv.skip(1).take(0) =~= Seq::<Seq<char>>::empty());
    while i < ws.len()
        invariant
            wv == views(ws@),
            1 <= i <= ws@.len(),
            views(codes@) == codes_of_words(wv.skip(1).take(i - 1)),
        decreases ws@.len() - i,
    {
        let ghost t = wv.skip(1).take(i as int);
        assert(t.drop_last() =~= wv.skip(1).take(i - 1));
        assert(t.last() == ws@[i as int]@);
        dcf_pieces(ws[i].as_str(), &mut codes);
        i = i + 1;
    }
    assert(wv.skip(1).take(ws@.len() - 1) =~= wv.skip(1));
    Some(ParsedAllow { file_level, codes })
}

// ---------------------------------------------------------------------------
// The comments of a file
// ---------------------------------------------------------------------------

/// A line-level allow comment: its line (from 1) and codes.
pub struct LineAllow {
    pub line: usize,
    pub codes: Vec<String>,
}

/// The allow comments of a file, with its lines.
pub struct AllowComments {
    pub file_allow_codes: Option<Vec<String>>,
    pub line_allows: Vec<LineAllow>,
    pub lines: Vec<String>,
}

/// The codes a file-level comment allows, and the line-level comments, after
/// reading `ls`: an `allow-file` without codes allows everything from then
/// on; one with codes adds them, unless everything is allowed already.
pub open spec fn allow_state(ls: Seq<Seq<char>>) -> (Option<Seq<Seq<char>>>, Seq<(int, Seq<Seq<char>>)>)
    decreases ls.len(),
{
    if ls.len() == 0 {
        (None, Seq::empty())
    } else {
        let prev = allow_state(ls.drop_last());
        match parse_allow(ls.last()) {
            None => prev,
            Some(a) => if a.0 {
                if a.1.len() == 0 {
                    (Some(Seq::empty()), prev.1)
                } else {
                    match prev.0 {
                        Some(fc) => if fc.len() > 0 {
                            (Some(fc + a.1), prev.1)
                        } else {
                            prev
                        },
                        None => (Some(a.1), prev.1),
                    }
                }
            } else {
                (prev.0, prev.1.push((ls.len() as int, a.1)))
            },
        }
    }
}

pub open spec fn line_allow_view(a: LineAllow) -> (int, Seq<Seq<char>>) {
    (a.line as int, views(a.codes@))
}

/// File-level codes and line-level comments by value.
pub open spec fn state_view(fc: Option<Vec<String>>, la: Seq<LineAllow>) -> (Option<Seq<Seq<char>>>, Seq<(int, Seq<Seq<char>>)>) {
    (
        match fc {
            Some(v) => Some(views(v@)),
            None => None,
        },
        la.map_values(|a: LineAllow| line_allow_view(a)),
    )
}

/// The comments by value.
pub open spec fn comments_view(c: AllowComments) -> (Option<Seq<Seq<char>>>, Seq<(int, Seq<Seq<char>>)>) {
    state_view(c.file_allow_codes, c.line_allows@)
}

impl AllowComments {
    /// The allow comments of a source text (`AllowComments::new`).
    pub fn new(source: &str) -> (r: Self)
        ensures
            views(r.lines@) == text_lines(source@),
            comments_view(r) == allow_state(text_lines(source@)),
    {
        let lines = source_lines(source);
        let ghost lv = views(lines@);
        let mut file_allow_codes: Option<Vec<String>> = None;
        let mut line_allows: Vec<LineAllow> = Vec::new();
        let mut i: usize = 0;
        assert(lv.take(0) =~= Seq::<Seq<char>>::empty());
        while i < lines.len()
            invariant
                lv == views(lines@),
                i <= lines@.len(),
                state_view(file_allow_codes, line_allows@) == allow_state(
                    lv.take(i as int),
                ),
            decreases lines@.len() - i,
        {
            let ghost t = lv.take(i + 1);
            assert(t.drop_last() =~= lv.take(i as int));
            assert(t.last() == lines@[i as int]@);
            let ghost prev = allow_state(lv.take(i as int));
            match parse_allow_comment(lines[i].as_str()) {
                None => {},
                Some(allow) => {
                    if allow.file_level {
                        if allow.codes.len() == 0 {
                            let none: Vec<String> = Vec::new();
                            assert(views(none@) =~= Seq::<Seq<char>>::empty());
                            file_allow_codes = Some(none);
                        } else {
                            match file_allow_codes {
                                Some(mut codes) => {
                                    if codes.len() > 0 {
                                        let ghost before = views(codes@);
                                        let mut k: usize = 0;
                                        while k < allow.codes.len()
                                            invariant
                                                k <= allow.codes@.len(),
                                                views(codes@) == before + views(allow.codes@).take(k as int),
                                            decreases allow.codes@.len() - k,
                                        {
                                            let ghost cb = views(codes@);
                                            codes.push(copy_string(&allow.codes[k]));
                                            assert(views(codes@) =~= cb.push(allow.codes@[k as int]@));
                                            assert(views(allow.codes@).take(k + 1) =~= views(allow.codes@).take(
                                                k as int,
                                            ).push(allow.codes@[k as int]@));
                                            assert(views(codes@) =~= before + views(allow.codes@).take(k + 1));
                                            k = k + 1;
                                        }
                                        assert(views(allow.codes@).take(allow.codes@.len() as int) =~= views(
                                            allow.codes@,
                                        ));
                                    }
                                    file_allow_codes = Some(codes);
                                },
                                None => {
                                    file_allow_codes = Some(allow.codes);
                                },
                            }
                        }
                    } else {
                        let ghost before = line_allows@.map_values(|a: LineAllow| line_allow_view(a));
                        let entry = LineAllow { line: i + 1, codes: allow.codes };
                        line_allows.push(entry);
                        assert(line_allows@.map_values(|a: LineAllow| line_allow_view(a)) =~= before.push(
                            line_allow_view(entry),
                        ));
                    }
                },
            }
            i = i + 1;
        }
        assert(lv.take(lines@.len() as int) =~= lv);
        AllowComments { file_allow_codes, line_allows, lines }
    }
}

/// The codes allow `code`: no codes allow every code.
pub open spec fn codes_allow(codes: Seq<Seq<char>>, code: Seq<char>) -> bool {
    codes.len() == 0 || exists|k: int| 0 <= k < codes.len() && codes[k] == code
}

/// `codes_match`
pub fn codes_match(codes: &Vec<String>, code: &str) -> (r: bool)
    ensures
        r == codes_allow(views(codes@), code@),
{
    if codes.len() == 0 {
        return true;
    }
    let r = contains_string(codes, code);
    proof {
        if r {
            let k = choose|k: int| 0 <= k < codes@.len() && #[trigger] codes@[k]@ == code@;
            assert(views(codes@)[k] == code@);
        }
        if codes_allow(views(codes@), code@) {
            let k = choose|k: int| 0 <= k < views(codes@).len() && views(codes@)[k] == code@;
            assert(codes@[k]@ == code@);
        }
    }
    r
}

/// A line-level comment on line `line` allows `code`.
pub open spec fn line_allowed(allows: Seq<(int, Seq<Seq<char>>)>, line: int, code: Seq<char>) -> bool {
    exists|k: int| 0 <= k < allows.len() && allows[k].0 == line && #[trigger] codes_allow(allows[k].1, code)
}

/// The comment line above line `current + 1`, skipping blank lines: the
/// first line at or above `current` that is not blank, when it is a comment.
pub open spec fn prev_sig(lines: Seq<Seq<char>>, current: int) -> Option<int>
    decreases current,
{
    if current <= 0 {
        None
    } else if current - 1 >= lines.len() {
        None
    } else {
        let t = trim(lines[current - 1]);
        if t.len() == 0 {
            prev_sig(lines, current - 1)
        } else if t[0] == '#' {
            Some(current)
        } else {
            None
        }
    }
}

/// `previous_significant_line`
pub open spec fn previous_significant(lines: Seq<Seq<char>>, line: int) -> Option<int> {
    if line <= 0 {
        None
    } else {
        prev_sig(lines, line - 1)
    }
}

/// A comment on the symbol's line, or on the comment line just above it,
/// allows `code`.
pub open spec fn allows_symbol(
    lines: Seq<Seq<char>>,
    allows: Seq<(int, Seq<Seq<char>>)>,
    line: int,
    code: Seq<char>,
) -> bool {
    line_allowed(allows, line, code) || match previous_significant(lines, line) {
        Some(p) => line_allowed(allows, p, code),
        None => false,
    }
}

impl AllowComments {
    fn allowed_on(&self, line: usize, code: &str) -> (r: bool)
        ensures
            r == line_allowed(comments_view(*self).1, line as int, code@),
    {
        let ghost av = comments_view(*self).1;
        let mut k: usize = 0;
        while k < self.line_allows.len()
            invariant
                av == comments_view(*self).1,
                k <= self.line_allows@.len(),
                forall|j: int| 0 <= j < k ==> !(av[j].0 == line && #[trigger] codes_allow(av[j].1, code@)),
            decreases self.line_allows@.len() - k,
        {
            let a = &self.line_allows[k];
            assert(av[k as int] == line_allow_view(*a));
            if a.line == line && codes_match(&a.codes, code) {
                assert(codes_allow(av[k as int].1, code@));
                return true;
            }
            k = k + 1;
        }
        false
    }

    /// `previous_significant_line`
    pub fn previous_significant_line(&self, line: usize) -> (r: Option<usize>)
        ensures
            match r {
                Some(p) => previous_significant(views(self.lines@), line as int) == Some(p as int),
                None => previous_significant(views(self.lines@), line as int) is None,
            },
    {
        if line == 0 {
            return None;
        }
        let ghost lv = views(self.lines@);
        let mut current: usize = line - 1;
        while current > 0
            invariant
                lv == views(self.lines@),
                current < line,
                previous_significant(lv, line as int) == prev_sig(lv, current as int),
            decreases current,
        {
            if current - 1 >= self.lines.len() {
                return None;
            }
            let text = trim_chars(&chars_of(self.lines[current - 1].as_str()));
            assert(lv[current - 1] == self.lines@[current - 1]@);
            if text.len() == 0 {
                current = current - 1;
            } else {
                if text[0] == '#' {
                    return Some(current);
                }
                return None;
            }
        }
        None
    }

    /// `allows_symbol_line`
    pub fn allows_symbol_line(&self, line: usize, code: &str) -> (r: bool)
        ensures
            r == allows_symbol(views(self.lines@), comments_view(*self).1, line as int, code@),
    {
        if self.allowed_on(line, code) {
            return true;
        }
        match self.previous_significant_line(line) {
            Some(previous) => self.allowed_on(previous, code),
            None => false,
        }
    }
}

// ---------------------------------------------------------------------------
// The symbols a file's comments keep alive
// ---------------------------------------------------------------------------

/// The root group of symbols kept alive by comments.
pub open spec fn allowed_group() -> Seq<char> {
    "explicitlyAllowed"@
}

/// The root for a symbol kept alive by a comment.
pub fn root_for_symbol(symbol: &IndexedSymbol) -> (r: RootSymbol)
    ensures
        r.group@ == allowed_group(),
        r.symbol@ == symbol.qualified_name@,
{
    RootSymbol { group: String::from_str("explicitlyAllowed"), symbol: copy_string(&symbol.qualified_name) }
}

/// With a file-level comment: every symbol other than a module whose code
/// the comment allows, in order.
pub open spec fn file_roots(symbols: Seq<IndexedSymbol>, fc: Seq<Seq<char>>) -> Seq<Seq<char>>
    decreases symbols.len(),
{
    if symbols.len() == 0 {
        Seq::empty()
    } else {
        let rest = file_roots(symbols.drop_last(), fc);
        let s = symbols.last();
        if s.kind != SymbolKind::Module && codes_allow(fc, kind_code(s.kind)) {
            rest.push(s.qualified_name@)
        } else {
            rest
        }
    }
}

/// The classes whose comments allow them, in order.
pub open spec fn class_roots(
    symbols: Seq<IndexedSymbol>,
    lines: Seq<Seq<char>>,
    allows: Seq<(int, Seq<Seq<char>>)>,
) -> Seq<Seq<char>>
    decreases symbols.len(),
{
    if symbols.len() == 0 {
        Seq::empty()
    } else {
        let rest = class_roots(symbols.drop_last(), lines, allows);
        let s = symbols.last();
        if s.kind == SymbolKind::Class && allows_symbol(lines, allows, s.span.line as int, kind_code(s.kind)) {
            rest.push(s.qualified_name@)
        } else {
            rest
        }
    }
}

/// `x` lies inside one of the classes (its name starts with a class name
/// and a dot).
pub open spec fn inside_class(classes: Seq<Seq<char>>, x: Seq<char>) -> bool {
    exists|k: int| 0 <= k < classes.len() && #[trigger] has_prefix(x, classes[k] + "."@)
}

/// `x` is one of `names`.
pub open spec fn named(names: Seq<Seq<char>>, x: Seq<char>) -> bool {
    exists|k: int| 0 <= k < names.len() && names[k] == x
}

/// After the allowed classes, each other symbol (not a module, not listed
/// yet) that lies inside an allowed class or whose comments allow it, in
/// order.
pub open spec fn later_roots(
    symbols: Seq<IndexedSymbol>,
    classes: Seq<Seq<char>>,
    lines: Seq<Seq<char>>,
    allows: Seq<(int, Seq<Seq<char>>)>,
) -> Seq<Seq<char>>
    decreases symbols.len(),
{
    if symbols.len() == 0 {
        Seq::empty()
    } else {
        let rest = later_roots(symbols.drop_last(), classes, lines, allows);
        let s = symbols.last();
        if s.kind == SymbolKind::Module || named(classes + rest, s.qualified_name@) {
            rest
        } else if inside_class(classes, s.qualified_name@) || allows_symbol(
            lines,
            allows,
            s.span.line as int,
            kind_code(s.kind),
        ) {
            rest.push(s.qualified_name@)
        } else {
            rest
        }
    }
}

/// The symbols a file's comments keep alive, in order.
pub open spec fn comment_roots(source: Seq<char>, symbols: Seq<IndexedSymbol>) -> Seq<Seq<char>> {
    let lines = text_lines(source);
    let state = allow_state(lines);
    match state.0 {
        Some(fc) => file_roots(symbols, fc),
        None => {
            let classes = class_roots(symbols, lines, state.1);
            classes + later_roots(symbols, classes, lines, state.1)
        },
    }
}

/// The roots, in the group `explicitlyAllowed`, of the symbols that a
/// file's allow comments keep alive.
pub fn allow_comment_roots(source: &str, symbols: &Vec<IndexedSymbol>) -> (r: Vec<RootSymbol>)
    ensures
        r@.len() == comment_roots(source@, symbols@).len(),
        forall|i: int|
            0 <= i < r@.len() ==> (#[trigger] r@[i]).group@ == allowed_group() && r@[i].symbol@ == comment_roots(
                source@,
                symbols@,
            )[i],
{
    let comments = AllowComments::new(source);
    let ghost lv = views(comments.lines@);
    let ghost av = comments_view(comments).1;
    let mut names: Vec<String> = Vec::new();
    match &comments.file_allow_codes {
        Some(fc) => {
            let mut i: usize = 0;
            assert(symbols@.take(0) =~= Seq::<IndexedSymbol>::empty());
            while i < symbols.len()
                invariant
                    i <= symbols@.len(),
                    views(names@) == file_roots(symbols@.take(i as int), views(fc@)),
                decreases symbols@.len() - i,
            {
                let ghost t = symbols@.take(i + 1);
                assert(t.drop_last() =~= symbols@.take(i as int));
                assert(t.last() == symbols@[i as int]);
                let s = &symbols[i];
                if s.kind != SymbolKind::Module && codes_match(fc, code_for_kind(&s.kind)) {
                    let ghost before = views(names@);
                    names.push(copy_string(&s.qualified_name));
                    assert(views(names@) =~= before.push(s.qualified_name@));
                }
                i = i + 1;
            }
            assert(symbols@.take(symbols@.len() as int) =~= symbols@);
        },
        None => {
            let mut prefixes: Vec<String> = Vec::new();
            let mut i: usize = 0;
            assert(symbols@.take(0) =~= Seq::<IndexedSymbol>::empty());
            while i < symbols.len()
                invariant
                    lv == views(comments.lines@),
                    av == comments_view(comments).1,
                    i <= symbols@.len(),
                    views(names@) == class_roots(symbols@.take(i as int), lv, av),
                    prefixes@.len() == names@.len(),
                    forall|k: int| 0 <= k < prefixes@.len() ==> #[trigger] prefixes@[k]@ == names@[k]@ + "."@,
                decreases symbols@.len() - i,
            {
                let ghost t = symbols@.take(i + 1);
                assert(t.drop_last() =~= symbols@.take(i as int));
                assert(t.last() == symbols@[i as int]);
                let s = &symbols[i];
                if s.kind == SymbolKind::Class && comments.allows_symbol_line(s.span.line, code_for_kind(&s.kind)) {
                    let ghost before = views(names@);
                    names.push(copy_string(&s.qualified_name));
                    prefixes.push(concat_text(s.qualified_name.as_str(), "."));
                    assert(views(names@) =~= before.push(s.qualified_name@));
                }
                i = i + 1;
            }
            assert(symbols@.take(symbols@.len() as int) =~= symbols@);
            let ghost classes = views(names@);
            let mut later: Vec<String> = Vec::new();
            let mut seen = crate::text::copy_strings(&names);
            let mut j: usize = 0;
            assert(symbols@.take(0) =~= Seq::<IndexedSymbol>::empty());
            assert(views(seen@) =~= classes);
            while j < symbols.len()
                invariant
                    lv == views(comments.lines@),
                    av == comments_view(comments).1,
                    classes == class_roots(symbols@, lv, av),
                    prefixes@.len() == classes.len(),
                    forall|k: int| 0 <= k < prefixes@.len() ==> #[trigger] prefixes@[k]@ == classes[k] + "."@,
                    j <= symbols@.len(),
                    views(later@) == later_roots(symbols@.take(j as int), classes, lv, av),
                    views(seen@) == classes + views(later@),
                decreases symbols@.len() - j,
            {
                let ghost t = symbols@.take(j + 1);
                assert(t.drop_last() =~= symbols@.take(j as int));
                assert(t.last() == symbols@[j as int]);
                let s = &symbols[j];
                let listed = contains_string(&seen, s.qualified_name.as_str());
                assert(listed == named(classes + views(later@), s.qualified_name@)) by {
                    if listed {
                        let k = choose|k: int| 0 <= k < seen@.len() && #[trigger] seen@[k]@ == s.qualified_name@;
                        assert(views(seen@)[k] == s.qualified_name@);
                    }
                    if named(classes + views(later@), s.qualified_name@) {
                        let k = choose|k: int| 0 <= k < (classes + views(later@)).len() && (classes + views(later@))[k] == s.qualified_name@;
                        assert(seen@[k]@ == views(seen@)[k]);
                    }
                }
                if s.kind != SymbolKind::Module && !listed {
                    let mut inside = false;
                    let mut k: usize = 0;
                    while k < prefixes.len()
                        invariant
                            k <= prefixes@.len(),
                            prefixes@.len() == classes.len(),
                            forall|k2: int| 0 <= k2 < prefixes@.len() ==> #[trigger] prefixes@[k2]@ == classes[k2] + "."@,
                            inside == exists|k2: int| 0 <= k2 < k && #[trigger] has_prefix(s.qualified_name@, classes[k2] + "."@),
                        decreases prefixes@.len() - k,
                    {
                        if starts_with(s.qualified_name.as_str(), prefixes[k].as_str()) {
                            inside = true;
                        }
                        k = k + 1;
                    }
                    if inside || comments.allows_symbol_line(s.span.line, code_for_kind(&s.kind)) {
                        let ghost before = views(later@);
                        let ghost seen0 = views(seen@);
                        later.push(copy_string(&s.qualified_name));
                        seen.push(copy_string(&s.qualified_name));
                        assert(views(later@) =~= before.push(s.qualified_name@));
                        assert(views(seen@) =~= seen0.push(s.qualified_name@));
                        assert(views(seen@) =~= classes + views(later@));
                    }
                }
                j = j + 1;
            }
            assert(symbols@.take(symbols@.len() as int) =~= symbols@);
            let mut k: usize = 0;
            while k < later.len()
                invariant
                    k <= later@.len(),
                    views(names@) == classes + views(later@).take(k as int),
                decreases later@.len() - k,
            {
                let ghost nb = views(names@);
                names.push(copy_string(&later[k]));
                assert(views(names@) =~= nb.push(later@[k as int]@));
                assert(views(later@).take(k + 1) =~= views(later@).take(k as int).push(later@[k as int]@));
                assert(views(names@) =~= classes + views(later@).take(k + 1));
                k = k + 1;
            }
            assert(views(later@).take(later@.len() as int) =~= views(later@));
        },
    }
    assert(views(names@) == comment_roots(source@, symbols@));
    let mut roots: Vec<RootSymbol> = Vec::new();
    let mut m: usize = 0;
    while m < names.len()
        invariant
            m <= names@.len(),
            roots@.len() == m,
            forall|i: int|
                0 <= i < m ==> (#[trigger] roots@[i]).group@ == allowed_group() && roots@[i].symbol@ == names@[i]@,
        decreases names@.len() - m,
    {
        roots.push(RootSymbol { group: String::from_str("explicitlyAllowed"), symbol: copy_string(&names[m]) });
        m = m + 1;
    }
    roots
}

} // verus!
