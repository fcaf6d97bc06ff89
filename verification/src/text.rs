//! Character-level text operations over `String` and `&str`, specified on
//! their views as sequences of characters.
use vstd::prelude::*;
use vstd::string::*;

verus! {

/// Rust's `char::is_whitespace`: the characters with the Unicode
/// `White_Space` property.
pub open spec fn is_space(c: char) -> bool {
    ||| ('\u{9}' <= c && c <= '\u{d}')
    ||| c == ' '
    ||| c == '\u{85}'
    ||| c == '\u{a0}'
    ||| c == '\u{1680}'
    ||| ('\u{2000}' <= c && c <= '\u{200a}')
    ||| c == '\u{2028}'
    ||| c == '\u{2029}'
    ||| c == '\u{202f}'
    ||| c == '\u{205f}'
    ||| c == '\u{3000}'
}

/// `s.trim().is_empty()`: every character is whitespace.
pub open spec fn is_blank(s: Seq<char>) -> bool {
    forall|i: int| 0 <= i < s.len() ==> is_space(#[trigger] s[i])
}

pub open spec fn has_prefix(s: Seq<char>, p: Seq<char>) -> bool {
    p.len() <= s.len() && s.take(p.len() as int) == p
}

pub open spec fn has_suffix(s: Seq<char>, p: Seq<char>) -> bool {
    p.len() <= s.len() && s.skip(s.len() - p.len()) == p
}

pub open spec fn has_char(s: Seq<char>, c: char) -> bool {
    exists|i: int| 0 <= i < s.len() && s[i] == c
}

/// Index of the last occurrence of `c` in `s`, or -1.
pub open spec fn last_index(s: Seq<char>, c: char) -> int
    decreases s.len(),
{
    if s.len() == 0 {
        -1
    } else if s.last() == c {
        s.len() - 1
    } else {
        last_index(s.drop_last(), c)
    }
}

/// Index of the first occurrence of `c` in `s`, or -1.
pub open spec fn first_index(s: Seq<char>, c: char) -> int
    decreases s.len(),
{
    if s.len() == 0 {
        -1
    } else if s[0] == c {
        0
    } else if first_index(s.drop_first(), c) < 0 {
        -1
    } else {
        first_index(s.drop_first(), c) + 1
    }
}

/// `str::rsplit_once(c)`: the text before and after the last `c`.
pub open spec fn rsplit_once(s: Seq<char>, c: char) -> Option<(Seq<char>, Seq<char>)> {
    let k = last_index(s, c);
    if k < 0 {
        None
    } else {
        Some((s.take(k), s.skip(k + 1)))
    }
}

/// `str::split_once(c)`: the text before and after the first `c`.
pub open spec fn split_once(s: Seq<char>, c: char) -> Option<(Seq<char>, Seq<char>)> {
    let k = first_index(s, c);
    if k < 0 {
        None
    } else {
        Some((s.take(k), s.skip(k + 1)))
    }
}

/// `format!("{a}.{b}")`
pub open spec fn dotted(a: Seq<char>, b: Seq<char>) -> Seq<char> {
    a + seq!['.'] + b
}

/// Number of leading whitespace characters.
pub open spec fn leading_space(s: Seq<char>) -> nat
    decreases s.len(),
{
    if s.len() == 0 {
        0
    } else if is_space(s[0]) {
        1 + leading_space(s.drop_first())
    } else {
        0
    }
}

/// Number of trailing whitespace characters.
pub open spec fn trailing_space(s: Seq<char>) -> nat
    decreases s.len(),
{
    if s.len() == 0 {
        0
    } else if is_space(s.last()) {
        1 + trailing_space(s.drop_last())
    } else {
        0
    }
}

/// `str::trim`: `s` without leading and trailing whitespace.
pub open spec fn trim(s: Seq<char>) -> Seq<char> {
    let t = s.skip(leading_space(s) as int);
    t.take(t.len() - trailing_space(t))
}

pub fn char_is_space(c: char) -> (r: bool)
    ensures
        r == is_space(c),
{
    ('\u{9}' <= c && c <= '\u{d}') || c == ' ' || c == '\u{85}' || c == '\u{a0}' || c
        == '\u{1680}' || ('\u{2000}' <= c && c <= '\u{200a}') || c == '\u{2028}' || c
        == '\u{2029}' || c == '\u{202f}' || c == '\u{205f}' || c == '\u{3000}'
}

/// The characters of `s`, in order.
pub fn chars_of(s: &str) -> (r: Vec<char>)
    ensures
        r@ == s@,
{
    let n = s.unicode_len();
    let mut out: Vec<char> = Vec::new();
    let mut i: usize = 0;
    while i < n
        invariant
            n == s@.len(),
            i <= n,
            out@ == s@.take(i as int),
        decreases n - i,
    {
        let c = s.get_char(i);
        out.push(c);
        assert(s@.take(i + 1) == s@.take(i as int).push(s@[i as int]));
        i = i + 1;
    }
    assert(s@.take(n as int) == s@);
    out
}

/// A `String` holding the characters `s[from..to]`.
pub fn slice_string(s: &str, from: usize, to: usize) -> (r: String)
    requires
        from <= to <= s@.len(),
    ensures
        r@ == s@.subrange(from as int, to as int),
{
    String::from_str(s.substring_char(from, to))
}

/// String equality on the characters.
pub fn same_text(a: &str, b: &str) -> (r: bool)
    ensures
        r == (a@ == b@),
{
    let x = chars_of(a);
    let y = chars_of(b);
    if x.len() != y.len() {
        return false;
    }
    let mut i: usize = 0;
    while i < x.len()
        invariant
            x@ == a@,
            y@ == b@,
            x.len() == y.len(),
            i <= x.len(),
            forall|j: int| 0 <= j < i ==> x@[j] == y@[j],
        decreases x.len() - i,
    {
        if x[i] != y[i] {
            return false;
        }
        i = i + 1;
    }
    assert(x@ =~= y@);
    true
}

/// `s.starts_with(p)`
pub fn starts_with(s: &str, p: &str) -> (r: bool)
    ensures
        r == has_prefix(s@, p@),
{
    let x = chars_of(s);
    let y = chars_of(p);
    if y.len() > x.len() {
        return false;
    }
    let mut i: usize = 0;
    while i < y.len()
        invariant
            x@ == s@,
            y@ == p@,
            y.len() <= x.len(),
            i <= y.len(),
            forall|j: int| 0 <= j < i ==> x@[j] == y@[j],
        decreases y.len() - i,
    {
        if x[i] != y[i] {
            assert(s@.take(p@.len() as int)[i as int] != p@[i as int]);
            return false;
        }
        i = i + 1;
    }
    assert(s@.take(p@.len() as int) =~= p@);
    true
}

/// `s.ends_with(p)`
pub fn ends_with(s: &str, p: &str) -> (r: bool)
    ensures
        r == has_suffix(s@, p@),
{
    let x = chars_of(s);
    let y = chars_of(p);
    if y.len() > x.len() {
        return false;
    }
    let off = x.len() - y.len();
    let mut i: usize = 0;
    while i < y.len()
        invariant
            x@ == s@,
            y@ == p@,
            y.len() <= x.len(),
            off == x.len() - y.len(),
            i <= y.len(),
            forall|j: int| 0 <= j < i ==> x@[off + j] == y@[j],
        decreases y.len() - i,
    {
        if x[off + i] != y[i] {
            assert(s@.skip(off as int)[i as int] != p@[i as int]);
            return false;
        }
        i = i + 1;
    }
    assert(s@.skip(off as int) =~= p@);
    true
}

/// `s.contains(c)`
pub fn contains_char(s: &str, c: char) -> (r: bool)
    ensures
        r == has_char(s@, c),
{
    let x = chars_of(s);
    let mut i: usize = 0;
    while i < x.len()
        invariant
            x@ == s@,
            i <= x.len(),
            forall|j: int| 0 <= j < i ==> x@[j] != c,
        decreases x.len() - i,
    {
        if x[i] == c {
            return true;
        }
        i = i + 1;
    }
    false
}

pub proof fn lemma_last_index(s: Seq<char>, c: char)
    ensures
        -1 <= last_index(s, c) < s.len(),
        last_index(s, c) >= 0 ==> s[last_index(s, c)] == c,
        forall|j: int| last_index(s, c) < j < s.len() ==> s[j] != c,
    decreases s.len(),
{
    if s.len() > 0 && s.last() != c {
        lemma_last_index(s.drop_last(), c);
        assert forall|j: int| last_index(s, c) < j < s.len() implies s[j] != c by {
            if j < s.len() - 1 {
                assert(s[j] == s.drop_last()[j]);
            }
        }
    }
}

pub proof fn lemma_first_index(s: Seq<char>, c: char)
    ensures
        -1 <= first_index(s, c) < s.len(),
    decreases s.len(),
{
    if s.len() > 0 && s[0] != c {
        lemma_first_index(s.drop_first(), c);
    }
}

/// Text without `c` is one piece.
pub proof fn lemma_pieces_of_plain_text(s: Seq<char>, c: char)
    requires
        !has_char(s, c),
    ensures
        pieces(s, c) == seq![s],
{
    lemma_first_index_unique(s, c, -1);
}

/// `a`, a separator `c` and `b`, where `a` has no `c`, splits into `a`
/// followed by the pieces of `b`.
pub proof fn lemma_pieces_split_at_first_separator(a: Seq<char>, b: Seq<char>, c: char)
    requires
        !has_char(a, c),
    ensures
        pieces(a + seq![c] + b, c) == seq![a] + pieces(b, c),
{
    let s = a + seq![c] + b;
    let k = a.len() as int;
    assert(s[k] == c);
    assert forall|j: int| 0 <= j < s.len() && (k < 0 || j < k) implies s[j] != c by {
        assert(s[j] == a[j]);
    }
    lemma_first_index_unique(s, c, k);
    assert(s.take(k) =~= a);
    assert(s.skip(k + 1) =~= b);
}

/// Splitting `a.b` at its last dot, where `b` has no dot, gives `a` and `b`.
pub proof fn lemma_rsplit_dotted(a: Seq<char>, b: Seq<char>)
    requires
        !has_char(b, '.'),
    ensures
        rsplit_once(dotted(a, b), '.') == Some((a, b)),
{
    let s = dotted(a, b);
    let k = a.len() as int;
    assert(s[k] == '.');
    assert forall|j: int| k < j < s.len() implies s[j] != '.' by {
        assert(s[j] == b[j - k - 1]);
    }
    lemma_last_index_unique(s, '.', k);
    assert(s.take(k) =~= a);
    assert(s.skip(k + 1) =~= b);
}

proof fn lemma_last_index_unique(s: Seq<char>, c: char, k: int)
    requires
        -1 <= k < s.len(),
        k >= 0 ==> s[k] == c,
        forall|j: int| k < j < s.len() ==> s[j] != c,
    ensures
        last_index(s, c) == k,
    decreases s.len(),
{
    if s.len() > 0 && s.last() != c {
        lemma_last_index_unique(s.drop_last(), c, k);
    }
}

pub proof fn lemma_first_index_unique(s: Seq<char>, c: char, k: int)
    requires
        -1 <= k < s.len(),
        k >= 0 ==> s[k] == c,
        forall|j: int| 0 <= j < s.len() && (k < 0 || j < k) ==> s[j] != c,
    ensures
        first_index(s, c) == k,
    decreases s.len(),
{
    if s.len() > 0 && s[0] != c {
        let t = s.drop_first();
        let k2 = if k < 0 { -1 } else { k - 1 };
        lemma_first_index_unique(t, c, k2);
    }
}

/// Position of the last `c` in `s`, if any.
pub fn rfind_char(s: &str, c: char) -> (r: Option<usize>)
    ensures
        match r {
            Some(k) => k == last_index(s@, c),
            None => last_index(s@, c) < 0,
        },
{
    let x = chars_of(s);
    let mut i: usize = x.len();
    while i > 0
        invariant
            x@ == s@,
            i <= x.len(),
            forall|j: int| i <= j < x.len() ==> x@[j] != c,
        decreases i,
    {
        if x[i - 1] == c {
            proof {
                lemma_last_index_unique(s@, c, i - 1);
            }
            return Some(i - 1);
        }
        i = i - 1;
    }
    proof {
        lemma_last_index_unique(s@, c, -1);
    }
    None
}

/// Position of the first `c` in `s`, if any.
pub fn find_char(s: &str, c: char) -> (r: Option<usize>)
    ensures
        match r {
            Some(k) => k == first_index(s@, c),
            None => first_index(s@, c) < 0,
        },
{
    let x = chars_of(s);
    let mut i: usize = 0;
    while i < x.len()
        invariant
            x@ == s@,
            i <= x.len(),
            forall|j: int| 0 <= j < i ==> x@[j] != c,
        decreases x.len() - i,
    {
        if x[i] == c {
            proof {
                lemma_first_index_unique(s@, c, i as int);
            }
            return Some(i);
        }
        i = i + 1;
    }
    proof {
        lemma_first_index_unique(s@, c, -1);
    }
    None
}

/// `s.rsplit_once(c)` with owned halves.
pub fn rsplit_once_char(s: &str, c: char) -> (r: Option<(String, String)>)
    ensures
        match r {
            Some(p) => rsplit_once(s@, c) == Some((p.0@, p.1@)),
            None => rsplit_once(s@, c) is None,
        },
{
    proof {
        lemma_last_index(s@, c);
    }
    match rfind_char(s, c) {
        None => None,
        Some(k) => {
            let n = s.unicode_len();
            let a = slice_string(s, 0, k);
            let b = slice_string(s, k + 1, n);
            assert(a@ =~= s@.take(k as int));
            assert(b@ =~= s@.skip(k + 1));
            Some((a, b))
        },
    }
}

/// `s.split_once(c)` with owned halves.
pub fn split_once_char(s: &str, c: char) -> (r: Option<(String, String)>)
    ensures
        match r {
            Some(p) => split_once(s@, c) == Some((p.0@, p.1@)),
            None => split_once(s@, c) is None,
        },
{
    proof {
        lemma_first_index(s@, c);
    }
    match find_char(s, c) {
        None => None,
        Some(k) => {
            let n = s.unicode_len();
            let a = slice_string(s, 0, k);
            let b = slice_string(s, k + 1, n);
            assert(a@ =~= s@.take(k as int));
            assert(b@ =~= s@.skip(k + 1));
            Some((a, b))
        },
    }
}

/// `format!("{a}.{b}")`
pub fn join_dot(a: &str, b: &str) -> (r: String)
    ensures
        r@ == dotted(a@, b@),
{
    let mut out = String::from_str(a);
    out.append(".");
    out.append(b);
    proof {
        reveal_strlit(".");
    }
    out
}

/// `format!("{a}{b}")`
pub fn concat_text(a: &str, b: &str) -> (r: String)
    ensures
        r@ == a@ + b@,
{
    let mut out = String::from_str(a);
    out.append(b);
    out
}

/// `s.trim().is_empty()`
pub fn blank(s: &str) -> (r: bool)
    ensures
        r == is_blank(s@),
{
    let x = chars_of(s);
    let mut i: usize = 0;
    while i < x.len()
        invariant
            x@ == s@,
            i <= x.len(),
            forall|j: int| 0 <= j < i ==> is_space(#[trigger] x@[j]),
        decreases x.len() - i,
    {
        if !char_is_space(x[i]) {
            return false;
        }
        i = i + 1;
    }
    true
}

proof fn lemma_leading_space(s: Seq<char>, k: int)
    requires
        0 <= k <= s.len(),
        forall|j: int| 0 <= j < k ==> is_space(#[trigger] s[j]),
        k < s.len() ==> !is_space(s[k]),
    ensures
        leading_space(s) == k,
    decreases s.len(),
{
    if s.len() > 0 && k > 0 {
        assert forall|j: int| 0 <= j < k - 1 implies is_space(#[trigger] s.drop_first()[j]) by {
            assert(s.drop_first()[j] == s[j + 1]);
        }
        lemma_leading_space(s.drop_first(), k - 1);
    }
}

proof fn lemma_trailing_space(s: Seq<char>, k: int)
    requires
        0 <= k <= s.len(),
        forall|j: int| s.len() - k <= j < s.len() ==> is_space(#[trigger] s[j]),
        k < s.len() ==> !is_space(s[s.len() - k - 1]),
    ensures
        trailing_space(s) == k,
    decreases s.len(),
{
    if s.len() > 0 && k > 0 {
        let t = s.drop_last();
        assert forall|j: int| t.len() - (k - 1) <= j < t.len() implies is_space(#[trigger] t[j]) by {
            assert(t[j] == s[j]);
        }
        lemma_trailing_space(t, k - 1);
    }
}

/// `s.trim()` as a character vector.
pub fn trim_chars(x: &Vec<char>) -> (r: Vec<char>)
    ensures
        r@ == trim(x@),
{
    let mut lo: usize = 0;
    while lo < x.len() && char_is_space(x[lo])
        invariant
            lo <= x.len(),
            forall|j: int| 0 <= j < lo ==> is_space(#[trigger] x@[j]),
        decreases x.len() - lo,
    {
        lo = lo + 1;
    }
    proof {
        lemma_leading_space(x@, lo as int);
    }
    let ghost t = x@.skip(lo as int);
    let mut hi: usize = x.len();
    while hi > lo && char_is_space(x[hi - 1])
        invariant
            lo <= hi <= x.len(),
            forall|j: int| hi <= j < x.len() ==> is_space(#[trigger] x@[j]),
        decreases hi,
    {
        hi = hi - 1;
    }
    proof {
        let k = x.len() - hi;
        assert forall|j: int| t.len() - k <= j < t.len() implies is_space(#[trigger] t[j]) by {
            assert(t[j] == x@[j + lo]);
        }
        if k < t.len() {
            assert(t[t.len() - k - 1] == x@[hi - 1]);
        }
        lemma_trailing_space(t, k as int);
    }
    let mut out: Vec<char> = Vec::new();
    let mut i: usize = lo;
    while i < hi
        invariant
            lo <= i <= hi <= x.len(),
            out@ == x@.subrange(lo as int, i as int),
        decreases hi - i,
    {
        out.push(x[i]);
        assert(x@.subrange(lo as int, i + 1) == x@.subrange(lo as int, i as int).push(x@[i as int]));
        i = i + 1;
    }
    assert(out@ =~= trim(x@));
    out
}

/// A `String` with the characters of `x`.
pub fn string_of(x: &Vec<char>) -> (r: String)
    ensures
        r@ == x@,
{
    let mut out = String::new();
    let mut i: usize = 0;
    while i < x.len()
        invariant
            i <= x.len(),
            out@ == x@.take(i as int),
        decreases x.len() - i,
    {
        let one = char_string(x[i]);
        out.append(one.as_str());
        assert(x@.take(i + 1) == x@.take(i as int) + seq![x@[i as int]]);
        i = i + 1;
    }
    assert(x@.take(x.len() as int) =~= x@);
    out
}

/// `c.to_string()`
#[verifier::external_body]
fn char_string(c: char) -> (r: String)
    ensures
        r@ == seq![c],
{
    c.to_string()
}

/// Owned copy of a `String`.
pub fn copy_string(s: &String) -> (r: String)
    ensures
        r@ == s@,
{
    s.clone()
}

/// Owned copies of a vector of strings.
pub fn copy_strings(v: &Vec<String>) -> (r: Vec<String>)
    ensures
        r@.len() == v@.len(),
        forall|i: int| 0 <= i < v@.len() ==> #[trigger] r@[i]@ == v@[i]@,
{
    let mut out: Vec<String> = Vec::new();
    let mut i: usize = 0;
    while i < v.len()
        invariant
            i <= v.len(),
            out@.len() == i,
            forall|j: int| 0 <= j < i ==> #[trigger] out@[j]@ == v@[j]@,
        decreases v.len() - i,
    {
        out.push(v[i].clone());
        i = i + 1;
    }
    out
}

/// The views of a sequence of strings.
pub open spec fn views(v: Seq<String>) -> Seq<Seq<char>> {
    v.map_values(|s: String| s@)
}

/// Whether some string of `v` has the characters `s`.
pub open spec fn holds(v: Seq<String>, s: Seq<char>) -> bool {
    exists|i: int| 0 <= i < v.len() && #[trigger] v[i]@ == s
}

/// `v.contains(s)` on strings.
pub fn contains_string(v: &Vec<String>, s: &str) -> (r: bool)
    ensures
        r == holds(v@, s@),
{
    let mut i: usize = 0;
    while i < v.len()
        invariant
            i <= v.len(),
            forall|j: int| 0 <= j < i ==> #[trigger] v@[j]@ != s@,
        decreases v.len() - i,
    {
        if same_text(v[i].as_str(), s) {
            return true;
        }
        i = i + 1;
    }
    false
}

/// Lexicographic order on characters by code point: `a < b`.
pub open spec fn text_less(a: Seq<char>, b: Seq<char>) -> bool
    decreases a.len(),
{
    if a.len() == 0 {
        b.len() > 0
    } else if b.len() == 0 {
        false
    } else if a[0] != b[0] {
        a[0] < b[0]
    } else {
        text_less(a.drop_first(), b.drop_first())
    }
}

/// Three-way comparison of texts, as `str::cmp` orders them: -1, 0 or 1.
pub fn compare_text(a: &str, b: &str) -> (r: i8)
    ensures
        r == -1 <==> text_less(a@, b@),
        r == 0 <==> a@ == b@,
        r == 1 <==> text_less(b@, a@),
{
    let x = chars_of(a);
    let y = chars_of(b);
    let mut i: usize = 0;
    while i < x.len() && i < y.len() && x[i] == y[i]
        invariant
            x@ == a@,
            y@ == b@,
            i <= x.len(),
            i <= y.len(),
            forall|j: int| 0 <= j < i ==> x@[j] == y@[j],
        decreases x.len() - i,
    {
        i = i + 1;
    }
    proof {
        lemma_text_less_from(a@, b@, i as int);
        lemma_text_less_from(b@, a@, i as int);
    }
    if i < x.len() && i < y.len() {
        let cx = x[i];
        let cy = y[i];
        proof {
            assert(a@.skip(i as int)[0] == a@[i as int]);
            assert(b@.skip(i as int)[0] == b@[i as int]);
            assert(a@.skip(i as int).len() > 0 && b@.skip(i as int).len() > 0);
            assert(cx != cy);
        }
        if cx < cy {
            proof {
                assert(a@ != b@) by { assert(a@[i as int] != b@[i as int]); }
            }
            -1
        } else {
            proof {
                assert(a@ != b@) by { assert(a@[i as int] != b@[i as int]); }
            }
            1
        }
    } else if i < y.len() {
        proof {
            assert(a@ != b@) by { assert(a@.len() != b@.len()); }
        }
        -1
    } else if i < x.len() {
        proof {
            assert(a@ != b@) by { assert(a@.len() != b@.len()); }
        }
        1
    } else {
        assert(a@ =~= b@);
        proof {
            lemma_text_less_irreflexive(a@);
        }
        0
    }
}

proof fn lemma_text_less_irreflexive(a: Seq<char>)
    ensures
        !text_less(a, a),
    decreases a.len(),
{
    if a.len() > 0 {
        lemma_text_less_irreflexive(a.drop_first());
    }
}

/// Once `a` and `b` agree on their first `i` characters, their order is decided
/// by what follows.
proof fn lemma_text_less_from(a: Seq<char>, b: Seq<char>, i: int)
    requires
        0 <= i <= a.len(),
        i <= b.len(),
        forall|j: int| 0 <= j < i ==> a[j] == b[j],
    ensures
        text_less(a, b) == text_less(a.skip(i), b.skip(i)),
    decreases i,
{
    if i > 0 {
        assert forall|j: int| 0 <= j < i - 1 implies a.drop_first()[j] == b.drop_first()[j] by {
            assert(a.drop_first()[j] == a[j + 1]);
            assert(b.drop_first()[j] == b[j + 1]);
        }
        lemma_text_less_from(a.drop_first(), b.drop_first(), i - 1);
        assert(a.drop_first().skip(i - 1) =~= a.skip(i));
        assert(b.drop_first().skip(i - 1) =~= b.skip(i));
    } else {
        assert(a.skip(0) =~= a);
        assert(b.skip(0) =~= b);
    }
}


/// Whether two character vectors hold the same characters.
pub fn same_chars(a: &Vec<char>, b: &Vec<char>) -> (r: bool)
    ensures
        r == (a@ == b@),
{
    if a.len() != b.len() {
        return false;
    }
    let mut i: usize = 0;
    while i < a.len()
        invariant
            a@.len() == b@.len(),
            i <= a@.len(),
            forall|j: int| 0 <= j < i ==> a@[j] == b@[j],
        decreases a@.len() - i,
    {
        if a[i] != b[i] {
            return false;
        }
        i = i + 1;
    }
    assert(a@ =~= b@);
    true
}

/// The first `k` characters.
pub fn take_chars(x: &Vec<char>, k: usize) -> (r: Vec<char>)
    requires
        k <= x@.len(),
    ensures
        r@ == x@.take(k as int),
{
    let mut out: Vec<char> = Vec::new();
    let mut i: usize = 0;
    while i < k
        invariant
            k <= x@.len(),
            i <= k,
            out@ == x@.take(i as int),
        decreases k - i,
    {
        out.push(x[i]);
        assert(out@ =~= x@.take(i + 1));
        i = i + 1;
    }
    out
}

/// The characters from position `k` on.
pub fn skip_chars(x: &Vec<char>, k: usize) -> (r: Vec<char>)
    requires
        k <= x@.len(),
    ensures
        r@ == x@.skip(k as int),
{
    let mut out: Vec<char> = Vec::new();
    let mut i: usize = k;
    while i < x.len()
        invariant
            k <= i <= x@.len(),
            out@ == x@.subrange(k as int, i as int),
        decreases x@.len() - i,
    {
        out.push(x[i]);
        assert(out@ =~= x@.subrange(k as int, i + 1));
        i = i + 1;
    }
    assert(out@ =~= x@.skip(k as int));
    out
}

/// Whether `s` begins with `p`.
pub fn chars_have_prefix(s: &Vec<char>, p: &Vec<char>) -> (r: bool)
    ensures
        r == has_prefix(s@, p@),
{
    if p.len() > s.len() {
        return false;
    }
    let front = take_chars(s, p.len());
    same_chars(&front, p)
}

/// Whether `s` ends with `p`.
pub fn chars_have_suffix(s: &Vec<char>, p: &Vec<char>) -> (r: bool)
    ensures
        r == has_suffix(s@, p@),
{
    if p.len() > s.len() {
        return false;
    }
    let back = skip_chars(s, s.len() - p.len());
    same_chars(&back, p)
}


/// The pieces of `s` between occurrences of `c` (`str::split`).
pub open spec fn pieces(s: Seq<char>, c: char) -> Seq<Seq<char>>
    decreases s.len(),
{
    match split_once(s, c) {
        Some(p) => {
            proof {
                lemma_first_index(s, c);
            }
            seq![p.0] + pieces(p.1, c)
        },
        None => seq![s],
    }
}

/// The text before the first `c`, or all of it.
pub open spec fn first_piece(s: Seq<char>, c: char) -> Seq<char> {
    match split_once(s, c) {
        Some(p) => p.0,
        None => s,
    }
}

/// `s.split(c)` as owned strings.
pub fn split_all(s: &str, c: char) -> (r: Vec<String>)
    ensures
        views(r@) == pieces(s@, c),
    decreases s@.len(),
{
    proof {
        lemma_first_index(s@, c);
    }
    match split_once_char(s, c) {
        Some(parts) => {
            let rest = split_all(parts.1.as_str(), c);
            let mut out: Vec<String> = Vec::new();
            out.push(parts.0);
            let mut i: usize = 0;
            while i < rest.len()
                invariant
                    i <= rest@.len(),
                    out@.len() == i + 1,
                    out@[0]@ == first_piece(s@, c),
                    forall|j: int| 0 <= j < i ==> #[trigger] out@[j + 1]@ == rest@[j]@,
                decreases rest@.len() - i,
            {
                out.push(copy_string(&rest[i]));
                i = i + 1;
            }
            assert(views(out@) =~= seq![first_piece(s@, c)] + views(rest@)) by {
                assert forall|j: int| 0 <= j < out@.len() implies views(out@)[j] == (seq![first_piece(s@, c)] + views(rest@))[j] by {
                    if j > 0 {
                        assert(out@[(j - 1) + 1]@ == rest@[j - 1]@);
                    }
                }
            }
            out
        },
        None => {
            let mut out: Vec<String> = Vec::new();
            out.push(String::from_str(s));
            assert(views(out@) =~= seq![s@]);
            out
        },
    }
}

} // verus!
