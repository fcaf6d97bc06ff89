//! File paths as the analyzer reads them: `/`-separated components, the
//! module a source file defines, and whether a file is Python source.
use vstd::prelude::*;

use crate::config::ResolvedRoot;
use crate::text::{
    chars_of, ends_with, has_suffix, join_dot, lemma_first_index, lemma_last_index, rsplit_once, rsplit_once_char,
    same_text, slice_string, split_once, split_once_char, string_of, views,
};

verus! {

/// The pieces of `s` between `/` separators, empty ones included.
pub open spec fn segments(s: Seq<char>) -> Seq<Seq<char>>
    decreases s.len(),
{
    match split_once(s, '/') {
        Some(p) => {
            proof {
                lemma_first_index(s, '/');
            }
            seq![p.0] + segments(p.1)
        },
        None => seq![s],
    }
}

/// The segments that are components: not empty, and not `.` unless the
/// path is relative and the `.` comes first.
pub open spec fn kept(segs: Seq<Seq<char>>, absolute: bool) -> Seq<Seq<char>>
    decreases segs.len(),
{
    if segs.len() == 0 {
        Seq::empty()
    } else {
        let rest = kept(segs.drop_last(), absolute);
        let seg = segs.last();
        if seg.len() == 0 || (seg == seq!['.'] && (segs.len() > 1 || absolute)) {
            rest
        } else {
            rest.push(seg)
        }
    }
}

/// The path starts at the root.
pub open spec fn is_absolute(s: Seq<char>) -> bool {
    s.len() > 0 && s[0] == '/'
}

/// The components of a `/`-separated path, as `Path::iter` gives them: the
/// root `/` first for an absolute path, then the named parts.
pub open spec fn path_parts(s: Seq<char>) -> Seq<Seq<char>> {
    if is_absolute(s) {
        seq![seq!['/']] + kept(segments(s), true)
    } else {
        kept(segments(s), false)
    }
}

/// The text before the first `/`.
pub open spec fn before_slash(s: Seq<char>) -> Seq<char> {
    match split_once(s, '/') {
        Some(p) => p.0,
        None => s,
    }
}

fn split_segments(s: &str) -> (r: Vec<String>)
    ensures
        views(r@) == segments(s@),
    decreases s@.len(),
{
    proof {
        lemma_first_index(s@, '/');
    }
    match split_once_char(s, '/') {
        Some(parts) => {
            let rest = split_segments(parts.1.as_str());
            let mut out: Vec<String> = Vec::new();
            out.push(parts.0);
            let mut i: usize = 0;
            while i < rest.len()
                invariant
                    i <= rest@.len(),
                    out@.len() == i + 1,
                    out@[0]@ == before_slash(s@),
                    forall|j: int| 0 <= j < i ==> #[trigger] out@[j + 1]@ == rest@[j]@,
                decreases rest@.len() - i,
            {
                out.push(crate::text::copy_string(&rest[i]));
                i = i + 1;
            }
            assert(views(out@) =~= seq![before_slash(s@)] + views(rest@)) by {
                assert forall|j: int| 0 <= j < out@.len() implies views(out@)[j] == (seq![before_slash(s@)] + views(rest@))[j] by {
                    if j > 0 {
                        assert(out@[(j - 1) + 1]@ == rest@[j - 1]@);
                    }
                }
            }
            out
        },
        None => {
            let mut out: Vec<String> = Vec::new();
            out.push(String::from_str(s));
            assert(views(out@) =~= seq![s@]);
            out
        },
    }
}

/// The components of a path (`Path::iter`).
pub fn path_components(s: &str) -> (r: Vec<String>)
    ensures
        views(r@) == path_parts(s@),
{
    let segs = split_segments(s);
    let x = chars_of(s);
    let absolute = x.len() > 0 && x[0] == '/';
    let mut out: Vec<String> = Vec::new();
    if absolute {
        let mut root = Vec::new();
        root.push('/');
        out.push(string_of(&root));
    }
    let ghost start = views(out@);
    let mut i: usize = 0;
    assert(segs@.take(0) =~= Seq::<String>::empty());
    assert(views(segs@).take(0) =~= Seq::<Seq<char>>::empty());
    while i < segs.len()
        invariant
            i <= segs@.len(),
            x@ == s@,
            absolute == is_absolute(s@),
            views(segs@) == segments(s@),
            start == (if absolute { seq![seq!['/']] } else { Seq::<Seq<char>>::empty() }),
            views(out@) == start + kept(views(segs@).take(i as int), absolute),
        decreases segs@.len() - i,
    {
        let seg = segs[i].as_str();
        let n = seg.unicode_len();
        let ghost t = views(segs@).take(i + 1);
        assert(t.drop_last() =~= views(segs@).take(i as int));
        assert(t.last() == seg@);
        let dot = n == 1 && seg.get_char(0) == '.';
        assert(dot == (seg@ == seq!['.'])) by {
            if n == 1 {
                assert(seg@ =~= seq![seg@[0]]);
            }
        }
        if n == 0 || (dot && (i > 0 || absolute)) {
        } else {
            let ghost before = views(out@);
            out.push(String::from_str(seg));
            assert(views(out@) =~= before.push(seg@));
        }
        i = i + 1;
    }
    assert(views(segs@).take(segs@.len() as int) =~= views(segs@));
    out
}

/// `b` begins with the components of `a`.
pub open spec fn parts_prefix(a: Seq<Seq<char>>, b: Seq<Seq<char>>) -> bool {
    a.len() <= b.len() && b.take(a.len() as int) == a
}

/// The components of `file` below `base` (`Path::strip_prefix`), or all of
/// them when `file` does not lie below `base`.
pub open spec fn relative_parts(base: Seq<char>, file: Seq<char>) -> Seq<Seq<char>> {
    if parts_prefix(path_parts(base), path_parts(file)) {
        path_parts(file).skip(path_parts(base).len() as int)
    } else {
        path_parts(file)
    }
}

fn parts_begin_with(a: &Vec<String>, b: &Vec<String>) -> (r: bool)
    ensures
        r == parts_prefix(views(a@), views(b@)),
{
    if a.len() > b.len() {
        return false;
    }
    let mut i: usize = 0;
    while i < a.len()
        invariant
            a@.len() <= b@.len(),
            i <= a@.len(),
            forall|j: int| 0 <= j < i ==> a@[j]@ == b@[j]@,
        decreases a@.len() - i,
    {
        if !same_text(a[i].as_str(), b[i].as_str()) {
            assert(views(b@).take(a@.len() as int)[i as int] != views(a@)[i as int]);
            return false;
        }
        i = i + 1;
    }
    assert(views(b@).take(a@.len() as int) =~= views(a@));
    true
}

/// `relative_parts`
pub fn relative_components(base: &str, file: &str) -> (r: Vec<String>)
    ensures
        views(r@) == relative_parts(base@, file@),
{
    let b = path_components(base);
    let f = path_components(file);
    if !parts_begin_with(&b, &f) {
        return f;
    }
    let mut out: Vec<String> = Vec::new();
    let mut i: usize = b.len();
    while i < f.len()
        invariant
            b@.len() <= i <= f@.len(),
            out@.len() == i - b@.len(),
            forall|j: int| 0 <= j < out@.len() ==> #[trigger] out@[j]@ == f@[b@.len() + j]@,
        decreases f@.len() - i,
    {
        out.push(crate::text::copy_string(&f[i]));
        i = i + 1;
    }
    assert(views(out@) =~= views(f@).skip(b@.len() as int));
    out
}

/// A file name without its `.py` ending.
pub open spec fn without_py(part: Seq<char>) -> Seq<char> {
    if has_suffix(part, seq!['.', 'p', 'y']) {
        part.take(part.len() - 3)
    } else {
        part
    }
}

pub fn strip_py_extension(part: &str) -> (r: String)
    ensures
        r@ == without_py(part@),
{
    let mut chars = Vec::new();
    chars.push('.');
    chars.push('p');
    chars.push('y');
    assert(chars@ =~= seq!['.', 'p', 'y']);
    let ext = string_of(&chars);
    if ends_with(part, ext.as_str()) {
        let n = part.unicode_len();
        let r = slice_string(part, 0, n - 3);
        assert(r@ =~= part@.take(part@.len() - 3));
        r
    } else {
        String::from_str(part)
    }
}

/// The module path pieces that components give: each without `.py`, and
/// `__init__` left out.
pub open spec fn module_pieces(parts: Seq<Seq<char>>) -> Seq<Seq<char>>
    decreases parts.len(),
{
    if parts.len() == 0 {
        Seq::empty()
    } else {
        let rest = module_pieces(parts.drop_last());
        let piece = without_py(parts.last());
        if piece == "__init__"@ {
            rest
        } else {
            rest.push(piece)
        }
    }
}

/// `first` followed by each of `pieces`, joined by dots.
pub open spec fn dot_join(first: Seq<char>, pieces: Seq<Seq<char>>) -> Seq<char>
    decreases pieces.len(),
{
    if pieces.len() == 0 {
        first
    } else {
        crate::text::dotted(dot_join(first, pieces.drop_last()), pieces.last())
    }
}

/// The module a source file under a root defines: the root's module, then
/// the file's path below the root without `.py`, `__init__` left out, joined
/// by dots.
pub fn module_name_for_file(root: &ResolvedRoot, file: &str) -> (r: String)
    ensures
        r@ == dot_join(root.module@, module_pieces(relative_parts(root.path@, file@))),
{
    let parts = relative_components(root.path.as_str(), file);
    let mut out = crate::text::copy_string(&root.module);
    let mut i: usize = 0;
    assert(views(parts@).take(0) =~= Seq::<Seq<char>>::empty());
    while i < parts.len()
        invariant
            i <= parts@.len(),
            out@ == dot_join(root.module@, module_pieces(views(parts@).take(i as int))),
        decreases parts@.len() - i,
    {
        let ghost t = views(parts@).take(i + 1);
        assert(t.drop_last() =~= views(parts@).take(i as int));
        assert(t.last() == parts@[i as int]@);
        let piece = strip_py_extension(parts[i].as_str());
        if !same_text(piece.as_str(), "__init__") {
            let ghost before = module_pieces(views(parts@).take(i as int));
            out = join_dot(out.as_str(), piece.as_str());
            assert(module_pieces(t) == before.push(piece@));
            assert(module_pieces(t).drop_last() =~= before);
        }
        i = i + 1;
    }
    assert(views(parts@).take(parts@.len() as int) =~= views(parts@));
    out
}

/// The last component of a path when it names a file or directory
/// (`Path::file_name`).
pub open spec fn file_name(path: Seq<char>) -> Option<Seq<char>> {
    let parts = path_parts(path);
    if parts.len() == 0 {
        None
    } else {
        let last = parts.last();
        if last == seq!['/'] || last == seq!['.'] || last == seq!['.', '.'] {
            None
        } else {
            Some(last)
        }
    }
}

/// What follows the last dot of a file name that does not start with its
/// only dot (`Path::extension`).
pub open spec fn extension(path: Seq<char>) -> Option<Seq<char>> {
    match file_name(path) {
        None => None,
        Some(name) => match rsplit_once(name, '.') {
            Some(p) => if p.0.len() == 0 {
                None
            } else {
                Some(p.1)
            },
            None => None,
        },
    }
}

/// The file is Python source: its extension is `py` or `pyi`.
pub fn is_python_source(path: &str) -> (r: bool)
    ensures
        r == (extension(path@) == Some(seq!['p', 'y']) || extension(path@) == Some(seq!['p', 'y', 'i'])),
{
    let parts = path_components(path);
    if parts.len() == 0 {
        return false;
    }
    let last = parts[parts.len() - 1].as_str();
    let x = chars_of(last);
    let special = (x.len() == 1 && (x[0] == '/' || x[0] == '.')) || (x.len() == 2 && x[0] == '.' && x[1] == '.');
    assert(special == (last@ == seq!['/'] || last@ == seq!['.'] || last@ == seq!['.', '.'])) by {
        if x.len() == 1 {
            assert(last@ =~= seq![x@[0]]);
        }
        if x.len() == 2 {
            assert(last@ =~= seq![x@[0], x@[1]]);
        }
    }
    assert(views(parts@).last() == last@);
    if special {
        return false;
    }
    proof {
        lemma_last_index(last@, '.');
    }
    match rsplit_once_char(last, '.') {
        Some(p) => {
            if p.0.unicode_len() == 0 {
                return false;
            }
            let e = chars_of(p.1.as_str());
            let py = e.len() == 2 && e[0] == 'p' && e[1] == 'y';
            let pyi = e.len() == 3 && e[0] == 'p' && e[1] == 'y' && e[2] == 'i';
            assert(py == (p.1@ == seq!['p', 'y'])) by {
                if e.len() == 2 {
                    assert(p.1@ =~= seq![e@[0], e@[1]]);
                }
            }
            assert(pyi == (p.1@ == seq!['p', 'y', 'i'])) by {
                if e.len() == 3 {
                    assert(p.1@ =~= seq![e@[0], e@[1], e@[2]]);
                }
            }
            py || pyi
        },
        None => false,
    }
}

} // verus!
