//! Unix paths as `std::path` reads them: components, the file name and its
//! stem and extension, and replacing the file name.
use vstd::prelude::*;
use crate::text::{
    append_chars, chars_of, contains, copy_range, lemma_rfind_at, rfind, rfind_chars, string_of,
};

verus! {

/// The text of each string of a list.
pub open spec fn texts(v: Seq<String>) -> Seq<Seq<char>> {
    v.map_values(|s: String| s@)
}

/// The `/`-separated parts of `p[start..]`, the part under way starting at
/// `start` and the scan at `i`.
pub open spec fn slash_parts(p: Seq<char>, start: int, i: int) -> Seq<Seq<char>>
    decreases p.len() - i,
{
    if i < start || i >= p.len() {
        seq![p.subrange(start, p.len() as int)]
    } else if p[i] == '/' {
        seq![p.subrange(start, i)] + slash_parts(p, i + 1, i + 1)
    } else {
        slash_parts(p, start, i + 1)
    }
}

/// The components of a Unix path, each as text, as `std::path::Path::components`
/// yields them: `/` for a leading root; `.` when the path starts with a `.`
/// part (a current-directory component kept only there); then every
/// `/`-separated part other than an empty one or `.` (so repeated and
/// trailing separators and inner `.` parts vanish, and `..` stays).
pub open spec fn path_components(p: Seq<char>) -> Seq<Seq<char>> {
    let rooted = p.len() > 0 && p[0] == '/';
    let cur = !rooted && p.len() > 0 && p[0] == '.' && (p.len() == 1 || p[1] == '/');
    (if rooted { seq![seq!['/']] } else { Seq::empty() }) + (if cur { seq![seq!['.']] } else { Seq::empty() })
        + slash_parts(p, 0, 0).filter(|part: Seq<char>| part.len() > 0 && part != seq!['.'])
}

/// Splits a path into its components (std `Path::components`, on Unix): see
/// `path_components`.
#[verifier::external_body]
pub(crate) fn components_of(p: &str) -> (r: Vec<String>)
    ensures
        r@.map_values(|s: String| s@) == path_components(p@),
{
    std::path::Path::new(p).components().map(|c| c.as_os_str().to_string_lossy().into_owned()).collect()
}

/// Whether a component is an ordinary name (not the root, `.` or `..`).
pub open spec fn is_normal_component(c: Seq<char>) -> bool {
    c != seq!['/'] && c != seq!['.'] && c != seq!['.', '.']
}

/// `Path::file_name`: the last component, when it is an ordinary name.
pub open spec fn file_name_of(p: Seq<char>) -> Option<Seq<char>> {
    let c = path_components(p);
    if c.len() > 0 && is_normal_component(c.last()) {
        Some(c.last())
    } else {
        None
    }
}

/// Where a file name splits into stem and extension: at its last `.`,
/// unless that is its first character.
pub open spec fn ext_dot(n: Seq<char>) -> Option<int> {
    match rfind(n, seq!['.']) {
        Some(i) => if i > 0 {
            Some(i)
        } else {
            None
        },
        None => None,
    }
}

/// `Path::file_stem`: the file name up to its extension's `.` (the whole
/// name when it has no extension).
pub open spec fn path_stem(p: Seq<char>) -> Option<Seq<char>> {
    match file_name_of(p) {
        Some(n) => match ext_dot(n) {
            Some(i) => Some(n.take(i)),
            None => Some(n),
        },
        None => None,
    }
}

/// `Path::extension`: the file name after its last `.`, when that `.` is not
/// its first character.
pub open spec fn path_extension(p: Seq<char>) -> Option<Seq<char>> {
    match file_name_of(p) {
        Some(n) => match ext_dot(n) {
            Some(i) => Some(n.skip(i + 1)),
            None => None,
        },
        None => None,
    }
}

/// The text of an optional string.
pub open spec fn opt_text(o: Option<String>) -> Option<Seq<char>> {
    match o {
        Some(s) => Some(s@),
        None => None,
    }
}

/// The `/`-separated parts hold no `/`.
proof fn lemma_slash_parts_plain(p: Seq<char>, start: int, i: int)
    requires
        0 <= start <= i <= p.len(),
        forall|k: int| start <= k < i ==> p[k] != '/',
    ensures
        forall|j: int| 0 <= j < slash_parts(p, start, i).len() ==> !contains(
            #[trigger] slash_parts(p, start, i)[j],
            seq!['/'],
        ),
    decreases p.len() - i,
{
    if i >= p.len() {
        lemma_no_slash(p.subrange(start, p.len() as int));
        assert(slash_parts(p, start, i) =~= seq![p.subrange(start, p.len() as int)]);
    } else if p[i] == '/' {
        lemma_no_slash(p.subrange(start, i));
        lemma_slash_parts_plain(p, i + 1, i + 1);
        let rest = slash_parts(p, i + 1, i + 1);
        assert forall|j: int| 0 <= j < slash_parts(p, start, i).len() implies !contains(
            #[trigger] slash_parts(p, start, i)[j],
            seq!['/'],
        ) by {
            assert(slash_parts(p, start, i) =~= seq![p.subrange(start, i)] + rest);
            if j > 0 {
                assert(slash_parts(p, start, i)[j] == rest[j - 1]);
            }
        }
    } else {
        lemma_slash_parts_plain(p, start, i + 1);
        assert(slash_parts(p, start, i) == slash_parts(p, start, i + 1));
    }
}

proof fn lemma_no_slash(s: Seq<char>)
    requires
        forall|k: int| 0 <= k < s.len() ==> s[k] != '/',
    ensures
        !contains(s, seq!['/']),
{
    assert forall|k: int| !#[trigger] crate::text::matches_at(s, seq!['/'], k) by {
        if crate::text::matches_at(s, seq!['/'], k) {
            assert(s.subrange(k, k + 1)[0] == s[k]);
        }
    }
}

/// A file name holds no `/`.
pub proof fn lemma_file_name_plain(p: Seq<char>)
    ensures
        file_name_of(p) matches Some(n) ==> n.len() > 0 && !contains(n, seq!['/']),
{
    if let Some(n) = file_name_of(p) {
        let parts = slash_parts(p, 0, 0);
        lemma_slash_parts_plain(p, 0, 0);
        let f = parts.filter(|part: Seq<char>| part.len() > 0 && part != seq!['.']);
        assert(f == parts.filter(|part: Seq<char>| part.len() > 0 && part != seq!['.']));
        let c = path_components(p);
        let rooted = p.len() > 0 && p[0] == '/';
        let cur = !rooted && p.len() > 0 && p[0] == '.' && (p.len() == 1 || p[1] == '/');
        let head = (if rooted { seq![seq!['/']] } else { Seq::<Seq<char>>::empty() }) + (if cur { seq![seq!['.']] } else { Seq::<Seq<char>>::empty() });
        assert(c == head + f);
        if f.len() == 0 {
            assert(c =~= head);
            assert(false);
        }
        assert(c.last() == f.last());
        let pred = |part: Seq<char>| part.len() > 0 && part != seq!['.'];
        assert(f.contains(f.last())) by {
            assert(f[f.len() - 1] == f.last());
        }
        parts.lemma_filter_contains_rev(pred, f.last());
        parts.lemma_filter_pred(pred, f.len() - 1);
        let j = choose|j: int| 0 <= j < parts.len() && parts[j] == f.last();
        assert(!contains(parts[j], seq!['/']));
    }
}

/// A name that `with_file_name` takes as the new last component: not empty,
/// not `.` or `..`, and without `/`.
pub open spec fn is_plain_name(n: Seq<char>) -> bool {
    n.len() > 0 && n != seq!['.'] && n != seq!['.', '.'] && !contains(n, seq!['/'])
}

/// What `Path::with_file_name` makes of a path and a new file name.
pub uninterp spec fn path_with_file_name(p: Seq<char>, name: Seq<char>) -> Seq<char>;

/// Replaces the file name of a path (std `Path::with_file_name`). The text
/// of the result is named `path_with_file_name`; what is stated of it is
/// that, for a path that has a file name and a plain new name, its
/// components are those of the path with the last one replaced by the new
/// name (the documented effect: the file name is popped, then the name is
/// pushed). The exact text (which separator is kept) is left to the name.
#[verifier::external_body]
pub(crate) fn with_file_name(p: &str, name: &str) -> (r: String)
    ensures
        r@ == path_with_file_name(p@, name@),
        file_name_of(p@) is Some && is_plain_name(name@) ==> path_components(r@) == path_components(
            p@,
        ).drop_last().push(name@),
{
    std::path::Path::new(p).with_file_name(name).to_string_lossy().into_owned()
}

/// The file name of a path and where it splits into stem and extension, as
/// `Path::file_stem` and `Path::extension` read it.
pub fn file_stem_and_extension(path: &str) -> (r: (Option<String>, Option<String>))
    ensures
        opt_text(r.0) == path_stem(path@),
        opt_text(r.1) == path_extension(path@),
{
    let comps = components_of(path);
    proof {
        assert(texts(comps@).len() == comps@.len());
    }
    if comps.len() == 0 {
        return (None, None);
    }
    let last = chars_of(comps[comps.len() - 1].as_str());
    proof {
        assert(texts(comps@).last() == last@);
    }
    let n = last.len();
    if (n == 1 && last[0] == '/') || (n == 1 && last[0] == '.') || (n == 2 && last[0] == '.' && last[1] == '.') {
        proof {
            if n == 1 {
                assert(last@ =~= seq![last@[0]]);
            } else {
                assert(last@ =~= seq![last@[0], last@[1]]);
            }
        }
        return (None, None);
    }
    assert(is_normal_component(last@)) by {
        if last@ == seq!['/'] || last@ == seq!['.'] {
            assert(last@.len() == 1 && last@[0] == last@[0]);
        }
    }
    let dot = vec!['.'];
    assert(dot@ =~= seq!['.']);
    match rfind_chars(&last, &dot) {
        Some(i) => {
            if i > 0 {
                proof {
                    lemma_rfind_at(last@, seq!['.'], last@.len() - 1);
                }
                let stem = copy_range(&last, 0, i);
                let ext = copy_range(&last, i + 1, n);
                assert(stem@ =~= last@.take(i as int));
                assert(ext@ =~= last@.skip(i + 1));
                (Some(string_of(&stem)), Some(string_of(&ext)))
            } else {
                (Some(string_of(&last)), None)
            }
        },
        None => (Some(string_of(&last)), None),
    }
}

} // verus!
