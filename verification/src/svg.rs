//! SVG metadata: XML entity decoding, the flat JSON reader used for
//! `<dc:description>` payloads, and the tag scanner that turns leaf elements
//! into metadata entries.
use vstd::prelude::*;
use crate::model::{entries_view, MetadataEntry};
use crate::text::{
    append_chars, char_from_u32, char_to_uppercase, char_utf8_width, chars_equal,
    chars_of, contains, contains_chars, copy_range, ends_with, ends_with_chars, find_chars,
    find_from, is_whitespace, is_ws, lemma_find_from, lemma_rfind_at, lemma_ws_start_bounds,
    matches_at, parse_u32, parse_u32_radix, rfind, rfind_chars, scalar_char, skip_ws,
    starts_with, starts_with_chars, string_of, trim, trim_chars, trim_end_char,
    trim_end_matches_char, upper_char, utf8_width, ws_end, ws_start,
};

verus! {

/// Nesting below this many levels of JSON objects is refused.
pub const MAX_JSON_RECURSION_DEPTH: usize = 8;

/// Key/value pairs as text.
pub type Pairs = Seq<(Seq<char>, Seq<char>)>;

/// The text of a list of pairs of character vectors.
pub open spec fn char_pairs_view(v: Seq<(Vec<char>, Vec<char>)>) -> Pairs {
    v.map_values(|p: (Vec<char>, Vec<char>)| (p.0@, p.1@))
}

/// The text of a list of pairs of strings.
pub open spec fn string_pairs_view(v: Seq<(String, String)>) -> Pairs {
    v.map_values(|p: (String, String)| (p.0@, p.1@))
}

// ---------------------------------------------------------------------------
// The JSON reader, as a function of the text
// ---------------------------------------------------------------------------

/// The position after the whitespace and commas that start at `i`.
pub open spec fn skip_sep(c: Seq<char>, i: int) -> int
    decreases c.len() - i,
{
    if 0 <= i < c.len() && (is_ws(c[i]) || c[i] == ',') {
        skip_sep(c, i + 1)
    } else {
        i
    }
}

/// The character that a backslash escape stands for (`\n`, `\r`, `\t`; any
/// other character stands for itself).
pub open spec fn escaped(x: char) -> char {
    if x == 'n' {
        '\n'
    } else if x == 'r' {
        '\r'
    } else if x == 't' {
        '\t'
    } else {
        x
    }
}

/// A quoted key read from `i`: its decoded text, and the position of the
/// closing quote (or the end of the text).
pub open spec fn scan_key(c: Seq<char>, i: int) -> (Seq<char>, int)
    decreases c.len() - i,
{
    if i < 0 || i >= c.len() || c[i] == '"' {
        (Seq::empty(), i)
    } else if c[i] == '\\' && i + 1 < c.len() {
        let r = scan_key(c, i + 2);
        (seq![escaped(c[i + 1])] + r.0, r.1)
    } else {
        let r = scan_key(c, i + 1);
        (seq![c[i]] + r.0, r.1)
    }
}

/// The character of a `\uXXXX` escape whose `u` is at `i`: nothing when the
/// four characters are no hexadecimal number or no scalar value.
pub open spec fn unicode_escape(c: Seq<char>, i: int) -> Seq<char> {
    match parse_u32_radix(c.subrange(i + 1, i + 5), 16) {
        Some(code) => match scalar_char(code) {
            Some(ch) => seq![ch],
            None => Seq::empty(),
        },
        None => Seq::empty(),
    }
}

/// A quoted string value read from `i`: its decoded text, and the position of
/// the closing quote (or the end of the text).
pub open spec fn scan_string(c: Seq<char>, i: int) -> (Seq<char>, int)
    decreases c.len() - i,
{
    if i < 0 || i >= c.len() || c[i] == '"' {
        (Seq::empty(), i)
    } else if c[i] == '\\' && i + 1 < c.len() {
        if c[i + 1] == 'u' && i + 5 < c.len() {
            let r = scan_string(c, i + 6);
            (unicode_escape(c, i + 1) + r.0, r.1)
        } else {
            let r = scan_string(c, i + 2);
            (seq![escaped(c[i + 1])] + r.0, r.1)
        }
    } else {
        let r = scan_string(c, i + 1);
        (seq![c[i]] + r.0, r.1)
    }
}

/// The end of a nested object: the position after the brace that brings the
/// brace count `d` back to zero, counting only braces outside quotes (a quote
/// after a backslash does not count), or the end of the text.
pub open spec fn obj_scan(c: Seq<char>, i: int, d: int, in_str: bool) -> int
    decreases c.len() - i,
{
    if i < 0 || i >= c.len() {
        i
    } else if c[i] == '"' && (i == 0 || c[i - 1] != '\\') {
        obj_scan(c, i + 1, d, !in_str)
    } else if !in_str && c[i] == '{' {
        obj_scan(c, i + 1, d + 1, in_str)
    } else if !in_str && c[i] == '}' {
        if d - 1 == 0 {
            i + 1
        } else {
            obj_scan(c, i + 1, d - 1, in_str)
        }
    } else {
        obj_scan(c, i + 1, d, in_str)
    }
}

/// The end of a bare value: the first comma, closing brace or whitespace.
pub open spec fn bare_end(c: Seq<char>, i: int) -> int
    decreases c.len() - i,
{
    if 0 <= i < c.len() && c[i] != ',' && c[i] != '}' && !is_ws(c[i]) {
        bare_end(c, i + 1)
    } else {
        i
    }
}

/// The pairs of a nested object, with the outer key and `/` before each key.
pub open spec fn prefixed(key: Seq<char>, sub: Pairs) -> Pairs {
    sub.map_values(|p: (Seq<char>, Seq<char>)| (key + seq!['/'] + p.0, p.1))
}

pub proof fn lemma_skip_sep_bounds(c: Seq<char>, i: int)
    requires
        0 <= i <= c.len(),
    ensures
        i <= skip_sep(c, i) <= c.len(),
    decreases c.len() - i,
{
    if i < c.len() && (is_ws(c[i]) || c[i] == ',') {
        lemma_skip_sep_bounds(c, i + 1);
    }
}

pub proof fn lemma_scan_key_bounds(c: Seq<char>, i: int)
    requires
        0 <= i <= c.len(),
    ensures
        i <= scan_key(c, i).1 <= c.len(),
    decreases c.len() - i,
{
    if i >= c.len() || c[i] == '"' {
    } else if c[i] == '\\' && i + 1 < c.len() {
        lemma_scan_key_bounds(c, i + 2);
    } else {
        lemma_scan_key_bounds(c, i + 1);
    }
}

pub proof fn lemma_scan_string_bounds(c: Seq<char>, i: int)
    requires
        0 <= i <= c.len(),
    ensures
        i <= scan_string(c, i).1 <= c.len(),
    decreases c.len() - i,
{
    if i >= c.len() || c[i] == '"' {
    } else if c[i] == '\\' && i + 1 < c.len() {
        if c[i + 1] == 'u' && i + 5 < c.len() {
            lemma_scan_string_bounds(c, i + 6);
        } else {
            lemma_scan_string_bounds(c, i + 2);
        }
    } else {
        lemma_scan_string_bounds(c, i + 1);
    }
}

pub proof fn lemma_obj_scan_bounds(c: Seq<char>, i: int, d: int, in_str: bool)
    requires
        0 <= i <= c.len(),
    ensures
        i <= obj_scan(c, i, d, in_str) <= c.len(),
    decreases c.len() - i,
{
    if i >= c.len() {
    } else if c[i] == '"' && (i == 0 || c[i - 1] != '\\') {
        lemma_obj_scan_bounds(c, i + 1, d, !in_str);
    } else if !in_str && c[i] == '{' {
        lemma_obj_scan_bounds(c, i + 1, d + 1, in_str);
    } else if !in_str && c[i] == '}' {
        if d - 1 != 0 {
            lemma_obj_scan_bounds(c, i + 1, d - 1, in_str);
        }
    } else {
        lemma_obj_scan_bounds(c, i + 1, d, in_str);
    }
}

pub proof fn lemma_bare_end_bounds(c: Seq<char>, i: int)
    requires
        0 <= i <= c.len(),
    ensures
        i <= bare_end(c, i) <= c.len(),
    decreases c.len() - i,
{
    if i < c.len() && c[i] != ',' && c[i] != '}' && !is_ws(c[i]) {
        lemma_bare_end_bounds(c, i + 1);
    }
}

/// A quoted text with no quote or backslash before its closing quote at `k`
/// reads as itself, as a key and as a string value.
pub proof fn lemma_scan_plain(c: Seq<char>, i: int, k: int)
    requires
        0 <= i <= k < c.len(),
        c[k] == '"',
        forall|m: int| i <= m < k ==> c[m] != '"' && c[m] != '\\',
    ensures
        scan_key(c, i) == (c.subrange(i, k), k),
        scan_string(c, i) == (c.subrange(i, k), k),
    decreases k - i,
{
    if i == k {
        assert(c.subrange(i, k) =~= Seq::empty());
    } else {
        lemma_scan_plain(c, i + 1, k);
        assert(seq![c[i]] + c.subrange(i + 1, k) =~= c.subrange(i, k));
    }
}

/// The members of an object whose text is `c`, read from position `i` on, at
/// nesting level `depth`: `None` where the text is malformed or nests too deep.
pub open spec fn json_members(c: Seq<char>, i: int, depth: int) -> Option<Pairs>
    decreases 9 - depth, c.len() - i,
{
    if depth > 8 {
        None
    } else if i < 0 || i >= c.len() {
        Some(Seq::empty())
    } else {
        let j = skip_sep(c, i);
        if j >= c.len() || c[j] == '}' {
            Some(Seq::empty())
        } else if c[j] != '"' {
            None
        } else {
            let sk = scan_key(c, j + 1);
            let key = sk.0;
            let k = sk.1;
            if k >= c.len() {
                None
            } else {
                let m = ws_start(c, k + 1);
                if m >= c.len() || c[m] != ':' {
                    None
                } else {
                    let v = ws_start(c, m + 1);
                    if v >= c.len() {
                        None
                    } else if c[v] == '"' {
                        let ss = scan_string(c, v + 1);
                        let e = ss.1;
                        let next = if e < c.len() {
                            e + 1
                        } else {
                            e
                        };
                        proof {
                            lemma_skip_sep_bounds(c, i);
                            lemma_scan_key_bounds(c, j + 1);
                            lemma_ws_start_bounds(c, k + 1);
                            lemma_ws_start_bounds(c, m + 1);
                            lemma_scan_string_bounds(c, v + 1);
                        }
                        match json_members(c, next, depth) {
                            Some(rest) => Some(seq![(key, ss.0)] + rest),
                            None => None,
                        }
                    } else if c[v] == '{' {
                        let e = obj_scan(c, v, 0, false);
                        proof {
                            lemma_skip_sep_bounds(c, i);
                            lemma_scan_key_bounds(c, j + 1);
                            lemma_ws_start_bounds(c, k + 1);
                            lemma_ws_start_bounds(c, m + 1);
                            lemma_obj_scan_bounds(c, v + 1, 1, false);
                        }
                        match json_object(c.subrange(v, e), depth + 1) {
                            Some(sub) => match json_members(c, e, depth) {
                                Some(rest) => Some(prefixed(key, sub) + rest),
                                None => None,
                            },
                            None => None,
                        }
                    } else {
                        let e = bare_end(c, v);
                        proof {
                            lemma_skip_sep_bounds(c, i);
                            lemma_scan_key_bounds(c, j + 1);
                            lemma_ws_start_bounds(c, k + 1);
                            lemma_ws_start_bounds(c, m + 1);
                            lemma_bare_end_bounds(c, v);
                        }
                        match json_members(c, e, depth) {
                            Some(rest) => Some(seq![(key, c.subrange(v, e))] + rest),
                            None => None,
                        }
                    }
                }
            }
        }
    }
}

/// What `parse_json_object` reads from a text at nesting level `depth`: the
/// flattened string pairs of one `{...}` object (nested objects contribute
/// their pairs under `outer/inner` keys), or `None` when the text, once
/// trimmed, is no brace-delimited object, is malformed, or nests objects more
/// than `MAX_JSON_RECURSION_DEPTH` levels deep.
pub open spec fn json_object(s: Seq<char>, depth: int) -> Option<Pairs>
    decreases 9 - depth, trim(s).len() + 1,
{
    if depth > 8 {
        None
    } else {
        let c = trim(s);
        if c.len() == 0 || c[0] != '{' || c.last() != '}' {
            None
        } else {
            json_members(c, 1, depth)
        }
    }
}

/// `acc` followed by the pairs of `rest`, if there are any.
pub open spec fn then_pairs(acc: Pairs, rest: Option<Pairs>) -> Option<Pairs> {
    match rest {
        Some(r) => Some(acc + r),
        None => None,
    }
}


/// Whether the members read from `i` end there: at the end of the text or at
/// a closing brace, after separators.
pub open spec fn members_done(c: Seq<char>, i: int) -> bool {
    i < 0 || i >= c.len() || skip_sep(c, i) >= c.len() || c[skip_sep(c, i)] == '}'
}

/// One member read from `i`: the pairs it contributes and the position after
/// it, or `None` where it is malformed.
pub open spec fn member_step(c: Seq<char>, i: int, depth: int) -> Option<(Pairs, int)> {
    let j = skip_sep(c, i);
    if c[j] != '"' {
        None
    } else {
        let sk = scan_key(c, j + 1);
        let key = sk.0;
        let k = sk.1;
        if k >= c.len() {
            None
        } else {
            let m = ws_start(c, k + 1);
            if m >= c.len() || c[m] != ':' {
                None
            } else {
                let v = ws_start(c, m + 1);
                if v >= c.len() {
                    None
                } else if c[v] == '"' {
                    let ss = scan_string(c, v + 1);
                    let e = ss.1;
                    let next = if e < c.len() {
                        e + 1
                    } else {
                        e
                    };
                    Some((seq![(key, ss.0)], next))
                } else if c[v] == '{' {
                    let e = obj_scan(c, v, 0, false);
                    match json_object(c.subrange(v, e), depth + 1) {
                        Some(sub) => Some((prefixed(key, sub), e)),
                        None => None,
                    }
                } else {
                    let e = bare_end(c, v);
                    Some((seq![(key, c.subrange(v, e))], e))
                }
            }
        }
    }
}

/// The members from `i` are the pairs of the member there and the members
/// after it; each member moves the position forward.
pub proof fn lemma_members_unfold(c: Seq<char>, i: int, depth: int)
    requires
        depth <= 8,
        0 <= i,
    ensures
        json_members(c, i, depth) == if members_done(c, i) {
            Some(Seq::empty())
        } else {
            match member_step(c, i, depth) {
                None => None,
                Some(st) => then_pairs(st.0, json_members(c, st.1, depth)),
            }
        },
        !members_done(c, i) ==> (member_step(c, i, depth) matches Some(st) ==> i < st.1 <= c.len()),
{
    if !members_done(c, i) {
        let j = skip_sep(c, i);
        lemma_skip_sep_bounds(c, i);
        if c[j] == '"' {
            let k = scan_key(c, j + 1).1;
            lemma_scan_key_bounds(c, j + 1);
            if k < c.len() {
                let m = ws_start(c, k + 1);
                lemma_ws_start_bounds(c, k + 1);
                if m < c.len() && c[m] == ':' {
                    let v = ws_start(c, m + 1);
                    lemma_ws_start_bounds(c, m + 1);
                    if v < c.len() {
                        if c[v] == '"' {
                            lemma_scan_string_bounds(c, v + 1);
                        } else if c[v] == '{' {
                            lemma_obj_scan_bounds(c, v + 1, 1, false);
                        } else {
                            lemma_bare_end_bounds(c, v);
                        }
                    }
                }
            }
        }
    }
}


/// The JSON escape of one character of a string: a backslash or a quote
/// gets a backslash before it.
pub open spec fn json_escape_char(c: char) -> Seq<char> {
    if c == '\\' || c == '"' {
        seq!['\\', c]
    } else {
        seq![c]
    }
}

/// A text as it stands between the quotes of a JSON string.
pub open spec fn json_escaped(t: Seq<char>) -> Seq<char>
    decreases t.len(),
{
    if t.len() == 0 {
        Seq::empty()
    } else {
        json_escape_char(t[0]) + json_escaped(t.drop_first())
    }
}

/// Reading an escaped text up to its closing quote gives the text back, as
/// a key and as a string value.
proof fn lemma_scan_escaped(pre: Seq<char>, t: Seq<char>, post: Seq<char>)
    ensures
        ({
            let c = pre + json_escaped(t) + seq!['"'] + post;
            &&& scan_key(c, pre.len() as int) == (t, pre.len() as int + json_escaped(t).len())
            &&& scan_string(c, pre.len() as int) == (t, pre.len() as int + json_escaped(t).len())
        }),
    decreases t.len(),
{
    let c = pre + json_escaped(t) + seq!['"'] + post;
    let i = pre.len() as int;
    if t.len() == 0 {
        assert(c[i] == '"');
        assert(t =~= Seq::<char>::empty());
    } else {
        let x = t[0];
        let e = json_escape_char(x);
        let tl = t.drop_first();
        let pre2 = pre + e;
        assert(c =~= pre2 + json_escaped(tl) + seq!['"'] + post);
        lemma_scan_escaped(pre2, tl, post);
        assert(c[i] == e[0]);
        if e.len() == 2 {
            assert(c[i + 1] == x);
        }
        assert(seq![x] + tl =~= t);
    }
}

/// Reading a one-member object whose key and string value are JSON-escaped
/// texts gives back exactly that key and that value: an escaped backslash
/// stands for one backslash, and what follows it is taken literally.
pub proof fn lemma_json_string_member_roundtrip(k: Seq<char>, t: Seq<char>)
    ensures
        json_object(
            seq!['{', '"'] + json_escaped(k) + seq!['"', ':', ' ', '"'] + json_escaped(t) + seq!['"', '}'],
            0,
        ) == Some(seq![(k, t)]),
{
    let ek = json_escaped(k);
    let et = json_escaped(t);
    let c = seq!['{', '"'] + ek + seq!['"', ':', ' ', '"'] + et + seq!['"', '}'];
    let kk = ek.len() as int;
    let tt = et.len() as int;
    assert(c.len() == 8 + kk + tt);
    assert(c[0] == '{');
    assert(c[c.len() - 1] == '}');
    assert(ws_start(c, 0) == 0);
    assert(ws_end(c, c.len() as int) == c.len());
    assert(trim(c) =~= c);
    lemma_scan_escaped(seq!['{', '"'], k, seq![':', ' ', '"'] + et + seq!['"', '}']);
    assert(c =~= seq!['{', '"'] + ek + seq!['"'] + (seq![':', ' ', '"'] + et + seq!['"', '}']));
    lemma_scan_escaped(seq!['{', '"'] + ek + seq!['"', ':', ' ', '"'], t, seq!['}']);
    assert(c =~= (seq!['{', '"'] + ek + seq!['"', ':', ' ', '"']) + et + seq!['"'] + seq!['}']);
    assert(c[1] == '"');
    assert(skip_sep(c, 1) == 1);
    assert(c[3 + kk] == ':');
    assert(ws_start(c, 3 + kk) == 3 + kk);
    assert(c[4 + kk] == ' ');
    assert(c[5 + kk] == '"');
    assert(ws_start(c, 5 + kk) == 5 + kk);
    assert(ws_start(c, 4 + kk) == 5 + kk);
    assert(c[7 + kk + tt] == '}');
    assert(skip_sep(c, 7 + kk + tt) == 7 + kk + tt);
    assert(json_members(c, 7 + kk + tt, 0) == Some(Seq::<(Seq<char>, Seq<char>)>::empty()));
    assert(json_members(c, 1, 0) == Some(seq![(k, t)] + Seq::<(Seq<char>, Seq<char>)>::empty()));
    assert(seq![(k, t)] + Seq::<(Seq<char>, Seq<char>)>::empty() =~= seq![(k, t)]);
}

/// Objects nested deeper than `MAX_JSON_RECURSION_DEPTH` are refused:
/// reading at a nesting level beyond it yields nothing, whatever the text.
pub proof fn lemma_json_depth_limit(s: Seq<char>, depth: int)
    requires
        depth > MAX_JSON_RECURSION_DEPTH,
    ensures
        json_object(s, depth) is None,
{
}

// ---------------------------------------------------------------------------
// The JSON reader
// ---------------------------------------------------------------------------

fn skip_sep_exec(c: &[char], i: usize) -> (r: usize)
    requires
        i <= c@.len(),
    ensures
        r == skip_sep(c@, i as int),
        i <= r <= c@.len(),
{
    let mut k = i;
    while k < c.len() && (is_whitespace(c[k]) || c[k] == ',')
        invariant
            i <= k <= c@.len(),
            skip_sep(c@, k as int) == skip_sep(c@, i as int),
        decreases c.len() - k,
    {
        k += 1;
    }
    k
}

fn escaped_exec(x: char) -> (r: char)
    ensures
        r == escaped(x),
{
    if x == 'n' {
        '\n'
    } else if x == 'r' {
        '\r'
    } else if x == 't' {
        '\t'
    } else {
        x
    }
}

fn scan_key_exec(c: &[char], i: usize) -> (r: (Vec<char>, usize))
    requires
        i <= c@.len(),
    ensures
        r.0@ == scan_key(c@, i as int).0,
        r.1 == scan_key(c@, i as int).1,
{
    let n = c.len();
    let mut out: Vec<char> = Vec::new();
    let mut p = i;
    while p < n && c[p] != '"'
        invariant
            i <= p <= n == c@.len(),
            out@ + scan_key(c@, p as int).0 == scan_key(c@, i as int).0,
            scan_key(c@, p as int).1 == scan_key(c@, i as int).1,
        decreases n - p,
    {
        let ghost old_out = out@;
        if c[p] == '\\' && p + 1 < n {
            out.push(escaped_exec(c[p + 1]));
            assert(old_out + scan_key(c@, p as int).0 =~= out@ + scan_key(c@, p + 2).0);
            p += 2;
        } else {
            out.push(c[p]);
            assert(old_out + scan_key(c@, p as int).0 =~= out@ + scan_key(c@, p + 1).0);
            p += 1;
        }
    }
    assert(out@ =~= scan_key(c@, i as int).0);
    (out, p)
}

fn unicode_escape_exec(c: &[char], i: usize) -> (r: Vec<char>)
    requires
        i + 5 <= c@.len(),
    ensures
        r@ == unicode_escape(c@, i as int),
{
    let n = c.len();
    let hex = copy_range(c, i + 1, i + 5);
    match parse_u32(&hex, 16) {
        Some(code) => match char_from_u32(code) {
            Some(ch) => vec![ch],
            None => Vec::new(),
        },
        None => Vec::new(),
    }
}

fn scan_string_exec(c: &[char], i: usize) -> (r: (Vec<char>, usize))
    requires
        i <= c@.len(),
    ensures
        r.0@ == scan_string(c@, i as int).0,
        r.1 == scan_string(c@, i as int).1,
{
    let n = c.len();
    let mut out: Vec<char> = Vec::new();
    let mut p = i;
    while p < n && c[p] != '"'
        invariant
            i <= p <= n == c@.len(),
            out@ + scan_string(c@, p as int).0 == scan_string(c@, i as int).0,
            scan_string(c@, p as int).1 == scan_string(c@, i as int).1,
        decreases n - p,
    {
        let ghost old_out = out@;
        if c[p] == '\\' && p + 1 < n {
            if c[p + 1] == 'u' && n - p > 5 {
                let u = unicode_escape_exec(c, p + 1);
                append_chars(&mut out, &u);
                assert(old_out + scan_string(c@, p as int).0 =~= out@ + scan_string(c@, p + 6).0);
                p += 6;
            } else {
                out.push(escaped_exec(c[p + 1]));
                assert(old_out + scan_string(c@, p as int).0 =~= out@ + scan_string(c@, p + 2).0);
                p += 2;
            }
        } else {
            out.push(c[p]);
            assert(old_out + scan_string(c@, p as int).0 =~= out@ + scan_string(c@, p + 1).0);
            p += 1;
        }
    }
    assert(out@ =~= scan_string(c@, i as int).0);
    (out, p)
}

fn obj_scan_exec(c: &[char], v: usize) -> (r: usize)
    requires
        v < c@.len(),
        c@[v as int] == '{',
    ensures
        r == obj_scan(c@, v as int, 0, false),
        v < r <= c@.len(),
{
    let n = c.len();
    let mut i = v + 1;
    let mut d: usize = 1;
    let mut in_str = false;
    proof {
        lemma_obj_scan_bounds(c@, v + 1, 1, false);
    }
    while i < n
        invariant
            v < i <= n == c@.len(),
            1 <= d <= i,
            obj_scan(c@, i as int, d as int, in_str) == obj_scan(c@, v as int, 0, false),
        decreases n - i,
    {
        if c[i] == '"' && c[i - 1] != '\\' {
            in_str = !in_str;
        } else if !in_str && c[i] == '{' {
            d += 1;
        } else if !in_str && c[i] == '}' {
            if d == 1 {
                return i + 1;
            }
            d -= 1;
        }
        i += 1;
    }
    i
}

fn bare_end_exec(c: &[char], i: usize) -> (r: usize)
    requires
        i <= c@.len(),
    ensures
        r == bare_end(c@, i as int),
        i <= r <= c@.len(),
{
    let mut k = i;
    while k < c.len() && c[k] != ',' && c[k] != '}' && !is_whitespace(c[k])
        invariant
            i <= k <= c@.len(),
            bare_end(c@, k as int) == bare_end(c@, i as int),
        decreases c.len() - k,
    {
        k += 1;
    }
    k
}

/// Reads the member at (after separators) `i`: its pairs and the position after it.
fn read_member(c: &[char], i: usize, depth: usize) -> (r: Option<(Vec<(Vec<char>, Vec<char>)>, usize)>)
    requires
        depth <= 8,
        !members_done(c@, i as int),
    ensures
        r matches Some(x) ==> member_step(c@, i as int, depth as int) == Some(
            (char_pairs_view(x.0@), x.1 as int),
        ),
        r is None ==> member_step(c@, i as int, depth as int) is None,
    decreases 9 - depth, 0int,
{
    let n = c.len();
    let j = skip_sep_exec(c, i);
    if c[j] != '"' {
        return None;
    }
    let (key, k) = scan_key_exec(c, j + 1);
    if k >= n {
        return None;
    }
    let m = skip_ws(c, k + 1);
    if m >= n || c[m] != ':' {
        return None;
    }
    let v = skip_ws(c, m + 1);
    if v >= n {
        return None;
    }
    let mut out: Vec<(Vec<char>, Vec<char>)> = Vec::new();
    if c[v] == '"' {
        let (val, e) = scan_string_exec(c, v + 1);
        let next = if e < n {
            e + 1
        } else {
            e
        };
        out.push((key, val));
        assert(char_pairs_view(out@) =~= seq![(key@, val@)]);
        Some((out, next))
    } else if c[v] == '{' {
        let e = obj_scan_exec(c, v);
        let sub_text = copy_range(c, v, e);
        let sub = match json_object_chars(&sub_text, depth + 1) {
            Some(sub) => sub,
            None => {
                return None;
            },
        };
        let ghost pre = prefixed(key@, char_pairs_view(sub@));
        let mut t: usize = 0;
        while t < sub.len()
            invariant
                t <= sub@.len(),
                pre == prefixed(key@, char_pairs_view(sub@)),
                char_pairs_view(out@) == pre.take(t as int),
            decreases sub.len() - t,
        {
            let mut full_key = key.clone();
            full_key.push('/');
            append_chars(&mut full_key, &sub[t].0);
            let val = sub[t].1.clone();
            let ghost item = (full_key@, val@);
            let ghost before = char_pairs_view(out@);
            assert(item == pre[t as int]);
            out.push((full_key, val));
            assert(char_pairs_view(out@) =~= before.push(item));
            assert(char_pairs_view(out@) =~= pre.take(t + 1));
            t += 1;
        }
        assert(pre.take(t as int) =~= pre);
        Some((out, e))
    } else {
        let e = bare_end_exec(c, v);
        let val = copy_range(c, v, e);
        out.push((key, val));
        assert(char_pairs_view(out@) =~= seq![(key@, val@)]);
        Some((out, e))
    }
}

/// Reads one JSON object from characters, as `parse_json_object` does.
fn json_object_chars(s: &[char], depth: usize) -> (r: Option<Vec<(Vec<char>, Vec<char>)>>)
    ensures
        r matches Some(v) ==> json_object(s@, depth as int) == Some(char_pairs_view(v@)),
        r is None ==> json_object(s@, depth as int) is None,
    decreases 9 - depth, 1int,
{
    if depth > MAX_JSON_RECURSION_DEPTH {
        return None;
    }
    let c = trim_chars(s);
    let n = c.len();
    if n == 0 || c[0] != '{' || c[n - 1] != '}' {
        return None;
    }
    let mut results: Vec<(Vec<char>, Vec<char>)> = Vec::new();
    let mut i: usize = 1;
    loop
        invariant
            1 <= i <= n == c@.len(),
            c@ == trim(s@),
            depth <= 8,
            json_object(s@, depth as int) == then_pairs(
                char_pairs_view(results@),
                json_members(c@, i as int, depth as int),
            ),
        decreases n - i,
    {
        proof {
            lemma_members_unfold(c@, i as int, depth as int);
        }
        let j = skip_sep_exec(&c, i);
        if i >= n || j >= n || c[j] == '}' {
            assert(char_pairs_view(results@) + Seq::<(Seq<char>, Seq<char>)>::empty()
                =~= char_pairs_view(results@));
            return Some(results);
        }
        match read_member(&c, i, depth) {
            None => {
                return None;
            },
            Some((items, next)) => {
                let ghost acc = char_pairs_view(results@);
                let ghost add = char_pairs_view(items@);
                let mut t: usize = 0;
                while t < items.len()
                    invariant
                        t <= items@.len(),
                        add == char_pairs_view(items@),
                        char_pairs_view(results@) == acc + add.take(t as int),
                    decreases items.len() - t,
                {
                    let k = items[t].0.clone();
                    let v = items[t].1.clone();
                    let ghost before = char_pairs_view(results@);
                    results.push((k, v));
                    assert(char_pairs_view(results@) =~= before.push(add[t as int]));
                    assert(char_pairs_view(results@) =~= acc + add.take(t + 1));
                    t += 1;
                }
                proof {
                    assert(add.take(t as int) =~= add);
                    match json_members(c@, next as int, depth as int) {
                        Some(rest) => {
                            assert(acc + (add + rest) =~= (acc + add) + rest);
                        },
                        None => {},
                    }
                }
                i = next;
            },
        }
    }
}

/// Reads a flat `{"key": value, ...}` JSON object into string pairs.
///
/// String values are unescaped (`\"`, `\\`, `\/`, `\n`, `\r`, `\t`,
/// `\uXXXX`); nested objects are flattened into `outer/inner` keys; other
/// values are kept as their raw text. `None` when the object is malformed or
/// nests more than `MAX_JSON_RECURSION_DEPTH` levels below `depth`.
pub fn parse_json_object(input: &str, depth: usize) -> (r: Option<Vec<(String, String)>>)
    ensures
        r matches Some(v) ==> json_object(input@, depth as int) == Some(string_pairs_view(v@)),
        r is None ==> json_object(input@, depth as int) is None,
{
    let s = chars_of(input);
    match json_object_chars(&s, depth) {
        None => None,
        Some(pairs) => {
            let mut out: Vec<(String, String)> = Vec::new();
            let mut t: usize = 0;
            while t < pairs.len()
                invariant
                    t <= pairs@.len(),
                    string_pairs_view(out@) == char_pairs_view(pairs@).take(t as int),
                decreases pairs.len() - t,
            {
                let k = string_of(&pairs[t].0);
                let v = string_of(&pairs[t].1);
                let ghost before = string_pairs_view(out@);
                let ghost item = (k@, v@);
                assert(item == char_pairs_view(pairs@)[t as int]);
                out.push((k, v));
                assert(string_pairs_view(out@) =~= before.push(item));
                assert(string_pairs_view(out@) =~= char_pairs_view(pairs@).take(t + 1));
                t += 1;
            }
            assert(char_pairs_view(pairs@).take(t as int) =~= char_pairs_view(pairs@));
            Some(out)
        },
    }
}

// ---------------------------------------------------------------------------
// XML entities
// ---------------------------------------------------------------------------

/// The character with a parsed code, if the code is a scalar value.
pub open spec fn code_char(code: Option<u32>) -> Seq<char> {
    match code {
        Some(x) => match scalar_char(x) {
            Some(ch) => seq![ch],
            None => Seq::empty(),
        },
        None => Seq::empty(),
    }
}

/// The scan of an entity name that starts at `j`, with `bytes` UTF-8 bytes of
/// it read so far: where it stops, and whether a `;` closed it. It stops
/// early at `&`, at a space, or once more than ten bytes are read.
pub open spec fn entity_scan(s: Seq<char>, j: int, bytes: int) -> (int, bool)
    decreases s.len() - j,
{
    if j < 0 || j >= s.len() {
        (j, false)
    } else if s[j] == ';' {
        (j, true)
    } else if s[j] == '&' || s[j] == ' ' || bytes > 10 {
        (j, false)
    } else {
        entity_scan(s, j + 1, bytes + utf8_width(s[j]))
    }
}

/// What a closed entity `&name;` stands for: the five named entities, a
/// `#x`/`#X` hexadecimal or `#` decimal character reference (nothing when
/// the number or the character is invalid), and otherwise the entity itself.
pub open spec fn decode_entity(e: Seq<char>) -> Seq<char> {
    if e == seq!['q', 'u', 'o', 't'] {
        seq!['"']
    } else if e == seq!['a', 'm', 'p'] {
        seq!['&']
    } else if e == seq!['a', 'p', 'o', 's'] {
        seq!['\'']
    } else if e == seq!['l', 't'] {
        seq!['<']
    } else if e == seq!['g', 't'] {
        seq!['>']
    } else if starts_with(e, seq!['#', 'x']) || starts_with(e, seq!['#', 'X']) {
        code_char(parse_u32_radix(e.skip(2), 16))
    } else if starts_with(e, seq!['#']) {
        code_char(parse_u32_radix(e.skip(1), 10))
    } else {
        seq!['&'] + e + seq![';']
    }
}

pub proof fn lemma_entity_scan_bounds(s: Seq<char>, j: int, bytes: int)
    requires
        0 <= j <= s.len(),
    ensures
        j <= entity_scan(s, j, bytes).0 <= s.len(),
        entity_scan(s, j, bytes).1 ==> entity_scan(s, j, bytes).0 < s.len(),
    decreases s.len() - j,
{
    if j < s.len() && s[j] != ';' && !(s[j] == '&' || s[j] == ' ' || bytes > 10) {
        lemma_entity_scan_bounds(s, j + 1, bytes + utf8_width(s[j]));
    }
}

/// The text of `s[i..]` with XML entities decoded.
pub open spec fn unescape_from(s: Seq<char>, i: int) -> Seq<char>
    decreases s.len() - i,
{
    if i < 0 || i >= s.len() {
        Seq::empty()
    } else if s[i] == '&' {
        let sc = entity_scan(s, i + 1, 0);
        let e = sc.0;
        proof {
            lemma_entity_scan_bounds(s, i + 1, 0);
        }
        if sc.1 {
            decode_entity(s.subrange(i + 1, e)) + unescape_from(s, e + 1)
        } else {
            seq!['&'] + s.subrange(i + 1, e) + unescape_from(s, e)
        }
    } else {
        seq![s[i]] + unescape_from(s, i + 1)
    }
}

/// A text with no `&` from `i` on unescapes to itself.
pub proof fn lemma_unescape_plain(s: Seq<char>, i: int)
    requires
        0 <= i <= s.len(),
        forall|m: int| i <= m < s.len() ==> s[m] != '&',
    ensures
        unescape_from(s, i) == s.skip(i),
    decreases s.len() - i,
{
    if i < s.len() {
        lemma_unescape_plain(s, i + 1);
        assert(seq![s[i]] + s.skip(i + 1) =~= s.skip(i));
    } else {
        assert(s.skip(i) =~= Seq::empty());
    }
}

/// The text with XML entities decoded.
pub open spec fn xml_unescaped(s: Seq<char>) -> Seq<char> {
    unescape_from(s, 0)
}

/// The XML escape of one character: `&`, `<`, `>`, `"` and `'` become
/// `&amp;`, `&lt;`, `&gt;`, `&quot;` and `&apos;`; others stay.
pub open spec fn escape_char(c: char) -> Seq<char> {
    if c == '&' {
        seq!['&', 'a', 'm', 'p', ';']
    } else if c == '<' {
        seq!['&', 'l', 't', ';']
    } else if c == '>' {
        seq!['&', 'g', 't', ';']
    } else if c == '"' {
        seq!['&', 'q', 'u', 'o', 't', ';']
    } else if c == '\'' {
        seq!['&', 'a', 'p', 'o', 's', ';']
    } else {
        seq![c]
    }
}

/// A text with every character XML-escaped.
pub open spec fn xml_escaped(s: Seq<char>) -> Seq<char>
    decreases s.len(),
{
    if s.len() == 0 {
        Seq::empty()
    } else {
        escape_char(s[0]) + xml_escaped(s.drop_first())
    }
}

proof fn lemma_unescape_escaped(pre: Seq<char>, s: Seq<char>)
    ensures
        unescape_from(pre + xml_escaped(s), pre.len() as int) == s,
    decreases s.len(),
{
    let w = pre + xml_escaped(s);
    let i = pre.len() as int;
    if s.len() == 0 {
        assert(w.len() == i);
    } else {
        let c = s[0];
        let e = escape_char(c);
        let tl = s.drop_first();
        assert(w =~= (pre + e) + xml_escaped(tl));
        lemma_unescape_escaped(pre + e, tl);
        assert(w[i] == e[0]);
        if e.len() == 1 {
            assert(seq![c] + tl =~= s);
        } else {
            reveal_with_fuel(entity_scan, 7);
            assert forall|k: int| 0 <= k < e.len() implies w[i + k] == e[k] by {}
            let m = e.len() - 1;
            assert(entity_scan(w, i + 1, 0) == (i + m, true));
            assert(w.subrange(i + 1, i + m) =~= e.subrange(1, m));
            let name = w.subrange(i + 1, i + m);
            if c == '&' {
                assert(name =~= seq!['a', 'm', 'p']);
            } else if c == '<' {
                assert(name =~= seq!['l', 't']);
                assert(name != seq!['q', 'u', 'o', 't'] && name != seq!['a', 'm', 'p'] && name != seq!['a', 'p', 'o', 's']);
            } else if c == '>' {
                assert(name =~= seq!['g', 't']);
                assert(name != seq!['q', 'u', 'o', 't'] && name != seq!['a', 'm', 'p'] && name != seq!['a', 'p', 'o', 's'] && name != seq!['l', 't']);
            } else if c == '"' {
                assert(name =~= seq!['q', 'u', 'o', 't']);
            } else {
                assert(name =~= seq!['a', 'p', 'o', 's']);
                assert(name != seq!['q', 'u', 'o', 't'] && name != seq!['a', 'm', 'p']);
            }
            assert(decode_entity(name) == seq![c]);
            assert(seq![c] + tl =~= s);
        }
    }
}

/// Unescaping an XML-escaped text gives the text back.
pub proof fn lemma_unescape_inverts_escape(s: Seq<char>)
    ensures
        xml_unescaped(xml_escaped(s)) == s,
{
    lemma_unescape_escaped(Seq::empty(), s);
    assert(Seq::<char>::empty() + xml_escaped(s) =~= xml_escaped(s));
}

fn code_char_exec(code: Option<u32>) -> (r: Vec<char>)
    ensures
        r@ == code_char(code),
{
    match code {
        Some(x) => match char_from_u32(x) {
            Some(ch) => vec![ch],
            None => Vec::new(),
        },
        None => Vec::new(),
    }
}

fn decode_entity_exec(e: &[char]) -> (r: Vec<char>)
    ensures
        r@ == decode_entity(e@),
{
    let quot = vec!['q', 'u', 'o', 't'];
    let amp = vec!['a', 'm', 'p'];
    let apos = vec!['a', 'p', 'o', 's'];
    let lt = vec!['l', 't'];
    let gt = vec!['g', 't'];
    let hx = vec!['#', 'x'];
    let hx_up = vec!['#', 'X'];
    let hash = vec!['#'];
    assert(quot@ =~= seq!['q', 'u', 'o', 't']);
    assert(amp@ =~= seq!['a', 'm', 'p']);
    assert(apos@ =~= seq!['a', 'p', 'o', 's']);
    assert(lt@ =~= seq!['l', 't']);
    assert(gt@ =~= seq!['g', 't']);
    assert(hx@ =~= seq!['#', 'x']);
    assert(hx_up@ =~= seq!['#', 'X']);
    assert(hash@ =~= seq!['#']);
    if chars_equal(e, &quot) {
        vec!['"']
    } else if chars_equal(e, &amp) {
        vec!['&']
    } else if chars_equal(e, &apos) {
        vec!['\'']
    } else if chars_equal(e, &lt) {
        vec!['<']
    } else if chars_equal(e, &gt) {
        vec!['>']
    } else if starts_with_chars(e, &hx) || starts_with_chars(e, &hx_up) {
        let digits = copy_range(e, 2, e.len());
        assert(digits@ =~= e@.skip(2));
        code_char_exec(parse_u32(&digits, 16))
    } else if starts_with_chars(e, &hash) {
        let digits = copy_range(e, 1, e.len());
        assert(digits@ =~= e@.skip(1));
        code_char_exec(parse_u32(&digits, 10))
    } else {
        let mut r = vec!['&'];
        append_chars(&mut r, e);
        r.push(';');
        assert(r@ =~= seq!['&'] + e@ + seq![';']);
        r
    }
}

fn entity_scan_exec(s: &[char], start: usize) -> (r: (usize, bool))
    requires
        start <= s@.len(),
    ensures
        r.0 as int == entity_scan(s@, start as int, 0).0,
        r.1 == entity_scan(s@, start as int, 0).1,
{
    let n = s.len();
    let mut j = start;
    let mut bytes: usize = 0;
    while j < n
        invariant
            start <= j <= n == s@.len(),
            bytes <= 14,
            entity_scan(s@, j as int, bytes as int) == entity_scan(s@, start as int, 0),
        decreases n - j,
    {
        if s[j] == ';' {
            return (j, true);
        }
        if s[j] == '&' || s[j] == ' ' || bytes > 10 {
            return (j, false);
        }
        bytes += char_utf8_width(s[j]);
        j += 1;
    }
    (j, false)
}

fn xml_unescape_chars(s: &[char]) -> (r: Vec<char>)
    ensures
        r@ == xml_unescaped(s@),
{
    let n = s.len();
    let mut out: Vec<char> = Vec::new();
    let mut i: usize = 0;
    while i < n
        invariant
            i <= n == s@.len(),
            out@ + unescape_from(s@, i as int) == xml_unescaped(s@),
        decreases n - i,
    {
        let ghost before = out@;
        if s[i] == '&' {
            let (j, closed) = entity_scan_exec(s, i + 1);
            proof {
                lemma_entity_scan_bounds(s@, i + 1, 0);
            }
            let name = copy_range(s, i + 1, j);
            if closed {
                let d = decode_entity_exec(&name);
                append_chars(&mut out, &d);
                assert(before + unescape_from(s@, i as int) =~= out@ + unescape_from(s@, j + 1));
                i = j + 1;
            } else {
                out.push('&');
                append_chars(&mut out, &name);
                assert(before + unescape_from(s@, i as int) =~= out@ + unescape_from(s@, j as int));
                i = j;
            }
        } else {
            out.push(s[i]);
            assert(before + unescape_from(s@, i as int) =~= out@ + unescape_from(s@, i + 1));
            i += 1;
        }
    }
    assert(out@ =~= xml_unescaped(s@));
    out
}

/// Decodes the XML entities of a text: `&quot;`, `&amp;`, `&apos;`, `&lt;`,
/// `&gt;` and numeric character references. Unknown entities are kept as
/// they stand; a reference to no valid character decodes to nothing.
pub fn xml_unescape(input: &str) -> (r: String)
    ensures
        r@ == xml_unescaped(input@),
{
    let s = chars_of(input);
    let r = xml_unescape_chars(&s);
    string_of(&r)
}

// ---------------------------------------------------------------------------
// SVG metadata
// ---------------------------------------------------------------------------

/// SVG files larger than this many bytes are skipped unread.
pub const MAX_SVG_READ_SIZE: u64 = 32 * 1024 * 1024;

/// The end of the word that starts at `i`.
pub open spec fn word_end(h: Seq<char>, i: int) -> int
    decreases h.len() - i,
{
    if 0 <= i < h.len() && !is_ws(h[i]) {
        word_end(h, i + 1)
    } else {
        i
    }
}

/// The first whitespace-separated word of a text (empty when there is none).
pub open spec fn first_word(h: Seq<char>) -> Seq<char> {
    let a = ws_start(h, 0);
    h.subrange(a, word_end(h, a))
}

/// The element name in a tag header: its first word without trailing `/`.
pub open spec fn tag_name(header: Seq<char>) -> Seq<char> {
    trim_end_char(first_word(header), '/')
}

/// An element name without its namespace prefix (the part after the last `:`).
pub open spec fn local_name(name: Seq<char>) -> Seq<char> {
    match rfind(name, seq![':']) {
        Some(p) => name.skip(p + 1),
        None => name,
    }
}

/// A name with its first character upper-cased.
pub open spec fn capitalized(s: Seq<char>) -> Seq<char> {
    if s.len() == 0 {
        Seq::empty()
    } else {
        upper_char(s[0]) + s.skip(1)
    }
}

/// The entries a leaf element contributes: the pairs of a JSON object text,
/// under `key/`; otherwise the text itself, unless it is empty.
pub open spec fn leaf_entries(key: Seq<char>, text: Seq<char>) -> Pairs {
    if starts_with(text, seq!['{']) && ends_with(text, seq!['}']) {
        match json_object(text, 0) {
            Some(ps) => prefixed(key, ps),
            None => seq![(key, text)],
        }
    } else if text.len() > 0 {
        seq![(key, text)]
    } else {
        Seq::empty()
    }
}

/// The marker of a CDATA section.
pub open spec fn cdata_marker() -> Seq<char> {
    seq!['<', '!', '[', 'C', 'D', 'A', 'T', 'A', '[']
}

/// The entries of the element named `name` whose start tag ends at `toe`:
/// when its closing tag follows and its content holds no child element (CDATA
/// aside), its trimmed, unescaped text under the capitalised local name.
pub open spec fn element_entries(a: Seq<char>, toe: int, name: Seq<char>) -> Pairs {
    let closing = seq!['<', '/'] + name + seq!['>'];
    match find_from(a, closing, toe + 1) {
        None => Seq::empty(),
        Some(close) => {
            let inner = a.subrange(toe + 1, close);
            if contains(inner, seq!['<']) && !contains(inner, cdata_marker()) {
                Seq::empty()
            } else {
                leaf_entries(capitalized(local_name(name)), xml_unescaped(trim(inner)))
            }
        },
    }
}

/// Whether the text from `abs` opens a comment, a declaration, a processing
/// instruction or an end tag.
pub open spec fn is_skipped_tag(a: Seq<char>, abs: int) -> bool {
    let rest = a.skip(abs);
    ||| starts_with(rest, seq!['<', '!', '-', '-'])
    ||| starts_with(rest, seq!['<', '?'])
    ||| starts_with(rest, seq!['<', '!'])
    ||| starts_with(rest, seq!['<', '/'])
}

/// The entries of the tags from position `cursor` on; `None` where the text
/// before a tag's `>` is a multi-byte character, which the scan cannot cut
/// at.
pub open spec fn svg_scan(a: Seq<char>, cursor: int) -> Option<Pairs>
    decreases a.len() - cursor,
{
    if cursor < 0 || cursor > a.len() {
        Some(Seq::empty())
    } else {
        proof {
            lemma_find_from(a, seq!['<'], cursor);
        }
        match find_from(a, seq!['<'], cursor) {
            None => Some(Seq::empty()),
            Some(abs) => {
                if is_skipped_tag(a, abs) {
                    svg_scan(a, abs + 1)
                } else {
                    proof {
                        lemma_find_from(a, seq!['>'], abs);
                    }
                    match find_from(a, seq!['>'], abs) {
                        None => Some(Seq::empty()),
                        Some(toe) => {
                            if toe < 1 || utf8_width(a[toe - 1]) > 1 {
                                None
                            } else if a[toe - 1] == '/' {
                                svg_scan(a, toe + 1)
                            } else {
                                let name = tag_name(a.subrange(abs + 1, toe));
                                if name.len() == 0 {
                                    svg_scan(a, abs + 1)
                                } else {
                                    match svg_scan(a, abs + 1) {
                                        Some(r) => Some(element_entries(a, toe, name) + r),
                                        None => None,
                                    }
                                }
                            }
                        },
                    }
                }
            },
        }
    }
}

/// The part of a document that holds its metadata: from `<metadata` to the
/// end of the following `</metadata>`, or the whole document.
pub open spec fn metadata_area(c: Seq<char>) -> Seq<char> {
    let open = "<metadata"@;
    let close = "</metadata>"@;
    match find_from(c, open, 0) {
        Some(st) => match find_from(c, close, st) {
            Some(e) => c.subrange(st, e + close.len()),
            None => c,
        },
        None => c,
    }
}

/// The metadata entries of an SVG document, or `None` where reading them
/// would cut the text inside a character.
pub open spec fn svg_metadata(content: Seq<char>) -> Option<Pairs> {
    svg_scan(metadata_area(content), 0)
}

/// The metadata entries of an SVG file of `file_size` bytes whose text is
/// `content`: none for a file larger than `MAX_SVG_READ_SIZE`, which is
/// skipped; else those of its text.
pub open spec fn svg_file_metadata(file_size: u64, content: Seq<char>) -> Option<Pairs> {
    if file_size > MAX_SVG_READ_SIZE {
        Some(Seq::empty())
    } else {
        svg_metadata(content)
    }
}

/// A text in which no `<` is followed by `!` holds no CDATA section.
pub proof fn lemma_no_cdata(s: Seq<char>)
    requires
        forall|k: int| #![trigger s[k]] 0 <= k < s.len() - 1 ==> s[k] != '<' || s[k + 1] != '!',
    ensures
        !contains(s, cdata_marker()),
{
    assert forall|k: int| !#[trigger] matches_at(s, cdata_marker(), k) by {
        if matches_at(s, cdata_marker(), k) {
            let w = s.subrange(k, k + 9);
            assert(w[0] == s[k] && w[1] == s[k + 1]);
        }
    }
}

/// A `<` followed by a character that opens no comment, declaration,
/// processing instruction or end tag starts a tag that the scan reads.
pub proof fn lemma_open_tag_read(a: Seq<char>, abs: int)
    requires
        0 <= abs,
        abs + 1 < a.len(),
        a[abs + 1] != '!' && a[abs + 1] != '?' && a[abs + 1] != '/',
    ensures
        !is_skipped_tag(a, abs),
{
    let rest = a.skip(abs);
    assert(rest[1] == a[abs + 1]);
    if starts_with(rest, seq!['<', '!', '-', '-']) {
        assert(rest.take(4)[1] == rest[1]);
    }
    if starts_with(rest, seq!['<', '?']) || starts_with(rest, seq!['<', '!']) || starts_with(
        rest,
        seq!['<', '/'],
    ) {
        assert(rest.take(2)[1] == rest[1]);
    }
}

/// An end tag is skipped by the scan.
pub proof fn lemma_end_tag_skipped(a: Seq<char>, abs: int)
    requires
        0 <= abs,
        abs + 1 < a.len(),
        a[abs] == '<',
        a[abs + 1] == '/',
    ensures
        is_skipped_tag(a, abs),
{
    assert(a.skip(abs).take(2) =~= seq!['<', '/']);
}

/// A word that runs from `i` to whitespace or the end at `n` ends at `n`.
pub proof fn lemma_word_end(h: Seq<char>, i: int, n: int)
    requires
        0 <= i <= n <= h.len(),
        forall|k: int| i <= k < n ==> !is_ws(#[trigger] h[k]),
        n < h.len() ==> is_ws(h[n]),
    ensures
        word_end(h, i) == n,
    decreases n - i,
{
    if i < n {
        lemma_word_end(h, i + 1, n);
    }
}

/// The name in a tag header that starts with `n` characters other than
/// whitespace, followed by whitespace or the end, the last of them no `/`.
pub proof fn lemma_tag_name(h: Seq<char>, n: int)
    requires
        0 < n <= h.len(),
        forall|k: int| 0 <= k < n ==> !is_ws(#[trigger] h[k]),
        n < h.len() ==> is_ws(h[n]),
        h[n - 1] != '/',
    ensures
        tag_name(h) == h.take(n),
{
    assert(ws_start(h, 0) == 0);
    lemma_word_end(h, 0, n);
    assert(first_word(h) =~= h.take(n));
}

fn first_word_exec(h: &[char]) -> (r: Vec<char>)
    ensures
        r@ == first_word(h@),
{
    let a = skip_ws(h, 0);
    let mut e = a;
    while e < h.len() && !is_whitespace(h[e])
        invariant
            a <= e <= h@.len(),
            word_end(h@, e as int) == word_end(h@, a as int),
        decreases h.len() - e,
    {
        e += 1;
    }
    copy_range(h, a, e)
}

fn tag_name_exec(h: &[char]) -> (r: Vec<char>)
    ensures
        r@ == tag_name(h@),
{
    let w = first_word_exec(h);
    trim_end_matches_char(&w, '/')
}

fn local_name_exec(name: &[char]) -> (r: Vec<char>)
    ensures
        r@ == local_name(name@),
{
    let n = name.len();
    let colon = vec![':'];
    assert(colon@ =~= seq![':']);
    match rfind_chars(name, &colon) {
        Some(p) => {
            proof {
                lemma_rfind_at(name@, seq![':'], name@.len() - 1);
            }
            let r = copy_range(name, p + 1, n);
            assert(r@ =~= name@.skip(p + 1));
            r
        },
        None => copy_range(name, 0, n),
    }
}

fn capitalize(s: &[char]) -> (r: Vec<char>)
    ensures
        r@ == capitalized(s@),
{
    if s.len() == 0 {
        return Vec::new();
    }
    let mut r = char_to_uppercase(s[0]);
    let rest = copy_range(s, 1, s.len());
    append_chars(&mut r, &rest);
    assert(rest@ =~= s@.skip(1));
    r
}

/// An entry made of a key and a value given as characters.
fn make_entry(key: &[char], value: &[char]) -> (r: MetadataEntry)
    ensures
        r.key@ == key@,
        r.value@ == value@,
{
    MetadataEntry { key: string_of(key), value: string_of(value) }
}

fn leaf_entries_exec(key: &[char], text: &[char]) -> (r: Vec<MetadataEntry>)
    ensures
        entries_view(r@) == leaf_entries(key@, text@),
{
    let open = vec!['{'];
    let close = vec!['}'];
    assert(open@ =~= seq!['{']);
    assert(close@ =~= seq!['}']);
    let mut out: Vec<MetadataEntry> = Vec::new();
    if starts_with_chars(text, &open) && ends_with_chars(text, &close) {
        match json_object_chars(text, 0) {
            Some(ps) => {
                let ghost pre = prefixed(key@, char_pairs_view(ps@));
                let mut t: usize = 0;
                while t < ps.len()
                    invariant
                        t <= ps@.len(),
                        pre == prefixed(key@, char_pairs_view(ps@)),
                        entries_view(out@) == pre.take(t as int),
                    decreases ps.len() - t,
                {
                    let mut full_key: Vec<char> = Vec::new();
                    append_chars(&mut full_key, key);
                    full_key.push('/');
                    append_chars(&mut full_key, &ps[t].0);
                    let e = make_entry(&full_key, &ps[t].1);
                    let ghost before = entries_view(out@);
                    assert((e.key@, e.value@) == pre[t as int]);
                    out.push(e);
                    assert(entries_view(out@) =~= before.push(pre[t as int]));
                    assert(entries_view(out@) =~= pre.take(t + 1));
                    t += 1;
                }
                assert(pre.take(t as int) =~= pre);
            },
            None => {
                out.push(make_entry(key, text));
                assert(entries_view(out@) =~= seq![(key@, text@)]);
            },
        }
    } else if text.len() > 0 {
        out.push(make_entry(key, text));
        assert(entries_view(out@) =~= seq![(key@, text@)]);
    } else {
        assert(entries_view(out@) =~= Seq::<(Seq<char>, Seq<char>)>::empty());
    }
    out
}

fn element_entries_exec(a: &[char], toe: usize, name: &[char]) -> (r: Vec<MetadataEntry>)
    requires
        toe < a@.len(),
    ensures
        entries_view(r@) == element_entries(a@, toe as int, name@),
{
    let n = a.len();
    let mut closing = vec!['<', '/'];
    append_chars(&mut closing, name);
    closing.push('>');
    assert(closing@ =~= seq!['<', '/'] + name@ + seq!['>']);
    match find_chars(a, &closing, toe + 1) {
        None => Vec::new(),
        Some(close) => {
            proof {
                lemma_find_from(a@, closing@, toe + 1);
            }
            let inner = copy_range(a, toe + 1, close);
            let lt = vec!['<'];
            let cdata = vec!['<', '!', '[', 'C', 'D', 'A', 'T', 'A', '['];
            assert(lt@ =~= seq!['<']);
            assert(cdata@ =~= cdata_marker());
            if contains_chars(&inner, &lt) && !contains_chars(&inner, &cdata) {
                Vec::new()
            } else {
                let local = local_name_exec(name);
                let key = capitalize(&local);
                let trimmed = trim_chars(&inner);
                let text = xml_unescape_chars(&trimmed);
                leaf_entries_exec(&key, &text)
            }
        },
    }
}

fn is_skipped_tag_exec(a: &[char], abs: usize) -> (r: bool)
    requires
        abs <= a@.len(),
    ensures
        r == is_skipped_tag(a@, abs as int),
{
    let rest = copy_range(a, abs, a.len());
    assert(rest@ =~= a@.skip(abs as int));
    let p1 = vec!['<', '!', '-', '-'];
    let p2 = vec!['<', '?'];
    let p3 = vec!['<', '!'];
    let p4 = vec!['<', '/'];
    assert(p1@ =~= seq!['<', '!', '-', '-']);
    assert(p2@ =~= seq!['<', '?']);
    assert(p3@ =~= seq!['<', '!']);
    assert(p4@ =~= seq!['<', '/']);
    starts_with_chars(&rest, &p1) || starts_with_chars(&rest, &p2) || starts_with_chars(&rest, &p3)
        || starts_with_chars(&rest, &p4)
}

fn metadata_area_exec(c: &[char]) -> (r: Vec<char>)
    ensures
        r@ == metadata_area(c@),
{
    let n = c.len();
    let open = chars_of("<metadata");
    let close = chars_of("</metadata>");
    match find_chars(c, &open, 0) {
        Some(st) => match find_chars(c, &close, st) {
            Some(e) => {
                proof {
                    lemma_find_from(c@, close@, st as int);
                }
                copy_range(c, st, e + close.len())
            },
            None => copy_range(c, 0, c.len()),
        },
        None => copy_range(c, 0, c.len()),
    }
}

/// Reads the metadata entries of an SVG text (see `svg_metadata`).
fn scan_svg_text(content: &str) -> (r: Option<Vec<MetadataEntry>>)
    ensures
        r matches Some(v) ==> svg_metadata(content@) == Some(entries_view(v@)),
        r is None ==> svg_metadata(content@) is None,
{
    let c = chars_of(content);
    let a = metadata_area_exec(&c);
    let n = a.len();
    let lt = vec!['<'];
    let gt = vec!['>'];
    assert(lt@ =~= seq!['<']);
    assert(gt@ =~= seq!['>']);
    let mut entries: Vec<MetadataEntry> = Vec::new();
    let mut cursor: usize = 0;
    loop
        invariant
            cursor <= n == a@.len(),
            lt@ == seq!['<'],
            gt@ == seq!['>'],
            svg_metadata(content@) == then_pairs(entries_view(entries@), svg_scan(a@, cursor as int)),
        decreases n - cursor,
    {
        let ghost acc = entries_view(entries@);
        proof {
            lemma_find_from(a@, seq!['<'], cursor as int);
        }
        let abs = match find_chars(&a, &lt, cursor) {
            None => {
                assert(acc + Seq::<(Seq<char>, Seq<char>)>::empty() =~= acc);
                return Some(entries);
            },
            Some(abs) => abs,
        };
        if is_skipped_tag_exec(&a, abs) {
            cursor = abs + 1;
            continue;
        }
        proof {
            lemma_find_from(a@, seq!['>'], abs as int);
        }
        let toe = match find_chars(&a, &gt, abs) {
            None => {
                assert(acc + Seq::<(Seq<char>, Seq<char>)>::empty() =~= acc);
                return Some(entries);
            },
            Some(toe) => toe,
        };
        assert(a@.subrange(abs as int, abs + 1)[0] == a@[abs as int]);
        assert(a@.subrange(toe as int, toe + 1)[0] == a@[toe as int]);
        assert(a@[abs as int] == '<' && a@[toe as int] == '>');
        if toe < 1 || char_utf8_width(a[toe - 1]) > 1 {
            return None;
        }
        if a[toe - 1] == '/' {
            cursor = toe + 1;
            continue;
        }
        let header = copy_range(&a, abs + 1, toe);
        let name = tag_name_exec(&header);
        if name.len() == 0 {
            cursor = abs + 1;
            continue;
        }
        let found = element_entries_exec(&a, toe, &name);
        let ghost add = entries_view(found@);
        let mut t: usize = 0;
        let mut found = found;
        while t < found.len()
            invariant
                t <= found@.len(),
                add == entries_view(found@),
                entries_view(entries@) == acc + add.take(t as int),
            decreases found.len() - t,
        {
            let e = MetadataEntry { key: found[t].key.clone(), value: found[t].value.clone() };
            let ghost before = entries_view(entries@);
            entries.push(e);
            assert(entries_view(entries@) =~= before.push(add[t as int]));
            assert(entries_view(entries@) =~= acc + add.take(t + 1));
            t += 1;
        }
        proof {
            assert(add.take(t as int) =~= add);
            match svg_scan(a@, abs + 1) {
                Some(rest) => {
                    assert(acc + (add + rest) =~= (acc + add) + rest);
                },
                None => {},
            }
        }
        cursor = abs + 1;
    }
}

/// The metadata entries of an SVG file of `file_size` bytes whose text is
/// `content`; `None` where reading them would cut the text inside a
/// multi-byte character (just before a tag's closing `>`). A file larger
/// than `MAX_SVG_READ_SIZE` is skipped: it gives no entries, whatever
/// `content` holds.
///
/// The scan covers the `<metadata>` element when there is one, else the whole
/// document. Each element whose content is text (no child tags, CDATA
/// aside) gives an entry named after its capitalised local name, with its
/// trimmed, unescaped text; a JSON object text gives one entry per pair,
/// under `Name/key`.
pub fn scan_svg_metadata(content: &str, file_size: u64) -> (r: Option<Vec<MetadataEntry>>)
    ensures
        r matches Some(v) ==> svg_file_metadata(file_size, content@) == Some(entries_view(v@)),
        r is None ==> svg_file_metadata(file_size, content@) is None,
{
    if file_size > MAX_SVG_READ_SIZE {
        let v: Vec<MetadataEntry> = Vec::new();
        assert(entries_view(v@) =~= Seq::empty());
        return Some(v);
    }
    scan_svg_text(content)
}

/// The metadata entries of an SVG file (see `scan_svg_metadata`), for a file
/// whose reading cuts no character.
pub fn extract_svg_metadata(content: &str, file_size: u64) -> (r: Vec<MetadataEntry>)
    requires
        svg_file_metadata(file_size, content@) is Some,
    ensures
        svg_file_metadata(file_size, content@) == Some(entries_view(r@)),
{
    match scan_svg_metadata(content, file_size) {
        Some(v) => v,
        None => Vec::new(),
    }
}

} // verus!
