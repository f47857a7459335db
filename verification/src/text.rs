//! Character-level text utilities shared by the parsers and reports: ASCII
//! case folding, Unicode whitespace and control classes, searching, trimming,
//! line splitting, decimal rendering and the conversions between strings,
//! character vectors and bytes.
use vstd::prelude::*;
use vstd::utf8::*;

verus! {

// ---------------------------------------------------------------------------
// Conversions
// ---------------------------------------------------------------------------

/// Appends one character to a string (std `String::push`).
#[verifier::external_body]
pub(crate) fn push_char(s: &mut String, c: char)
    ensures
        final(s)@ == old(s)@.push(c),
{
    s.push(c);
}

/// The characters of a string slice, in order.
pub fn chars_of(s: &str) -> (v: Vec<char>)
    ensures
        v@ == s@,
{
    let mut v: Vec<char> = Vec::new();
    for c in it: s.chars()
        invariant
            v@ == it.seq().take(it.index() as int),
            it.seq() == s@,
    {
        v.push(c);
    }
    v
}

/// Builds a string from a sequence of characters.
pub fn string_of(v: &[char]) -> (s: String)
    ensures
        s@ == v@,
{
    let mut s = String::new();
    let mut i: usize = 0;
    while i < v.len()
        invariant
            i <= v.len(),
            s@ == v@.take(i as int),
        decreases v.len() - i,
    {
        push_char(&mut s, v[i]);
        i += 1;
        assert(s@ =~= v@.take(i as int));
    }
    assert(v@.take(i as int) =~= v@);
    s
}

/// Appends a slice of characters to a vector.
pub fn append_chars(dst: &mut Vec<char>, src: &[char])
    ensures
        final(dst)@ == old(dst)@ + src@,
{
    let mut i: usize = 0;
    while i < src.len()
        invariant
            i <= src.len(),
            dst@ == old(dst)@ + src@.take(i as int),
        decreases src.len() - i,
    {
        dst.push(src[i]);
        i += 1;
        assert(dst@ =~= old(dst)@ + src@.take(i as int));
    }
    assert(src@.take(i as int) =~= src@);
}

/// Appends a slice of bytes to a vector.
pub fn append_bytes(dst: &mut Vec<u8>, src: &[u8])
    ensures
        final(dst)@ == old(dst)@ + src@,
{
    let mut i: usize = 0;
    while i < src.len()
        invariant
            i <= src.len(),
            dst@ == old(dst)@ + src@.take(i as int),
        decreases src.len() - i,
    {
        dst.push(src[i]);
        i += 1;
        assert(dst@ =~= old(dst)@ + src@.take(i as int));
    }
    assert(src@.take(i as int) =~= src@);
}

/// Copies the characters `s[from..to]` into a new vector.
pub fn copy_range(s: &[char], from: usize, to: usize) -> (r: Vec<char>)
    requires
        from <= to <= s@.len(),
    ensures
        r@ == s@.subrange(from as int, to as int),
{
    let mut r: Vec<char> = Vec::new();
    let mut i = from;
    while i < to
        invariant
            from <= i <= to <= s@.len(),
            r@ == s@.subrange(from as int, i as int),
        decreases to - i,
    {
        r.push(s[i]);
        i += 1;
        assert(r@ =~= s@.subrange(from as int, i as int));
    }
    r
}

/// Copies the bytes `s[from..to]` into a new vector.
pub fn copy_byte_range(s: &[u8], from: usize, to: usize) -> (r: Vec<u8>)
    requires
        from <= to <= s@.len(),
    ensures
        r@ == s@.subrange(from as int, to as int),
{
    let mut r: Vec<u8> = Vec::new();
    let mut i = from;
    while i < to
        invariant
            from <= i <= to <= s@.len(),
            r@ == s@.subrange(from as int, i as int),
        decreases to - i,
    {
        r.push(s[i]);
        i += 1;
        assert(r@ =~= s@.subrange(from as int, i as int));
    }
    r
}

/// What `String::from_utf8_lossy` makes of bytes: a decoding in which every
/// invalid sequence becomes U+FFFD.
pub uninterp spec fn utf8_lossy(b: Seq<u8>) -> Seq<char>;

/// The text that bytes stand for, decoded leniently.
pub open spec fn lossy_text(b: Seq<u8>) -> Seq<char> {
    if valid_utf8(b) {
        decode_utf8(b)
    } else {
        utf8_lossy(b)
    }
}

/// Decodes bytes as UTF-8, replacing invalid sequences (std
/// `String::from_utf8_lossy`). Valid input decodes exactly; the replacement
/// scheme for invalid input is left to the name `utf8_lossy`.
#[verifier::external_body]
pub(crate) fn string_from_utf8_lossy(b: &[u8]) -> (s: String)
    ensures
        valid_utf8(b@) ==> s@ == decode_utf8(b@),
        !valid_utf8(b@) ==> s@ == utf8_lossy(b@),
{
    String::from_utf8_lossy(b).into_owned()
}

/// Decodes bytes as UTF-8 if they are valid (std `String::from_utf8`).
#[verifier::external_body]
pub(crate) fn string_from_utf8(b: Vec<u8>) -> (s: Option<String>)
    ensures
        s is Some <==> valid_utf8(b@),
        s matches Some(t) ==> t@ == decode_utf8(b@),
{
    String::from_utf8(b).ok()
}

// ---------------------------------------------------------------------------
// Case mapping
// ---------------------------------------------------------------------------

/// ASCII lower-casing of one character: `A..=Z` map to `a..=z`.
pub open spec fn ascii_lower(c: char) -> char {
    if 'A' <= c && c <= 'Z' {
        ((c as u32) + 32) as char
    } else {
        c
    }
}

pub fn to_ascii_lower(c: char) -> (r: char)
    ensures
        r == ascii_lower(c),
{
    if 'A' <= c && c <= 'Z' {
        ((c as u8) + 32) as char
    } else {
        c
    }
}

pub open spec fn ascii_lower_seq(s: Seq<char>) -> Seq<char> {
    s.map_values(|c: char| ascii_lower(c))
}

/// `str::to_ascii_lowercase` on a character sequence.
pub fn to_ascii_lowercase(s: &[char]) -> (r: Vec<char>)
    ensures
        r@ == ascii_lower_seq(s@),
{
    let mut r: Vec<char> = Vec::new();
    let mut i: usize = 0;
    while i < s.len()
        invariant
            i <= s@.len(),
            r@ == ascii_lower_seq(s@.take(i as int)),
        decreases s.len() - i,
    {
        r.push(to_ascii_lower(s[i]));
        i += 1;
        assert(ascii_lower_seq(s@.take(i as int)) =~= ascii_lower_seq(s@.take(i - 1)).push(
            ascii_lower(s@[i - 1]),
        ));
    }
    assert(s@.take(i as int) =~= s@);
    r
}

pub open spec fn is_ascii_char(c: char) -> bool {
    (c as u32) < 0x80
}

pub open spec fn all_ascii(s: Seq<char>) -> bool {
    forall|i: int| 0 <= i < s.len() ==> is_ascii_char(#[trigger] s[i])
}

/// The full Unicode lower-case mapping of one character, as `char::to_lowercase` yields it.
pub uninterp spec fn char_lowercase(c: char) -> Seq<char>;

/// The full Unicode upper-case mapping of one character, as `char::to_uppercase` yields it.
pub uninterp spec fn char_uppercase(c: char) -> Seq<char>;

/// The Unicode lower-casing of a whole string, as `str::to_lowercase` gives it.
pub uninterp spec fn str_lowercase(s: Seq<char>) -> Seq<char>;

/// Lower-cases one character (std `char::to_lowercase`). For an ASCII
/// character the mapping is the ASCII one; for others the result is named.
#[verifier::external_body]
pub(crate) fn char_to_lowercase(c: char) -> (r: Vec<char>)
    ensures
        r@ == char_lowercase(c),
        is_ascii_char(c) ==> r@ == seq![ascii_lower(c)],
{
    c.to_lowercase().collect()
}

/// Upper-cases one character (std `char::to_uppercase`). For an ASCII
/// character the mapping is the ASCII one; for others the result is named.
#[verifier::external_body]
pub(crate) fn char_to_uppercase(c: char) -> (r: Vec<char>)
    ensures
        r@ == char_uppercase(c),
        is_ascii_char(c) ==> r@ == seq![ascii_upper(c)],
{
    c.to_uppercase().collect()
}

/// Lower-cases a string (std `str::to_lowercase`). An all-ASCII string is
/// lower-cased character by character with the ASCII mapping; other results
/// are named.
#[verifier::external_body]
pub(crate) fn str_to_lowercase(s: &str) -> (r: String)
    ensures
        r@ == str_lowercase(s@),
        all_ascii(s@) ==> r@ == ascii_lower_seq(s@),
{
    s.to_lowercase()
}

/// ASCII upper-casing of one character: `a..=z` map to `A..=Z`.
pub open spec fn ascii_upper(c: char) -> char {
    if 'a' <= c && c <= 'z' {
        ((c as u32) - 32) as char
    } else {
        c
    }
}

/// `char::to_lowercase` as text: the ASCII mapping for an ASCII character,
/// the full Unicode mapping otherwise.
pub open spec fn lower_char(c: char) -> Seq<char> {
    if is_ascii_char(c) {
        seq![ascii_lower(c)]
    } else {
        char_lowercase(c)
    }
}

/// `char::to_uppercase` as text: the ASCII mapping for an ASCII character,
/// the full Unicode mapping otherwise.
pub open spec fn upper_char(c: char) -> Seq<char> {
    if is_ascii_char(c) {
        seq![ascii_upper(c)]
    } else {
        char_uppercase(c)
    }
}

/// `str::to_lowercase`: an all-ASCII text is lower-cased character by
/// character with the ASCII mapping; any other text by the full Unicode
/// mapping.
pub open spec fn lower_text(s: Seq<char>) -> Seq<char> {
    if all_ascii(s) {
        ascii_lower_seq(s)
    } else {
        str_lowercase(s)
    }
}

/// Equality of two texts up to ASCII case, as `str::eq_ignore_ascii_case` decides it.
pub open spec fn eq_ignore_case(a: Seq<char>, b: Seq<char>) -> bool {
    &&& a.len() == b.len()
    &&& forall|i: int| 0 <= i < a.len() ==> ascii_lower(#[trigger] a[i]) == ascii_lower(b[i])
}

pub fn eq_ignore_ascii_case(a: &[char], b: &[char]) -> (r: bool)
    ensures
        r == eq_ignore_case(a@, b@),
{
    if a.len() != b.len() {
        return false;
    }
    let mut i: usize = 0;
    while i < a.len()
        invariant
            a@.len() == b@.len(),
            i <= a@.len(),
            forall|k: int| 0 <= k < i ==> ascii_lower(#[trigger] a@[k]) == ascii_lower(b@[k]),
        decreases a.len() - i,
    {
        if to_ascii_lower(a[i]) != to_ascii_lower(b[i]) {
            return false;
        }
        i += 1;
    }
    true
}

// ---------------------------------------------------------------------------
// Character classes
// ---------------------------------------------------------------------------

/// The Unicode `White_Space` property, which `char::is_whitespace` tests.
pub open spec fn is_ws(c: char) -> bool {
    let u = c as u32;
    ||| 0x09 <= u <= 0x0d
    ||| u == 0x20
    ||| u == 0x85
    ||| u == 0xa0
    ||| u == 0x1680
    ||| 0x2000 <= u <= 0x200a
    ||| u == 0x2028
    ||| u == 0x2029
    ||| u == 0x202f
    ||| u == 0x205f
    ||| u == 0x3000
}

pub fn is_whitespace(c: char) -> (r: bool)
    ensures
        r == is_ws(c),
{
    let u = c as u32;
    (0x09 <= u && u <= 0x0d) || u == 0x20 || u == 0x85 || u == 0xa0 || u == 0x1680 || (0x2000
        <= u && u <= 0x200a) || u == 0x2028 || u == 0x2029 || u == 0x202f || u == 0x205f || u
        == 0x3000
}

/// The Unicode general category `Cc`, which `char::is_control` tests.
pub open spec fn is_control_char(c: char) -> bool {
    let u = c as u32;
    u <= 0x1f || (0x7f <= u && u <= 0x9f)
}

pub fn is_control(c: char) -> (r: bool)
    ensures
        r == is_control_char(c),
{
    let u = c as u32;
    u <= 0x1f || (0x7f <= u && u <= 0x9f)
}

/// `char::is_ascii_alphabetic`.
pub open spec fn is_ascii_alpha(c: char) -> bool {
    ('a' <= c && c <= 'z') || ('A' <= c && c <= 'Z')
}

/// Length in bytes of the UTF-8 encoding of a character.
pub open spec fn utf8_width(c: char) -> nat {
    let u = c as u32;
    if u < 0x80 {
        1
    } else if u < 0x800 {
        2
    } else if u < 0x10000 {
        3
    } else {
        4
    }
}

pub fn char_utf8_width(c: char) -> (r: usize)
    ensures
        r == utf8_width(c),
{
    let u = c as u32;
    if u < 0x80 {
        1
    } else if u < 0x800 {
        2
    } else if u < 0x10000 {
        3
    } else {
        4
    }
}

/// `char::from_u32`: the character with the given scalar value, if there is one.
pub open spec fn scalar_char(code: u32) -> Option<char> {
    if code < 0x110000 && !(0xd800 <= code && code <= 0xdfff) {
        Some(code as char)
    } else {
        None
    }
}

/// The character with a scalar value (std `char::from_u32`).
#[verifier::external_body]
pub(crate) fn char_from_u32(code: u32) -> (r: Option<char>)
    ensures
        r == scalar_char(code),
{
    char::from_u32(code)
}

// ---------------------------------------------------------------------------
// Searching
// ---------------------------------------------------------------------------

/// `pat` occurs in `s` at position `i`.
pub open spec fn matches_at<T>(s: Seq<T>, pat: Seq<T>, i: int) -> bool {
    0 <= i && i + pat.len() <= s.len() && s.subrange(i, i + pat.len()) == pat
}

/// The first position at or after `i` where `pat` occurs.
pub open spec fn find_from<T>(s: Seq<T>, pat: Seq<T>, i: int) -> Option<int>
    decreases s.len() + 1 - i,
{
    if i < 0 || i + pat.len() > s.len() {
        None
    } else if matches_at(s, pat, i) {
        Some(i)
    } else {
        find_from(s, pat, i + 1)
    }
}

/// The last position at or before `i` where `pat` occurs.
pub open spec fn rfind_at<T>(s: Seq<T>, pat: Seq<T>, i: int) -> Option<int>
    decreases i + 1,
{
    if i < 0 {
        None
    } else if matches_at(s, pat, i) {
        Some(i)
    } else {
        rfind_at(s, pat, i - 1)
    }
}

/// `str::rfind`: the last position where `pat` occurs.
pub open spec fn rfind<T>(s: Seq<T>, pat: Seq<T>) -> Option<int> {
    rfind_at(s, pat, s.len() - pat.len())
}

/// `pat` occurs somewhere in `s`.
pub open spec fn contains<T>(s: Seq<T>, pat: Seq<T>) -> bool {
    exists|i: int| matches_at(s, pat, i)
}

pub open spec fn starts_with<T>(s: Seq<T>, pat: Seq<T>) -> bool {
    pat.len() <= s.len() && s.take(pat.len() as int) == pat
}

pub open spec fn ends_with<T>(s: Seq<T>, pat: Seq<T>) -> bool {
    pat.len() <= s.len() && s.skip(s.len() - pat.len()) == pat
}

/// What `find_from` returns is a match, and nothing earlier from `i` on is one.
pub proof fn lemma_find_from<T>(s: Seq<T>, pat: Seq<T>, i: int)
    requires
        0 <= i,
    ensures
        find_from(s, pat, i) matches Some(j) ==> i <= j && matches_at(s, pat, j) && forall|k: int|
            i <= k < j ==> !#[trigger] matches_at(s, pat, k),
        find_from(s, pat, i) is None ==> forall|k: int| i <= k ==> !#[trigger] matches_at(s, pat, k),
    decreases s.len() + 1 - i,
{
    if i + pat.len() > s.len() {
    } else if matches_at(s, pat, i) {
    } else {
        lemma_find_from(s, pat, i + 1);
    }
}

/// What `rfind_at` returns is a match, and nothing later up to `i` is one.
pub proof fn lemma_rfind_at<T>(s: Seq<T>, pat: Seq<T>, i: int)
    ensures
        rfind_at(s, pat, i) matches Some(j) ==> 0 <= j <= i && matches_at(s, pat, j) && forall|
            k: int,
        |
            j < k <= i ==> !#[trigger] matches_at(s, pat, k),
        rfind_at(s, pat, i) is None ==> forall|k: int| k <= i ==> !#[trigger] matches_at(s, pat, k),
    decreases i + 1,
{
    if i >= 0 && !matches_at(s, pat, i) {
        lemma_rfind_at(s, pat, i - 1);
    }
}

/// A match with no match before it, from `i` on, is what `find_from` finds.
pub proof fn lemma_find_first<T>(s: Seq<T>, pat: Seq<T>, i: int, j: int)
    requires
        0 <= i <= j,
        matches_at(s, pat, j),
        forall|k: int| i <= k < j ==> !#[trigger] matches_at(s, pat, k),
    ensures
        find_from(s, pat, i) == Some(j),
    decreases j - i,
{
    if i < j {
        lemma_find_first(s, pat, i + 1, j);
    }
}

/// A match with no match after it, up to `i`, is what `rfind_at` finds.
pub proof fn lemma_rfind_last<T>(s: Seq<T>, pat: Seq<T>, i: int, j: int)
    requires
        j <= i,
        matches_at(s, pat, j),
        forall|k: int| j < k <= i ==> !#[trigger] matches_at(s, pat, k),
    ensures
        rfind_at(s, pat, i) == Some(j),
    decreases i - j,
{
    if j < i {
        lemma_rfind_last(s, pat, i - 1, j);
    }
}

/// The first occurrence of a character from `i` on.
pub proof fn lemma_find_char(s: Seq<char>, c: char, i: int, j: int)
    requires
        0 <= i <= j < s.len(),
        s[j] == c,
        forall|k: int| i <= k < j ==> s[k] != c,
    ensures
        find_from(s, seq![c], i) == Some(j),
{
    assert(s.subrange(j, j + 1) =~= seq![c]);
    assert forall|k: int| i <= k < j implies !#[trigger] matches_at(s, seq![c], k) by {
        assert(s.subrange(k, k + 1)[0] == s[k]);
    }
    lemma_find_first(s, seq![c], i, j);
}

/// A character that does not occur from `i` on is not found there.
pub proof fn lemma_find_no_char(s: Seq<char>, c: char, i: int)
    requires
        0 <= i,
        forall|k: int| i <= k < s.len() ==> s[k] != c,
    ensures
        find_from(s, seq![c], i) is None,
{
    lemma_find_from(s, seq![c], i);
    if let Some(j) = find_from(s, seq![c], i) {
        assert(s.subrange(j, j + 1)[0] == s[j]);
    }
}

/// The first occurrence of a pattern of three or more characters, where no
/// earlier position from `i` on starts with its first three.
pub proof fn lemma_find_by_head(s: Seq<char>, pat: Seq<char>, i: int, j: int)
    requires
        0 <= i <= j,
        pat.len() >= 3,
        matches_at(s, pat, j),
        forall|k: int|
            #![trigger s[k]]
            i <= k < j ==> s[k] != pat[0] || s[k + 1] != pat[1] || s[k + 2] != pat[2],
    ensures
        find_from(s, pat, i) == Some(j),
{
    assert forall|k: int| i <= k < j implies !#[trigger] matches_at(s, pat, k) by {
        if matches_at(s, pat, k) {
            let w = s.subrange(k, k + pat.len());
            assert(w[0] == s[k] && w[1] == s[k + 1] && w[2] == s[k + 2]);
        }
    }
    lemma_find_first(s, pat, i, j);
}

/// A text that lacks the first character of a pattern does not contain it.
pub proof fn lemma_lacks_head(s: Seq<char>, pat: Seq<char>)
    requires
        pat.len() >= 1,
        forall|k: int| 0 <= k < s.len() ==> s[k] != pat[0],
    ensures
        !contains(s, pat),
{
    assert forall|k: int| !#[trigger] matches_at(s, pat, k) by {
        if matches_at(s, pat, k) {
            assert(s.subrange(k, k + pat.len())[0] == s[k]);
        }
    }
}

/// Whether `pat` occurs in `s` at position `i`.
pub fn match_at(s: &[char], pat: &[char], i: usize) -> (r: bool)
    ensures
        r == matches_at(s@, pat@, i as int),
{
    let n = s.len();
    if i > n || pat.len() > n - i {
        return false;
    }
    let mut j: usize = 0;
    while j < pat.len()
        invariant
            i + pat@.len() <= s@.len() == n,
            j <= pat@.len(),
            forall|k: int| 0 <= k < j ==> s@[i + k] == pat@[k],
        decreases pat.len() - j,
    {
        if s[i + j] != pat[j] {
            assert(s@.subrange(i as int, i + pat@.len())[j as int] != pat@[j as int]);
            return false;
        }
        j += 1;
    }
    assert(s@.subrange(i as int, i + pat@.len()) =~= pat@);
    true
}

/// The first position at or after `from` where `pat` occurs (`str::find` on a suffix).
pub fn find_chars(s: &[char], pat: &[char], from: usize) -> (r: Option<usize>)
    ensures
        r matches Some(k) ==> find_from(s@, pat@, from as int) == Some(k as int),
        r is None ==> find_from(s@, pat@, from as int) is None,
{
    let n = s.len();
    let mut i = from;
    while i <= n && pat.len() <= n - i
        invariant
            from <= i,
            n == s@.len(),
            find_from(s@, pat@, from as int) == find_from(s@, pat@, i as int),
        decreases n + 1 - i,
    {
        if match_at(s, pat, i) {
            return Some(i);
        }
        if i == n {
            assert(find_from(s@, pat@, i + 1) is None);
            return None;
        }
        i += 1;
    }
    None
}

/// The last position where `pat` occurs (`str::rfind`).
pub fn rfind_chars(s: &[char], pat: &[char]) -> (r: Option<usize>)
    ensures
        r matches Some(k) ==> rfind(s@, pat@) == Some(k as int),
        r is None ==> rfind(s@, pat@) is None,
{
    if pat.len() > s.len() {
        return None;
    }
    let mut i = s.len() - pat.len();
    loop
        invariant
            i <= s@.len() - pat@.len(),
            rfind(s@, pat@) == rfind_at(s@, pat@, i as int),
        decreases i,
    {
        if match_at(s, pat, i) {
            return Some(i);
        }
        if i == 0 {
            assert(rfind_at(s@, pat@, -1) is None);
            return None;
        }
        i -= 1;
    }
}

/// Whether `pat` occurs anywhere in `s` (`str::contains`).
pub fn contains_chars(s: &[char], pat: &[char]) -> (r: bool)
    ensures
        r == contains(s@, pat@),
{
    proof {
        lemma_find_from(s@, pat@, 0);
    }
    match find_chars(s, pat, 0) {
        Some(_) => true,
        None => {
            assert forall|k: int| !matches_at(s@, pat@, k) by {
                if k < 0 {
                }
            }
            false
        },
    }
}

pub fn starts_with_chars(s: &[char], pat: &[char]) -> (r: bool)
    ensures
        r == starts_with(s@, pat@),
{
    let r = match_at(s, pat, 0);
    proof {
        if pat@.len() <= s@.len() {
            assert(s@.subrange(0, pat@.len() as int) =~= s@.take(pat@.len() as int));
        }
    }
    r
}

pub fn ends_with_chars(s: &[char], pat: &[char]) -> (r: bool)
    ensures
        r == ends_with(s@, pat@),
{
    if pat.len() > s.len() {
        return false;
    }
    let r = match_at(s, pat, s.len() - pat.len());
    proof {
        assert(s@.subrange(s@.len() - pat@.len(), s@.len() as int) =~= s@.skip(
            s@.len() - pat@.len(),
        ));
    }
    r
}

// ---------------------------------------------------------------------------
// Trimming
// ---------------------------------------------------------------------------

/// The first position at or after `i` that does not hold whitespace.
pub open spec fn ws_start(s: Seq<char>, i: int) -> int
    decreases s.len() - i,
{
    if 0 <= i < s.len() && is_ws(s[i]) {
        ws_start(s, i + 1)
    } else {
        i
    }
}

/// The end of `s[..j]` once trailing whitespace is dropped.
pub open spec fn ws_end(s: Seq<char>, j: int) -> int
    decreases j,
{
    if 0 < j <= s.len() && is_ws(s[j - 1]) {
        ws_end(s, j - 1)
    } else {
        j
    }
}

/// `str::trim`: `s` without leading and trailing whitespace.
pub open spec fn trim(s: Seq<char>) -> Seq<char> {
    let a = ws_start(s, 0);
    let b = ws_end(s, s.len() as int);
    if a < b {
        s.subrange(a, b)
    } else {
        Seq::empty()
    }
}

/// `str::trim_end`: `s` without trailing whitespace.
pub open spec fn trim_end(s: Seq<char>) -> Seq<char> {
    s.take(ws_end(s, s.len() as int))
}

pub proof fn lemma_ws_start_bounds(s: Seq<char>, i: int)
    requires
        0 <= i <= s.len(),
    ensures
        i <= ws_start(s, i) <= s.len(),
    decreases s.len() - i,
{
    if i < s.len() && is_ws(s[i]) {
        lemma_ws_start_bounds(s, i + 1);
    }
}

/// Skips whitespace from position `i`.
pub fn skip_ws(s: &[char], i: usize) -> (r: usize)
    requires
        i <= s@.len(),
    ensures
        r == ws_start(s@, i as int),
        i <= r <= s@.len(),
{
    let mut k = i;
    while k < s.len() && is_whitespace(s[k])
        invariant
            i <= k <= s@.len(),
            ws_start(s@, k as int) == ws_start(s@, i as int),
        decreases s.len() - k,
    {
        k += 1;
    }
    k
}

/// The end of `s[..j]` with trailing whitespace dropped.
pub fn skip_ws_back(s: &[char], j: usize) -> (r: usize)
    requires
        j <= s@.len(),
    ensures
        r == ws_end(s@, j as int),
        r <= j,
{
    let mut k = j;
    while k > 0 && is_whitespace(s[k - 1])
        invariant
            k <= j <= s@.len(),
            ws_end(s@, k as int) == ws_end(s@, j as int),
        decreases k,
    {
        k -= 1;
    }
    k
}

/// `str::trim` on characters.
pub fn trim_chars(s: &[char]) -> (r: Vec<char>)
    ensures
        r@ == trim(s@),
{
    let a = skip_ws(s, 0);
    let b = skip_ws_back(s, s.len());
    if a < b {
        copy_range(s, a, b)
    } else {
        Vec::new()
    }
}

/// `str::trim_end` on characters.
pub fn trim_end_chars(s: &[char]) -> (r: Vec<char>)
    ensures
        r@ == trim_end(s@),
{
    let b = skip_ws_back(s, s.len());
    let r = copy_range(s, 0, b);
    assert(r@ =~= trim_end(s@));
    r
}

// ---------------------------------------------------------------------------
// Lines
// ---------------------------------------------------------------------------

/// A line without the carriage return of a `\r\n` ending.
pub open spec fn strip_cr(line: Seq<char>) -> Seq<char> {
    if line.len() > 0 && line.last() == '\r' {
        line.drop_last()
    } else {
        line
    }
}

/// `str::lines` of `s[start..]`, where `s[start..i]` holds no line feed.
pub open spec fn lines_from(s: Seq<char>, i: int, start: int) -> Seq<Seq<char>>
    decreases s.len() - i,
{
    if i >= s.len() {
        if start < s.len() {
            seq![s.subrange(start, s.len() as int)]
        } else {
            Seq::empty()
        }
    } else if s[i] == '\n' {
        seq![strip_cr(s.subrange(start, i))] + lines_from(s, i + 1, i + 1)
    } else {
        lines_from(s, i + 1, start)
    }
}

/// `str::lines`: the text split at `\n` and `\r\n`, without a final empty line.
pub open spec fn lines(s: Seq<char>) -> Seq<Seq<char>> {
    lines_from(s, 0, 0)
}

/// Splits text into lines as `str::lines` does.
pub fn split_lines(s: &[char]) -> (r: Vec<Vec<char>>)
    ensures
        r@.len() == lines(s@).len(),
        forall|k: int| 0 <= k < r@.len() ==> (#[trigger] r@[k])@ == lines(s@)[k],
{
    let mut out: Vec<Vec<char>> = Vec::new();
    let ghost mut views: Seq<Seq<char>> = Seq::empty();
    let mut start: usize = 0;
    let mut i: usize = 0;
    while i < s.len()
        invariant
            start <= i <= s@.len(),
            out@.len() == views.len(),
            forall|k: int| 0 <= k < out@.len() ==> (#[trigger] out@[k])@ == views[k],
            views + lines_from(s@, i as int, start as int) == lines(s@),
        decreases s.len() - i,
    {
        if s[i] == '\n' {
            let mut line = copy_range(s, start, i);
            if line.len() > 0 && line[line.len() - 1] == '\r' {
                line.pop();
            }
            assert(line@ =~= strip_cr(s@.subrange(start as int, i as int)));
            proof {
                views = views.push(line@);
                assert(views + lines_from(s@, i + 1, i + 1) =~= views.drop_last() + (seq![
                    line@,
                ] + lines_from(s@, i + 1, i + 1)));
            }
            out.push(line);
            start = i + 1;
        }
        i += 1;
    }
    if start < s.len() {
        let line = copy_range(s, start, s.len());
        proof {
            views = views.push(line@);
        }
        out.push(line);
    }
    assert(views =~= lines(s@));
    out
}

// ---------------------------------------------------------------------------
// Numbers
// ---------------------------------------------------------------------------

pub open spec fn digit_char(d: nat) -> char {
    (('0' as u32) + d) as char
}

/// The decimal rendering of a number, as `{}` formats it.
pub open spec fn decimal(n: nat) -> Seq<char>
    decreases n,
{
    if n < 10 {
        seq![digit_char(n)]
    } else {
        decimal(n / 10).push(digit_char(n % 10))
    }
}

/// Renders a number in decimal.
pub fn decimal_chars(n: usize) -> (r: Vec<char>)
    ensures
        r@ == decimal(n as nat),
    decreases n,
{
    let d = ((n % 10) as u8 + 48) as char;
    if n < 10 {
        vec![d]
    } else {
        let mut r = decimal_chars(n / 10);
        r.push(d);
        r
    }
}

/// `n` spaces.
pub open spec fn spaces(n: nat) -> Seq<char> {
    Seq::new(n, |i: int| ' ')
}

/// Text right-aligned in a field of the given width, as `{:width}` pads a number.
pub open spec fn pad_left(s: Seq<char>, width: nat) -> Seq<char> {
    if s.len() < width {
        spaces((width - s.len()) as nat) + s
    } else {
        s
    }
}

pub fn pad_left_chars(s: &[char], width: usize) -> (r: Vec<char>)
    ensures
        r@ == pad_left(s@, width as nat),
{
    let mut r: Vec<char> = Vec::new();
    if s.len() < width {
        let mut k: usize = 0;
        while k < width - s.len()
            invariant
                s@.len() < width,
                k <= width - s@.len(),
                r@ == spaces(k as nat),
            decreases width - s.len() - k,
        {
            r.push(' ');
            k += 1;
            assert(r@ =~= spaces(k as nat));
        }
    }
    append_chars(&mut r, s);
    assert(r@ =~= pad_left(s@, width as nat));
    r
}

// ---------------------------------------------------------------------------
// Parsing unsigned integers
// ---------------------------------------------------------------------------

/// The value of one digit in the given radix, as `char::to_digit` gives it.
pub open spec fn digit_value(c: char, radix: nat) -> Option<nat> {
    let u = c as u32;
    let d: int = if '0' <= c && c <= '9' {
        u - 48
    } else if 'a' <= c && c <= 'z' {
        u - 97 + 10
    } else if 'A' <= c && c <= 'Z' {
        u - 65 + 10
    } else {
        radix as int
    };
    if 0 <= d < radix {
        Some(d as nat)
    } else {
        None
    }
}

/// The value of a run of digits, if every one is a digit in the radix.
pub open spec fn digits_value(d: Seq<char>, radix: nat) -> Option<nat>
    decreases d.len(),
{
    if d.len() == 0 {
        Some(0)
    } else {
        match (digits_value(d.drop_last(), radix), digit_value(d.last(), radix)) {
            (Some(v), Some(x)) => Some(v * radix + x),
            _ => None,
        }
    }
}

/// `u32::from_str_radix`: an optional `+` and then digits of the radix, with a
/// value that fits in 32 bits.
pub open spec fn parse_u32_radix(s: Seq<char>, radix: nat) -> Option<u32> {
    if s.len() == 0 || (s.len() == 1 && (s[0] == '+' || s[0] == '-')) {
        None
    } else {
        let d = if s[0] == '+' {
            s.drop_first()
        } else {
            s
        };
        match digits_value(d, radix) {
            Some(v) => if v <= u32::MAX {
                Some(v as u32)
            } else {
                None
            },
            None => None,
        }
    }
}

/// A longer run of digits is worth at least as much as each of its prefixes,
/// and it is valid only if they are.
pub proof fn lemma_digits_prefix(d: Seq<char>, radix: nat, k: int)
    requires
        0 <= k <= d.len(),
        radix >= 1,
    ensures
        digits_value(d.take(k), radix) is None ==> digits_value(d, radix) is None,
        digits_value(d, radix) matches Some(v) ==> (digits_value(d.take(k), radix) matches Some(
            w,
        ) && w <= v),
    decreases d.len(),
{
    if k == d.len() {
        assert(d.take(k) =~= d);
    } else {
        lemma_digits_prefix(d.drop_last(), radix, k);
        assert(d.drop_last().take(k) =~= d.take(k));
        if let Some(v) = digits_value(d, radix) {
            let w = digits_value(d.drop_last(), radix).unwrap();
            assert(w * radix >= w) by (nonlinear_arith)
                requires
                    radix >= 1,
            ;
        }
    }
}

fn digit_of(c: char, radix: u32) -> (r: Option<u32>)
    requires
        2 <= radix <= 36,
    ensures
        r matches Some(x) ==> digit_value(c, radix as nat) == Some(x as nat),
        r is None ==> digit_value(c, radix as nat) is None,
{
    let u = c as u32;
    let d: u32 = if '0' <= c && c <= '9' {
        u - 48
    } else if 'a' <= c && c <= 'z' {
        u - 97 + 10
    } else if 'A' <= c && c <= 'Z' {
        u - 65 + 10
    } else {
        radix
    };
    if d < radix {
        Some(d)
    } else {
        None
    }
}

/// Parses an unsigned 32-bit number as `u32::from_str_radix` does.
pub fn parse_u32(s: &[char], radix: u32) -> (r: Option<u32>)
    requires
        2 <= radix <= 36,
    ensures
        r == parse_u32_radix(s@, radix as nat),
{
    let n = s.len();
    if n == 0 || (n == 1 && (s[0] == '+' || s[0] == '-')) {
        return None;
    }
    let start: usize = if s[0] == '+' {
        1
    } else {
        0
    };
    let ghost d = if s@[0] == '+' {
        s@.drop_first()
    } else {
        s@
    };
    assert(d =~= s@.skip(start as int));
    let ghost whole = match digits_value(d, radix as nat) {
        Some(v) => if v <= u32::MAX {
            Some(v as u32)
        } else {
            None
        },
        None => None,
    };
    assert(parse_u32_radix(s@, radix as nat) == whole);
    let mut acc: u64 = 0;
    let mut k = start;
    while k < n
        invariant
            start <= k <= n == s@.len(),
            d =~= s@.skip(start as int),
            2 <= radix <= 36,
            acc <= u32::MAX,
            digits_value(d.take(k - start), radix as nat) == Some(acc as nat),
            parse_u32_radix(s@, radix as nat) == whole,
            whole == match digits_value(d, radix as nat) {
                Some(v) => if v <= u32::MAX {
                    Some(v as u32)
                } else {
                    None
                },
                None => None,
            },
        decreases n - k,
    {
        let ghost pre = d.take(k - start + 1);
        assert(pre.drop_last() =~= d.take(k - start));
        assert(pre.last() == s@[k as int]);
        proof {
            lemma_digits_prefix(d, radix as nat, k - start + 1);
        }
        match digit_of(s[k], radix) {
            None => {
                return None;
            },
            Some(x) => {
                assert(acc * radix <= 0xffff_ffff * 36) by (nonlinear_arith)
                    requires
                        acc <= 0xffff_ffff,
                        radix <= 36,
                ;
                let next = acc * (radix as u64) + (x as u64);
                if next > 0xffff_ffff {
                    return None;
                }
                acc = next;
            },
        }
        k += 1;
    }
    assert(d.take(k - start) =~= d);
    Some(acc as u32)
}

/// Whether two character sequences are equal.
pub fn chars_equal(a: &[char], b: &[char]) -> (r: bool)
    ensures
        r == (a@ == b@),
{
    if a.len() != b.len() {
        return false;
    }
    let mut i: usize = 0;
    while i < a.len()
        invariant
            i <= a@.len() == b@.len(),
            a@.take(i as int) == b@.take(i as int),
        decreases a.len() - i,
    {
        if a[i] != b[i] {
            return false;
        }
        assert(a@.take(i + 1) =~= a@.take(i as int).push(a@[i as int]));
        assert(b@.take(i + 1) =~= b@.take(i as int).push(b@[i as int]));
        i += 1;
    }
    assert(a@ =~= a@.take(i as int));
    assert(b@ =~= b@.take(i as int));
    true
}

/// The end of `t[..j]` once trailing copies of `ch` are dropped.
pub open spec fn run_end(t: Seq<char>, ch: char, j: int) -> int
    decreases j,
{
    if 0 < j <= t.len() && t[j - 1] == ch {
        run_end(t, ch, j - 1)
    } else {
        j
    }
}

/// `str::trim_end_matches(ch)`: `t` without trailing copies of `ch`.
pub open spec fn trim_end_char(t: Seq<char>, ch: char) -> Seq<char> {
    t.take(run_end(t, ch, t.len() as int))
}

pub fn trim_end_matches_char(t: &[char], ch: char) -> (r: Vec<char>)
    ensures
        r@ == trim_end_char(t@, ch),
{
    let mut j = t.len();
    while j > 0 && t[j - 1] == ch
        invariant
            j <= t@.len(),
            run_end(t@, ch, j as int) == run_end(t@, ch, t@.len() as int),
        decreases j,
    {
        j -= 1;
    }
    let r = copy_range(t, 0, j);
    assert(r@ =~= t@.take(j as int));
    r
}

} // verus!
