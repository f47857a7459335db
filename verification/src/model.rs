//! Metadata entries and the resolution of a user's key against them.
use vstd::prelude::*;
use crate::text::{
    append_chars, ascii_lower, char_to_lowercase, chars_equal, chars_of, eq_ignore_ascii_case,
    eq_ignore_case, lemma_rfind_at, lower_char, rfind, rfind_chars, string_of,
};

verus! {

/// One key/value pair of embedded figure metadata.
#[derive(Debug, Clone, PartialEq, Eq)]
pub struct MetadataEntry {
    pub key: String,
    pub value: String,
}

/// The text of a list of entries, as key/value pairs.
pub open spec fn entries_view(v: Seq<MetadataEntry>) -> Seq<(Seq<char>, Seq<char>)> {
    v.map_values(|e: MetadataEntry| (e.key@, e.value@))
}

/// The keys of a list of entries.
pub open spec fn keys_of(v: Seq<MetadataEntry>) -> Seq<Seq<char>> {
    v.map_values(|e: MetadataEntry| e.key@)
}

/// Characters that key normalisation drops.
pub open spec fn is_key_separator(c: char) -> bool {
    c == '_' || c == '-' || c == '/'
}

/// A key with `_`, `-` and `/` removed and every other character lower-cased.
pub open spec fn normalized(k: Seq<char>) -> Seq<char>
    decreases k.len(),
{
    if k.len() == 0 {
        Seq::empty()
    } else {
        normalized(k.drop_last()) + if is_key_separator(k.last()) {
            Seq::empty()
        } else {
            lower_char(k.last())
        }
    }
}

fn normalize_chars(k: &[char]) -> (r: Vec<char>)
    ensures
        r@ == normalized(k@),
{
    let mut out: Vec<char> = Vec::new();
    let mut i: usize = 0;
    while i < k.len()
        invariant
            i <= k@.len(),
            out@ == normalized(k@.take(i as int)),
        decreases k.len() - i,
    {
        let c = k[i];
        assert(k@.take(i + 1).drop_last() =~= k@.take(i as int));
        if !(c == '_' || c == '-' || c == '/') {
            let low = char_to_lowercase(c);
            append_chars(&mut out, &low);
        } else {
            assert(out@ =~= out@ + Seq::<char>::empty());
        }
        i += 1;
    }
    assert(k@.take(i as int) =~= k@);
    out
}

/// Normalises a key for loose matching: drops `_`, `-` and `/` and lower-cases the rest.
pub fn normalize_key(k: &str) -> (r: String)
    ensures
        r@ == normalized(k@),
{
    let c = chars_of(k);
    let n = normalize_chars(&c);
    string_of(&n)
}

/// The last `/`-separated part of a key (the whole key when it has no `/`).
pub open spec fn leaf_of(k: Seq<char>) -> Seq<char> {
    match rfind(k, seq!['/']) {
        Some(p) => k.skip(p + 1),
        None => k,
    }
}

fn leaf_chars(k: &[char]) -> (r: Vec<char>)
    ensures
        r@ == leaf_of(k@),
{
    let n = k.len();
    let slash = vec!['/'];
    assert(slash@ =~= seq!['/']);
    match rfind_chars(k, &slash) {
        Some(p) => {
            proof {
                lemma_rfind_at(k@, seq!['/'], k@.len() - 1);
            }
            let r = crate::text::copy_range(k, p + 1, k.len());
            assert(r@ =~= k@.skip(p + 1));
            r
        },
        None => crate::text::copy_range(k, 0, k.len()),
    }
}

/// The positions below `n`, in order, where `p` holds.
pub open spec fn indices_where(n: int, p: spec_fn(int) -> bool) -> Seq<int>
    decreases n,
{
    if n <= 0 {
        Seq::empty()
    } else {
        indices_where(n - 1, p) + if p(n - 1) {
            seq![n - 1]
        } else {
            Seq::empty()
        }
    }
}

/// The first position below `n` where `p` holds.
pub open spec fn first_where(n: int, p: spec_fn(int) -> bool) -> Option<int> {
    let ix = indices_where(n, p);
    if ix.len() > 0 {
        Some(ix[0])
    } else {
        None
    }
}

pub proof fn lemma_indices_where(n: int, p: spec_fn(int) -> bool)
    requires
        0 <= n,
    ensures
        forall|k: int| 0 <= k < indices_where(n, p).len() ==> 0 <= #[trigger] indices_where(n, p)[k] < n
            && p(indices_where(n, p)[k]),
        indices_where(n, p).len() == 0 ==> forall|k: int| 0 <= k < n ==> !#[trigger] p(k),
    decreases n,
{
    if n > 0 {
        lemma_indices_where(n - 1, p);
        let prev = indices_where(n - 1, p);
        if p(n - 1) {
            assert forall|k: int| 0 <= k < indices_where(n, p).len() implies 0
                <= #[trigger] indices_where(n, p)[k] < n && p(indices_where(n, p)[k]) by {
                if k < prev.len() {
                    assert(indices_where(n, p)[k] == prev[k]);
                }
            }
        } else {
            assert(indices_where(n, p) =~= prev);
        }
    }
}

/// Keys equal to the query up to ASCII case.
pub open spec fn full_match(keys: Seq<Seq<char>>, q: Seq<char>) -> spec_fn(int) -> bool {
    |i: int| eq_ignore_case(keys[i], q)
}

/// Keys whose last part equals the query up to ASCII case.
pub open spec fn leaf_match(keys: Seq<Seq<char>>, q: Seq<char>) -> spec_fn(int) -> bool {
    |i: int| eq_ignore_case(leaf_of(keys[i]), q)
}

/// Keys that, or whose last part, normalise to what the query normalises to.
pub open spec fn loose_match(keys: Seq<Seq<char>>, q: Seq<char>) -> spec_fn(int) -> bool {
    |i: int| normalized(leaf_of(keys[i])) == normalized(q) || normalized(keys[i]) == normalized(q)
}

/// How a query resolves against a list of keys.
pub enum Resolution {
    /// The entry at this position.
    Found(int),
    /// Several entries at these positions match equally well.
    Ambiguous(Seq<int>),
    /// No entry matches.
    Missing,
}

/// Resolution of a query: the first key equal to it up to ASCII case; else
/// the one key whose last part is; else the one key that matches loosely
/// (after normalisation, whole or by its last part). Several matches at the
/// deciding stage are ambiguous.
pub open spec fn resolution(keys: Seq<Seq<char>>, q: Seq<char>) -> Resolution {
    match first_where(keys.len() as int, full_match(keys, q)) {
        Some(i) => Resolution::Found(i),
        None => {
            let l1 = indices_where(keys.len() as int, leaf_match(keys, q));
            if l1.len() == 1 {
                Resolution::Found(l1[0])
            } else if l1.len() > 1 {
                Resolution::Ambiguous(l1)
            } else {
                let l2 = indices_where(keys.len() as int, loose_match(keys, q));
                if l2.len() == 1 {
                    Resolution::Found(l2[0])
                } else if l2.len() > 1 {
                    Resolution::Ambiguous(l2)
                } else {
                    Resolution::Missing
                }
            }
        },
    }
}

/// Lines joined with `\n` between them.
pub open spec fn join_lines(items: Seq<Seq<char>>) -> Seq<char>
    decreases items.len(),
{
    if items.len() == 0 {
        Seq::empty()
    } else if items.len() == 1 {
        items[0]
    } else {
        join_lines(items.drop_last()) + seq!['\n'] + items.last()
    }
}

/// The keys as a bulleted list, one `  - key` per line.
pub open spec fn bullet_list(keys: Seq<Seq<char>>) -> Seq<char> {
    join_lines(keys.map_values(|k: Seq<char>| seq![' ', ' ', '-', ' '] + k))
}

/// The message for a query that matches several entries.
pub open spec fn ambiguous_message(q: Seq<char>, keys: Seq<Seq<char>>) -> Seq<char> {
    "Ambiguous key '"@ + q + "'. Matches multiple entries:\n"@ + bullet_list(keys)
}

/// The message for a query that matches no entry.
pub open spec fn missing_message(q: Seq<char>, keys: Seq<Seq<char>>) -> Seq<char> {
    "Key '"@ + q + "' not found. Available keys:\n"@ + bullet_list(keys)
}

/// The keys at the given positions.
pub open spec fn keys_at(keys: Seq<Seq<char>>, ix: Seq<int>) -> Seq<Seq<char>> {
    ix.map_values(|i: int| keys[i])
}

/// The bulleted list of the keys of the entries at the given positions.
fn bullets(entries: &[MetadataEntry], ix: &Vec<usize>) -> (r: Vec<char>)
    requires
        forall|k: int| 0 <= k < ix@.len() ==> #[trigger] ix@[k] < entries@.len(),
    ensures
        r@ == bullet_list(keys_at(keys_of(entries@), ix@.map_values(|u: usize| u as int))),
{
    let ghost keys = keys_of(entries@);
    let ghost items = keys_at(keys, ix@.map_values(|u: usize| u as int)).map_values(
        |k: Seq<char>| seq![' ', ' ', '-', ' '] + k,
    );
    let mut out: Vec<char> = Vec::new();
    let mut t: usize = 0;
    while t < ix.len()
        invariant
            t <= ix@.len(),
            forall|k: int| 0 <= k < ix@.len() ==> #[trigger] ix@[k] < entries@.len(),
            keys == keys_of(entries@),
            items == keys_at(keys, ix@.map_values(|u: usize| u as int)).map_values(
                |k: Seq<char>| seq![' ', ' ', '-', ' '] + k,
            ),
            out@ == join_lines(items.take(t as int)),
        decreases ix.len() - t,
    {
        let ghost before = out@;
        if t > 0 {
            out.push('\n');
        }
        let dash = vec![' ', ' ', '-', ' '];
        append_chars(&mut out, &dash);
        let key = chars_of(entries[ix[t]].key.as_str());
        append_chars(&mut out, &key);
        proof {
            assert(items[t as int] =~= seq![' ', ' ', '-', ' '] + key@);
            assert(items.take(t + 1).drop_last() =~= items.take(t as int));
            if t == 0 {
                assert(out@ =~= items.take(1)[0]);
            } else {
                assert(out@ =~= before + seq!['\n'] + items[t as int]);
            }
        }
        t += 1;
    }
    assert(items.take(t as int) =~= items);
    out
}

/// Finds the entry a user means by `query`.
///
/// An exact match of the whole key (ignoring ASCII case) wins; otherwise a
/// unique match of the last `/`-separated part; otherwise a unique loose
/// match in which case, `_`, `-` and `/` do not count. Several matches give
/// an "Ambiguous key" error listing them; none gives a "not found" error
/// listing every key.
pub fn resolve_key<'a>(entries: &'a [MetadataEntry], query: &str) -> (r: Result<
    &'a MetadataEntry,
    String,
>)
    ensures
        match resolution(keys_of(entries@), query@) {
            Resolution::Found(j) => 0 <= j < entries@.len() && (r matches Ok(e) && *e
                == entries@[j]),
            Resolution::Ambiguous(ix) => r matches Err(m) && m@ == ambiguous_message(
                query@,
                keys_at(keys_of(entries@), ix),
            ),
            Resolution::Missing => r matches Err(m) && m@ == missing_message(
                query@,
                keys_of(entries@),
            ),
        },
{
    let ghost keys = keys_of(entries@);
    let q = chars_of(query);
    let n = entries.len();
    proof {
        lemma_indices_where(n as int, full_match(keys, q@));
        lemma_indices_where(n as int, leaf_match(keys, q@));
        lemma_indices_where(n as int, loose_match(keys, q@));
    }
    // 1. The whole key, ignoring ASCII case.
    let mut i: usize = 0;
    while i < n
        invariant
            i <= n == entries@.len(),
            keys == keys_of(entries@),
            q@ == query@,
            indices_where(i as int, full_match(keys, q@)).len() == 0,
        decreases n - i,
    {
        let k = chars_of(entries[i].key.as_str());
        assert(keys[i as int] == k@);
        if eq_ignore_ascii_case(&k, &q) {
            proof {
                assert(indices_where(i + 1, full_match(keys, q@)) =~= seq![i as int]);
                lemma_prefix_indices(n as int, i + 1, full_match(keys, q@));
            }
            return Ok(&entries[i]);
        }
        assert(indices_where(i + 1, full_match(keys, q@)) =~= indices_where(
            i as int,
            full_match(keys, q@),
        ));
        i += 1;
    }
    // 2. The last part of the key, ignoring ASCII case.
    let mut leaf_hits: Vec<usize> = Vec::new();
    let mut i: usize = 0;
    while i < n
        invariant
            i <= n == entries@.len(),
            keys == keys_of(entries@),
            q@ == query@,
            leaf_hits@.map_values(|u: usize| u as int) == indices_where(
                i as int,
                leaf_match(keys, q@),
            ),
        decreases n - i,
    {
        let k = chars_of(entries[i].key.as_str());
        assert(keys[i as int] == k@);
        let leaf = leaf_chars(&k);
        if eq_ignore_ascii_case(&leaf, &q) {
            leaf_hits.push(i);
        }
        assert(leaf_hits@.map_values(|u: usize| u as int) =~= indices_where(
            i + 1,
            leaf_match(keys, q@),
        ));
        i += 1;
    }
    proof {
        assert(first_where(n as int, full_match(keys, q@)) is None);
        lemma_indices_where(n as int, leaf_match(keys, q@));
        assert(leaf_hits@.map_values(|u: usize| u as int).len() == leaf_hits@.len());
        assert forall|k: int| 0 <= k < leaf_hits@.len() implies #[trigger] leaf_hits@[k]
            < entries@.len() by {
            assert(leaf_hits@.map_values(|u: usize| u as int)[k] == leaf_hits@[k] as int);
        }
    }
    if leaf_hits.len() == 1 {
        assert(leaf_hits@.map_values(|u: usize| u as int)[0] == leaf_hits@[0] as int);
        return Ok(&entries[leaf_hits[0]]);
    } else if leaf_hits.len() > 1 {
        return Err(ambiguous(entries, query, &leaf_hits));
    }
    // 3. A loose match, ignoring case, `_`, `-` and `/`.
    let nq = normalize_chars(&q);
    let mut loose_hits: Vec<usize> = Vec::new();
    let mut i: usize = 0;
    while i < n
        invariant
            i <= n == entries@.len(),
            keys == keys_of(entries@),
            q@ == query@,
            nq@ == normalized(q@),
            loose_hits@.map_values(|u: usize| u as int) == indices_where(
                i as int,
                loose_match(keys, q@),
            ),
        decreases n - i,
    {
        let k = chars_of(entries[i].key.as_str());
        assert(keys[i as int] == k@);
        let leaf = leaf_chars(&k);
        let nl = normalize_chars(&leaf);
        let nk = normalize_chars(&k);
        if chars_equal(&nl, &nq) || chars_equal(&nk, &nq) {
            loose_hits.push(i);
        }
        assert(loose_hits@.map_values(|u: usize| u as int) =~= indices_where(
            i + 1,
            loose_match(keys, q@),
        ));
        i += 1;
    }
    proof {
        lemma_indices_where(n as int, loose_match(keys, q@));
        assert(loose_hits@.map_values(|u: usize| u as int).len() == loose_hits@.len());
        assert forall|k: int| 0 <= k < loose_hits@.len() implies #[trigger] loose_hits@[k]
            < entries@.len() by {
            assert(loose_hits@.map_values(|u: usize| u as int)[k] == loose_hits@[k] as int);
        }
    }
    if loose_hits.len() == 1 {
        assert(loose_hits@.map_values(|u: usize| u as int)[0] == loose_hits@[0] as int);
        return Ok(&entries[loose_hits[0]]);
    } else if loose_hits.len() > 1 {
        return Err(ambiguous(entries, query, &loose_hits));
    }
    let mut all: Vec<usize> = Vec::new();
    let mut i: usize = 0;
    while i < n
        invariant
            i <= n == entries@.len(),
            all@ == Seq::new(i as nat, |k: int| k as usize),
        decreases n - i,
    {
        all.push(i);
        assert(all@ =~= Seq::new((i + 1) as nat, |k: int| k as usize));
        i += 1;
    }
    assert(keys_at(keys, all@.map_values(|u: usize| u as int)) =~= keys);
    let mut msg = chars_of("Key '");
    append_chars(&mut msg, &q);
    let mid = chars_of("' not found. Available keys:\n");
    append_chars(&mut msg, &mid);
    let list = bullets(entries, &all);
    append_chars(&mut msg, &list);
    Err(string_of(&msg))
}

/// The "Ambiguous key" message for the entries at the given positions.
fn ambiguous(entries: &[MetadataEntry], query: &str, ix: &Vec<usize>) -> (r: String)
    requires
        forall|k: int| 0 <= k < ix@.len() ==> #[trigger] ix@[k] < entries@.len(),
    ensures
        r@ == ambiguous_message(query@, keys_at(keys_of(entries@), ix@.map_values(|u: usize| u as int))),
{
    let mut msg = chars_of("Ambiguous key '");
    let q = chars_of(query);
    append_chars(&mut msg, &q);
    let mid = chars_of("'. Matches multiple entries:\n");
    append_chars(&mut msg, &mid);
    let list = bullets(entries, ix);
    append_chars(&mut msg, &list);
    string_of(&msg)
}


/// The first position where `p` holds comes no later than any other.
proof fn lemma_first_index_earliest(n: int, p: spec_fn(int) -> bool, i: int)
    requires
        0 <= i < n,
        p(i),
    ensures
        indices_where(n, p).len() > 0,
        indices_where(n, p)[0] <= i,
    decreases n,
{
    lemma_indices_where(n, p);
    if i < n - 1 {
        lemma_first_index_earliest(n - 1, p, i);
        assert(indices_where(n, p)[0] == indices_where(n - 1, p)[0]);
    } else {
        lemma_indices_where(n - 1, p);
        if indices_where(n - 1, p).len() > 0 {
            assert(indices_where(n, p)[0] == indices_where(n - 1, p)[0]);
        }
    }
}

/// Looking up a key that is present always succeeds: it resolves to the
/// first entry whose key equals it up to ASCII case, which is the entry
/// itself or one before it.
pub proof fn lemma_present_key_resolves(keys: Seq<Seq<char>>, i: int)
    requires
        0 <= i < keys.len(),
    ensures
        resolution(keys, keys[i]) matches Resolution::Found(j) && 0 <= j <= i && eq_ignore_case(
            keys[j],
            keys[i],
        ),
{
    let p = full_match(keys, keys[i]);
    assert(p(i));
    lemma_first_index_earliest(keys.len() as int, p, i);
    lemma_indices_where(keys.len() as int, p);
    let j = indices_where(keys.len() as int, p)[0];
    assert(p(j));
}

/// When the first match among the first `m` positions is at `m - 1`, it is
/// also the first match among all `n`.
proof fn lemma_prefix_indices(n: int, m: int, p: spec_fn(int) -> bool)
    requires
        0 <= m <= n,
        indices_where(m, p).len() > 0,
    ensures
        indices_where(n, p).len() > 0,
        indices_where(n, p)[0] == indices_where(m, p)[0],
    decreases n - m,
{
    if n > m {
        lemma_prefix_indices(n - 1, m, p);
    }
}

/// Keys that are equal up to ASCII case normalise alike.
proof fn lemma_normalized_ignores_ascii_case(a: Seq<char>, b: Seq<char>)
    requires
        eq_ignore_case(a, b),
    ensures
        normalized(a) == normalized(b),
    decreases a.len(),
{
    if a.len() > 0 {
        assert(eq_ignore_case(a.drop_last(), b.drop_last()));
        lemma_normalized_ignores_ascii_case(a.drop_last(), b.drop_last());
        let (x, y) = (a.last(), b.last());
        assert(ascii_lower(x) == ascii_lower(y));
        assert(is_key_separator(x) == is_key_separator(y));
        assert(lower_char(x) == lower_char(y));
    }
}

/// A query resolves the same way whatever its ASCII case: to the same entry,
/// to the same ambiguous entries, or to none.
pub proof fn lemma_resolution_ignores_ascii_case(keys: Seq<Seq<char>>, q1: Seq<char>, q2: Seq<char>)
    requires
        eq_ignore_case(q1, q2),
    ensures
        resolution(keys, q1) == resolution(keys, q2),
{
    assert forall|k: Seq<char>| eq_ignore_case(k, q1) == eq_ignore_case(k, q2) by {
        if k.len() == q1.len() {
            assert forall|i: int| 0 <= i < k.len() implies (ascii_lower(#[trigger] k[i]) == ascii_lower(q1[i]))
                == (ascii_lower(k[i]) == ascii_lower(q2[i])) by {
                assert(ascii_lower(q1[i]) == ascii_lower(q2[i]));
            }
        }
    }
    assert(full_match(keys, q1) =~= full_match(keys, q2));
    assert(leaf_match(keys, q1) =~= leaf_match(keys, q2));
    lemma_normalized_ignores_ascii_case(q1, q2);
    assert(loose_match(keys, q1) =~= loose_match(keys, q2));
}

} // verus!
