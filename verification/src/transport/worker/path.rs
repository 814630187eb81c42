//! The path of a WebSocket upgrade request: `/app/{key}?protocol=N&version=X`.
use crate::text;
use vstd::prelude::*;

verus! {

/// The position of the first `c` in `s`, or the length of `s`.
pub open spec fn first(s: Seq<char>, c: char) -> nat
    decreases s.len(),
{
    if s.len() == 0 || s[0] == c {
        0
    } else {
        1 + first(s.drop_first(), c)
    }
}

fn find(s: &[char], c: char) -> (i: usize)
    ensures
        i == first(s@, c),
        i <= s@.len(),
        i < s@.len() ==> s@[i as int] == c,
        forall|k: int| 0 <= k < i ==> s@[k] != c,
{
    let mut i: usize = 0;
    assert(s@.skip(0) =~= s@);
    while i < s.len() && s[i] != c
        invariant
            i <= s@.len(),
            first(s@, c) == i + first(s@.skip(i as int), c),
            forall|k: int| 0 <= k < i ==> s@[k] != c,
        decreases s@.len() - i,
    {
        assert(s@.skip(i as int).drop_first() =~= s@.skip(i + 1));
        i = i + 1;
    }
    if i < s.len() {
        assert(s@.skip(i as int)[0] == s@[i as int]);
    }
    i
}

/// The part of a request path before the query.
pub open spec fn path_part(path: Seq<char>) -> Seq<char> {
    path.take(first(path, '?') as int)
}

/// The query of a request path, if it has one.
pub open spec fn query_part(path: Seq<char>) -> Option<Seq<char>> {
    if first(path, '?') < path.len() {
        Some(path.skip(first(path, '?') as int + 1))
    } else {
        None
    }
}

/// The key of a path of the shape `/app/{key}`: one segment, not empty.
pub open spec fn app_key(path: Seq<char>) -> Option<Seq<char>> {
    let p = path_part(path);
    let key = p.skip("/app/"@.len() as int);
    if text::has_prefix(p, "/app/"@) && key.len() > 0 && first(key, '/') == key.len() {
        Some(key)
    } else {
        None
    }
}

/// The value of the first pair `name=value` among `pairs`; pairs without `=` do
/// not count.
pub open spec fn pair_value(pairs: Seq<Seq<char>>, name: Seq<char>) -> Option<Seq<char>>
    decreases pairs.len(),
{
    if pairs.len() == 0 {
        None
    } else {
        let i = first(pairs[0], '=');
        if i < pairs[0].len() && pairs[0].take(i as int) == name {
            Some(pairs[0].skip(i as int + 1))
        } else {
            pair_value(pairs.drop_first(), name)
        }
    }
}

/// The value of `name` in a raw query.
pub open spec fn query_value(query: Option<Seq<char>>, name: Seq<char>) -> Option<Seq<char>> {
    match query {
        None => None,
        Some(q) => pair_value(text::split(q, '&'), name),
    }
}

/// The characters of an optional string.
pub open spec fn opt_chars(s: Option<String>) -> Option<Seq<char>> {
    match s {
        Some(t) => Some(t@),
        None => None,
    }
}

/// Splits an upgrade path into the app key, the `protocol` value and the
/// `version` value. There is no key when the path is not `/app/{key}` with a
/// single non-empty segment.
pub fn parse_app_path(path: &str) -> (r: (Option<String>, Option<String>, Option<String>))
    ensures
        opt_chars(r.0) == app_key(path@),
        opt_chars(r.1) == query_value(query_part(path@), "protocol"@),
        opt_chars(r.2) == query_value(query_part(path@), "version"@),
{
    let chars: Vec<char> = text::to_chars(path);
    let all: &[char] = chars.as_slice();
    let q: usize = find(all, '?');
    let raw: &[char] = &all[0..q];
    assert(raw@ =~= path_part(path@));
    let prefix: Vec<char> = text::to_chars("/app/");
    let key: Option<String> = if text::starts_with(raw, prefix.as_slice()) {
        let k: &[char] = &raw[prefix.len()..raw.len()];
        assert(k@ =~= path_part(path@).skip("/app/"@.len() as int));
        if k.len() > 0 && find(k, '/') == k.len() {
            Some(text::from_chars(k))
        } else {
            None
        }
    } else {
        None
    };
    let query: Option<String> = if q < all.len() {
        let rest: &[char] = &all[q + 1..all.len()];
        assert(rest@ =~= path@.skip(q + 1));
        Some(text::from_chars(rest))
    } else {
        None
    };
    let (protocol, version) = match &query {
        Some(s) => (
            query_param(Some(s.as_str()), "protocol"),
            query_param(Some(s.as_str()), "version"),
        ),
        None => (query_param(None, "protocol"), query_param(None, "version")),
    };
    (key, protocol, version)
}

/// The first value of `name` in a raw query string.
pub fn query_param(query: Option<&str>, name: &str) -> (r: Option<String>)
    ensures
        opt_chars(r) == query_value(
            match query {
                Some(q) => Some(q@),
                None => None,
            },
            name@,
        ),
{
    let q: &str = match query {
        None => return None,
        Some(q) => q,
    };
    let pairs: Vec<Vec<char>> = text::split_on(text::to_chars(q).as_slice(), '&');
    let ghost all = text::split(q@, '&');
    let mut i: usize = 0;
    assert(all.skip(0) =~= all);
    while i < pairs.len()
        invariant
            query == Some(q),
            all == text::split(q@, '&'),
            text::views(pairs@) == all,
            i <= pairs@.len(),
            pair_value(all, name@) == pair_value(all.skip(i as int), name@),
        decreases pairs@.len() - i,
    {
        let pair: &[char] = pairs[i].as_slice();
        let eq: usize = find(pair, '=');
        proof {
            assert(all[i as int] == pair@);
            assert(all.skip(i as int)[0] == pair@);
            assert(all.skip(i as int).drop_first() =~= all.skip(i + 1));
        }
        if eq < pair.len() {
            let k: &[char] = &pair[0..eq];
            assert(k@ =~= pair@.take(eq as int));
            if text::str_eq(text::from_chars(k).as_str(), name) {
                let v: &[char] = &pair[eq + 1..pair.len()];
                assert(v@ =~= pair@.skip(eq + 1));
                return Some(text::from_chars(v));
            }
        }
        i = i + 1;
    }
    assert(all.skip(i as int) =~= Seq::<Seq<char>>::empty());
    None
}

proof fn lemma_first(s: Seq<char>, c: char)
    ensures
        first(s, c) <= s.len(),
        first(s, c) < s.len() ==> s[first(s, c) as int] == c,
        forall|k: int| 0 <= k < first(s, c) ==> s[k] != c,
    decreases s.len(),
{
    if s.len() > 0 && s[0] != c {
        let rest = s.drop_first();
        lemma_first(rest, c);
        assert forall|k: int| 0 <= k < first(s, c) implies s[k] != c by {
            if k > 0 {
                assert(s[k] == rest[k - 1]);
            }
        }
    }
}

proof fn lemma_first_is(s: Seq<char>, c: char, n: nat)
    requires
        n <= s.len(),
        n < s.len() ==> s[n as int] == c,
        forall|k: int| 0 <= k < n ==> s[k] != c,
    ensures
        first(s, c) == n,
{
    lemma_first(s, c);
}

/// The text has no character `c`.
pub open spec fn free_of(s: Seq<char>, c: char) -> bool {
    forall|k: int| 0 <= k < s.len() ==> s[k] != c
}

/// An upgrade path reads back: the key of `/app/{key}` is that key, whatever query
/// follows it, and the query is all that follows the first question mark.
pub proof fn app_paths_read_back(key: Seq<char>, query: Seq<char>)
    requires
        key.len() > 0,
        free_of(key, '/'),
        free_of(key, '?'),
    ensures
        app_key("/app/"@ + key) == Some(key),
        query_part("/app/"@ + key) is None,
        app_key("/app/"@ + key + seq!['?'] + query) == Some(key),
        query_part("/app/"@ + key + seq!['?'] + query) == Some(query),
{
    reveal_strlit("/app/");
    let bare = "/app/"@ + key;
    let full = bare + seq!['?'] + query;
    assert(free_of(bare, '?')) by {
        assert forall|k: int| 0 <= k < bare.len() implies bare[k] != '?' by {
            if k >= 5 {
                assert(bare[k] == key[k - 5]);
            }
        }
    }
    lemma_first_is(bare, '?', bare.len());
    assert forall|k: int| 0 <= k < bare.len() implies full[k] != '?' by {
        assert(full[k] == bare[k]);
    }
    lemma_first_is(full, '?', bare.len());
    assert(full.take(bare.len() as int) =~= bare);
    assert(full.skip(bare.len() as int + 1) =~= query);
    assert(bare.take(bare.len() as int) =~= bare);
    assert(bare.take(5) =~= "/app/"@);
    assert(bare.skip(5) =~= key);
    lemma_first_is(key, '/', key.len());
}

/// Only a path of that form has a key: one non-empty segment behind `/app/`, and
/// nothing else up to the query.
pub proof fn only_app_paths_have_a_key(path: Seq<char>)
    ensures
        app_key(path) matches Some(key) ==> key.len() > 0 && free_of(key, '/') && free_of(key, '?')
            && (path == "/app/"@ + key || exists|query: Seq<char>|
            path == #[trigger] ("/app/"@ + key + seq!['?'] + query)),
{
    reveal_strlit("/app/");
    if let Some(key) = app_key(path) {
        lemma_first(path, '?');
        let p = path_part(path);
        lemma_first(key, '/');
        assert(p =~= "/app/"@ + key) by {
            assert(p.take(5) == "/app/"@);
            assert(p =~= p.take(5) + p.skip(5));
        }
        assert forall|k: int| 0 <= k < key.len() implies key[k] != '?' by {
            assert(key[k] == path[k + 5]);
        }
        let n = first(path, '?') as int;
        if n < path.len() {
            let query = path.skip(n + 1);
            assert(path =~= "/app/"@ + key + seq!['?'] + query);
        } else {
            assert(path =~= "/app/"@ + key);
        }
    }
}

/// The pair `name=value` as it stands in a query.
pub open spec fn pair(name: Seq<char>, value: Seq<char>) -> Seq<char> {
    name + seq!['='] + value
}

proof fn lemma_pair(name: Seq<char>, value: Seq<char>)
    requires
        free_of(name, '='),
    ensures
        first(pair(name, value), '=') == name.len(),
        pair(name, value).take(name.len() as int) == name,
        pair(name, value).skip(name.len() as int + 1) == value,
{
    let p = pair(name, value);
    assert forall|k: int| 0 <= k < name.len() implies p[k] != '=' by {
        assert(p[k] == name[k]);
    }
    lemma_first_is(p, '=', name.len());
    assert(p.take(name.len() as int) =~= name);
    assert(p.skip(name.len() as int + 1) =~= value);
}

/// The value of a name is that of the first pair with the name, as it stands; pairs
/// with another name before it do not matter, nor does anything behind it.
pub proof fn the_first_value_counts(
    pairs: Seq<Seq<char>>,
    i: int,
    name: Seq<char>,
    value: Seq<char>,
)
    requires
        0 <= i < pairs.len(),
        free_of(name, '='),
        pairs[i] == pair(name, value),
        forall|j: int|
            0 <= j < i ==> !text::has_prefix(#[trigger] pairs[j], name + seq!['=']),
    ensures
        pair_value(pairs, name) == Some(value),
    decreases i,
{
    if i == 0 {
        lemma_pair(name, value);
    } else {
        let rest = pairs.drop_first();
        let p = pairs[0];
        lemma_first(p, '=');
        let n = first(p, '=') as int;
        if n < p.len() && p.take(n) == name {
            assert(p.take(n + 1) =~= name + seq!['=']);
            assert(text::has_prefix(pairs[0], name + seq!['=']));
        }
        assert forall|j: int| 0 <= j < i - 1 implies !text::has_prefix(
            #[trigger] rest[j],
            name + seq!['='],
        ) by {
            assert(rest[j] == pairs[j + 1]);
        }
        the_first_value_counts(rest, i - 1, name, value);
    }
}

/// A name without a pair has no value.
pub proof fn missing_names_have_no_value(pairs: Seq<Seq<char>>, name: Seq<char>)
    requires
        forall|j: int|
            0 <= j < pairs.len() ==> !text::has_prefix(#[trigger] pairs[j], name + seq!['=']),
    ensures
        pair_value(pairs, name) is None,
    decreases pairs.len(),
{
    if pairs.len() > 0 {
        let rest = pairs.drop_first();
        let p = pairs[0];
        lemma_first(p, '=');
        let n = first(p, '=') as int;
        if n < p.len() && p.take(n) == name {
            assert(p.take(n + 1) =~= name + seq!['=']);
            assert(text::has_prefix(pairs[0], name + seq!['=']));
        }
        assert forall|j: int| 0 <= j < rest.len() implies !text::has_prefix(
            #[trigger] rest[j],
            name + seq!['='],
        ) by {
            assert(rest[j] == pairs[j + 1]);
        }
        missing_names_have_no_value(rest, name);
    }
}

/// A query of one pair, or of two with different names, gives back each value.
pub proof fn queries_read_back(
    name: Seq<char>,
    value: Seq<char>,
    other: Seq<char>,
    other_value: Seq<char>,
)
    requires
        name != other,
        free_of(name, '='),
        free_of(other, '='),
        free_of(name, '&'),
        free_of(other, '&'),
        free_of(value, '&'),
        free_of(other_value, '&'),
    ensures
        query_value(None, name) is None,
        query_value(Some(pair(name, value)), name) == Some(value),
        query_value(Some(pair(name, value)), other) is None,
        query_value(Some(pair(name, value) + seq!['&'] + pair(other, other_value)), name) == Some(
            value,
        ),
        query_value(Some(pair(name, value) + seq!['&'] + pair(other, other_value)), other) == Some(
            other_value,
        ),
{
    let a = pair(name, value);
    let b = pair(other, other_value);
    lemma_pair(name, value);
    lemma_pair(other, other_value);
    assert forall|k: int| 0 <= k < a.len() implies a[k] != '&' by {
        if k < name.len() {
            assert(a[k] == name[k]);
        } else if k > name.len() {
            assert(a[k] == value[k - name.len() - 1]);
        }
    }
    assert forall|k: int| 0 <= k < b.len() implies b[k] != '&' by {
        if k < other.len() {
            assert(b[k] == other[k]);
        } else if k > other.len() {
            assert(b[k] == other_value[k - other.len() - 1]);
        }
    }
    let none = Seq::<char>::empty();
    text::lemma_split_more(none, a, '&');
    assert(none + a =~= a);
    assert(text::split(a, '&') =~= seq![a]);
    text::lemma_split_sep(a, '&');
    text::lemma_split_more(a + seq!['&'], b, '&');
    assert(none + b =~= b);
    assert(text::split(a + seq!['&'] + b, '&') =~= seq![a, b]);
    reveal_with_fuel(pair_value, 3);
    assert(seq![a].drop_first() =~= Seq::<Seq<char>>::empty());
    assert(seq![a, b].drop_first() =~= seq![b]);
}

} // verus!
