//! Text helpers over sequences of characters.
use vstd::prelude::*;
use vstd::utf8::{decode_utf8, encode_utf8, valid_utf8};

verus! {

/// `String::push` appends one character.
pub assume_specification[ String::push ](s: &mut String, c: char)
    ensures
        final(s)@ == old(s)@.push(c),
;

/// `std::str::from_utf8`: the text that the bytes encode, or nothing when they
/// are not valid UTF-8.
#[verifier::external_body]
pub(crate) fn utf8_text(bytes: &[u8]) -> (r: Option<String>)
    ensures
        match r {
            Some(s) => valid_utf8(bytes@) && s@ == decode_utf8(bytes@),
            None => !valid_utf8(bytes@),
        },
{
    std::str::from_utf8(bytes).ok().map(|s| s.to_owned())
}

/// A character takes at most four bytes.
pub proof fn lemma_utf8_len(s: Seq<char>)
    ensures
        encode_utf8(s).len() <= 4 * s.len(),
    decreases s.len(),
{
    if s.len() > 0 {
        lemma_utf8_len(s.drop_first());
    }
}

/// The bytes of two texts in a row are those of the first and then of the second.
pub proof fn lemma_utf8_concat(a: Seq<char>, b: Seq<char>)
    ensures
        encode_utf8(a + b) == encode_utf8(a) + encode_utf8(b),
    decreases a.len(),
{
    if a.len() == 0 {
        assert(a + b =~= b);
        assert(encode_utf8(a) + encode_utf8(b) =~= encode_utf8(b));
    } else {
        lemma_utf8_concat(a.drop_first(), b);
        assert((a + b).drop_first() =~= a.drop_first() + b);
        assert(encode_utf8(a + b) =~= encode_utf8(a) + encode_utf8(b));
    }
}

/// The characters of a string.
pub fn to_chars(s: &str) -> (v: Vec<char>)
    ensures
        v@ == s@,
{
    let n: usize = s.unicode_len();
    let mut v: Vec<char> = Vec::new();
    let mut it = s.chars();
    let mut i: usize = 0;
    while i < n
        invariant
            n == s@.len(),
            i <= n,
            v@ == s@.take(i as int),
            vstd::std_specs::iter::IteratorSpec::obeys_prophetic_iter_laws(&it),
            vstd::std_specs::iter::IteratorSpec::remaining(&it) == s@.skip(i as int),
        decreases n - i,
    {
        match it.next() {
            Some(c) => {
                assert(s@.skip(i as int)[0] == s@[i as int]);
                v.push(c);
                assert(v@ =~= s@.take(i + 1));
                assert(s@.skip(i as int).drop_first() =~= s@.skip(i + 1));
            },
            None => {},
        }
        i = i + 1;
    }
    assert(s@.take(n as int) =~= s@);
    v
}

/// The string with the given characters.
pub fn from_chars(v: &[char]) -> (s: String)
    ensures
        s@ == v@,
{
    let mut s: String = String::new();
    let mut i: usize = 0;
    while i < v.len()
        invariant
            i <= v@.len(),
            s@ == v@.take(i as int),
        decreases v@.len() - i,
    {
        s.push(v[i]);
        i = i + 1;
        assert(s@ =~= v@.take(i as int));
    }
    assert(v@.take(i as int) =~= v@);
    s
}

/// Whether two strings hold the same characters.
pub fn str_eq(a: &str, b: &str) -> (r: bool)
    ensures
        r == (a@ == b@),
{
    a.to_owned() == b.to_owned()
}

/// An ASCII letter in lower case; any other character unchanged.
pub open spec fn lower(c: char) -> char {
    if 'A' <= c && c <= 'Z' {
        ((c as u32) + 32) as char
    } else {
        c
    }
}

/// Equality up to the case of ASCII letters.
pub open spec fn same_ignoring_case(a: Seq<char>, b: Seq<char>) -> bool {
    &&& a.len() == b.len()
    &&& forall|i: int| 0 <= i < a.len() ==> lower(#[trigger] a[i]) == lower(b[i])
}

fn lower_char(c: char) -> (r: char)
    ensures
        r == lower(c),
{
    if 'A' <= c && c <= 'Z' {
        ((c as u8) + 32) as char
    } else {
        c
    }
}

/// Whether two texts are equal up to the case of ASCII letters.
pub fn eq_ignore_case(a: &[char], b: &[char]) -> (r: bool)
    ensures
        r == same_ignoring_case(a@, b@),
{
    if a.len() != b.len() {
        return false;
    }
    let mut i: usize = 0;
    while i < a.len()
        invariant
            a@.len() == b@.len(),
            i <= a@.len(),
            forall|k: int| 0 <= k < i ==> lower(#[trigger] a@[k]) == lower(b@[k]),
        decreases a@.len() - i,
    {
        if lower_char(a[i]) != lower_char(b[i]) {
            assert(lower(a@[i as int]) != lower(b@[i as int]));
            return false;
        }
        i = i + 1;
    }
    true
}

/// The characters with the Unicode property White_Space.
pub open spec fn white_space(c: char) -> bool {
    let n = c as u32;
    ||| 0x9 <= n <= 0xd
    ||| n == 0x20
    ||| n == 0x85
    ||| n == 0xa0
    ||| n == 0x1680
    ||| 0x2000 <= n <= 0x200a
    ||| n == 0x2028
    ||| n == 0x2029
    ||| n == 0x202f
    ||| n == 0x205f
    ||| n == 0x3000
}

fn is_white_space(c: char) -> (r: bool)
    ensures
        r == white_space(c),
{
    let n: u32 = c as u32;
    (0x9 <= n && n <= 0xd) || n == 0x20 || n == 0x85 || n == 0xa0 || n == 0x1680 || (0x2000 <= n
        && n <= 0x200a) || n == 0x2028 || n == 0x2029 || n == 0x202f || n == 0x205f || n == 0x3000
}

/// `s` without its leading white space.
pub open spec fn trim_start(s: Seq<char>) -> Seq<char>
    decreases s.len(),
{
    if s.len() > 0 && white_space(s[0]) {
        trim_start(s.drop_first())
    } else {
        s
    }
}

/// `s` without its trailing white space.
pub open spec fn trim_end(s: Seq<char>) -> Seq<char>
    decreases s.len(),
{
    if s.len() > 0 && white_space(s.last()) {
        trim_end(s.drop_last())
    } else {
        s
    }
}

/// `s` without its leading and trailing white space.
pub open spec fn trimmed(s: Seq<char>) -> Seq<char> {
    trim_end(trim_start(s))
}

/// Removes leading and trailing white space.
pub fn trim(v: &[char]) -> (r: &[char])
    ensures
        r@ == trimmed(v@),
{
    let ghost s = v@;
    let mut a: usize = 0;
    let mut b: usize = v.len();
    assert(s.subrange(0, b as int) =~= s);
    while a < b && is_white_space(v[a])
        invariant
            s == v@,
            a <= b,
            b == s.len(),
            trim_start(s) == trim_start(s.subrange(a as int, b as int)),
        decreases b - a,
    {
        assert(s.subrange(a as int, b as int).drop_first() =~= s.subrange(a + 1, b as int));
        a = a + 1;
    }
    assert(trim_start(s) == s.subrange(a as int, b as int));
    while a < b && is_white_space(v[b - 1])
        invariant
            s == v@,
            a <= b,
            b <= s.len(),
            trimmed(s) == trim_end(s.subrange(a as int, b as int)),
        decreases b - a,
    {
        assert(s.subrange(a as int, b as int).drop_last() =~= s.subrange(a as int, b - 1));
        b = b - 1;
    }
    &v[a..b]
}

/// The parts of `s` between occurrences of `sep`; there is always at least one.
pub open spec fn split(s: Seq<char>, sep: char) -> Seq<Seq<char>>
    decreases s.len(),
{
    if s.len() == 0 {
        seq![Seq::empty()]
    } else {
        let before = split(s.drop_last(), sep);
        if s.last() == sep {
            before.push(Seq::empty())
        } else {
            before.update(before.len() - 1, before.last().push(s.last()))
        }
    }
}

/// The views of a list of texts.
pub open spec fn views(v: Seq<Vec<char>>) -> Seq<Seq<char>> {
    Seq::new(v.len(), |i: int| v[i]@)
}

/// Splits a text at every occurrence of `sep`.
pub fn split_on(v: &[char], sep: char) -> (r: Vec<Vec<char>>)
    ensures
        views(r@) == split(v@, sep),
        r@.len() >= 1,
{
    let mut parts: Vec<Vec<char>> = Vec::new();
    let mut cur: Vec<char> = Vec::new();
    let mut i: usize = 0;
    assert(v@.take(0) =~= Seq::<char>::empty());
    assert(views(parts@).push(cur@) =~= seq![Seq::<char>::empty()]);
    while i < v.len()
        invariant
            i <= v@.len(),
            split(v@.take(i as int), sep) == views(parts@).push(cur@),
        decreases v@.len() - i,
    {
        let c: char = v[i];
        let ghost had = views(parts@);
        let ghost was = cur@;
        proof {
            assert(v@.take(i + 1).drop_last() =~= v@.take(i as int));
            assert(v@.take(i + 1).last() == c);
        }
        if c == sep {
            parts.push(cur);
            cur = Vec::new();
            assert(views(parts@) =~= had.push(was));
        } else {
            cur.push(c);
            assert(had.push(was).update(had.len() as int, was.push(c)) =~= had.push(cur@));
        }
        i = i + 1;
    }
    assert(v@.take(i as int) =~= v@);
    let ghost had = views(parts@);
    parts.push(cur);
    assert(views(parts@) =~= had.push(cur@));
    parts
}

/// Whether `s` begins with `p`.
pub open spec fn has_prefix(s: Seq<char>, p: Seq<char>) -> bool {
    p.len() <= s.len() && s.take(p.len() as int) == p
}

/// Whether a text begins with another.
pub fn starts_with(s: &[char], p: &[char]) -> (r: bool)
    ensures
        r == has_prefix(s@, p@),
{
    if p.len() > s.len() {
        return false;
    }
    let mut i: usize = 0;
    while i < p.len()
        invariant
            p@.len() <= s@.len(),
            i <= p@.len(),
            forall|k: int| 0 <= k < i ==> s@[k] == p@[k],
        decreases p@.len() - i,
    {
        if s[i] != p[i] {
            assert(s@.take(p@.len() as int)[i as int] != p@[i as int]);
            return false;
        }
        i = i + 1;
    }
    assert(s@.take(p@.len() as int) =~= p@);
    true
}

/// The decimal digit of value `d`.
pub open spec fn digit(d: nat) -> char {
    (48 + d) as char
}

/// The decimal notation of `n`.
pub open spec fn decimal(n: nat) -> Seq<char>
    decreases n,
{
    if n < 10 {
        seq![digit(n)]
    } else {
        decimal(n / 10).push(digit(n % 10))
    }
}

/// Writes a number in decimal notation.
pub fn decimal_text(n: u64) -> (s: String)
    ensures
        s@ == decimal(n as nat),
    decreases n,
{
    let d: char = (48 + (n % 10) as u8) as char;
    if n < 10 {
        let mut s: String = String::new();
        s.push(d);
        assert(s@ =~= seq![digit(n as nat)]);
        s
    } else {
        let mut s: String = decimal_text(n / 10);
        s.push(d);
        s
    }
}

/// Text without a separator only lengthens the last part.
pub proof fn lemma_split_more(s: Seq<char>, more: Seq<char>, sep: char)
    requires
        forall|i: int| 0 <= i < more.len() ==> more[i] != sep,
    ensures
        split(s, sep).len() >= 1,
        split(s + more, sep) == split(s, sep).update(
            split(s, sep).len() - 1,
            split(s, sep).last() + more,
        ),
    decreases s.len() + more.len(),
{
    if s.len() > 0 {
        lemma_split_more(s.drop_last(), Seq::empty(), sep);
    }
    let parts = split(s, sep);
    if more.len() == 0 {
        assert(s + more =~= s);
        assert(parts.last() + more =~= parts.last());
        assert(parts.update(parts.len() - 1, parts.last()) =~= parts);
    } else {
        let rest = more.drop_last();
        assert(forall|i: int| 0 <= i < rest.len() ==> rest[i] == more[i]);
        lemma_split_more(s, rest, sep);
        assert((s + more).drop_last() =~= s + rest);
        assert((s + more).last() == more.last());
        assert((parts.last() + rest).push(more.last()) =~= parts.last() + more);
        assert(split(s + more, sep) =~= parts.update(parts.len() - 1, parts.last() + more));
    }
}

/// A separator closes the last part and opens an empty one.
pub proof fn lemma_split_sep(s: Seq<char>, sep: char)
    ensures
        split(s + seq![sep], sep) == split(s, sep).push(Seq::empty()),
{
    assert((s + seq![sep]).drop_last() =~= s);
}

/// Text up to the first separator is the first part, whatever follows.
pub proof fn lemma_split_first(s: Seq<char>, more: Seq<char>, sep: char)
    requires
        forall|i: int| 0 <= i < s.len() ==> s[i] != sep,
    ensures
        split(s + seq![sep] + more, sep).len() >= 2,
        split(s + seq![sep] + more, sep)[0] == s,
    decreases more.len(),
{
    let all = s + seq![sep] + more;
    if more.len() == 0 {
        assert(all =~= s + seq![sep]);
        lemma_split_sep(s, sep);
        lemma_split_more(Seq::empty(), s, sep);
        assert(Seq::<char>::empty() + s =~= s);
    } else {
        lemma_split_first(s, more.drop_last(), sep);
        assert(all.drop_last() =~= s + seq![sep] + more.drop_last());
    }
}

/// The parts with a separator between each two of them.
pub open spec fn joined(parts: Seq<Seq<char>>, sep: char) -> Seq<char>
    decreases parts.len(),
{
    if parts.len() == 0 {
        Seq::empty()
    } else if parts.len() == 1 {
        parts[0]
    } else {
        joined(parts.drop_last(), sep) + seq![sep] + parts.last()
    }
}

/// Splitting loses nothing and leaves no separator in a part: the parts, joined by
/// the separator, are the text again.
pub proof fn splitting_loses_nothing(s: Seq<char>, sep: char)
    ensures
        split(s, sep).len() >= 1,
        joined(split(s, sep), sep) == s,
        forall|i: int, k: int|
            0 <= i < split(s, sep).len() && 0 <= k < split(s, sep)[i].len() ==> (#[trigger] split(
                s,
                sep,
            )[i][k]) != sep,
    decreases s.len(),
{
    let parts = split(s, sep);
    if s.len() > 0 {
        let rest = s.drop_last();
        let before = split(rest, sep);
        splitting_loses_nothing(rest, sep);
        if s.last() == sep {
            assert(parts.drop_last() =~= before);
            assert(joined(parts, sep) =~= rest + seq![sep]);
            assert(rest + seq![sep] =~= s);
            assert forall|i: int, k: int|
                0 <= i < parts.len() && 0 <= k < parts[i].len() implies (#[trigger] parts[i][k])
                != sep by {
                assert(parts[i] == before[i]);
            }
        } else {
            assert(parts.drop_last() =~= before.drop_last());
            assert(parts.last() == before.last().push(s.last()));
            if before.len() == 1 {
                assert(joined(parts, sep) =~= rest.push(s.last()));
            } else {
                assert(joined(parts, sep) =~= joined(before, sep).push(s.last()));
            }
            assert(rest.push(s.last()) =~= s);
            assert forall|i: int, k: int|
                0 <= i < parts.len() && 0 <= k < parts[i].len() implies (#[trigger] parts[i][k])
                != sep by {
                if i < parts.len() - 1 {
                    assert(parts[i] == before[i]);
                } else if k < before.last().len() {
                    assert(parts[i][k] == before[before.len() - 1][k]);
                }
            }
        }
    }
}

proof fn lemma_trim_start(s: Seq<char>)
    ensures
        trim_start(s).len() <= s.len(),
        trim_start(s) == s.skip(s.len() - trim_start(s).len()),
        forall|i: int| 0 <= i < s.len() - trim_start(s).len() ==> white_space(#[trigger] s[i]),
        trim_start(s).len() > 0 ==> !white_space(trim_start(s)[0]),
    decreases s.len(),
{
    if s.len() > 0 && white_space(s[0]) {
        let rest = s.drop_first();
        lemma_trim_start(rest);
        assert(trim_start(s) =~= s.skip(s.len() - trim_start(s).len()));
        assert forall|i: int| 0 <= i < s.len() - trim_start(s).len() implies white_space(
            #[trigger] s[i],
        ) by {
            if i > 0 {
                assert(s[i] == rest[i - 1]);
            }
        }
    } else {
        assert(s.skip(0) =~= s);
    }
}

proof fn lemma_trim_end(s: Seq<char>)
    ensures
        trim_end(s).len() <= s.len(),
        trim_end(s) == s.take(trim_end(s).len() as int),
        forall|i: int| trim_end(s).len() <= i < s.len() ==> white_space(#[trigger] s[i]),
        trim_end(s).len() > 0 ==> !white_space(trim_end(s).last()),
    decreases s.len(),
{
    if s.len() > 0 && white_space(s.last()) {
        let rest = s.drop_last();
        lemma_trim_end(rest);
        assert(trim_end(s) =~= s.take(trim_end(s).len() as int));
        assert forall|i: int| trim_end(s).len() <= i < s.len() implies white_space(
            #[trigger] s[i],
        ) by {
            if i < rest.len() {
                assert(s[i] == rest[i]);
            }
        }
    } else {
        assert(s.take(s.len() as int) =~= s);
    }
}

/// Trimming takes away white space, all of it at both ends, and nothing else.
pub proof fn trimming_takes_white_space_only(s: Seq<char>)
    ensures
        ({
            let t = trimmed(s);
            let front = s.len() - trim_start(s).len();
            &&& 0 <= front
            &&& front + t.len() <= s.len()
            &&& s.subrange(front, front + t.len()) == t
            &&& forall|i: int|
                0 <= i < front || front + t.len() <= i < s.len() ==> white_space(#[trigger] s[i])
            &&& t.len() > 0 ==> !white_space(t[0]) && !white_space(t.last())
        }),
{
    let u = trim_start(s);
    let t = trimmed(s);
    let front = s.len() - u.len();
    lemma_trim_start(s);
    lemma_trim_end(u);
    assert(s.subrange(front, front + t.len()) =~= t);
    assert forall|i: int|
        0 <= i < front || front + t.len() <= i < s.len() implies white_space(#[trigger] s[i]) by {
        if i >= front {
            assert(s[i] == u[i - front]);
        }
    }
    if t.len() > 0 {
        assert(t[0] == u[0]);
    }
}

/// Among the ASCII characters, white space is the tab, the line feed, the vertical
/// tab, the form feed, the carriage return and the space.
pub proof fn ascii_white_space(c: char)
    requires
        (c as u32) < 128,
    ensures
        white_space(c) <==> c == '\t' || c == '\n' || c == '\u{b}' || c == '\u{c}' || c == '\r' || c
            == ' ',
{
}

/// Case is the only thing that a comparison without case overlooks: two texts are
/// the same up to case exactly where each character is equal or the two are the
/// capital and the small form of one of the letters a to z.
pub proof fn only_the_case_is_ignored(a: Seq<char>, b: Seq<char>)
    ensures
        same_ignoring_case(a, b) <==> a.len() == b.len() && forall|i: int|
            0 <= i < a.len() ==> {
                let x = #[trigger] a[i] as int;
                let y = b[i] as int;
                ||| x == y
                ||| 65 <= x <= 90 && y == x + 32
                ||| 65 <= y <= 90 && x == y + 32
            },
{
    assert forall|x: char, y: char|
        #[trigger] lower(x) == #[trigger] lower(y) <==> {
            ||| x as int == y as int
            ||| 65 <= x as int <= 90 && y as int == x as int + 32
            ||| 65 <= y as int <= 90 && x as int == y as int + 32
        } by {}
    if a.len() == b.len() {
        assert forall|i: int| 0 <= i < a.len() implies lower(#[trigger] a[i]) == lower(b[i]) <==> {
            let x = a[i] as int;
            let y = b[i] as int;
            ||| x == y
            ||| 65 <= x <= 90 && y == x + 32
            ||| 65 <= y <= 90 && x == y + 32
        } by {
            let x = a[i];
            let y = b[i];
            assert(lower(x) == lower(y) <==> (x as int == y as int || 65 <= x as int <= 90
                && y as int == x as int + 32 || 65 <= y as int <= 90 && x as int == y as int + 32));
        }
    }
}

/// What a text of decimal digits stands for.
pub open spec fn decimal_value(s: Seq<char>) -> int
    decreases s.len(),
{
    if s.len() == 0 {
        0
    } else {
        decimal_value(s.drop_last()) * 10 + (s.last() as int - '0' as int)
    }
}

/// A number reads back from its decimal notation, which has only digits and no
/// leading zero.
pub proof fn decimals_read_back(n: nat)
    ensures
        decimal_value(decimal(n)) == n,
        decimal(n).len() > 0,
        forall|i: int| 0 <= i < decimal(n).len() ==> '0' <= #[trigger] decimal(n)[i] <= '9',
        decimal(n).len() > 1 ==> decimal(n)[0] != '0',
    decreases n,
{
    reveal_with_fuel(decimal_value, 2);
    if n < 10 {
        assert(seq![digit(n)].drop_last() =~= Seq::<char>::empty());
    } else {
        decimals_read_back(n / 10);
        let high = decimal(n / 10);
        assert(decimal(n).drop_last() =~= high);
        assert(n / 10 > 0);
        if high.len() == 1 {
            assert(high.drop_last() =~= Seq::<char>::empty());
            assert(high[0] as int - '0' as int == n / 10);
        }
        assert forall|i: int| 0 <= i < decimal(n).len() implies '0' <= #[trigger] decimal(n)[i]
            <= '9' by {
            if i < high.len() {
                assert(decimal(n)[i] == high[i]);
            }
        }
    }
}

/// A text begins with another exactly where it is that other and then something, be it
/// nothing.
pub proof fn prefixes_can_be_taken_off(s: Seq<char>, p: Seq<char>, rest: Seq<char>)
    ensures
        has_prefix(p + rest, p),
        has_prefix(s, p) <==> p.len() <= s.len() && s == p + s.skip(p.len() as int),
{
    assert((p + rest).take(p.len() as int) =~= p);
    if p.len() <= s.len() {
        assert(s =~= s.take(p.len() as int) + s.skip(p.len() as int));
        if s == p + s.skip(p.len() as int) {
            assert(s.take(p.len() as int) =~= p);
        }
    }
}

} // verus!
