//! Entries by name, in the order of their names.
use crate::text;
use vstd::prelude::*;

verus! {

/// One key comes before another: character by character, a prefix first.
pub open spec fn precedes(a: Seq<char>, b: Seq<char>) -> bool
    decreases a.len(),
{
    if b.len() == 0 {
        false
    } else if a.len() == 0 {
        true
    } else if a[0] != b[0] {
        (a[0] as int) < (b[0] as int)
    } else {
        precedes(a.drop_first(), b.drop_first())
    }
}

/// Whether one key comes before another.
pub fn str_precedes(a: &str, b: &str) -> (r: bool)
    ensures
        r == precedes(a@, b@),
{
    let x: Vec<char> = text::to_chars(a);
    let y: Vec<char> = text::to_chars(b);
    let mut i: usize = 0;
    assert(x@.skip(0) =~= x@);
    assert(y@.skip(0) =~= y@);
    while i < x.len() && i < y.len() && x[i] == y[i]
        invariant
            i <= x@.len(),
            i <= y@.len(),
            precedes(x@, y@) == precedes(x@.skip(i as int), y@.skip(i as int)),
        decreases x@.len() - i,
    {
        proof {
            assert(x@.skip(i as int).drop_first() =~= x@.skip(i + 1));
            assert(y@.skip(i as int).drop_first() =~= y@.skip(i + 1));
        }
        i = i + 1;
    }
    if i >= y.len() {
        false
    } else if i >= x.len() {
        true
    } else {
        x[i] < y[i]
    }
}

/// Entries in the order of their keys, with one more: it takes the place of an
/// entry with the same key.
pub open spec fn insert_entry<V>(
    entries: Seq<(Seq<char>, V)>,
    key: Seq<char>,
    value: V,
) -> Seq<(Seq<char>, V)>
    decreases entries.len(),
{
    if entries.len() == 0 {
        seq![(key, value)]
    } else if entries.last().0 == key {
        entries.drop_last().push((key, value))
    } else if precedes(entries.last().0, key) {
        entries.push((key, value))
    } else {
        insert_entry(entries.drop_last(), key, value).push(entries.last())
    }
}

/// What the entries hold under a key: of several entries with the key, the last.
pub open spec fn held<V>(entries: Seq<(Seq<char>, V)>, key: Seq<char>) -> Option<V>
    decreases entries.len(),
{
    if entries.len() == 0 {
        None
    } else if entries.last().0 == key {
        Some(entries.last().1)
    } else {
        held(entries.drop_last(), key)
    }
}

/// Every key comes before the next.
pub open spec fn increasing<V>(entries: Seq<(Seq<char>, V)>) -> bool {
    forall|i: int, j: int|
        0 <= i < j < entries.len() ==> precedes((#[trigger] entries[i]).0, (#[trigger] entries[j]).0)
}

pub proof fn lemma_precedes(a: Seq<char>, b: Seq<char>, c: Seq<char>)
    ensures
        !precedes(a, a),
        a != b ==> precedes(a, b) || precedes(b, a),
        precedes(a, b) && precedes(b, c) ==> precedes(a, c),
        !(precedes(a, b) && precedes(b, a)),
    decreases a.len() + b.len() + c.len(),
{
    if a.len() > 0 && b.len() > 0 && c.len() > 0 {
        lemma_precedes(a.drop_first(), b.drop_first(), c.drop_first());
    } else if a.len() > 0 && b.len() > 0 {
        lemma_precedes(a.drop_first(), b.drop_first(), c);
    } else if a.len() > 0 {
        lemma_precedes(a.drop_first(), b, c);
    }
    if a.len() > 0 && b.len() > 0 {
        if a[0] == b[0] && a.drop_first() == b.drop_first() {
            assert(a =~= seq![a[0]] + a.drop_first());
            assert(b =~= seq![b[0]] + b.drop_first());
        }
    } else if a.len() == 0 && b.len() == 0 {
        assert(a =~= b);
    }
}

pub proof fn lemma_insert_entry<V>(
    entries: Seq<(Seq<char>, V)>,
    key: Seq<char>,
    value: V,
    x: Seq<char>,
)
    requires
        increasing(entries),
    ensures
        increasing(insert_entry(entries, key, value)),
        held(insert_entry(entries, key, value), x) == if x == key {
            Some(value)
        } else {
            held(entries, x)
        },
        forall|i: int|
            0 <= i < insert_entry(entries, key, value).len() ==> {
                ||| (#[trigger] insert_entry(entries, key, value)[i]).0 == key
                ||| exists|j: int|
                    0 <= j < entries.len() && (#[trigger] entries[j]).0 == insert_entry(
                        entries,
                        key,
                        value,
                    )[i].0
            },
    decreases entries.len(),
{
    let r = insert_entry(entries, key, value);
    if entries.len() == 0 {
        assert(r.drop_last() =~= entries);
    } else {
        let init = entries.drop_last();
        let last = entries.last();
        let n = entries.len() - 1;
        assert(increasing(init)) by {
            assert forall|i: int, j: int| 0 <= i < j < init.len() implies precedes(
                (#[trigger] init[i]).0,
                (#[trigger] init[j]).0,
            ) by {
                assert(init[i] == entries[i] && init[j] == entries[j]);
            }
        }
        if last.0 == key {
            assert(r.drop_last() =~= init);
            assert forall|i: int, j: int| 0 <= i < j < r.len() implies precedes(
                (#[trigger] r[i]).0,
                (#[trigger] r[j]).0,
            ) by {
                assert(r[i].0 == entries[i].0 && r[j].0 == entries[j].0);
            }
            assert forall|i: int| 0 <= i < r.len() implies (#[trigger] r[i]).0 == key || exists|
                j: int,
            |
                0 <= j < entries.len() && (#[trigger] entries[j]).0 == r[i].0 by {
                assert(entries[i].0 == r[i].0);
            }
        } else if precedes(last.0, key) {
            assert(r.drop_last() =~= entries);
            assert forall|i: int, j: int| 0 <= i < j < r.len() implies precedes(
                (#[trigger] r[i]).0,
                (#[trigger] r[j]).0,
            ) by {
                if j == entries.len() {
                    if i < n {
                        assert(precedes(entries[i].0, entries[n].0));
                        lemma_precedes(entries[i].0, last.0, key);
                    }
                } else {
                    assert(r[i] == entries[i] && r[j] == entries[j]);
                }
            }
            assert forall|i: int| 0 <= i < r.len() implies (#[trigger] r[i]).0 == key || exists|
                j: int,
            |
                0 <= j < entries.len() && (#[trigger] entries[j]).0 == r[i].0 by {
                if i < entries.len() {
                    assert(entries[i].0 == r[i].0);
                }
            }
        } else {
            let s = insert_entry(init, key, value);
            lemma_insert_entry(init, key, value, x);
            lemma_precedes(key, last.0, key);
            assert(r.drop_last() =~= s);
            assert forall|i: int, j: int| 0 <= i < j < r.len() implies precedes(
                (#[trigger] r[i]).0,
                (#[trigger] r[j]).0,
            ) by {
                if j == s.len() {
                    assert(s[i] == r[i]);
                    if s[i].0 != key {
                        let k = choose|k: int|
                            0 <= k < init.len() && (#[trigger] init[k]).0 == s[i].0;
                        assert(init[k] == entries[k]);
                        assert(precedes(entries[k].0, entries[n].0));
                    }
                } else {
                    assert(r[i] == s[i] && r[j] == s[j]);
                }
            }
            assert forall|i: int| 0 <= i < r.len() implies (#[trigger] r[i]).0 == key || exists|
                j: int,
            |
                0 <= j < entries.len() && (#[trigger] entries[j]).0 == r[i].0 by {
                if i < s.len() {
                    assert(s[i] == r[i]);
                    if s[i].0 != key {
                        let k = choose|k: int|
                            0 <= k < init.len() && (#[trigger] init[k]).0 == s[i].0;
                        assert(init[k] == entries[k]);
                    }
                } else {
                    assert(entries[n].0 == r[i].0);
                }
            }
        }
    }
}

pub proof fn lemma_held<V>(entries: Seq<(Seq<char>, V)>, i: int)
    requires
        increasing(entries),
        0 <= i < entries.len(),
    ensures
        held(entries, entries[i].0) == Some(entries[i].1),
    decreases entries.len(),
{
    let n = entries.len() - 1;
    if i < n {
        let init = entries.drop_last();
        assert(precedes(entries[i].0, entries[n].0));
        lemma_precedes(entries[i].0, entries[n].0, entries[i].0);
        assert(increasing(init)) by {
            assert forall|a: int, b: int| 0 <= a < b < init.len() implies precedes(
                (#[trigger] init[a]).0,
                (#[trigger] init[b]).0,
            ) by {
                assert(init[a] == entries[a] && init[b] == entries[b]);
            }
        }
        assert(init[i] == entries[i]);
        lemma_held(init, i);
    }
}

pub proof fn lemma_held_at<V>(entries: Seq<(Seq<char>, V)>, key: Seq<char>)
    requires
        held(entries, key) is Some,
    ensures
        exists|i: int| 0 <= i < entries.len() && (#[trigger] entries[i]).0 == key,
    decreases entries.len(),
{
    if entries.last().0 == key {
        assert(entries[entries.len() - 1].0 == key);
    } else {
        let init = entries.drop_last();
        lemma_held_at(init, key);
        let i = choose|i: int| 0 <= i < init.len() && (#[trigger] init[i]).0 == key;
        assert(entries[i].0 == key);
    }
}

pub proof fn lemma_increasing_unique<V>(
    a: Seq<(Seq<char>, V)>,
    b: Seq<(Seq<char>, V)>,
)
    requires
        increasing(a),
        increasing(b),
        forall|k: Seq<char>| #[trigger] held(a, k) == held(b, k),
    ensures
        a == b,
    decreases a.len(),
{
    if a.len() == 0 {
        if b.len() > 0 {
            lemma_held(b, b.len() - 1);
            assert(held(a, b.last().0) is None);
        }
        assert(a =~= b);
    } else {
        let n = a.len() - 1;
        lemma_held(a, n);
        assert(held(b, a.last().0) is Some);
        lemma_held_at(b, a.last().0);
        let j = choose|j: int| 0 <= j < b.len() && (#[trigger] b[j]).0 == a.last().0;
        let m = b.len() - 1;
        lemma_held(b, m);
        assert(held(a, b.last().0) is Some);
        lemma_held_at(a, b.last().0);
        let i = choose|i: int| 0 <= i < a.len() && (#[trigger] a[i]).0 == b.last().0;
        if j < m {
            assert(precedes(b[j].0, b[m].0));
            if i < n {
                assert(precedes(a[i].0, a[n].0));
            }
            lemma_precedes(b[j].0, b[m].0, b[j].0);
        }
        assert(a.last().0 == b.last().0);
        assert(a.last() == b.last());
        let x = a.drop_last();
        let y = b.drop_last();
        assert(increasing(x)) by {
            assert forall|p: int, q: int| 0 <= p < q < x.len() implies precedes(
                (#[trigger] x[p]).0,
                (#[trigger] x[q]).0,
            ) by {
                assert(x[p] == a[p] && x[q] == a[q]);
            }
        }
        assert(increasing(y)) by {
            assert forall|p: int, q: int| 0 <= p < q < y.len() implies precedes(
                (#[trigger] y[p]).0,
                (#[trigger] y[q]).0,
            ) by {
                assert(y[p] == b[p] && y[q] == b[q]);
            }
        }
        assert forall|k: Seq<char>| #[trigger] held(x, k) == held(y, k) by {
            assert(held(a, k) == held(b, k));
            if k == a.last().0 {
                if held(x, k) is Some {
                    lemma_held_at(x, k);
                    let p = choose|p: int| 0 <= p < x.len() && (#[trigger] x[p]).0 == k;
                    assert(x[p] == a[p]);
                    assert(precedes(a[p].0, a[n].0));
                    lemma_precedes(k, k, k);
                }
                if held(y, k) is Some {
                    lemma_held_at(y, k);
                    let p = choose|p: int| 0 <= p < y.len() && (#[trigger] y[p]).0 == k;
                    assert(y[p] == b[p]);
                    assert(precedes(b[p].0, b[m].0));
                    lemma_precedes(k, k, k);
                }
            }
        }
        lemma_increasing_unique(x, y);
        assert(a =~= x.push(a.last()));
        assert(b =~= y.push(b.last()));
    }
}

/// The entries of a list.
pub open spec fn entries_of<T>(list: Seq<(String, T)>) -> Seq<(Seq<char>, T)> {
    Seq::new(list.len(), |i: int| (list[i].0@, list[i].1))
}

/// The entries with something read off each value.
pub open spec fn mapped<T, V>(entries: Seq<(Seq<char>, T)>, f: spec_fn(T) -> V) -> Seq<
    (Seq<char>, V),
> {
    Seq::new(entries.len(), |i: int| (entries[i].0, f(entries[i].1)))
}

/// Reading something off the values does not change where an entry goes.
pub proof fn lemma_insert_mapped<T, V>(
    entries: Seq<(Seq<char>, T)>,
    key: Seq<char>,
    value: T,
    f: spec_fn(T) -> V,
)
    ensures
        mapped(insert_entry(entries, key, value), f) == insert_entry(
            mapped(entries, f),
            key,
            f(value),
        ),
    decreases entries.len(),
{
    let m = mapped(entries, f);
    if entries.len() > 0 {
        lemma_insert_mapped(entries.drop_last(), key, value, f);
        assert(m.drop_last() =~= mapped(entries.drop_last(), f));
    }
    assert(mapped(insert_entry(entries, key, value), f) =~= insert_entry(m, key, f(value)));
}

/// Puts one more entry among entries in order.
pub fn put<T>(out: &mut Vec<(String, T)>, key: String, value: T)
    ensures
        entries_of(final(out)@) == insert_entry(entries_of(old(out)@), key@, value),
{
    let ghost start = out@;
    let ghost all = entries_of(start);
    let mut pos: usize = out.len();
    proof {
        assert(all.take(pos as int) =~= all);
        assert(insert_entry(all, key@, value) =~= insert_entry(all.take(pos as int), key@, value)
            + all.skip(pos as int));
    }
    while pos > 0
        invariant
            pos <= start.len(),
            out@ == start,
            start == old(out)@,
            all == entries_of(start),
            insert_entry(all, key@, value) == insert_entry(all.take(pos as int), key@, value)
                + all.skip(pos as int),
        ensures
            pos <= start.len(),
            pos == 0 || precedes(all[pos - 1].0, key@) && all[pos - 1].0 != key@,
        decreases pos,
    {
        let same: bool = text::str_eq(out[pos - 1].0.as_str(), key.as_str());
        assert(all.take(pos as int).last() == all[pos - 1]);
        if same {
            let at: usize = pos - 1;
            out.set(at, (key, value));
            proof {
                assert(entries_of(out@) =~= all.take(pos as int).drop_last().push((key@, value))
                    + all.skip(pos as int));
            }
            return;
        }
        if str_precedes(out[pos - 1].0.as_str(), key.as_str()) {
            break;
        }
        proof {
            assert(all.take(pos as int).drop_last() =~= all.take(pos - 1));
            assert(insert_entry(all.take(pos - 1), key@, value).push(all[pos - 1]) + all.skip(
                pos as int,
            ) =~= insert_entry(all.take(pos - 1), key@, value) + all.skip(pos - 1));
        }
        pos = pos - 1;
    }
    out.insert(pos, (key, value));
    proof {
        if pos > 0 {
            assert(all.take(pos as int).last() == all[pos - 1]);
        }
        assert(entries_of(out@) =~= all.take(pos as int).push((key@, value)) + all.skip(
            pos as int,
        ));
        assert(insert_entry(all.take(pos as int), key@, value) =~= all.take(pos as int).push(
            (key@, value),
        ));
    }
}

/// One text precedes another exactly where, behind what they have in common, it ends
/// first or has the smaller character.
pub proof fn the_first_difference_decides(a: Seq<char>, b: Seq<char>, n: nat)
    requires
        n <= a.len(),
        n <= b.len(),
        a.take(n as int) == b.take(n as int),
        n < a.len() && n < b.len() ==> a[n as int] != b[n as int],
    ensures
        precedes(a, b) <==> n < b.len() && (n == a.len() || (n < a.len() && (a[n as int] as int) < (
        b[n as int] as int))),
    decreases n,
{
    if n > 0 {
        assert(a.take(n as int)[0] == a[0]);
        assert(b.take(n as int)[0] == b[0]);
        let a1 = a.drop_first();
        let b1 = b.drop_first();
        assert(a1.take(n - 1) =~= a.take(n as int).drop_first());
        assert(b1.take(n - 1) =~= b.take(n as int).drop_first());
        the_first_difference_decides(a1, b1, (n - 1) as nat);
    }
}

/// What a key holds is the value of its last entry, and nothing where it has none.
pub proof fn the_last_entry_counts<V>(entries: Seq<(Seq<char>, V)>, key: Seq<char>, i: int)
    requires
        0 <= i < entries.len(),
        entries[i].0 == key,
        forall|j: int| i < j < entries.len() ==> (#[trigger] entries[j]).0 != key,
    ensures
        held(entries, key) == Some(entries[i].1),
    decreases entries.len(),
{
    if i < entries.len() - 1 {
        let rest = entries.drop_last();
        assert(entries[entries.len() - 1].0 != key);
        assert forall|j: int| i < j < rest.len() implies (#[trigger] rest[j]).0 != key by {
            assert(rest[j] == entries[j]);
        }
        the_last_entry_counts(rest, key, i);
    }
}

} // verus!
