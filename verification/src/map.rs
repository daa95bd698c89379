//! An ordered map from text to values.

use vstd::prelude::*;
use crate::text::comes_before;
use crate::text::same;
use crate::text::text_lt;

verus! {

/// A value that contracts speak of by a mathematical model.
pub trait Modelled: Sized {
    type Model;

    spec fn model(&self) -> Self::Model;
}

/// A value of which copies can be made.
pub trait Copied: Modelled {
    /// A copy.
    fn copied(&self) -> (r: Self)
        ensures
            r.model() == self.model(),
    ;
}

impl Modelled for String {
    type Model = Seq<char>;

    open spec fn model(&self) -> Seq<char> {
        self@
    }
}

impl Copied for String {
    fn copied(&self) -> (r: Self) {
        self.clone()
    }
}

// ---------------------------------------------------------------------------
// Maps as lists of entries
// ---------------------------------------------------------------------------

/// Whether the keys of `m` are in strictly ascending order.
pub open spec fn sorted<M>(m: Seq<(Seq<char>, M)>) -> bool {
    forall|i: int, j: int|
        0 <= i < j < m.len() ==> text_lt((#[trigger] m[i]).0, (#[trigger] m[j]).0)
}

/// The value at `k`.
pub open spec fn lookup<M>(m: Seq<(Seq<char>, M)>, k: Seq<char>) -> Option<M>
    decreases m.len(),
{
    if m.len() == 0 {
        None
    } else if m[0].0 == k {
        Some(m[0].1)
    } else {
        lookup(m.drop_first(), k)
    }
}

/// `m` with `v` at `k`.
pub open spec fn put<M>(m: Seq<(Seq<char>, M)>, k: Seq<char>, v: M) -> Seq<(Seq<char>, M)>
    decreases m.len(),
{
    if m.len() == 0 {
        seq![(k, v)]
    } else if m[0].0 == k {
        seq![(k, v)] + m.drop_first()
    } else if text_lt(k, m[0].0) {
        seq![(k, v)] + m
    } else {
        seq![m[0]] + put(m.drop_first(), k, v)
    }
}

/// `m` without the entry at `k`.
pub open spec fn without<M>(m: Seq<(Seq<char>, M)>, k: Seq<char>) -> Seq<(Seq<char>, M)>
    decreases m.len(),
{
    if m.len() == 0 {
        m
    } else if m[0].0 == k {
        m.drop_first()
    } else {
        seq![m[0]] + without(m.drop_first(), k)
    }
}

/// `m` with the entries of `more` put in, in their order.
pub open spec fn put_all<M>(m: Seq<(Seq<char>, M)>, more: Seq<(Seq<char>, M)>) -> Seq<
    (Seq<char>, M),
>
    decreases more.len(),
{
    if more.len() == 0 {
        m
    } else {
        put(put_all(m, more.drop_last()), more.last().0, more.last().1)
    }
}

// ---------------------------------------------------------------------------
// The order of texts
// ---------------------------------------------------------------------------

proof fn lemma_text_lt_irreflexive(a: Seq<char>)
    ensures
        !text_lt(a, a),
    decreases a.len(),
{
    if a.len() > 0 {
        lemma_text_lt_irreflexive(a.drop_first());
    }
}

/// The order of texts is transitive.
pub proof fn text_lt_is_transitive(a: Seq<char>, b: Seq<char>, c: Seq<char>)
    requires
        text_lt(a, b),
        text_lt(b, c),
    ensures
        text_lt(a, c),
    decreases a.len(),
{
    if a.len() > 0 && b.len() > 0 && c.len() > 0 && a[0] == b[0] && b[0] == c[0] {
        text_lt_is_transitive(a.drop_first(), b.drop_first(), c.drop_first());
    }
}

/// Of two different texts one comes before the other.
pub proof fn text_lt_is_total(a: Seq<char>, b: Seq<char>)
    ensures
        text_lt(a, b) || text_lt(b, a) || a == b,
        !(text_lt(a, b) && text_lt(b, a)),
        text_lt(a, b) ==> a != b,
    decreases a.len(),
{
    if a.len() > 0 && b.len() > 0 {
        if a[0] == b[0] {
            text_lt_is_total(a.drop_first(), b.drop_first());
            if a.drop_first() == b.drop_first() {
                assert(a =~= seq![a[0]] + a.drop_first());
                assert(b =~= seq![b[0]] + b.drop_first());
                assert(a == b);
            }
        } else {
            assert(a[0] as int != b[0] as int);
        }
    } else {
        assert(a.len() == 0 && b.len() == 0 ==> a =~= b);
    }
    lemma_text_lt_irreflexive(a);
}

// ---------------------------------------------------------------------------
// Laws of maps
// ---------------------------------------------------------------------------

/// After `v` was put at `k`, `k` holds `v` and every other key holds what it
/// held.
pub proof fn lookup_after_put<M>(m: Seq<(Seq<char>, M)>, k: Seq<char>, v: M, q: Seq<char>)
    ensures
        lookup(put(m, k, v), q) == if q == k {
            Some(v)
        } else {
            lookup(m, q)
        },
    decreases m.len(),
{
    reveal_with_fuel(lookup, 2);
    let p = put(m, k, v);
    if m.len() == 0 {
        assert(p.drop_first() =~= m);
    } else if m[0].0 == k {
        assert(p.drop_first() =~= m.drop_first());
    } else if text_lt(k, m[0].0) {
        assert(p.drop_first() =~= m);
    } else {
        assert(p.drop_first() =~= put(m.drop_first(), k, v));
        lookup_after_put(m.drop_first(), k, v, q);
    }
}

/// After `k` was removed from a sorted map, `k` holds nothing and every other
/// key holds what it held.
pub proof fn lookup_after_removal<M>(m: Seq<(Seq<char>, M)>, k: Seq<char>, q: Seq<char>)
    requires
        sorted(m),
    ensures
        lookup(without(m, k), q) == if q == k {
            None
        } else {
            lookup(m, q)
        },
    decreases m.len(),
{
    if m.len() > 0 {
        let p = without(m, k);
        assert(sorted(m.drop_first())) by {
            assert forall|i: int, j: int| 0 <= i < j < m.drop_first().len() implies text_lt(
                (#[trigger] m.drop_first()[i]).0,
                (#[trigger] m.drop_first()[j]).0,
            ) by {
                assert(m.drop_first()[i] == m[i + 1]);
                assert(m.drop_first()[j] == m[j + 1]);
            }
        }
        if m[0].0 == k {
            if q == k {
                lemma_absent_below(m.drop_first(), k);
            }
        } else {
            assert(p.drop_first() =~= without(m.drop_first(), k));
            assert(p[0] == m[0]);
            lookup_after_removal(m.drop_first(), k, q);
        }
    }
}

pub(crate) proof fn lemma_lookup_last<M>(m: Seq<(Seq<char>, M)>, k: Seq<char>)
    requires
        sorted(m),
        m.len() > 0,
    ensures
        lookup(m, k) == if m.last().0 == k {
            Some(m.last().1)
        } else {
            lookup(m.drop_last(), k)
        },
    decreases m.len(),
{
    let rest = m.drop_first();
    if m.len() > 1 {
        assert(sorted(rest)) by {
            assert forall|i: int, j: int| 0 <= i < j < rest.len() implies text_lt(
                (#[trigger] rest[i]).0,
                (#[trigger] rest[j]).0,
            ) by {
                assert(rest[i] == m[i + 1]);
                assert(rest[j] == m[j + 1]);
            }
        }
        lemma_lookup_last(rest, k);
        assert(rest.drop_last() =~= m.drop_last().drop_first());
        assert(text_lt(m[0].0, m[m.len() - 1].0));
        lemma_text_lt_irreflexive(m[0].0);
    } else {
        assert(rest =~= Seq::empty());
        assert(m.drop_last() =~= Seq::empty());
    }
}

pub(crate) proof fn lemma_last_is_new<M>(m: Seq<(Seq<char>, M)>)
    requires
        sorted(m),
        m.len() > 0,
    ensures
        lookup(m.drop_last(), m.last().0) is None,
{
    let before = m.drop_last();
    assert forall|h: int| 0 <= h < before.len() implies (#[trigger] before[h]).0 != m.last().0 by {
        assert(before[h] == m[h]);
        assert(text_lt(m[h].0, m[m.len() - 1].0));
        lemma_text_lt_irreflexive(m[h].0);
    }
    lemma_at(before, m.last().0, before.len() as int);
}

pub(crate) proof fn lemma_sorted_but_last<M>(m: Seq<(Seq<char>, M)>)
    requires
        sorted(m),
        m.len() > 0,
    ensures
        sorted(m.drop_last()),
{
    let before = m.drop_last();
    assert forall|i: int, j: int| 0 <= i < j < before.len() implies text_lt(
        (#[trigger] before[i]).0,
        (#[trigger] before[j]).0,
    ) by {
        assert(before[i] == m[i]);
        assert(before[j] == m[j]);
    }
}

/// Putting in the entries of another map keeps a map sorted.
pub proof fn put_all_keeps_sorted<M>(m: Seq<(Seq<char>, M)>, more: Seq<(Seq<char>, M)>)
    requires
        sorted(m),
    ensures
        sorted(put_all(m, more)),
    decreases more.len(),
{
    if more.len() > 0 {
        put_all_keeps_sorted(m, more.drop_last());
        put_keeps_sorted(put_all(m, more.drop_last()), more.last().0, more.last().1);
    }
}

/// Putting an entry in adds that entry and no other.
pub(crate) proof fn lemma_put_entries<M>(m: Seq<(Seq<char>, M)>, k: Seq<char>, v: M)
    ensures
        forall|i: int|
            0 <= i < put(m, k, v).len() ==> (#[trigger] put(m, k, v)[i]) == (k, v) || m.contains(
                put(m, k, v)[i],
            ),
    decreases m.len(),
{
    let p = put(m, k, v);
    if m.len() > 0 {
        let rest = m.drop_first();
        lemma_put_entries(rest, k, v);
        let q = put(rest, k, v);
        assert forall|i: int| 0 <= i < p.len() implies (#[trigger] p[i]) == (k, v) || m.contains(
            p[i],
        ) by {
            if m[0].0 == k {
                if i > 0 {
                    assert(p[i] == m[i]);
                }
            } else if text_lt(k, m[0].0) {
                if i > 0 {
                    assert(p[i] == m[i - 1]);
                }
            } else if i == 0 {
                assert(p[0] == m[0]);
            } else {
                assert(p[i] == q[i - 1]);
                if q[i - 1] != (k, v) {
                    let h = choose|h: int| 0 <= h < rest.len() && rest[h] == q[i - 1];
                    assert(m[h + 1] == p[i]);
                }
            }
        }
    }
}

/// After the entries of a sorted map `more` were put in, a key holds what it
/// holds in `more`, or else what it held before.
pub proof fn lookup_after_put_all<M>(
    m: Seq<(Seq<char>, M)>,
    more: Seq<(Seq<char>, M)>,
    k: Seq<char>,
)
    requires
        sorted(more),
    ensures
        lookup(put_all(m, more), k) == match lookup(more, k) {
            Some(v) => Some(v),
            None => lookup(m, k),
        },
    decreases more.len(),
{
    if more.len() > 0 {
        let before = more.drop_last();
        lemma_sorted_but_last(more);
        lookup_after_put_all(m, before, k);
        lookup_after_put(put_all(m, before), more.last().0, more.last().1, k);
        lemma_lookup_last(more, k);
    }
}

proof fn lemma_absent_below<M>(m: Seq<(Seq<char>, M)>, k: Seq<char>)
    requires
        forall|i: int| 0 <= i < m.len() ==> text_lt(k, (#[trigger] m[i]).0),
    ensures
        lookup(m, k) is None,
    decreases m.len(),
{
    if m.len() > 0 {
        text_lt_is_total(k, m[0].0);
        assert forall|i: int| 0 <= i < m.drop_first().len() implies text_lt(
            k,
            (#[trigger] m.drop_first()[i]).0,
        ) by {
            assert(m.drop_first()[i] == m[i + 1]);
        }
        lemma_absent_below(m.drop_first(), k);
    }
}


/// Putting an entry in keeps a map sorted.
pub proof fn put_keeps_sorted<M>(m: Seq<(Seq<char>, M)>, k: Seq<char>, v: M)
    requires
        sorted(m),
    ensures
        sorted(put(m, k, v)),
        forall|i: int|
            0 <= i < put(m, k, v).len() ==> (#[trigger] put(m, k, v)[i]).0 == k || exists|j: int|
                0 <= j < m.len() && (#[trigger] m[j]).0 == put(m, k, v)[i].0,
    decreases m.len(),
{
    let p = put(m, k, v);
    if m.len() == 0 {
    } else if m[0].0 == k {
        assert forall|i: int, j: int| 0 <= i < j < p.len() implies text_lt(
            (#[trigger] p[i]).0,
            (#[trigger] p[j]).0,
        ) by {
            assert(p[i].0 == m[i].0);
            assert(p[j].0 == m[j].0);
        }
        assert forall|i: int| 0 <= i < p.len() implies (#[trigger] p[i]).0 == k || exists|j: int|
            0 <= j < m.len() && (#[trigger] m[j]).0 == p[i].0 by {
            assert(m[i].0 == p[i].0);
        }
    } else if text_lt(k, m[0].0) {
        assert forall|i: int, j: int| 0 <= i < j < p.len() implies text_lt(
            (#[trigger] p[i]).0,
            (#[trigger] p[j]).0,
        ) by {
            assert(p[j] == m[j - 1]);
            if i == 0 {
                if j > 1 {
                    text_lt_is_transitive(k, m[0].0, m[j - 1].0);
                }
            } else {
                assert(p[i] == m[i - 1]);
            }
        }
        assert forall|i: int| 0 <= i < p.len() implies (#[trigger] p[i]).0 == k || exists|j: int|
            0 <= j < m.len() && (#[trigger] m[j]).0 == p[i].0 by {
            if i > 0 {
                assert(m[i - 1].0 == p[i].0);
            }
        }
    } else {
        let rest = m.drop_first();
        lemma_rest_sorted(m);
        put_keeps_sorted(rest, k, v);
        text_lt_is_total(k, m[0].0);
        let q = put(rest, k, v);
        assert forall|i: int, j: int| 0 <= i < j < p.len() implies text_lt(
            (#[trigger] p[i]).0,
            (#[trigger] p[j]).0,
        ) by {
            assert(p[j] == q[j - 1]);
            if i == 0 {
                if q[j - 1].0 != k {
                    let h = choose|h: int|
                        0 <= h < rest.len() && (#[trigger] rest[h]).0 == q[j - 1].0;
                    assert(rest[h] == m[h + 1]);
                }
            } else {
                assert(p[i] == q[i - 1]);
            }
        }
        assert forall|i: int| 0 <= i < p.len() implies (#[trigger] p[i]).0 == k || exists|j: int|
            0 <= j < m.len() && (#[trigger] m[j]).0 == p[i].0 by {
            if i == 0 {
                assert(m[0].0 == p[0].0);
            } else {
                assert(p[i] == q[i - 1]);
                if q[i - 1].0 != k {
                    let h = choose|h: int|
                        0 <= h < rest.len() && (#[trigger] rest[h]).0 == q[i - 1].0;
                    assert(m[h + 1].0 == p[i].0);
                }
            }
        }
    }
}

proof fn lemma_rest_sorted<M>(m: Seq<(Seq<char>, M)>)
    requires
        sorted(m),
        m.len() > 0,
    ensures
        sorted(m.drop_first()),
{
    assert forall|i: int, j: int| 0 <= i < j < m.drop_first().len() implies text_lt(
        (#[trigger] m.drop_first()[i]).0,
        (#[trigger] m.drop_first()[j]).0,
    ) by {
        assert(m.drop_first()[i] == m[i + 1]);
        assert(m.drop_first()[j] == m[j + 1]);
    }
}

/// Where a key stands in a list of entries.
proof fn lemma_at<M>(m: Seq<(Seq<char>, M)>, k: Seq<char>, i: int)
    requires
        0 <= i <= m.len(),
        forall|h: int| 0 <= h < i ==> (#[trigger] m[h]).0 != k,
    ensures
        i < m.len() && m[i].0 == k ==> lookup(m, k) == Some(m[i].1) && without(m, k) == m.remove(i),
        i == m.len() ==> lookup(m, k) is None && without(m, k) == m,
    decreases m.len(),
{
    if m.len() > 0 {
        let rest = m.drop_first();
        if i == 0 {
            assert(m.remove(0) =~= rest);
        } else {
            assert forall|h: int| 0 <= h < i - 1 implies (#[trigger] rest[h]).0 != k by {
                assert(rest[h] == m[h + 1]);
            }
            lemma_at(rest, k, i - 1);
            assert(m[0].0 != k);
            if i < m.len() {
                assert(rest[i - 1] == m[i]);
                assert(seq![m[0]] + rest.remove(i - 1) =~= m.remove(i));
            } else {
                assert(seq![m[0]] + rest =~= m);
            }
        }
    }
}

/// What putting an entry in does to a list of entries.
proof fn lemma_put_at<M>(m: Seq<(Seq<char>, M)>, k: Seq<char>, v: M, i: int)
    requires
        0 <= i <= m.len(),
        forall|h: int| 0 <= h < i ==> (#[trigger] m[h]).0 != k && !text_lt(k, m[h].0),
    ensures
        i < m.len() && m[i].0 == k ==> put(m, k, v) == m.update(i, (k, v)),
        i == m.len() || (m[i].0 != k && text_lt(k, m[i].0)) ==> put(m, k, v) == m.insert(i, (k, v)),
    decreases m.len(),
{
    if m.len() == 0 {
        assert(m.insert(0, (k, v)) =~= seq![(k, v)]);
    } else {
        let rest = m.drop_first();
        if i == 0 {
            assert(m.update(0, (k, v)) =~= seq![(k, v)] + rest);
            assert(m.insert(0, (k, v)) =~= seq![(k, v)] + m);
        } else {
            assert forall|h: int| 0 <= h < i - 1 implies (#[trigger] rest[h]).0 != k && !text_lt(
                k,
                rest[h].0,
            ) by {
                assert(rest[h] == m[h + 1]);
            }
            lemma_put_at(rest, k, v, i - 1);
            assert(m[0].0 != k && !text_lt(k, m[0].0));
            if i < m.len() {
                assert(rest[i - 1] == m[i]);
                assert(seq![m[0]] + rest.update(i - 1, (k, v)) =~= m.update(i, (k, v)));
            }
            assert(seq![m[0]] + rest.insert(i - 1, (k, v)) =~= m.insert(i, (k, v)));
        }
    }
}

/// Removing an entry keeps a map sorted.
pub proof fn removal_keeps_sorted<M>(m: Seq<(Seq<char>, M)>, k: Seq<char>)
    requires
        sorted(m),
    ensures
        sorted(without(m, k)),
        forall|i: int| 0 <= i < without(m, k).len() ==> exists|j: int|
            0 <= j < m.len() && m[j] == #[trigger] without(m, k)[i],
    decreases m.len(),
{
    let p = without(m, k);
    if m.len() > 0 {
        let rest = m.drop_first();
        lemma_rest_sorted(m);
        if m[0].0 == k {
            assert forall|i: int| 0 <= i < p.len() implies exists|j: int|
                0 <= j < m.len() && m[j] == #[trigger] p[i] by {
                assert(m[i + 1] == p[i]);
            }
        } else {
            removal_keeps_sorted(rest, k);
            let q = without(rest, k);
            assert forall|i: int, j: int| 0 <= i < j < p.len() implies text_lt(
                (#[trigger] p[i]).0,
                (#[trigger] p[j]).0,
            ) by {
                assert(p[j] == q[j - 1]);
                if i == 0 {
                    let h = choose|h: int| 0 <= h < rest.len() && rest[h] == q[j - 1];
                    assert(rest[h] == m[h + 1]);
                } else {
                    assert(p[i] == q[i - 1]);
                }
            }
            assert forall|i: int| 0 <= i < p.len() implies exists|j: int|
                0 <= j < m.len() && m[j] == #[trigger] p[i] by {
                if i == 0 {
                    assert(m[0] == p[0]);
                } else {
                    assert(p[i] == q[i - 1]);
                    let h = choose|h: int| 0 <= h < rest.len() && rest[h] == q[i - 1];
                    assert(m[h + 1] == p[i]);
                }
            }
        }
    }
}

// ---------------------------------------------------------------------------
// The map
// ---------------------------------------------------------------------------

/// A map from text to values, in the order of its keys. No key occurs twice.
#[derive(Debug, PartialEq)]
pub struct TextMap<V> {
    pub(crate) entries: Vec<(String, V)>,
}

/// The models of a list of entries.
pub open spec fn entry_models<V: Modelled>(entries: Seq<(String, V)>) -> Seq<
    (Seq<char>, V::Model),
> {
    Seq::new(entries.len(), |i: int| (entries[i].0@, entries[i].1.model()))
}

impl<V> TextMap<V> {
    #[verifier::type_invariant]
    pub closed spec fn keys_ascend(self) -> bool {
        forall|i: int, j: int|
            0 <= i < j < self.entries@.len() ==> text_lt(
                (#[trigger] self.entries@[i]).0@,
                (#[trigger] self.entries@[j]).0@,
            )
    }
}

impl<V: Modelled> View for TextMap<V> {
    type V = Seq<(Seq<char>, V::Model)>;

    closed spec fn view(&self) -> Seq<(Seq<char>, V::Model)> {
        entry_models(self.entries@)
    }
}

/// The entries of a map are in the order of their keys.
pub proof fn map_is_sorted<V: Modelled>(m: TextMap<V>)
    requires
        m.keys_ascend(),
    ensures
        sorted(m@),
{
    assert forall|i: int, j: int| 0 <= i < j < m@.len() implies text_lt(
        (#[trigger] m@[i]).0,
        (#[trigger] m@[j]).0,
    ) by {
        assert(m@[i].0 == m.entries@[i].0@);
        assert(m@[j].0 == m.entries@[j].0@);
    }
}

pub(crate) proof fn lemma_map_view<V: Modelled>(m: TextMap<V>)
    ensures
        m@ == entry_models(m.entries@),
{
}

impl<V: Modelled> TextMap<V> {
    /// The empty map.
    pub fn new() -> (r: Self)
        ensures
            r@ == Seq::<(Seq<char>, V::Model)>::empty(),
    {
        let r = TextMap { entries: Vec::new() };
        assert(r@ =~= Seq::<(Seq<char>, V::Model)>::empty());
        r
    }

    /// The map of `entries`, whose keys ascend.
    pub fn from_sorted(entries: Vec<(String, V)>) -> (r: Self)
        requires
            sorted(entry_models(entries@)),
        ensures
            r@ == entry_models(entries@),
    {
        proof {
            let em = entry_models(entries@);
            assert forall|a: int, b: int| 0 <= a < b < entries@.len() implies text_lt(
                (#[trigger] entries@[a]).0@,
                (#[trigger] entries@[b]).0@,
            ) by {
                assert(em[a].0 == entries@[a].0@);
                assert(em[b].0 == entries@[b].0@);
            }
        }
        TextMap { entries }
    }

    /// The number of entries.
    pub fn len(&self) -> (r: usize)
        ensures
            r == self@.len(),
    {
        self.entries.len()
    }

    /// Whether there is no entry.
    pub fn is_empty(&self) -> (r: bool)
        ensures
            r == (self@.len() == 0),
    {
        self.entries.len() == 0
    }

    /// The key of entry `i`.
    pub fn key_at(&self, i: usize) -> (r: &str)
        requires
            i < self@.len(),
        ensures
            r@ == self@[i as int].0,
    {
        self.entries[i].0.as_str()
    }

    /// The value of entry `i`.
    pub fn value_at(&self, i: usize) -> (r: &V)
        requires
            i < self@.len(),
        ensures
            r.model() == self@[i as int].1,
    {
        &self.entries[i].1
    }

    /// The value at `k`.
    pub fn get(&self, k: &str) -> (r: Option<&V>)
        ensures
            r matches Some(v) ==> lookup(self@, k@) == Some(v.model()),
            r is None ==> lookup(self@, k@) is None,
    {
        let mut i: usize = 0;
        while i < self.entries.len()
            invariant
                i <= self@.len(),
                self@ == entry_models(self.entries@),
                forall|h: int| 0 <= h < i ==> (#[trigger] self@[h]).0 != k@,
            decreases self.entries@.len() - i,
        {
            if same(self.entries[i].0.as_str(), k) {
                proof {
                    lemma_at(self@, k@, i as int);
                }
                return Some(&self.entries[i].1);
            }
            i += 1;
        }
        proof {
            lemma_at(self@, k@, i as int);
        }
        None
    }

    /// Whether there is an entry at `k`.
    pub fn contains_key(&self, k: &str) -> (r: bool)
        ensures
            r == lookup(self@, k@) is Some,
    {
        self.get(k).is_some()
    }

    /// Puts `v` at `k`.
    pub fn insert(&mut self, k: String, v: V)
        ensures
            final(self)@ == put(old(self)@, k@, v.model()),
    {
        proof {
            use_type_invariant(&*self);
        }
        let mut entries: Vec<(String, V)> = Vec::new();
        std::mem::swap(&mut entries, &mut self.entries);
        let ghost m = entry_models(entries@);
        let ghost e0 = entries@;
        let ghost key = k@;
        let mut i: usize = 0;
        while i < entries.len() && comes_before(entries[i].0.as_str(), k.as_str())
            invariant
                entries@ == e0,
                m == entry_models(entries@),
                i <= entries@.len(),
                forall|h: int| 0 <= h < i ==> text_lt((#[trigger] m[h]).0, k@),
            decreases entries@.len() - i,
        {
            i += 1;
        }
        proof {
            assert(sorted(m));
            assert forall|h: int| 0 <= h < i implies (#[trigger] m[h]).0 != k@ && !text_lt(
                k@,
                m[h].0,
            ) by {
                text_lt_is_total(m[h].0, k@);
            }
            if i < m.len() {
                text_lt_is_total(m[i as int].0, k@);
            }
            lemma_put_at(m, k@, v.model(), i as int);
            put_keeps_sorted(m, k@, v.model());
        }
        if i < entries.len() && same(entries[i].0.as_str(), k.as_str()) {
            let ghost w = v;
            entries.set(i, (k, v));
            assert(entry_models(entries@) =~= m.update(i as int, (key, w.model())));
        } else {
            let ghost w = v;
            entries.insert(i, (k, v));
            assert(entry_models(entries@) =~= m.insert(i as int, (key, w.model())));
        }
        proof {
            let em = entry_models(entries@);
            assert forall|a: int, b: int| 0 <= a < b < entries@.len() implies text_lt(
                (#[trigger] entries@[a]).0@,
                (#[trigger] entries@[b]).0@,
            ) by {
                assert(em[a].0 == entries@[a].0@);
                assert(em[b].0 == entries@[b].0@);
            }
        }
        self.entries = entries;
    }

    /// Removes the entry at `k`.
    pub fn remove(&mut self, k: &str)
        ensures
            final(self)@ == without(old(self)@, k@),
    {
        proof {
            use_type_invariant(&*self);
        }
        let mut entries: Vec<(String, V)> = Vec::new();
        std::mem::swap(&mut entries, &mut self.entries);
        let ghost m = entry_models(entries@);
        let ghost e0 = entries@;
        let mut i: usize = 0;
        while i < entries.len() && !same(entries[i].0.as_str(), k)
            invariant
                entries@ == e0,
                m == entry_models(entries@),
                i <= entries@.len(),
                forall|h: int| 0 <= h < i ==> (#[trigger] m[h]).0 != k@,
            decreases entries@.len() - i,
        {
            i += 1;
        }
        proof {
            assert(sorted(m));
            lemma_at(m, k@, i as int);
            removal_keeps_sorted(m, k@);
        }
        if i < entries.len() {
            entries.remove(i);
            assert(entry_models(entries@) =~= m.remove(i as int));
        }
        proof {
            let em = entry_models(entries@);
            assert forall|a: int, b: int| 0 <= a < b < entries@.len() implies text_lt(
                (#[trigger] entries@[a]).0@,
                (#[trigger] entries@[b]).0@,
            ) by {
                assert(em[a].0 == entries@[a].0@);
                assert(em[b].0 == entries@[b].0@);
            }
        }
        self.entries = entries;
    }

    /// Removes every entry.
    pub fn clear(&mut self)
        ensures
            final(self)@ == Seq::<(Seq<char>, V::Model)>::empty(),
    {
        self.entries = Vec::new();
        assert(self@ =~= Seq::<(Seq<char>, V::Model)>::empty());
    }

}

impl<V: Copied> TextMap<V> {
    /// Puts in the entries of `more`.
    pub fn extend_from(&mut self, more: &TextMap<V>)
        ensures
            final(self)@ == put_all(old(self)@, more@),
    {
        let ghost before = self@;
        let mut i: usize = 0;
        assert(more@.take(0) =~= Seq::empty());
        while i < more.entries.len()
            invariant
                more@ == entry_models(more.entries@),
                i <= more@.len(),
                self@ == put_all(before, more@.take(i as int)),
            decreases more.entries@.len() - i,
        {
            let key = more.entries[i].0.clone();
            let value = more.entries[i].1.copied();
            self.insert(key, value);
            i += 1;
            assert(more@.take(i as int).drop_last() =~= more@.take(i - 1));
        }
        assert(more@.take(i as int) =~= more@);
    }
}

impl<V: Copied> Clone for TextMap<V> {
    fn clone(&self) -> (r: Self)
        ensures
            r@ == self@,
    {
        proof {
            use_type_invariant(self);
        }
        let mut entries: Vec<(String, V)> = Vec::new();
        let mut i: usize = 0;
        while i < self.entries.len()
            invariant
                i <= self.entries@.len(),
                entries@.len() == i,
                forall|h: int|
                    #![trigger entries@[h]]
                    0 <= h < i ==> entries@[h].0@ == self.entries@[h].0@ && entries@[h].1.model()
                        == self.entries@[h].1.model(),
            decreases self.entries@.len() - i,
        {
            entries.push((self.entries[i].0.clone(), self.entries[i].1.copied()));
            i += 1;
        }
        let r = TextMap { entries };
        assert(r@ =~= self@);
        r
    }
}

} // verus!
