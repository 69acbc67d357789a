//! The catalog of annual events, kept in order of summary.
use crate::event::Event;
use vstd::prelude::*;

verus! {

/// Lexicographic order of byte strings, as `<` orders `[u8]`.
pub open spec fn bytes_lt(a: Seq<u8>, b: Seq<u8>) -> bool
    decreases a.len(),
{
    if a.len() == 0 {
        b.len() > 0
    } else if b.len() == 0 {
        false
    } else if a[0] != b[0] {
        a[0] < b[0]
    } else {
        bytes_lt(a.drop_first(), b.drop_first())
    }
}

pub proof fn lemma_bytes_lt_irreflexive(a: Seq<u8>)
    ensures
        !bytes_lt(a, a),
    decreases a.len(),
{
    if a.len() > 0 {
        lemma_bytes_lt_irreflexive(a.drop_first());
    }
}

pub proof fn lemma_bytes_lt_transitive(a: Seq<u8>, b: Seq<u8>, c: Seq<u8>)
    requires
        bytes_lt(a, b),
        bytes_lt(b, c),
    ensures
        bytes_lt(a, c),
    decreases a.len(),
{
    if a.len() > 0 && b.len() > 0 && c.len() > 0 && a[0] == b[0] && b[0] == c[0] {
        lemma_bytes_lt_transitive(a.drop_first(), b.drop_first(), c.drop_first());
    }
}

pub proof fn lemma_bytes_lt_total(a: Seq<u8>, b: Seq<u8>)
    requires
        a != b,
        !bytes_lt(a, b),
    ensures
        bytes_lt(b, a),
    decreases a.len(),
{
    if a.len() > 0 && b.len() > 0 && a[0] == b[0] {
        if a.drop_first() == b.drop_first() {
            assert(a =~= seq![a[0]] + a.drop_first());
            assert(b =~= seq![b[0]] + b.drop_first());
        }
        lemma_bytes_lt_total(a.drop_first(), b.drop_first());
    } else if a.len() == 0 && b.len() == 0 {
        assert(a =~= b);
    }
}

/// `s` with `e` under `k`: the entry for `k` replaced, or a new one placed before the
/// first greater summary.
pub open spec fn catalog_insert(s: Seq<(Seq<u8>, Event)>, k: Seq<u8>, e: Event) -> Seq<
    (Seq<u8>, Event),
>
    decreases s.len(),
{
    if s.len() == 0 {
        seq![(k, e)]
    } else if s[0].0 == k {
        s.update(0, (k, e))
    } else if bytes_lt(s[0].0, k) {
        seq![s[0]] + catalog_insert(s.drop_first(), k, e)
    } else {
        seq![(k, e)] + s
    }
}

proof fn lemma_catalog_insert_at(s: Seq<(Seq<u8>, Event)>, k: Seq<u8>, e: Event, p: int)
    requires
        0 <= p <= s.len(),
        forall|i: int| 0 <= i < p ==> bytes_lt(#[trigger] s[i].0, k),
        p == s.len() || !bytes_lt(s[p].0, k),
    ensures
        catalog_insert(s, k, e) == if p < s.len() && s[p].0 == k {
            s.update(p, (k, e))
        } else {
            s.insert(p, (k, e))
        },
    decreases s.len(),
{
    if p == 0 {
        if s.len() > 0 && s[0].0 != k {
            assert(seq![(k, e)] + s =~= s.insert(0, (k, e)));
        } else if s.len() == 0 {
            assert(seq![(k, e)] =~= s.insert(0, (k, e)));
        }
    } else {
        assert(bytes_lt(s[0].0, k));
        lemma_bytes_lt_irreflexive(k);
        let t = s.drop_first();
        assert forall|i: int| 0 <= i < p - 1 implies bytes_lt(#[trigger] t[i].0, k) by {
            assert(t[i] == s[i + 1]);
        }
        lemma_catalog_insert_at(t, k, e, p - 1);
        if p < s.len() && s[p].0 == k {
            assert(seq![s[0]] + t.update(p - 1, (k, e)) =~= s.update(p, (k, e)));
        } else {
            assert(seq![s[0]] + t.insert(p - 1, (k, e)) =~= s.insert(p, (k, e)));
        }
    }
}

/// A summary with the event it names.
#[derive(Clone, Debug)]
pub struct CatalogEntry {
    pub summary: Vec<u8>,
    pub event: Event,
}

/// Events keyed by summary, in ascending order of summary.
#[derive(Clone, Debug)]
pub struct Catalog {
    pub entries: Vec<CatalogEntry>,
}

/// Summaries are non-empty and strictly ascending (hence unique), and every event is
/// well formed.
pub open spec fn catalog_wf(s: Seq<(Seq<u8>, Event)>) -> bool {
    &&& forall|i: int| 0 <= i < s.len() ==> s[i].0.len() > 0 && (#[trigger] s[i]).1.wf()
    &&& forall|i: int, j: int| 0 <= i < j < s.len() ==> bytes_lt(s[i].0, s[j].0)
}

impl View for Catalog {
    type V = Seq<(Seq<u8>, Event)>;

    open spec fn view(&self) -> Seq<(Seq<u8>, Event)> {
        self.entries@.map_values(|e: CatalogEntry| (e.summary@, e.event))
    }
}

impl Catalog {
    pub open spec fn wf(&self) -> bool {
        catalog_wf(self@)
    }

    /// An empty catalog.
    pub fn new() -> (r: Catalog)
        ensures
            r@ == Seq::<(Seq<u8>, Event)>::empty(),
            r.wf(),
    {
        let r = Catalog { entries: Vec::new() };
        assert(r@ =~= Seq::<(Seq<u8>, Event)>::empty());
        r
    }

    pub fn len(&self) -> (r: usize)
        ensures
            r == self@.len(),
    {
        self.entries.len()
    }

    /// Adds `event` under `summary`, replacing the event that the summary named before.
    pub fn insert(&mut self, summary: Vec<u8>, event: Event)
        requires
            old(self).wf(),
            summary@.len() > 0,
            event.wf(),
        ensures
            final(self).wf(),
            final(self)@ == catalog_insert(old(self)@, summary@, event),
    {
        let ghost s = self@;
        let mut p: usize = 0;
        while p < self.entries.len() && bytes_less(self.entries[p].summary.as_slice(), summary.as_slice())
            invariant
                self@ == s,
                catalog_wf(s),
                p <= s.len(),
                forall|i: int| 0 <= i < p ==> bytes_lt(s[i].0, summary@),
            decreases s.len() - p,
        {
            p = p + 1;
        }
        proof {
            lemma_catalog_insert_at(s, summary@, event, p as int);
        }
        if p < self.entries.len() && bytes_equal(self.entries[p].summary.as_slice(), summary.as_slice()) {
            let ghost key = summary@;
            self.entries.set(p, CatalogEntry { summary, event });
            assert(self@ =~= s.update(p as int, (key, event)));
            assert forall|i: int, j: int| 0 <= i < j < self@.len() implies bytes_lt(
                self@[i].0,
                self@[j].0,
            ) by {
                assert(s[i].0 == self@[i].0 || i == p);
                assert(s[j].0 == self@[j].0 || j == p);
            }
        } else {
            let ghost key = summary@;
            proof {
                if p < s.len() {
                    lemma_bytes_lt_total(s[p as int].0, key);
                }
                assert forall|i: int| 0 <= i < s.len() implies s[i].0 != key by {
                    if i >= p {
                        if i > p {
                            lemma_bytes_lt_transitive(key, s[p as int].0, s[i].0);
                        }
                        lemma_bytes_lt_irreflexive(key);
                    } else {
                        lemma_bytes_lt_irreflexive(key);
                    }
                }
            }
            self.entries.insert(p, CatalogEntry { summary, event });
            assert(self@ =~= s.insert(p as int, (key, event)));
            assert forall|i: int, j: int| 0 <= i < j < self@.len() implies bytes_lt(
                self@[i].0,
                self@[j].0,
            ) by {
                if j == p {
                } else if i == p {
                    if j - 1 > p {
                        lemma_bytes_lt_transitive(key, s[p as int].0, s[j - 1].0);
                    }
                } else if i > p {
                } else if j > p {
                }
            }
        }
    }
}

/// Whether `a` comes before `b` in lexicographic byte order.
pub fn bytes_less(a: &[u8], b: &[u8]) -> (r: bool)
    ensures
        r == bytes_lt(a@, b@),
{
    let mut i: usize = 0;
    assert(a@.skip(0) =~= a@);
    assert(b@.skip(0) =~= b@);
    while i < a.len() && i < b.len() && a[i] == b[i]
        invariant
            i <= a@.len(),
            i <= b@.len(),
            bytes_lt(a@, b@) == bytes_lt(a@.skip(i as int), b@.skip(i as int)),
        decreases a@.len() - i,
    {
        assert(a@.skip(i as int).drop_first() =~= a@.skip(i + 1));
        assert(b@.skip(i as int).drop_first() =~= b@.skip(i + 1));
        i = i + 1;
    }
    if i == a.len() {
        i < b.len()
    } else if i == b.len() {
        false
    } else {
        a[i] < b[i]
    }
}

/// Whether `a` and `b` hold the same bytes.
pub fn bytes_equal(a: &[u8], b: &[u8]) -> (r: bool)
    ensures
        r == (a@ == b@),
{
    if a.len() != b.len() {
        return false;
    }
    let mut i: usize = 0;
    while i < a.len()
        invariant
            a@.len() == b@.len(),
            i <= a@.len(),
            forall|k: int| 0 <= k < i ==> a@[k] == b@[k],
        decreases a@.len() - i,
    {
        if a[i] != b[i] {
            return false;
        }
        i = i + 1;
    }
    assert(a@ =~= b@);
    true
}

} // verus!
