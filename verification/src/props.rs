//! An insertion-ordered key/value map with unique keys, used for the
//! ADO.net pair map and the JDBC property map. Later inserts of an existing
//! key overwrite its value in place.

use vstd::prelude::*;

verus! {

/// A key is present in the pair sequence.
pub open spec fn has_key(ps: Seq<(Seq<char>, Seq<char>)>, k: Seq<char>) -> bool
    decreases ps.len(),
{
    if ps.len() == 0 {
        false
    } else {
        ps[0].0 == k || has_key(ps.drop_first(), k)
    }
}

/// The value of the first entry with key `k`.
pub open spec fn val_of(ps: Seq<(Seq<char>, Seq<char>)>, k: Seq<char>) -> Seq<char>
    decreases ps.len(),
{
    if ps.len() == 0 {
        Seq::empty()
    } else if ps[0].0 == k {
        ps[0].1
    } else {
        val_of(ps.drop_first(), k)
    }
}

/// Replace the value of the first entry with key `k`, or append a new
/// entry if no entry has that key.
pub open spec fn upsert(ps: Seq<(Seq<char>, Seq<char>)>, k: Seq<char>, v: Seq<char>) -> Seq<
    (Seq<char>, Seq<char>),
>
    decreases ps.len(),
{
    if ps.len() == 0 {
        seq![(k, v)]
    } else if ps[0].0 == k {
        seq![(k, v)] + ps.drop_first()
    } else {
        seq![ps[0]] + upsert(ps.drop_first(), k, v)
    }
}

/// No two entries share a key.
pub open spec fn keys_unique(ps: Seq<(Seq<char>, Seq<char>)>) -> bool {
    forall|i: int, j: int| 0 <= i < j < ps.len() ==> ps[i].0 != ps[j].0
}

/// An absent key is appended at the end.
pub proof fn lemma_upsert_absent(ps: Seq<(Seq<char>, Seq<char>)>, k: Seq<char>, v: Seq<char>)
    requires
        !has_key(ps, k),
    ensures
        upsert(ps, k, v) =~= ps.push((k, v)),
    decreases ps.len(),
{
    if ps.len() > 0 {
        lemma_upsert_absent(ps.drop_first(), k, v);
    }
}

/// Upserting keeps keys unique and never adds a key other than `k`.
pub proof fn lemma_upsert_unique(ps: Seq<(Seq<char>, Seq<char>)>, k: Seq<char>, v: Seq<char>)
    requires
        keys_unique(ps),
    ensures
        keys_unique(upsert(ps, k, v)),
        forall|i: int|
            0 <= i < upsert(ps, k, v).len() ==> upsert(ps, k, v)[i].0 == k || has_key(
                ps,
                upsert(ps, k, v)[i].0,
            ),
    decreases ps.len(),
{
    let up = upsert(ps, k, v);
    if ps.len() == 0 {
        assert(keys_unique(up));
    } else if ps[0].0 == k {
        assert(up =~= seq![(k, v)] + ps.drop_first());
        assert forall|i: int, j: int| 0 <= i < j < up.len() implies up[i].0 != up[j].0 by {
            if i == 0 {
                assert(up[j].0 == ps[j].0);
                assert(ps[0].0 != ps[j].0);
            } else {
                assert(up[i].0 == ps[i].0 && up[j].0 == ps[j].0);
            }
        }
        assert forall|i: int| 0 <= i < up.len() implies up[i].0 == k || has_key(ps, up[i].0) by {
            if i > 0 {
                assert(up[i] == ps[i]);
                assert(has_key_at(ps, ps[i].0, i));
                lemma_has_key_index(ps, ps[i].0);
            }
        }
    } else {
        lemma_upsert_unique(ps.drop_first(), k, v);
        let upt = upsert(ps.drop_first(), k, v);
        assert(up =~= seq![ps[0]] + upt);
        assert forall|i: int, j: int| 0 <= i < j < up.len() implies up[i].0 != up[j].0 by {
            if i == 0 {
                assert(up[j].0 == upt[j - 1].0);
                if upt[j - 1].0 == ps[0].0 {
                    // ps[0].0 != k, so the entry's key came from the tail
                    assert(upt[j - 1].0 == k || has_key(ps.drop_first(), upt[j - 1].0));
                    lemma_has_key_index(ps.drop_first(), ps[0].0);
                    let w = choose|w: int| #[trigger] has_key_at(ps.drop_first(), ps[0].0, w);
                    assert(ps[w + 1].0 == ps[0].0);
                }
            } else {
                assert(up[i].0 == upt[i - 1].0 && up[j].0 == upt[j - 1].0);
            }
        }
        assert forall|i: int| 0 <= i < up.len() implies up[i].0 == k || has_key(ps, up[i].0) by {
            if i == 0 {
                assert(has_key_at(ps, ps[0].0, 0));
                lemma_has_key_index(ps, ps[0].0);
            } else {
                if upt[i - 1].0 != k {
                    assert(has_key(ps.drop_first(), upt[i - 1].0));
                    lemma_has_key_index(ps.drop_first(), upt[i - 1].0);
                    let w = choose|w: int| #[trigger] has_key_at(ps.drop_first(), upt[i - 1].0, w);
                    assert(has_key_at(ps, upt[i - 1].0, w + 1));
                    lemma_has_key_index(ps, upt[i - 1].0);
                }
            }
        }
    }
}

/// Helper trigger shape for [`lemma_has_key_index`].
pub open spec fn has_key_at(ps: Seq<(Seq<char>, Seq<char>)>, k: Seq<char>, i: int) -> bool {
    0 <= i < ps.len() && ps[i].0 == k
}

/// A key is present exactly when some entry carries it.
pub proof fn lemma_has_key_index(ps: Seq<(Seq<char>, Seq<char>)>, k: Seq<char>)
    ensures
        has_key(ps, k) <==> exists|i: int| has_key_at(ps, k, i),
    decreases ps.len(),
{
    if ps.len() > 0 {
        lemma_has_key_index(ps.drop_first(), k);
        if ps[0].0 == k {
            assert(has_key_at(ps, k, 0));
        }
        if has_key(ps.drop_first(), k) {
            let i = choose|i: int| has_key_at(ps.drop_first(), k, i);
            assert(has_key_at(ps, k, i + 1));
        }
        if exists|i: int| has_key_at(ps, k, i) {
            let i = choose|i: int| has_key_at(ps, k, i);
            if i > 0 {
                assert(has_key_at(ps.drop_first(), k, i - 1));
            }
        }
    }
}

/// One rendered `key=value` pair: both sides trimmed and escaped.
pub open spec fn pair_text(p: (Seq<char>, Seq<char>)) -> Seq<char> {
    crate::text::escape_text(crate::text::trim_spec(p.0)) + seq!['=']
        + crate::text::escape_text(crate::text::trim_spec(p.1))
}

/// Rendered pairs, each preceded by `;`.
pub open spec fn render_tail(ps: Seq<(Seq<char>, Seq<char>)>) -> Seq<char>
    decreases ps.len(),
{
    if ps.len() == 0 {
        Seq::empty()
    } else {
        seq![';'] + pair_text(ps[0]) + render_tail(ps.drop_first())
    }
}

/// An insertion-ordered property map with unique, case-folded keys.
#[derive(Debug)]
pub struct Props {
    entries: Vec<(String, String)>,
}

impl View for Props {
    type V = Seq<(Seq<char>, Seq<char>)>;

    closed spec fn view(&self) -> Seq<(Seq<char>, Seq<char>)> {
        self.entries@.map_values(|p: (String, String)| (p.0@, p.1@))
    }
}

impl Props {
    /// An empty map.
    pub fn new() -> (r: Props)
        ensures
            r@ =~= Seq::<(Seq<char>, Seq<char>)>::empty(),
    {
        Props { entries: Vec::new() }
    }

    /// The number of entries.
    pub fn len(&self) -> (n: usize)
        ensures
            n == self@.len(),
    {
        self.entries.len()
    }

    /// Whether the map has no entries.
    pub fn is_empty(&self) -> (r: bool)
        ensures
            r == (self@.len() == 0),
    {
        self.entries.len() == 0
    }

    /// Look up the value stored under `key`.
    pub fn get(&self, key: &str) -> (r: Option<&String>)
        ensures
            (match r {
                Some(v) => has_key(self@, key@) && v@ == val_of(self@, key@),
                None => !has_key(self@, key@),
            }),
    {
        let n = self.entries.len();
        let mut i: usize = 0;
        proof {
            assert(self@.skip(0) =~= self@);
        }
        while i < n
            invariant
                i <= n,
                n == self@.len(),
                has_key(self@, key@) == has_key(self@.skip(i as int), key@),
                has_key(self@, key@) ==> val_of(self@, key@) == val_of(
                    self@.skip(i as int),
                    key@,
                ),
            decreases n - i,
        {
            proof {
                crate::text::lemma_skip_step(self@, i as int);
            }
            if crate::text::str_eq(self.entries[i].0.as_str(), key) {
                return Some(&self.entries[i].1);
            }
            i += 1;
        }
        proof {
            assert(self@.skip(n as int) =~= Seq::<(Seq<char>, Seq<char>)>::empty());
        }
        None
    }

    /// Insert `value` under `key`, returning the previous value if the key
    /// was already present. The first entry with that key keeps its
    /// position; a new key is appended at the end.
    #[verifier::rlimit(50)]
    pub fn insert(&mut self, key: String, value: String) -> (r: Option<String>)
        ensures
            final(self)@ =~= upsert(old(self)@, key@, value@),
            (match r {
                Some(v) => has_key(old(self)@, key@) && v@ == val_of(old(self)@, key@),
                None => !has_key(old(self)@, key@),
            }),
    {
        let ghost ps = old(self)@;
        let n = self.entries.len();
        let mut i: usize = 0;
        proof {
            assert(ps.skip(0) =~= ps);
            assert(ps.take(0) + upsert(ps.skip(0), key@, value@) =~= upsert(ps, key@, value@));
        }
        while i < n
            invariant
                i <= n,
                n == self@.len(),
                self@ == ps,
                ps == old(self)@,
                has_key(ps, key@) == has_key(ps.skip(i as int), key@),
                has_key(ps, key@) ==> val_of(ps, key@) == val_of(ps.skip(i as int), key@),
                upsert(ps, key@, value@) =~= ps.take(i as int) + upsert(
                    ps.skip(i as int),
                    key@,
                    value@,
                ),
            decreases n - i,
        {
            proof {
                crate::text::lemma_skip_step(ps, i as int);
            }
            if crate::text::str_eq(self.entries[i].0.as_str(), key.as_str()) {
                let ghost es = self.entries@;
                let prev = self.entries.remove(i);
                self.entries.insert(i, (key, value));
                proof {
                    assert(ps[i as int].0 == key@);
                    assert(has_key(ps.skip(i as int), key@));
                    assert(val_of(ps.skip(i as int), key@) == ps[i as int].1);
                    assert(prev.1@ == ps[i as int].1);
                    assert(upsert(ps.skip(i as int), key@, value@) =~= seq![(key@, value@)]
                        + ps.skip(i + 1));
                    let up = ps.take(i as int) + (seq![(key@, value@)] + ps.skip(i + 1));
                    assert forall|j: int| 0 <= j < self@.len() implies self@[j] == up[j] by {
                        if j < i as int {
                            assert(self.entries@[j] == es.remove(i as int)[j]);
                            assert(es.remove(i as int)[j] == es[j]);
                        } else if j == i as int {
                            assert(self.entries@[j] == (key, value));
                        } else {
                            assert(self.entries@[j] == es.remove(i as int)[j - 1]);
                            assert(es.remove(i as int)[j - 1] == es[j]);
                        }
                    }
                    assert(self@ =~= up);
                    assert(self@ == upsert(ps, key@, value@));
                }
                return Some(prev.1);
            }
            proof {
                assert(ps.take(i as int) + (seq![ps[i as int]] + upsert(
                    ps.skip(i + 1),
                    key@,
                    value@,
                )) =~= ps.take(i + 1) + upsert(ps.skip(i + 1), key@, value@));
            }
            i += 1;
        }
        proof {
            assert(ps.skip(n as int) =~= Seq::<(Seq<char>, Seq<char>)>::empty());
        }
        self.entries.push((key, value));
        proof {
            assert(self@ =~= ps.take(n as int) + upsert(
                ps.skip(n as int),
                key@,
                value@,
            ));
        }
        None
    }

    /// All keys, in insertion order.
    pub fn keys(&self) -> (r: Vec<String>)
        ensures
            r@.len() == self@.len(),
            forall|i: int| 0 <= i < r@.len() ==> r@[i]@ == self@[i].0,
    {
        let n = self.entries.len();
        let mut r: Vec<String> = Vec::new();
        let mut i: usize = 0;
        while i < n
            invariant
                i <= n,
                n == self@.len(),
                r@.len() == i,
                forall|j: int| 0 <= j < i ==> r@[j]@ == self@[j].0,
            decreases n - i,
        {
            r.push(self.entries[i].0.clone());
            i += 1;
        }
        r
    }

    /// The entry at a given position, for iteration.
    pub fn entry_at(&self, i: usize) -> (r: (&String, &String))
        requires
            i < self@.len(),
        ensures
            r.0@ == self@[i as int].0,
            r.1@ == self@[i as int].1,
    {
        (&self.entries[i].0, &self.entries[i].1)
    }
}

} // verus!
