//! An ordered map keyed by 32-bit addresses.
use vstd::prelude::*;

verus! {

/// Keys in strictly increasing order.
pub open spec fn ascending<V>(s: Seq<(u32, V)>) -> bool {
    forall|i: int, j: int| 0 <= i < j < s.len() ==> #[trigger] s[i].0 < #[trigger] s[j].0
}

/// Whether some entry has key `k`.
pub open spec fn has_key<V>(s: Seq<(u32, V)>, k: u32) -> bool {
    exists|i: int| 0 <= i < s.len() && #[trigger] s[i].0 == k
}

/// The value of the entry with key `k`.
pub open spec fn value_at<V>(s: Seq<(u32, V)>, k: u32) -> Option<V> {
    if has_key(s, k) {
        Some(s[choose|i: int| 0 <= i < s.len() && #[trigger] s[i].0 == k].1)
    } else {
        None
    }
}

/// `s` with the entry for `k` set to `v`, in key order.
pub open spec fn put<V>(s: Seq<(u32, V)>, k: u32, v: V) -> Seq<(u32, V)>
    decreases s.len(),
{
    if s.len() == 0 {
        seq![(k, v)]
    } else if s[0].0 < k {
        seq![s[0]] + put(s.drop_first(), k, v)
    } else if s[0].0 == k {
        seq![(k, v)] + s.drop_first()
    } else {
        seq![(k, v)] + s
    }
}

/// Where `put` places its entry.
pub proof fn lemma_put_at<V>(s: Seq<(u32, V)>, k: u32, v: V, i: int)
    requires
        0 <= i <= s.len(),
        forall|j: int| 0 <= j < i ==> #[trigger] s[j].0 < k,
        i < s.len() ==> s[i].0 >= k,
    ensures
        i < s.len() && s[i].0 == k ==> put(s, k, v) == s.update(i, (k, v)),
        !(i < s.len() && s[i].0 == k) ==> put(s, k, v) == s.insert(i, (k, v)),
    decreases s.len(),
{
    if s.len() == 0 {
        assert(put(s, k, v) =~= s.insert(i, (k, v)));
    } else if i == 0 {
        if s[0].0 == k {
            assert(put(s, k, v) =~= s.update(i, (k, v)));
        } else {
            assert(put(s, k, v) =~= s.insert(i, (k, v)));
        }
    } else {
        let t = s.drop_first();
        assert(s[0].0 < k);
        assert forall|j: int| 0 <= j < i - 1 implies #[trigger] t[j].0 < k by {
            assert(t[j] == s[j + 1]);
        }
        lemma_put_at(t, k, v, i - 1);
        if i < s.len() && s[i].0 == k {
            assert(put(s, k, v) =~= s.update(i, (k, v)));
        } else {
            assert(put(s, k, v) =~= s.insert(i, (k, v)));
        }
    }
}

/// Setting an entry keeps the keys ascending.
pub proof fn lemma_put_ascending<V>(s: Seq<(u32, V)>, k: u32, v: V)
    requires
        ascending(s),
    ensures
        ascending(put(s, k, v)),
        put(s, k, v).len() == s.len() + (if has_key(s, k) { 0int } else { 1int }),
        s.len() <= put(s, k, v).len(),
{
    let i = lower_bound(s, k);
    lemma_lower_bound(s, k);
    lemma_put_at(s, k, v, i);
}

/// How many keys are below `k`.
pub open spec fn lower_bound<V>(s: Seq<(u32, V)>, k: u32) -> int
    decreases s.len(),
{
    if s.len() == 0 {
        0
    } else if s[0].0 < k {
        1 + lower_bound(s.drop_first(), k)
    } else {
        0
    }
}

/// The keys below `k` are the first `lower_bound(s, k)` ones.
pub proof fn lemma_lower_bound<V>(s: Seq<(u32, V)>, k: u32)
    requires
        ascending(s),
    ensures
        0 <= lower_bound(s, k) <= s.len(),
        forall|j: int| 0 <= j < lower_bound(s, k) ==> #[trigger] s[j].0 < k,
        forall|j: int| lower_bound(s, k) <= j < s.len() ==> #[trigger] s[j].0 >= k,
    decreases s.len(),
{
    if s.len() > 0 && s[0].0 < k {
        let t = s.drop_first();
        assert(ascending(t)) by {
            assert forall|i: int, j: int| 0 <= i < j < t.len() implies #[trigger] t[i].0
                < #[trigger] t[j].0 by {
                assert(t[i] == s[i + 1] && t[j] == s[j + 1]);
            }
        }
        lemma_lower_bound(t, k);
        assert forall|j: int| 0 <= j < lower_bound(s, k) implies #[trigger] s[j].0 < k by {
            if j > 0 {
                assert(s[j] == t[j - 1]);
            }
        }
        assert forall|j: int| lower_bound(s, k) <= j < s.len() implies #[trigger] s[j].0 >= k by {
            assert(s[j] == t[j - 1]);
        }
    }
}

/// What was set is found, and other entries stay as they were.
pub proof fn lemma_put_value<V>(s: Seq<(u32, V)>, k: u32, v: V, other: u32)
    requires
        ascending(s),
    ensures
        value_at(put(s, k, v), k) == Some(v),
        other != k ==> value_at(put(s, k, v), other) == value_at(s, other),
{
    let i = lower_bound(s, k);
    lemma_lower_bound(s, k);
    lemma_put_at(s, k, v, i);
    lemma_put_ascending(s, k, v);
    let p = put(s, k, v);
    assert(p[i] == (k, v) && p[i].0 == k);
    assert(has_key(p, k));
    if other != k {
        if has_key(s, other) {
            let j = choose|j: int| 0 <= j < s.len() && #[trigger] s[j].0 == other;
            let j2 = if j < i || p.len() == s.len() {
                j
            } else {
                j + 1
            };
            assert(p[j2] == s[j]);
            assert(has_key(p, other));
        }
        if has_key(p, other) {
            let j = choose|j: int| 0 <= j < p.len() && #[trigger] p[j].0 == other;
            let j2 = if j < i || p.len() == s.len() {
                j
            } else {
                j - 1
            };
            assert(s[j2] == p[j]);
            assert(has_key(s, other));
        }
    }
}

/// A map with at most one key for each 32-bit value has at most 2^32 entries.
pub proof fn lemma_ascending_len<V>(s: Seq<(u32, V)>)
    requires
        ascending(s),
    ensures
        s.len() <= 0x1_0000_0000,
        s.len() > 0 ==> s.last().0 >= s.len() - 1,
    decreases s.len(),
{
    if s.len() > 1 {
        let t = s.drop_last();
        assert(ascending(t)) by {
            assert forall|i: int, j: int| 0 <= i < j < t.len() implies #[trigger] t[i].0
                < #[trigger] t[j].0 by {
                assert(t[i] == s[i] && t[j] == s[j]);
            }
        }
        lemma_ascending_len(t);
        assert(t.last() == s[s.len() - 2]);
        assert(s[s.len() - 2].0 < s[s.len() - 1].0);
        let last: u32 = s[s.len() - 1].0;
        assert(last <= u32::MAX);
    }
}

/// An ordered map from 32-bit addresses to `V`.
pub struct AddrMap<V> {
    entries: Vec<(u32, V)>,
}

impl<V> View for AddrMap<V> {
    type V = Seq<(u32, V)>;

    closed spec fn view(&self) -> Seq<(u32, V)> {
        self.entries@
    }
}

impl<V> AddrMap<V> {
    #[verifier::type_invariant]
    spec fn in_order(self) -> bool {
        ascending(self.entries@)
    }

    /// The empty map.
    pub fn new() -> (r: Self)
        ensures
            r@ == Seq::<(u32, V)>::empty(),
    {
        AddrMap { entries: Vec::new() }
    }

    /// Number of entries; the keys of the entries ascend.
    pub fn len(&self) -> (r: usize)
        ensures
            r == self@.len(),
            ascending(self@),
    {
        proof {
            use_type_invariant(self);
        }
        self.entries.len()
    }

    /// The entry at position `i` of the ascending order.
    pub fn entry(&self, i: usize) -> (r: &(u32, V))
        requires
            i < self@.len(),
        ensures
            *r == self@[i as int],
    {
        &self.entries[i]
    }

    /// How many keys are below `k`.
    pub fn position(&self, k: u32) -> (r: usize)
        ensures
            r == lower_bound(self@, k),
    {
        proof {
            use_type_invariant(self);
            lemma_lower_bound(self.entries@, k);
        }
        let mut lo: usize = 0;
        let mut hi: usize = self.entries.len();
        while lo < hi
            invariant
                ascending(self.entries@),
                0 <= lower_bound(self.entries@, k) <= self.entries@.len(),
                forall|j: int| 0 <= j < lower_bound(self.entries@, k) ==> #[trigger] self.entries@[j].0 < k,
                forall|j: int|
                    lower_bound(self.entries@, k) <= j < self.entries@.len()
                        ==> #[trigger] self.entries@[j].0 >= k,
                lo <= lower_bound(self.entries@, k) <= hi <= self.entries@.len(),
            decreases hi - lo,
        {
            let mid: usize = lo + (hi - lo) / 2;
            if self.entries[mid].0 < k {
                lo = mid + 1;
            } else {
                hi = mid;
            }
        }
        lo
    }

    /// Whether `k` is a key.
    pub fn contains(&self, k: u32) -> (r: bool)
        ensures
            r == has_key(self@, k),
    {
        proof {
            use_type_invariant(self);
            lemma_lower_bound(self.entries@, k);
        }
        let i: usize = self.position(k);
        i < self.entries.len() && self.entries[i].0 == k
    }

    /// The value for key `k`.
    pub fn get(&self, k: u32) -> (r: Option<&V>)
        ensures
            r is Some <==> has_key(self@, k),
            r matches Some(v) ==> value_at(self@, k) == Some(*v),
    {
        proof {
            use_type_invariant(self);
            lemma_lower_bound(self.entries@, k);
        }
        let i: usize = self.position(k);
        if i < self.entries.len() && self.entries[i].0 == k {
            Some(&self.entries[i].1)
        } else {
            None
        }
    }

    /// Sets the entry for `k`.
    pub fn insert(&mut self, k: u32, v: V)
        ensures
            final(self)@ == put(old(self)@, k, v),
    {
        proof {
            use_type_invariant(&*self);
            lemma_lower_bound(self.entries@, k);
            lemma_put_at(self.entries@, k, v, lower_bound(self.entries@, k));
            lemma_put_ascending(self.entries@, k, v);
        }
        let i: usize = self.position(k);
        let mut entries: Vec<(u32, V)> = Vec::new();
        core::mem::swap(&mut entries, &mut self.entries);
        if i < entries.len() && entries[i].0 == k {
            entries.remove(i);
        }
        entries.insert(i, (k, v));
        assert(entries@ =~= put(old(self)@, k, v));
        self.entries = entries;
    }

    /// Takes out the entry with the lowest key.
    pub fn pop_first(&mut self) -> (r: Option<(u32, V)>)
        ensures
            old(self)@.len() == 0 ==> r is None && final(self)@ == old(self)@,
            old(self)@.len() > 0 ==> r == Some(old(self)@[0]) && final(self)@
                == old(self)@.drop_first(),
    {
        proof {
            use_type_invariant(&*self);
        }
        if self.entries.len() == 0 {
            return None;
        }
        let mut entries: Vec<(u32, V)> = Vec::new();
        core::mem::swap(&mut entries, &mut self.entries);
        let first: (u32, V) = entries.remove(0);
        assert(entries@ =~= old(self)@.drop_first());
        self.entries = entries;
        Some(first)
    }
}

} // verus!
