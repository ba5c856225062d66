//! A fixed-capacity set of identity keys, kept sorted in inline storage.
use vstd::prelude::*;

use crate::key::{KEY_LEN, KeyOrder, Pubkey, key_le, key_lt};
use crate::key::{lemma_key_le_lt, lemma_key_le_transitive, lemma_key_lt_asymmetric};
use crate::key::{lemma_key_lt_irreflexive, lemma_key_lt_le, lemma_key_lt_total};
use crate::key::lemma_key_lt_transitive;

verus! {

/// How many keys an access list can hold.
pub const MAX_ADDRS: usize = 32;

/// Every key of `s` is `KEY_LEN` bytes wide.
pub open spec fn all_keys_wide(s: Seq<Seq<u8>>) -> bool {
    forall|i: int| 0 <= i < s.len() ==> (#[trigger] s[i]).len() == KEY_LEN
}

/// `s` is in ascending order, equal neighbours allowed.
pub open spec fn sorted(s: Seq<Seq<u8>>) -> bool {
    forall|a: int, b: int| 0 <= a < b < s.len() ==> key_le(#[trigger] s[a], #[trigger] s[b])
}

/// `s` is in strictly ascending order, so it holds no key twice.
pub open spec fn strictly_sorted(s: Seq<Seq<u8>>) -> bool {
    forall|a: int, b: int| 0 <= a < b < s.len() ==> key_lt(#[trigger] s[a], #[trigger] s[b])
}

/// Where an insertion puts `k` in `s`: after the last key that does not exceed it.
pub open spec fn insertion_point(s: Seq<Seq<u8>>, k: Seq<u8>) -> int
    decreases s.len(),
{
    if s.len() == 0 {
        0
    } else if key_lt(k, s.last()) {
        insertion_point(s.drop_last(), k)
    } else {
        s.len() as int
    }
}

/// `s` with `k` added at its insertion point.
pub open spec fn with_key(s: Seq<Seq<u8>>, k: Seq<u8>) -> Seq<Seq<u8>> {
    s.insert(insertion_point(s, k), k)
}

/// `s` with the first occurrence of `k` taken out, or `s` itself where `k` is absent.
pub open spec fn without_key(s: Seq<Seq<u8>>, k: Seq<u8>) -> Seq<Seq<u8>> {
    s.remove_value(k)
}

/// The insertion point lies within `s`.
pub proof fn lemma_insertion_point_bounds(s: Seq<Seq<u8>>, k: Seq<u8>)
    ensures
        0 <= insertion_point(s, k) <= s.len(),
    decreases s.len(),
{
    if s.len() > 0 && key_lt(k, s.last()) {
        lemma_insertion_point_bounds(s.drop_last(), k);
    }
}

/// In a sorted list, the keys before the insertion point do not exceed `k`
/// and those from it on exceed `k`.
pub proof fn lemma_insertion_point_splits(s: Seq<Seq<u8>>, k: Seq<u8>)
    requires
        sorted(s),
        all_keys_wide(s),
        k.len() == KEY_LEN,
    ensures
        forall|j: int| 0 <= j < insertion_point(s, k) ==> key_le(#[trigger] s[j], k),
        forall|j: int| insertion_point(s, k) <= j < s.len() ==> key_lt(k, #[trigger] s[j]),
    decreases s.len(),
{
    lemma_insertion_point_bounds(s, k);
    if s.len() > 0 {
        let last = s.len() - 1;
        if key_lt(k, s.last()) {
            let t = s.drop_last();
            assert(sorted(t));
            assert(all_keys_wide(t));
            lemma_insertion_point_splits(t, k);
            lemma_insertion_point_bounds(t, k);
            assert forall|j: int| 0 <= j < insertion_point(s, k) implies key_le(
                #[trigger] s[j],
                k,
            ) by {
                assert(s[j] == t[j]);
            }
            assert forall|j: int| insertion_point(s, k) <= j < s.len() implies key_lt(
                k,
                #[trigger] s[j],
            ) by {
                if j < last {
                    assert(s[j] == t[j]);
                }
            }
        } else {
            assert forall|j: int| 0 <= j < insertion_point(s, k) implies key_le(
                #[trigger] s[j],
                k,
            ) by {
                if j < last {
                    lemma_key_le_transitive(s[j], s[last], k);
                }
            }
        }
    }
}

/// Adding a key grows the list by one.
pub proof fn lemma_with_key_len(s: Seq<Seq<u8>>, k: Seq<u8>)
    ensures
        with_key(s, k).len() == s.len() + 1,
{
    lemma_insertion_point_bounds(s, k);
}

/// After adding `k`, exactly the old keys and `k` are present.
pub proof fn lemma_with_key_contains(s: Seq<Seq<u8>>, k: Seq<u8>, q: Seq<u8>)
    ensures
        with_key(s, k).contains(q) <==> (s.contains(q) || q == k),
{
    let p = insertion_point(s, k);
    lemma_insertion_point_bounds(s, k);
    s.insert_ensures(p, k);
    let t = with_key(s, k);
    if s.contains(q) {
        let i = choose|i: int| 0 <= i < s.len() && s[i] == q;
        if i < p {
            assert(t[i] == q);
        } else {
            assert(t[i + 1] == q);
        }
    }
    if q == k {
        assert(t[p] == q);
    }
    if t.contains(q) {
        let i = choose|i: int| 0 <= i < t.len() && t[i] == q;
        if i < p {
            assert(s[i] == q);
        } else if i > p {
            assert(s[i - 1] == q);
        }
    }
}

/// After taking out `k`, every other key keeps its membership, and in a list
/// without repeats `k` is gone.
pub proof fn lemma_without_key_contains(s: Seq<Seq<u8>>, k: Seq<u8>, q: Seq<u8>)
    ensures
        q != k ==> (without_key(s, k).contains(q) <==> s.contains(q)),
        s.no_duplicates() ==> !without_key(s, k).contains(k),
{
    s.index_of_first_ensures(k);
    match s.index_of_first(k) {
        Some(p) => {
            s.remove_ensures(p);
            let t = s.remove(p);
            if q != k && s.contains(q) {
                let i = choose|i: int| 0 <= i < s.len() && s[i] == q;
                if i < p {
                    assert(t[i] == q);
                } else {
                    assert(t[i - 1] == q);
                }
            }
            if t.contains(q) {
                let i = choose|i: int| 0 <= i < t.len() && t[i] == q;
                if i < p {
                    assert(s[i] == q);
                } else {
                    assert(s[i + 1] == q);
                }
            }
        },
        None => {},
    }
}

/// A strictly sorted list has no repeats.
pub proof fn lemma_strictly_sorted_no_duplicates(s: Seq<Seq<u8>>)
    requires
        strictly_sorted(s),
    ensures
        s.no_duplicates(),
{
    assert forall|a: int, b: int| 0 <= a < s.len() && 0 <= b < s.len() && a != b implies s[a]
        != s[b] by {
        lemma_key_lt_irreflexive(s[a]);
    }
}

/// Adding a key that is absent keeps a list strictly sorted.
pub proof fn lemma_with_key_strictly_sorted(s: Seq<Seq<u8>>, k: Seq<u8>)
    requires
        strictly_sorted(s),
        all_keys_wide(s),
        k.len() == KEY_LEN,
        !s.contains(k),
    ensures
        strictly_sorted(with_key(s, k)),
        all_keys_wide(with_key(s, k)),
{
    let p = insertion_point(s, k);
    lemma_insertion_point_bounds(s, k);
    lemma_insertion_point_splits(s, k);
    s.insert_ensures(p, k);
    let t = with_key(s, k);
    assert forall|j: int| 0 <= j < p implies key_lt(#[trigger] s[j], k) by {
        assert(s[j] != k);
        lemma_key_lt_total(s[j], k);
    }
    assert forall|a: int, b: int| 0 <= a < b < t.len() implies key_lt(
        #[trigger] t[a],
        #[trigger] t[b],
    ) by {
        if b < p {
        } else if b == p {
        } else if a < p {
            assert(t[b] == s[b - 1]);
            lemma_key_lt_transitive(s[a], k, s[b - 1]);
        } else if a == p {
            assert(t[b] == s[b - 1]);
        } else {
            assert(t[b] == s[b - 1]);
            assert(t[a] == s[a - 1]);
        }
    }
    assert forall|j: int| 0 <= j < t.len() implies (#[trigger] t[j]).len() == KEY_LEN by {
        if j < p {
        } else if j > p {
            assert(t[j] == s[j - 1]);
        }
    }
}

/// Taking a key out keeps a list strictly sorted.
pub proof fn lemma_without_key_strictly_sorted(s: Seq<Seq<u8>>, k: Seq<u8>)
    requires
        strictly_sorted(s),
        all_keys_wide(s),
    ensures
        strictly_sorted(without_key(s, k)),
        all_keys_wide(without_key(s, k)),
{
    s.index_of_first_ensures(k);
    match s.index_of_first(k) {
        Some(p) => {
            s.remove_ensures(p);
            let t = s.remove(p);
            assert forall|a: int, b: int| 0 <= a < b < t.len() implies key_lt(
                #[trigger] t[a],
                #[trigger] t[b],
            ) by {
                if b < p {
                } else if a < p {
                    assert(t[b] == s[b + 1]);
                } else {
                    assert(t[b] == s[b + 1]);
                    assert(t[a] == s[a + 1]);
                }
            }
            assert forall|j: int| 0 <= j < t.len() implies (#[trigger] t[j]).len() == KEY_LEN by {
                if j >= p {
                    assert(t[j] == s[j + 1]);
                }
            }
        },
        None => {},
    }
}

/// The sorted key store: `xs[..len]` holds the keys, the rest is unused.
#[derive(Clone, Copy)]
pub struct AccessList {
    pub xs: [Pubkey; 32],
    pub len: u8,
}

impl View for AccessList {
    type V = Seq<Seq<u8>>;

    open spec fn view(&self) -> Seq<Seq<u8>> {
        self.xs@.subrange(0, self.len as int).map_values(|k: Pubkey| k@)
    }
}

impl AccessList {
    /// The list holds at most `MAX_ADDRS` keys, in ascending order.
    pub open spec fn wf(&self) -> bool {
        &&& self.len as usize <= MAX_ADDRS
        &&& sorted(self@)
    }

    /// Every stored key is `KEY_LEN` bytes wide.
    pub proof fn lemma_keys_wide(&self)
        requires
            self.len as usize <= MAX_ADDRS,
        ensures
            all_keys_wide(self@),
    {
        assert forall|i: int| 0 <= i < self@.len() implies (#[trigger] self@[i]).len()
            == KEY_LEN by {
            assert(self@[i] == self.xs@[i].bytes@);
        }
    }

    /// An empty list on zeroed storage.
    pub fn new() -> (r: AccessList)
        ensures
            r.wf(),
            r@ == Seq::<Seq<u8>>::empty(),
    {
        let zero = Pubkey::new_from_array([0u8; 32]);
        let r = AccessList { xs: [zero; 32], len: 0 };
        assert(r@ =~= Seq::<Seq<u8>>::empty());
        r
    }

    /// Number of keys held.
    pub fn len(&self) -> (r: usize)
        requires
            self.wf(),
        ensures
            r == self@.len(),
    {
        self.len as usize
    }

    /// Number of keys that can still be added.
    pub fn remaining_capacity(&self) -> (r: usize)
        requires
            self.wf(),
        ensures
            r == MAX_ADDRS - self@.len(),
    {
        MAX_ADDRS - self.len as usize
    }

    /// The key at position `i`.
    pub fn get(&self, i: usize) -> (r: Pubkey)
        requires
            self.wf(),
            i < self@.len(),
        ensures
            r@ == self@[i as int],
    {
        self.xs[i]
    }

    /// Appends `key` and moves it left past every larger key, so the list stays
    /// sorted. A key already present is stored once more. Returns where `key` now stands.
    pub fn insert(&mut self, key: Pubkey) -> (r: usize)
        requires
            old(self).wf(),
            old(self)@.len() < MAX_ADDRS,
        ensures
            final(self).wf(),
            final(self)@ == with_key(old(self)@, key@),
            r == insertion_point(old(self)@, key@),
    {
        let n = self.len as usize;
        let ghost o = self@;
        let ghost oxs = self.xs@;
        proof {
            self.lemma_keys_wide();
            assert(o.take(n as int) =~= o);
        }
        let mut i: usize = n;
        while i > 0 && self.xs[i - 1].cmp_key(&key) == KeyOrder::Greater
            invariant
                n == o.len(),
                n < MAX_ADDRS,
                self.len as usize == n,
                o == old(self)@,
                oxs == old(self).xs@,
                sorted(o),
                all_keys_wide(o),
                0 <= i <= n,
                forall|j: int| 0 <= j < n ==> (#[trigger] oxs[j])@ == o[j],
                forall|j: int| 0 <= j < i ==> #[trigger] self.xs@[j] == oxs[j],
                forall|j: int| i < j <= n ==> #[trigger] self.xs@[j] == oxs[j - 1],
                forall|j: int| i <= j < n ==> key_lt(key@, #[trigger] o[j]),
                insertion_point(o, key@) == insertion_point(o.take(i as int), key@),
            decreases i,
        {
            proof {
                assert(o.take(i as int).drop_last() =~= o.take(i - 1));
            }
            self.xs[i] = self.xs[i - 1];
            i = i - 1;
        }
        self.xs[i] = key;
        self.len = (n + 1) as u8;
        proof {
            if i > 0 {
                assert(!key_lt(key@, o[i - 1]));
                assert(o.take(i as int).last() == o[i - 1]);
            }
            assert(insertion_point(o.take(i as int), key@) == i);
            assert(self@ =~= o.insert(i as int, key@));
            assert forall|j: int| 0 <= j < i implies key_le(#[trigger] o[j], key@) by {
                if j < i - 1 {
                    lemma_key_le_transitive(o[j], o[i - 1], key@);
                }
            }
            assert forall|j: int| i <= j < n implies key_le(key@, #[trigger] o[j]) by {
                lemma_key_lt_asymmetric(key@, o[j]);
            }
            let s = self@;
            assert forall|a: int, b: int| 0 <= a < b < s.len() implies key_le(
                #[trigger] s[a],
                #[trigger] s[b],
            ) by {
                if b < i {
                } else if b == i {
                } else if a < i {
                    assert(s[b] == o[b - 1]);
                    assert(s[a] == o[a]);
                } else if a == i {
                    assert(s[b] == o[b - 1]);
                } else {
                    assert(s[b] == o[b - 1]);
                    assert(s[a] == o[a - 1]);
                }
            }
        }
        i
    }

    /// Takes out the key at `index`, moving the later keys one place left.
    pub fn remove_at(&mut self, index: usize)
        requires
            old(self).wf(),
            index < old(self)@.len(),
        ensures
            final(self).wf(),
            final(self)@ == old(self)@.remove(index as int),
    {
        let n = self.len as usize;
        let ghost o = self@;
        let ghost oxs = self.xs@;
        let mut j: usize = index;
        while j + 1 < n
            invariant
                n == o.len(),
                n <= MAX_ADDRS,
                self.len as usize == n,
                o == old(self)@,
                oxs == old(self).xs@,
                sorted(o),
                index <= j < n,
                forall|k: int| 0 <= k < n ==> (#[trigger] oxs[k])@ == o[k],
                forall|k: int| 0 <= k < index ==> #[trigger] self.xs@[k] == oxs[k],
                forall|k: int| index <= k < j ==> #[trigger] self.xs@[k] == oxs[k + 1],
                forall|k: int| j <= k < MAX_ADDRS ==> #[trigger] self.xs@[k] == oxs[k],
            decreases n - j,
        {
            self.xs[j] = self.xs[j + 1];
            j = j + 1;
        }
        self.len = (n - 1) as u8;
        proof {
            assert(self@ =~= o.remove(index as int));
            let s = self@;
            assert forall|a: int, b: int| 0 <= a < b < s.len() implies key_le(
                #[trigger] s[a],
                #[trigger] s[b],
            ) by {
                if b < index {
                } else if a < index {
                    assert(s[b] == o[b + 1]);
                } else {
                    assert(s[b] == o[b + 1]);
                    assert(s[a] == o[a + 1]);
                }
            }
        }
    }

    /// The first position that holds `key`, scanning from the front.
    pub fn find(&self, key: &Pubkey) -> (r: Option<usize>)
        requires
            self.wf(),
        ensures
            r == (match self@.index_of_first(key@) {
                Some(i) => Some(i as usize),
                None => None::<usize>,
            }),
    {
        let n = self.len as usize;
        proof {
            self@.index_of_first_ensures(key@);
        }
        let mut i: usize = 0;
        while i < n
            invariant
                self.wf(),
                n == self@.len(),
                0 <= i <= n,
                forall|j: int| 0 <= j < i ==> #[trigger] self@[j] != key@,
                match self@.index_of_first(key@) {
                    Some(index) => {
                        &&& self@.contains(key@)
                        &&& 0 <= index < self@.len()
                        &&& self@[index] == key@
                        &&& forall|j: int| 0 <= j < index < self@.len() ==> self@[j] != key@
                    },
                    None => { !self@.contains(key@) },
                },
            decreases n - i,
        {
            assert(self@[i as int] == self.xs@[i as int]@);
            if self.xs[i].cmp_key(key) == KeyOrder::Equal {
                return Some(i);
            }
            i = i + 1;
        }
        None
    }

    /// Whether `key` is held, by binary search over the sorted keys.
    pub fn contains_sorted(&self, key: &Pubkey) -> (r: bool)
        requires
            self.wf(),
        ensures
            r == self@.contains(key@),
    {
        let ghost s = self@;
        proof {
            self.lemma_keys_wide();
        }
        let mut lo: usize = 0;
        let mut hi: usize = self.len as usize;
        while lo < hi
            invariant
                self.wf(),
                s == self@,
                all_keys_wide(s),
                key@.len() == KEY_LEN,
                0 <= lo <= hi <= s.len(),
                forall|k: int| 0 <= k < lo ==> key_lt(#[trigger] s[k], key@),
                forall|k: int| hi <= k < s.len() ==> key_lt(key@, #[trigger] s[k]),
            decreases hi - lo,
        {
            let mid = lo + (hi - lo) / 2;
            assert(s[mid as int] == self.xs@[mid as int]@);
            let c = self.xs[mid].cmp_key(key);
            if c == KeyOrder::Equal {
                return true;
            } else if c == KeyOrder::Less {
                proof {
                    assert forall|k: int| 0 <= k <= mid implies key_lt(#[trigger] s[k], key@) by {
                        if k < mid {
                            lemma_key_le_lt(s[k], s[mid as int], key@);
                        }
                    }
                }
                lo = mid + 1;
            } else {
                proof {
                    assert forall|k: int| mid <= k < s.len() implies key_lt(
                        key@,
                        #[trigger] s[k],
                    ) by {
                        if k > mid {
                            lemma_key_lt_le(key@, s[mid as int], s[k]);
                        }
                    }
                }
                hi = mid;
            }
        }
        proof {
            assert forall|k: int| 0 <= k < s.len() implies #[trigger] s[k] != key@ by {
                lemma_key_lt_irreflexive(key@);
            }
        }
        false
    }

    /// Whether the list is well formed: at most `MAX_ADDRS` keys, in
    /// ascending order. Storage read from outside is checked with this first.
    pub fn is_well_formed(&self) -> (r: bool)
        ensures
            r == self.wf(),
    {
        if self.len as usize > MAX_ADDRS {
            return false;
        }
        let n = self.len as usize;
        let ghost s = self@;
        proof {
            self.lemma_keys_wide();
        }
        let mut i: usize = 1;
        while i < n
            invariant
                n == s.len(),
                n <= MAX_ADDRS,
                s == self@,
                self.len as usize == n,
                all_keys_wide(s),
                1 <= i,
                i <= n || n == 0,
                forall|a: int, b: int|
                    0 <= a < b < i && b < n ==> key_le(#[trigger] s[a], #[trigger] s[b]),
            decreases n - i,
        {
            assert(s[i as int] == self.xs@[i as int]@);
            assert(s[i - 1] == self.xs@[i - 1]@);
            if self.xs[i - 1].cmp_key(&self.xs[i]) == KeyOrder::Greater {
                assert(!key_le(s[i - 1], s[i as int]));
                return false;
            }
            proof {
                assert forall|a: int, b: int| 0 <= a < b < i + 1 && b < n implies key_le(
                    #[trigger] s[a],
                    #[trigger] s[b],
                ) by {
                    if b == i && a < i - 1 {
                        lemma_key_le_transitive(s[a], s[i - 1], s[b]);
                    }
                }
            }
            i = i + 1;
        }
        true
    }

    /// The held keys, in stored order.
    pub fn to_vec(&self) -> (r: Vec<Pubkey>)
        requires
            self.wf(),
        ensures
            r@.map_values(|k: Pubkey| k@) == self@,
    {
        let mut r: Vec<Pubkey> = Vec::new();
        let n = self.len as usize;
        let mut i: usize = 0;
        while i < n
            invariant
                self.wf(),
                n == self@.len(),
                0 <= i <= n,
                r@.len() == i,
                forall|j: int| 0 <= j < i ==> (#[trigger] r@[j])@ == self@[j],
            decreases n - i,
        {
            assert(self@[i as int] == self.xs@[i as int]@);
            r.push(self.xs[i]);
            i = i + 1;
        }
        assert(r@.map_values(|k: Pubkey| k@) =~= self@);
        r
    }
}

} // verus!
