//! Identity keys: fixed-width byte strings ordered lexicographically.
use vstd::prelude::*;

verus! {

/// Width of an identity key in bytes.
pub const KEY_LEN: usize = 32;

/// An identity key, 32 opaque bytes.
#[derive(Clone, Copy, Debug, PartialEq, Eq)]
pub struct Pubkey {
    pub bytes: [u8; 32],
}

impl View for Pubkey {
    type V = Seq<u8>;

    open spec fn view(&self) -> Seq<u8> {
        self.bytes@
    }
}

/// The result of comparing two keys.
#[derive(Clone, Copy, Debug, PartialEq, Eq, Structural)]
pub enum KeyOrder {
    Less,
    Equal,
    Greater,
}

/// `a` and `b` agree on their first `n` bytes.
pub open spec fn agree_upto(a: Seq<u8>, b: Seq<u8>, n: int) -> bool {
    forall|j: int| 0 <= j < n ==> a[j] == b[j]
}

/// `a` comes strictly before `b` in byte-wise lexicographic order.
pub open spec fn key_lt(a: Seq<u8>, b: Seq<u8>) -> bool {
    exists|i: int|
        0 <= i < a.len() && i < b.len() && agree_upto(a, b, i) && #[trigger] a[i] < #[trigger] b[i]
}

/// `a` comes no later than `b`.
pub open spec fn key_le(a: Seq<u8>, b: Seq<u8>) -> bool {
    !key_lt(b, a)
}

/// No key comes before itself.
pub proof fn lemma_key_lt_irreflexive(a: Seq<u8>)
    ensures
        !key_lt(a, a),
{
}

/// The order is transitive.
pub proof fn lemma_key_lt_transitive(a: Seq<u8>, b: Seq<u8>, c: Seq<u8>)
    requires
        key_lt(a, b),
        key_lt(b, c),
    ensures
        key_lt(a, c),
{
    let i = choose|i: int|
        0 <= i < a.len() && i < b.len() && agree_upto(a, b, i) && #[trigger] a[i] < #[trigger] b[i];
    let j = choose|j: int|
        0 <= j < b.len() && j < c.len() && agree_upto(b, c, j) && #[trigger] b[j] < #[trigger] c[j];
    if i <= j {
        assert(a[i] < c[i]);
    } else {
        assert(a[j] < c[j]);
    }
}

/// No two keys come each before the other.
pub proof fn lemma_key_lt_asymmetric(a: Seq<u8>, b: Seq<u8>)
    requires
        key_lt(a, b),
    ensures
        !key_lt(b, a),
{
    if key_lt(b, a) {
        lemma_key_lt_transitive(a, b, a);
    }
}

/// Two keys of the same width that differ are ordered one way or the other.
pub proof fn lemma_key_lt_total(a: Seq<u8>, b: Seq<u8>)
    requires
        a.len() == b.len(),
        a != b,
    ensures
        key_lt(a, b) || key_lt(b, a),
{
    lemma_key_lt_total_from(a, b, 0);
}

proof fn lemma_key_lt_total_from(a: Seq<u8>, b: Seq<u8>, n: int)
    requires
        a.len() == b.len(),
        a != b,
        0 <= n <= a.len(),
        agree_upto(a, b, n),
    ensures
        key_lt(a, b) || key_lt(b, a),
    decreases a.len() - n,
{
    if n == a.len() {
        assert(a =~= b);
    } else if a[n] == b[n] {
        lemma_key_lt_total_from(a, b, n + 1);
    } else if a[n] < b[n] {
        assert(key_lt(a, b));
    } else {
        assert(key_lt(b, a));
    }
}

/// `key_le` is transitive on keys of one width.
pub proof fn lemma_key_le_transitive(a: Seq<u8>, b: Seq<u8>, c: Seq<u8>)
    requires
        a.len() == b.len(),
        b.len() == c.len(),
        key_le(a, b),
        key_le(b, c),
    ensures
        key_le(a, c),
{
    if key_lt(c, a) {
        if a == b {
        } else {
            lemma_key_lt_total(a, b);
            lemma_key_lt_transitive(c, a, b);
        }
    }
}

/// `a <= b < c` gives `a < c`.
pub proof fn lemma_key_le_lt(a: Seq<u8>, b: Seq<u8>, c: Seq<u8>)
    requires
        a.len() == KEY_LEN,
        b.len() == KEY_LEN,
        key_le(a, b),
        key_lt(b, c),
    ensures
        key_lt(a, c),
{
    if a != b {
        lemma_key_lt_total(a, b);
        lemma_key_lt_transitive(a, b, c);
    }
}

/// `a < b <= c` gives `a < c`.
pub proof fn lemma_key_lt_le(a: Seq<u8>, b: Seq<u8>, c: Seq<u8>)
    requires
        b.len() == KEY_LEN,
        c.len() == KEY_LEN,
        key_lt(a, b),
        key_le(b, c),
    ensures
        key_lt(a, c),
{
    if b != c {
        lemma_key_lt_total(b, c);
        lemma_key_lt_transitive(a, b, c);
    }
}

impl Pubkey {
    /// The key made of the given bytes.
    pub fn new_from_array(bytes: [u8; 32]) -> (r: Pubkey)
        ensures
            r@ == bytes@,
    {
        Pubkey { bytes }
    }

    /// The key's bytes.
    pub fn to_bytes(&self) -> (r: [u8; 32])
        ensures
            r@ == self@,
    {
        self.bytes
    }

    /// Compares two keys byte by byte, the first differing byte deciding.
    pub fn cmp_key(&self, other: &Pubkey) -> (r: KeyOrder)
        ensures
            r == KeyOrder::Less <==> key_lt(self@, other@),
            r == KeyOrder::Equal <==> self@ == other@,
            r == KeyOrder::Greater <==> key_lt(other@, self@),
    {
        let mut i: usize = 0;
        while i < KEY_LEN
            invariant
                0 <= i <= KEY_LEN,
                self@.len() == KEY_LEN,
                other@.len() == KEY_LEN,
                agree_upto(self@, other@, i as int),
            decreases KEY_LEN - i,
        {
            let x = self.bytes[i];
            let y = other.bytes[i];
            if x < y {
                assert(self@[i as int] < other@[i as int]);
                assert(key_lt(self@, other@));
                proof {
                    lemma_key_lt_asymmetric(self@, other@);
                }
                return KeyOrder::Less;
            } else if x > y {
                assert(other@[i as int] < self@[i as int]);
                assert(key_lt(other@, self@));
                proof {
                    lemma_key_lt_asymmetric(other@, self@);
                }
                return KeyOrder::Greater;
            }
            i = i + 1;
        }
        assert(self@ =~= other@);
        proof {
            lemma_key_lt_irreflexive(self@);
        }
        KeyOrder::Equal
    }
}

} // verus!
