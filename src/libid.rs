//! Identifiers of external libraries and their order.

use vstd::prelude::*;

verus! {

/// Content identifier of an external library: 32 bytes, ordered lexicographically.
#[derive(Clone, Copy, Debug, PartialEq, Eq, Hash, PartialOrd, Ord)]
pub struct LibId(pub [u8; 32]);

impl View for LibId {
    type V = Seq<u8>;

    open spec fn view(&self) -> Seq<u8> {
        self.0@
    }
}

/// Strict lexicographic order on byte sequences.
pub open spec fn lex_lt(a: Seq<u8>, b: Seq<u8>) -> bool
    decreases a.len(),
{
    if a.len() == 0 || b.len() == 0 {
        a.len() < b.len()
    } else if a[0] != b[0] {
        a[0] < b[0]
    } else {
        lex_lt(a.drop_first(), b.drop_first())
    }
}

pub proof fn lemma_lex_irreflexive(a: Seq<u8>)
    ensures
        !lex_lt(a, a),
    decreases a.len(),
{
    if a.len() > 0 {
        lemma_lex_irreflexive(a.drop_first());
    }
}

pub proof fn lemma_lex_asymmetric(a: Seq<u8>, b: Seq<u8>)
    ensures
        !(lex_lt(a, b) && lex_lt(b, a)),
    decreases a.len(),
{
    if a.len() > 0 && b.len() > 0 && a[0] == b[0] {
        lemma_lex_asymmetric(a.drop_first(), b.drop_first());
    }
}

pub proof fn lemma_lex_transitive(a: Seq<u8>, b: Seq<u8>, c: Seq<u8>)
    requires
        lex_lt(a, b),
        lex_lt(b, c),
    ensures
        lex_lt(a, c),
    decreases a.len(),
{
    if a.len() > 0 && b.len() > 0 && c.len() > 0 && a[0] == b[0] && b[0] == c[0] {
        lemma_lex_transitive(a.drop_first(), b.drop_first(), c.drop_first());
    }
}

pub proof fn lemma_lex_total(a: Seq<u8>, b: Seq<u8>)
    requires
        a.len() == b.len(),
        a != b,
    ensures
        lex_lt(a, b) || lex_lt(b, a),
    decreases a.len(),
{
    if a.len() > 0 && a[0] == b[0] {
        if a.drop_first() == b.drop_first() {
            assert(a =~= seq![a[0]] + a.drop_first());
            assert(b =~= seq![b[0]] + b.drop_first());
        }
        lemma_lex_total(a.drop_first(), b.drop_first());
    } else if a.len() == 0 {
        assert(a =~= b);
    }
}

/// Whether `a` comes strictly before `b` in lexicographic order.
pub fn lex_less(a: &[u8], b: &[u8]) -> (r: bool)
    ensures
        r == lex_lt(a@, b@),
{
    let mut i: usize = 0;
    assert(a@.skip(0) =~= a@);
    assert(b@.skip(0) =~= b@);
    while i < a.len() && i < b.len()
        invariant
            0 <= i <= a@.len(),
            i <= b@.len(),
            lex_lt(a@, b@) == lex_lt(a@.skip(i as int), b@.skip(i as int)),
        decreases a@.len() - i,
    {
        let x = a[i];
        let y = b[i];
        assert(a@.skip(i as int)[0] == x);
        assert(b@.skip(i as int)[0] == y);
        if x != y {
            return x < y;
        }
        assert(a@.skip(i as int).drop_first() =~= a@.skip(i + 1));
        assert(b@.skip(i as int).drop_first() =~= b@.skip(i + 1));
        i = i + 1;
    }
    a.len() < b.len()
}

impl LibId {
    /// Compares two identifiers: negative when `self` comes first, zero when
    /// they are equal, positive when `other` comes first.
    pub fn compare(&self, other: &LibId) -> (r: i8)
        ensures
            r < 0 <==> lex_lt(self@, other@),
            r == 0 <==> self@ == other@,
            r > 0 <==> lex_lt(other@, self@),
    {
        let mut i: usize = 0;
        assert(self.0@.skip(0) =~= self.0@);
        assert(other.0@.skip(0) =~= other.0@);
        while i < 32
            invariant
                0 <= i <= 32,
                self.0@.len() == 32,
                other.0@.len() == 32,
                forall|j: int| 0 <= j < i ==> self.0@[j] == other.0@[j],
                lex_lt(self.0@, other.0@) == lex_lt(self.0@.skip(i as int), other.0@.skip(i as int)),
                lex_lt(other.0@, self.0@) == lex_lt(other.0@.skip(i as int), self.0@.skip(i as int)),
            decreases 32 - i,
        {
            let x = self.0[i];
            let y = other.0[i];
            assert(self.0@.skip(i as int)[0] == x);
            assert(other.0@.skip(i as int)[0] == y);
            if x != y {
                assert(self.0@[i as int] != other.0@[i as int]);
                assert(self@ != other@);
                assert(self.0@.skip(i as int).len() > 0 && other.0@.skip(i as int).len() > 0);
                if x < y {
                    return -1;
                } else {
                    return 1;
                }
            }
            assert(self.0@.skip(i as int).drop_first() =~= self.0@.skip(i + 1));
            assert(other.0@.skip(i as int).drop_first() =~= other.0@.skip(i + 1));
            i = i + 1;
        }
        assert(self.0@ =~= other.0@);
        proof {
            lemma_lex_irreflexive(self.0@);
        }
        0
    }

    /// The identifier held in the 32 bytes at `pos`.
    pub fn read(bytes: &[u8], pos: usize) -> (r: LibId)
        requires
            pos + 32 <= bytes@.len(),
        ensures
            r@ == bytes@.subrange(pos as int, pos + 32),
    {
        let n = bytes.len();
        let mut arr: [u8; 32] = [0u8; 32];
        let mut j: usize = 0;
        while j < 32
            invariant
                0 <= j <= 32,
                n == bytes@.len(),
                pos + 32 <= n,
                arr@.len() == 32,
                forall|k: int| 0 <= k < j ==> arr@[k] == bytes@[pos + k],
            decreases 32 - j,
        {
            arr[j] = bytes[pos + j];
            j = j + 1;
        }
        assert(arr@ =~= bytes@.subrange(pos as int, pos + 32));
        LibId(arr)
    }

    /// Whether two identifiers are equal.
    pub fn same(&self, other: &LibId) -> (r: bool)
        ensures
            r <==> self@ == other@,
    {
        self.compare(other) == 0
    }
}

} // verus!
