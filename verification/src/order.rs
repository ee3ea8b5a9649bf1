//! The order of texts and of pairs of texts.
use vstd::prelude::*;

verus! {

/// From place `i` on, where they are alike before it, `a` comes before `b`: at
/// the first byte that differs it has the smaller one, or it ends there.
pub open spec fn bytes_before(a: Seq<u8>, b: Seq<u8>, i: int) -> bool
    decreases b.len() - i,
{
    if i >= b.len() {
        false
    } else if i >= a.len() {
        true
    } else if a[i] == b[i] {
        bytes_before(a, b, i + 1)
    } else {
        a[i] < b[i]
    }
}

/// Text `a` comes before text `b`, by their UTF-8 bytes.
pub open spec fn text_before(a: Seq<char>, b: Seq<char>) -> bool {
    bytes_before(vstd::utf8::encode_utf8(a), vstd::utf8::encode_utf8(b), 0)
}

/// A pair of texts.
pub type TextPair = (Seq<char>, Seq<char>);

/// Pair `a` comes before pair `b`: by the first texts, then by the second.
pub open spec fn pair_before(a: TextPair, b: TextPair) -> bool {
    text_before(a.0, b.0) || (a.0 == b.0 && text_before(a.1, b.1))
}

proof fn lemma_bytes_transitive(a: Seq<u8>, b: Seq<u8>, c: Seq<u8>, i: int)
    requires
        bytes_before(a, b, i),
        bytes_before(b, c, i),
    ensures
        bytes_before(a, c, i),
    decreases b.len() - i,
{
    if i < a.len() && i < b.len() && i < c.len() && a[i] == b[i] && b[i] == c[i] {
        lemma_bytes_transitive(a, b, c, i + 1);
    }
}

proof fn lemma_bytes_irreflexive(a: Seq<u8>, i: int)
    ensures
        !bytes_before(a, a, i),
    decreases a.len() - i,
{
    if i < a.len() {
        lemma_bytes_irreflexive(a, i + 1);
    }
}

/// A text does not come before itself.
pub proof fn lemma_text_irreflexive(a: Seq<char>)
    ensures
        !text_before(a, a),
{
    lemma_bytes_irreflexive(vstd::utf8::encode_utf8(a), 0);
}

/// Pairs that come one before the other, and the other before a third.
pub proof fn lemma_pair_transitive(a: TextPair, b: TextPair, c: TextPair)
    requires
        pair_before(a, b),
        pair_before(b, c),
    ensures
        pair_before(a, c),
{
    let f = |s: Seq<char>| vstd::utf8::encode_utf8(s);
    if text_before(a.0, b.0) && text_before(b.0, c.0) {
        lemma_bytes_transitive(f(a.0), f(b.0), f(c.0), 0);
    }
    if text_before(a.1, b.1) && text_before(b.1, c.1) {
        lemma_bytes_transitive(f(a.1), f(b.1), f(c.1), 0);
    }
}

/// A pair does not come before itself.
pub proof fn lemma_pair_irreflexive(a: TextPair)
    ensures
        !pair_before(a, a),
{
    lemma_text_irreflexive(a.0);
    lemma_text_irreflexive(a.1);
}

/// How one thing stands to another.
#[derive(Debug, Clone, Copy, PartialEq, Eq, Structural)]
pub enum Relation {
    Before,
    Same,
    After,
}

/// How one text stands to another.
pub fn relate_texts(a: &str, b: &str) -> (res: Relation)
    ensures
        match res {
            Relation::Before => text_before(a@, b@),
            Relation::Same => a@ == b@,
            Relation::After => text_before(b@, a@),
        },
{
    let x = a.as_bytes();
    let y = b.as_bytes();
    let n: usize = x.len();
    let m: usize = y.len();
    let mut i: usize = 0;
    while i < n && i < m && x[i] == y[i]
        invariant
            x@ == vstd::utf8::encode_utf8(a@),
            y@ == vstd::utf8::encode_utf8(b@),
            n == x@.len(),
            m == y@.len(),
            i <= n,
            i <= m,
            forall|j: int| 0 <= j < i ==> x@[j] == y@[j],
            bytes_before(x@, y@, 0) == bytes_before(x@, y@, i as int),
            bytes_before(y@, x@, 0) == bytes_before(y@, x@, i as int),
        decreases n - i,
    {
        i += 1;
    }
    if i == n && i == m {
        proof {
            assert(x@ =~= y@);
            vstd::utf8::encode_utf8_decode_utf8(a@);
            vstd::utf8::encode_utf8_decode_utf8(b@);
        }
        Relation::Same
    } else if i == n || (i < m && x[i] < y[i]) {
        Relation::Before
    } else {
        Relation::After
    }
}

/// How one pair of texts stands to another.
pub fn relate_pairs(a: (&str, &str), b: (&str, &str)) -> (res: Relation)
    ensures
        match res {
            Relation::Before => pair_before((a.0@, a.1@), (b.0@, b.1@)),
            Relation::Same => a.0@ == b.0@ && a.1@ == b.1@,
            Relation::After => pair_before((b.0@, b.1@), (a.0@, a.1@)),
        },
{
    match relate_texts(a.0, b.0) {
        Relation::Same => relate_texts(a.1, b.1),
        other => other,
    }
}

/// Byte by byte: the two are alike before place `i`, and there the first one ends or has
/// the smaller byte.
pub open spec fn differs_at(a: Seq<u8>, b: Seq<u8>, i: int) -> bool {
    &&& 0 <= i < b.len()
    &&& i <= a.len()
    &&& forall|j: int| 0 <= j < i ==> #[trigger] a[j] == b[j]
    &&& i == a.len() || a[i] < b[i]
}

proof fn lemma_bytes_order(a: Seq<u8>, b: Seq<u8>, i: int)
    requires
        0 <= i <= a.len(),
        i <= b.len(),
        forall|j: int| 0 <= j < i ==> #[trigger] a[j] == b[j],
    ensures
        bytes_before(a, b, i) <==> exists|k: int| i <= k && #[trigger] differs_at(a, b, k),
    decreases b.len() - i,
{
    if i < b.len() && i < a.len() && a[i] == b[i] {
        lemma_bytes_order(a, b, i + 1);
        if bytes_before(a, b, i) {
            let k = choose|k: int| i + 1 <= k && #[trigger] differs_at(a, b, k);
            assert(differs_at(a, b, k));
        }
        if exists|k: int| i <= k && #[trigger] differs_at(a, b, k) {
            let k = choose|k: int| i <= k && #[trigger] differs_at(a, b, k);
            assert(k != i);
            assert(differs_at(a, b, k));
        }
    } else {
        if bytes_before(a, b, i) {
            assert(differs_at(a, b, i));
        }
        if exists|k: int| i <= k && #[trigger] differs_at(a, b, k) {
            let k = choose|k: int| i <= k && #[trigger] differs_at(a, b, k);
            if k > i {
                assert(a[i] == b[i]);
            }
        }
    }
}

/// Texts are ordered as in a dictionary, by the bytes of their UTF-8 form; pairs by their
/// first text, and by the second where the first is the same.
pub proof fn law_order_of_a_dictionary(a: TextPair, b: TextPair)
    ensures
        text_before(a.0, b.0) <==> exists|i: int| #[trigger]
            differs_at(vstd::utf8::encode_utf8(a.0), vstd::utf8::encode_utf8(b.0), i),
        text_before(a.0, b.0) ==> pair_before(a, b),
        a.0 == b.0 ==> (pair_before(a, b) <==> text_before(a.1, b.1)),
        a.0 != b.0 ==> (pair_before(a, b) <==> text_before(a.0, b.0)),
{
    let (x, y) = (vstd::utf8::encode_utf8(a.0), vstd::utf8::encode_utf8(b.0));
    lemma_bytes_order(x, y, 0);
    lemma_text_irreflexive(a.0);
    if exists|i: int| #[trigger] differs_at(x, y, i) {
        let i = choose|i: int| #[trigger] differs_at(x, y, i);
        assert(0 <= i && differs_at(x, y, i));
    }
}

} // verus!
