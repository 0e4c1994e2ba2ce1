//! Total orders on keys: bytes, texts and lists of them.
use vstd::prelude::*;

verus! {

/// A key type whose mathematical model carries a strict total order that
/// executable code can decide.
pub trait OrderedKey: Sized {
    /// The mathematical value a key stands for.
    type Model;

    spec fn model(&self) -> Self::Model;

    /// The strict order on models.
    spec fn precedes(a: Self::Model, b: Self::Model) -> bool;

    proof fn lemma_irreflexive(a: Self::Model)
        ensures
            !Self::precedes(a, a),
    ;

    proof fn lemma_transitive(a: Self::Model, b: Self::Model, c: Self::Model)
        requires
            Self::precedes(a, b),
            Self::precedes(b, c),
        ensures
            Self::precedes(a, c),
    ;

    proof fn lemma_connected(a: Self::Model, b: Self::Model)
        ensures
            Self::precedes(a, b) || a == b || Self::precedes(b, a),
    ;

    fn key_lt(&self, other: &Self) -> (r: bool)
        ensures
            r == Self::precedes(self.model(), other.model()),
    ;

    fn key_eq(&self, other: &Self) -> (r: bool)
        ensures
            r == (self.model() == other.model()),
    ;
}

/// `k` is a position at which `a` is decided to come before `b`: the two agree
/// before `k`, and there `a` ends while `b` goes on, or holds a smaller item.
pub open spec fn lex_decided_at<K: OrderedKey>(a: Seq<K::Model>, b: Seq<K::Model>, k: int) -> bool {
    &&& 0 <= k <= a.len()
    &&& k < b.len()
    &&& forall|j: int| 0 <= j < k ==> a[j] == b[j]
    &&& k < a.len() ==> K::precedes(a[k], b[k])
}

/// Lexicographic order on sequences of models.
pub open spec fn lex_lt<K: OrderedKey>(a: Seq<K::Model>, b: Seq<K::Model>) -> bool {
    exists|k: int| lex_decided_at::<K>(a, b, k)
}

pub proof fn lemma_lex_irreflexive<K: OrderedKey>(a: Seq<K::Model>)
    ensures
        !lex_lt::<K>(a, a),
{
    if lex_lt::<K>(a, a) {
        let k = choose|k: int| lex_decided_at::<K>(a, a, k);
        K::lemma_irreflexive(a[k]);
    }
}

pub proof fn lemma_lex_transitive<K: OrderedKey>(
    a: Seq<K::Model>,
    b: Seq<K::Model>,
    c: Seq<K::Model>,
)
    requires
        lex_lt::<K>(a, b),
        lex_lt::<K>(b, c),
    ensures
        lex_lt::<K>(a, c),
{
    let i = choose|k: int| lex_decided_at::<K>(a, b, k);
    let j = choose|k: int| lex_decided_at::<K>(b, c, k);
    if i < j {
        assert(lex_decided_at::<K>(a, c, i));
    } else if j < i {
        assert(lex_decided_at::<K>(a, c, j));
    } else {
        if i < a.len() {
            K::lemma_transitive(a[i], b[i], c[i]);
        }
        assert(lex_decided_at::<K>(a, c, i));
    }
}

proof fn lemma_lex_connected_from<K: OrderedKey>(a: Seq<K::Model>, b: Seq<K::Model>, i: int)
    requires
        0 <= i <= a.len(),
        i <= b.len(),
        forall|j: int| 0 <= j < i ==> a[j] == b[j],
    ensures
        lex_lt::<K>(a, b) || a == b || lex_lt::<K>(b, a),
    decreases a.len() - i,
{
    if i == a.len() {
        if i == b.len() {
            assert(a =~= b);
        } else {
            assert(lex_decided_at::<K>(a, b, i));
        }
    } else if i == b.len() {
        assert(lex_decided_at::<K>(b, a, i));
    } else if a[i] == b[i] {
        lemma_lex_connected_from::<K>(a, b, i + 1);
    } else {
        K::lemma_connected(a[i], b[i]);
        if K::precedes(a[i], b[i]) {
            assert(lex_decided_at::<K>(a, b, i));
        } else {
            assert(lex_decided_at::<K>(b, a, i));
        }
    }
}

pub proof fn lemma_lex_connected<K: OrderedKey>(a: Seq<K::Model>, b: Seq<K::Model>)
    ensures
        lex_lt::<K>(a, b) || a == b || lex_lt::<K>(b, a),
{
    lemma_lex_connected_from::<K>(a, b, 0);
}

impl OrderedKey for u8 {
    type Model = u8;

    open spec fn model(&self) -> u8 {
        *self
    }

    open spec fn precedes(a: u8, b: u8) -> bool {
        a < b
    }

    proof fn lemma_irreflexive(a: u8) {
    }

    proof fn lemma_transitive(a: u8, b: u8, c: u8) {
    }

    proof fn lemma_connected(a: u8, b: u8) {
    }

    fn key_lt(&self, other: &u8) -> (r: bool) {
        *self < *other
    }

    fn key_eq(&self, other: &u8) -> (r: bool) {
        *self == *other
    }
}

/// Byte-wise lexicographic comparison, the order Rust gives to `str`.
pub fn bytes_lt(a: &[u8], b: &[u8]) -> (r: bool)
    ensures
        r == lex_lt::<u8>(a@, b@),
{
    let mut i: usize = 0;
    while i < a.len() && i < b.len()
        invariant
            i <= a.len(),
            i <= b.len(),
            forall|j: int| 0 <= j < i ==> a@[j] == b@[j],
        decreases a.len() - i,
    {
        if a[i] != b[i] {
            let r = a[i] < b[i];
            proof {
                if r {
                    assert(lex_decided_at::<u8>(a@, b@, i as int));
                } else {
                    assert forall|k: int| !lex_decided_at::<u8>(a@, b@, k) by {
                        if lex_decided_at::<u8>(a@, b@, k) {
                            if k > i {
                                assert(a@[i as int] == b@[i as int]);
                            } else if k < i {
                                assert(a@[k] == b@[k]);
                            }
                        }
                    }
                }
            }
            return r;
        }
        i += 1;
    }
    let r = a.len() < b.len();
    proof {
        if r {
            assert(lex_decided_at::<u8>(a@, b@, i as int));
        } else {
            assert forall|k: int| !lex_decided_at::<u8>(a@, b@, k) by {
                if lex_decided_at::<u8>(a@, b@, k) {
                    if k < a.len() {
                        assert(a@[k] == b@[k]);
                    }
                }
            }
        }
    }
    r
}

/// The order of two texts: that of their UTF-8 encodings, byte by byte.
pub open spec fn text_lt(a: Seq<char>, b: Seq<char>) -> bool {
    lex_lt::<u8>(vstd::utf8::encode_utf8(a), vstd::utf8::encode_utf8(b))
}

/// Two texts with the same UTF-8 encoding are the same text.
pub proof fn lemma_utf8_injective(a: Seq<char>, b: Seq<char>)
    requires
        vstd::utf8::encode_utf8(a) == vstd::utf8::encode_utf8(b),
    ensures
        a == b,
{
    vstd::utf8::encode_utf8_decode_utf8(a);
    vstd::utf8::encode_utf8_decode_utf8(b);
}

impl OrderedKey for String {
    type Model = Seq<char>;

    open spec fn model(&self) -> Seq<char> {
        self@
    }

    open spec fn precedes(a: Seq<char>, b: Seq<char>) -> bool {
        text_lt(a, b)
    }

    proof fn lemma_irreflexive(a: Seq<char>) {
        lemma_lex_irreflexive::<u8>(vstd::utf8::encode_utf8(a));
    }

    proof fn lemma_transitive(a: Seq<char>, b: Seq<char>, c: Seq<char>) {
        lemma_lex_transitive::<u8>(
            vstd::utf8::encode_utf8(a),
            vstd::utf8::encode_utf8(b),
            vstd::utf8::encode_utf8(c),
        );
    }

    proof fn lemma_connected(a: Seq<char>, b: Seq<char>) {
        lemma_lex_connected::<u8>(vstd::utf8::encode_utf8(a), vstd::utf8::encode_utf8(b));
        if vstd::utf8::encode_utf8(a) == vstd::utf8::encode_utf8(b) {
            lemma_utf8_injective(a, b);
        }
    }

    fn key_lt(&self, other: &String) -> (r: bool) {
        bytes_lt(self.as_str().as_bytes(), other.as_str().as_bytes())
    }

    fn key_eq(&self, other: &String) -> (r: bool) {
        *self == *other
    }
}

/// The model of a vector of keys: the sequence of their models.
pub open spec fn models_of<K: OrderedKey>(keys: Seq<K>) -> Seq<K::Model> {
    Seq::new(keys.len(), |i: int| keys[i].model())
}

impl<K: OrderedKey> OrderedKey for Vec<K> {
    type Model = Seq<K::Model>;

    open spec fn model(&self) -> Seq<K::Model> {
        models_of::<K>(self@)
    }

    open spec fn precedes(a: Seq<K::Model>, b: Seq<K::Model>) -> bool {
        lex_lt::<K>(a, b)
    }

    proof fn lemma_irreflexive(a: Seq<K::Model>) {
        lemma_lex_irreflexive::<K>(a);
    }

    proof fn lemma_transitive(a: Seq<K::Model>, b: Seq<K::Model>, c: Seq<K::Model>) {
        lemma_lex_transitive::<K>(a, b, c);
    }

    proof fn lemma_connected(a: Seq<K::Model>, b: Seq<K::Model>) {
        lemma_lex_connected::<K>(a, b);
    }

    fn key_lt(&self, other: &Vec<K>) -> (r: bool) {
        let ghost a = self.model();
        let ghost b = other.model();
        let mut i: usize = 0;
        while i < self.len() && i < other.len()
            invariant
                a == models_of::<K>(self@),
                b == models_of::<K>(other@),
                i <= self.len(),
                i <= other.len(),
                forall|j: int| 0 <= j < i ==> a[j] == b[j],
            decreases self.len() - i,
        {
            if !self[i].key_eq(&other[i]) {
                let r = self[i].key_lt(&other[i]);
                proof {
                    if r {
                        assert(lex_decided_at::<K>(a, b, i as int));
                    } else {
                        assert forall|k: int| !lex_decided_at::<K>(a, b, k) by {
                            if lex_decided_at::<K>(a, b, k) {
                                if k > i {
                                    assert(a[i as int] == b[i as int]);
                                } else if k < i {
                                    assert(a[k] == b[k]);
                                    K::lemma_irreflexive(a[k]);
                                }
                            }
                        }
                    }
                }
                return r;
            }
            i += 1;
        }
        let r = self.len() < other.len();
        proof {
            if r {
                assert(lex_decided_at::<K>(a, b, i as int));
            } else {
                assert forall|k: int| !lex_decided_at::<K>(a, b, k) by {
                    if lex_decided_at::<K>(a, b, k) {
                        if k < a.len() {
                            assert(a[k] == b[k]);
                            K::lemma_irreflexive(a[k]);
                        }
                    }
                }
            }
        }
        r
    }

    fn key_eq(&self, other: &Vec<K>) -> (r: bool) {
        let ghost a = self.model();
        let ghost b = other.model();
        if self.len() != other.len() {
            assert(a.len() != b.len());
            return false;
        }
        let mut i: usize = 0;
        while i < self.len()
            invariant
                a == models_of::<K>(self@),
                b == models_of::<K>(other@),
                self.len() == other.len(),
                i <= self.len(),
                forall|j: int| 0 <= j < i ==> a[j] == b[j],
            decreases self.len() - i,
        {
            if !self[i].key_eq(&other[i]) {
                assert(a[i as int] != b[i as int]);
                return false;
            }
            i += 1;
        }
        assert(a =~= b);
        true
    }
}

} // verus!
