//! Names of stations, trains and packages, and the order in which they sort.

use vstd::prelude::*;
use vstd::string::*;
use vstd::utf8::*;

verus! {

/// `a` comes strictly before `b` in the lexicographic order on byte strings:
/// the two agree on their first `k` bytes, and there either `a` ends while `b`
/// goes on, or `a` holds the smaller byte.
pub open spec fn bytes_before(a: Seq<u8>, b: Seq<u8>) -> bool {
    exists|k: int| bytes_split_at(a, b, k)
}

/// Position `k` is where `a` and `b` part, with `a` on the smaller side.
pub open spec fn bytes_split_at(a: Seq<u8>, b: Seq<u8>, k: int) -> bool {
    &&& 0 <= k <= a.len()
    &&& k <= b.len()
    &&& forall|j: int| 0 <= j < k ==> a[j] == b[j]
    &&& if k == a.len() {
        k < b.len()
    } else {
        k < b.len() && a[k] < b[k]
    }
}

/// The order on names: that of their UTF-8 encodings, byte by byte.
pub open spec fn name_before(a: Seq<char>, b: Seq<char>) -> bool {
    bytes_before(encode_utf8(a), encode_utf8(b))
}

/// Of two byte strings not both come before the other.
pub proof fn lemma_bytes_before_asymmetric(a: Seq<u8>, b: Seq<u8>)
    requires
        bytes_before(a, b),
    ensures
        !bytes_before(b, a),
{
    let k = choose|k: int| bytes_split_at(a, b, k);
    assert forall|j: int| !bytes_split_at(b, a, j) by {
        if bytes_split_at(b, a, j) {
            if j < k {
                assert(a[j] == b[j]);
            } else if j > k {
                assert(b[k] == a[k]);
            }
        }
    }
}

/// What comes before a byte string that comes before a third comes before the third.
pub proof fn lemma_bytes_before_transitive(a: Seq<u8>, b: Seq<u8>, c: Seq<u8>)
    requires
        bytes_before(a, b),
        bytes_before(b, c),
    ensures
        bytes_before(a, c),
{
    let k1 = choose|k: int| bytes_split_at(a, b, k);
    let k2 = choose|k: int| bytes_split_at(b, c, k);
    let k = if k1 <= k2 {
        k1
    } else {
        k2
    };
    assert forall|j: int| 0 <= j < k implies a[j] == c[j] by {
        assert(a[j] == b[j]);
        assert(b[j] == c[j]);
    }
    if k1 < k2 {
        assert(b[k1] == c[k1]);
    } else if k1 > k2 {
        assert(a[k2] == b[k2]);
    }
    assert(bytes_split_at(a, c, k));
}

/// Two byte strings that agree on their first `n` bytes are the same, or one comes before the other.
proof fn lemma_bytes_compare(a: Seq<u8>, b: Seq<u8>, n: int)
    requires
        0 <= n <= a.len(),
        n <= b.len(),
        forall|j: int| 0 <= j < n ==> a[j] == b[j],
    ensures
        a == b || bytes_before(a, b) || bytes_before(b, a),
    decreases a.len() - n,
{
    if n == a.len() && n == b.len() {
        assert(a =~= b);
    } else if n == a.len() {
        assert(bytes_split_at(a, b, n));
    } else if n == b.len() {
        assert(bytes_split_at(b, a, n));
    } else if a[n] < b[n] {
        assert(bytes_split_at(a, b, n));
    } else if b[n] < a[n] {
        assert(bytes_split_at(b, a, n));
    } else {
        lemma_bytes_compare(a, b, n + 1);
    }
}

/// The order on names is a strict total order: of two names not both come
/// before the other; of two different names one does; and what comes before
/// a name that comes before a third comes before the third.
pub proof fn lemma_name_order(a: Seq<char>, b: Seq<char>, c: Seq<char>)
    ensures
        !name_before(a, a),
        name_before(a, b) ==> !name_before(b, a),
        a != b ==> name_before(a, b) || name_before(b, a),
        name_before(a, b) && name_before(b, c) ==> name_before(a, c),
{
    let x = encode_utf8(a);
    let y = encode_utf8(b);
    let z = encode_utf8(c);
    if name_before(a, a) {
        lemma_bytes_before_asymmetric(x, x);
    }
    if name_before(a, b) {
        lemma_bytes_before_asymmetric(x, y);
        if name_before(b, c) {
            lemma_bytes_before_transitive(x, y, z);
        }
    }
    if a != b {
        encode_utf8_decode_utf8(a);
        encode_utf8_decode_utf8(b);
        lemma_bytes_compare(x, y, 0);
    }
}

/// All that the order on names says of three names, whichever way they are taken.
pub proof fn lemma_names_compared(a: Seq<char>, b: Seq<char>, c: Seq<char>)
    ensures
        !name_before(a, a) && !name_before(b, b) && !name_before(c, c),
        name_before(a, b) ==> !name_before(b, a),
        name_before(a, c) ==> !name_before(c, a),
        name_before(b, c) ==> !name_before(c, b),
        a != b ==> name_before(a, b) || name_before(b, a),
        a != c ==> name_before(a, c) || name_before(c, a),
        b != c ==> name_before(b, c) || name_before(c, b),
        name_before(a, b) && name_before(b, c) ==> name_before(a, c),
        name_before(a, c) && name_before(c, b) ==> name_before(a, b),
        name_before(b, a) && name_before(a, c) ==> name_before(b, c),
        name_before(b, c) && name_before(c, a) ==> name_before(b, a),
        name_before(c, a) && name_before(a, b) ==> name_before(c, b),
        name_before(c, b) && name_before(b, a) ==> name_before(c, a),
{
    lemma_name_order(a, b, c);
    lemma_name_order(a, c, b);
    lemma_name_order(b, a, c);
    lemma_name_order(b, c, a);
    lemma_name_order(c, a, b);
    lemma_name_order(c, b, a);
}

/// Compares two names.
pub fn precedes(a: &str, b: &str) -> (r: bool)
    ensures
        r == name_before(a@, b@),
{
    let x = a.as_bytes();
    let y = b.as_bytes();
    let mut i: usize = 0;
    while i < x.len() && i < y.len()
        invariant
            i <= x@.len(),
            i <= y@.len(),
            x@ == encode_utf8(a@),
            y@ == encode_utf8(b@),
            forall|j: int| 0 <= j < i ==> x@[j] == y@[j],
        decreases x@.len() - i,
    {
        if x[i] != y[i] {
            let r = x[i] < y[i];
            proof {
                if r {
                    assert(bytes_split_at(x@, y@, i as int));
                } else {
                    assert forall|k: int| !bytes_split_at(x@, y@, k) by {
                        if bytes_split_at(x@, y@, k) {
                            if k > i {
                                assert(x@[i as int] == y@[i as int]);
                            }
                        }
                    }
                }
            }
            return r;
        }
        i += 1;
    }
    let r = x.len() < y.len();
    proof {
        if r {
            assert(bytes_split_at(x@, y@, i as int));
        } else {
            assert forall|k: int| !bytes_split_at(x@, y@, k) by {
                if bytes_split_at(x@, y@, k) {
                    if k < y@.len() && k < x@.len() {
                        assert(x@[k] == y@[k]);
                    }
                }
            }
        }
    }
    r
}

/// Whether two names are the same.
pub fn same_name(a: &str, b: &str) -> (r: bool)
    ensures
        r == (a@ == b@),
{
    let x = a.as_bytes();
    let y = b.as_bytes();
    proof {
        encode_utf8_decode_utf8(a@);
        encode_utf8_decode_utf8(b@);
    }
    if x.len() != y.len() {
        return false;
    }
    let mut i: usize = 0;
    while i < x.len()
        invariant
            i <= x@.len(),
            x@.len() == y@.len(),
            x@ == encode_utf8(a@),
            y@ == encode_utf8(b@),
            decode_utf8(encode_utf8(a@)) == a@,
            decode_utf8(encode_utf8(b@)) == b@,
            forall|j: int| 0 <= j < i ==> x@[j] == y@[j],
        decreases x@.len() - i,
    {
        if x[i] != y[i] {
            return false;
        }
        i += 1;
    }
    assert(x@ =~= y@);
    true
}

/// The views of the elements of a sequence, in the same order.
pub open spec fn views<T: View>(s: Seq<T>) -> Seq<T::V> {
    Seq::new(s.len(), |i: int| s[i]@)
}

/// One more value of `whole` behind `base` and the first `j` values of `whole`.
pub proof fn lemma_take_push<V>(base: Seq<V>, whole: Seq<V>, j: int)
    requires
        0 <= j < whole.len(),
    ensures
        (base + whole.take(j)).push(whole[j]) == base + whole.take(j + 1),
{
    assert((base + whole.take(j)).push(whole[j]) =~= base + whole.take(j + 1));
}

} // verus!
