//! The order in which virtual paths are kept: lexicographic by the bytes of
//! their UTF-8 encoding, which is the order of `String` itself.

use vstd::prelude::*;
use vstd::utf8::*;

verus! {

/// `k` is the first position at which `a` and `b` part, and `a` is the lesser there:
/// either `a` ends at `k` while `b` goes on, or both go on and `a` holds the smaller byte.
pub open spec fn parts_below(a: Seq<u8>, b: Seq<u8>, k: int) -> bool {
    &&& 0 <= k <= a.len()
    &&& k <= b.len()
    &&& forall|i: int| 0 <= i < k ==> a[i] == b[i]
    &&& if k == a.len() {
        k < b.len()
    } else {
        k < b.len() && a[k] < b[k]
    }
}

/// Strict lexicographic order on byte strings.
pub open spec fn bytes_before(a: Seq<u8>, b: Seq<u8>) -> bool {
    exists|k: int| parts_below(a, b, k)
}

/// Strict order on paths: by the bytes of their UTF-8 encoding.
pub open spec fn path_before(a: Seq<char>, b: Seq<char>) -> bool {
    bytes_before(encode_utf8(a), encode_utf8(b))
}

/// Where one path stands relative to another in the path order.
#[derive(Clone, Copy, Debug, PartialEq, Eq, Structural)]
pub enum Place {
    Before,
    Same,
    After,
}

/// No byte string comes before itself.
pub proof fn lemma_bytes_before_irreflexive(a: Seq<u8>)
    ensures
        !bytes_before(a, a),
{
}

/// The byte order is transitive.
pub proof fn lemma_bytes_before_transitive(a: Seq<u8>, b: Seq<u8>, c: Seq<u8>)
    requires
        bytes_before(a, b),
        bytes_before(b, c),
    ensures
        bytes_before(a, c),
{
    let i = choose|k: int| parts_below(a, b, k);
    let j = choose|k: int| parts_below(b, c, k);
    let k = if i <= j { i } else { j };
    assert(parts_below(a, c, k));
}

/// Of two different byte strings one comes before the other.
pub proof fn lemma_bytes_before_total(a: Seq<u8>, b: Seq<u8>)
    ensures
        a == b || bytes_before(a, b) || bytes_before(b, a),
    decreases a.len(),
{
    if a.len() == 0 {
        if b.len() == 0 {
            assert(a =~= b);
        } else {
            assert(parts_below(a, b, 0));
        }
    } else if b.len() == 0 {
        assert(parts_below(b, a, 0));
    } else if a[0] < b[0] {
        assert(parts_below(a, b, 0));
    } else if b[0] < a[0] {
        assert(parts_below(b, a, 0));
    } else {
        let ra = a.drop_first();
        let rb = b.drop_first();
        lemma_bytes_before_total(ra, rb);
        if ra == rb {
            assert forall|i: int| 0 <= i < a.len() implies a[i] == b[i] by {
                if i > 0 {
                    assert(a[i] == ra[i - 1]);
                    assert(b[i] == rb[i - 1]);
                }
            }
            assert(a.len() == ra.len() + 1 && b.len() == rb.len() + 1);
            assert(a =~= b);
        } else if bytes_before(ra, rb) {
            let k = choose|k: int| parts_below(ra, rb, k);
            assert forall|i: int| 0 <= i < k + 1 implies a[i] == b[i] by {
                if i > 0 {
                    assert(a[i] == ra[i - 1]);
                    assert(b[i] == rb[i - 1]);
                }
            }
            if k < ra.len() {
                assert(a[k + 1] == ra[k]);
                assert(b[k + 1] == rb[k]);
            }
            assert(parts_below(a, b, k + 1));
        } else {
            let k = choose|k: int| parts_below(rb, ra, k);
            assert forall|i: int| 0 <= i < k + 1 implies b[i] == a[i] by {
                if i > 0 {
                    assert(a[i] == ra[i - 1]);
                    assert(b[i] == rb[i - 1]);
                }
            }
            if k < rb.len() {
                assert(a[k + 1] == ra[k]);
                assert(b[k + 1] == rb[k]);
            }
            assert(parts_below(b, a, k + 1));
        }
    }
}

/// Two paths with the same encoding are the same path.
pub proof fn lemma_encoding_injective(a: Seq<char>, b: Seq<char>)
    requires
        encode_utf8(a) == encode_utf8(b),
    ensures
        a == b,
{
    encode_utf8_decode_utf8(a);
    encode_utf8_decode_utf8(b);
}

/// The path order is a strict total order: no path comes before itself, the
/// order is transitive, and of two different paths one comes before the other.
pub proof fn lemma_path_order(a: Seq<char>, b: Seq<char>, c: Seq<char>)
    ensures
        !path_before(a, a),
        path_before(a, b) && path_before(b, c) ==> path_before(a, c),
        path_before(a, b) ==> !path_before(b, a),
        a == b || path_before(a, b) || path_before(b, a),
{
    lemma_bytes_before_irreflexive(encode_utf8(a));
    if path_before(a, b) && path_before(b, c) {
        lemma_bytes_before_transitive(encode_utf8(a), encode_utf8(b), encode_utf8(c));
    }
    if path_before(a, b) && path_before(b, a) {
        lemma_bytes_before_transitive(encode_utf8(a), encode_utf8(b), encode_utf8(a));
    }
    lemma_bytes_before_total(encode_utf8(a), encode_utf8(b));
    if encode_utf8(a) == encode_utf8(b) {
        lemma_encoding_injective(a, b);
    }
}

/// Says where `a` stands relative to `b` in the path order.
pub fn place_of(a: &str, b: &str) -> (r: Place)
    ensures
        match r {
            Place::Before => path_before(a@, b@),
            Place::Same => a@ == b@,
            Place::After => path_before(b@, a@),
        },
{
    let x = a.as_bytes();
    let y = b.as_bytes();
    let n = x.len();
    let m = y.len();
    let mut i: usize = 0;
    while i < n && i < m
        invariant
            x@ == encode_utf8(a@),
            y@ == encode_utf8(b@),
            n == x@.len(),
            m == y@.len(),
            i <= n,
            i <= m,
            forall|j: int| 0 <= j < i ==> x@[j] == y@[j],
        decreases n - i,
    {
        if x[i] < y[i] {
            assert(parts_below(x@, y@, i as int));
            return Place::Before;
        }
        if y[i] < x[i] {
            assert(parts_below(y@, x@, i as int));
            return Place::After;
        }
        i = i + 1;
    }
    if i < m {
        assert(parts_below(x@, y@, i as int));
        Place::Before
    } else if i < n {
        assert(parts_below(y@, x@, i as int));
        Place::After
    } else {
        proof {
            assert(x@ =~= y@);
            lemma_encoding_injective(a@, b@);
        }
        Place::Same
    }
}

} // verus!
