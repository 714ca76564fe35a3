//! Lexicographic order on participant ids, by their UTF-8 bytes (the order
//! of `str` comparison).

use vstd::prelude::*;
use vstd::utf8::encode_utf8;

verus! {

/// `a` comes strictly before `b` when compared from position `i` on.
pub open spec fn bytes_less_from(a: Seq<u8>, b: Seq<u8>, i: int) -> bool
    decreases a.len() - i,
{
    if i < 0 || i >= a.len() {
        0 <= i < b.len()
    } else if i >= b.len() {
        false
    } else if a[i] != b[i] {
        a[i] < b[i]
    } else {
        bytes_less_from(a, b, i + 1)
    }
}

/// Strict lexicographic order on byte strings.
pub open spec fn bytes_less(a: Seq<u8>, b: Seq<u8>) -> bool {
    bytes_less_from(a, b, 0)
}

/// The bytes an id is compared by.
pub open spec fn id_key(id: Seq<char>) -> Seq<u8> {
    encode_utf8(id)
}

/// Strict lexicographic order on ids.
pub open spec fn id_less(a: Seq<char>, b: Seq<char>) -> bool {
    bytes_less(id_key(a), id_key(b))
}

/// Returns whether `a` sorts strictly before `b`.
pub fn id_precedes(a: &String, b: &String) -> (r: bool)
    ensures
        r == id_less(a@, b@),
{
    let x = a.as_str().as_bytes();
    let y = b.as_str().as_bytes();
    let mut i: usize = 0;
    while i < x.len() && i < y.len()
        invariant
            x@ == id_key(a@),
            y@ == id_key(b@),
            i <= x@.len(),
            i <= y@.len(),
            bytes_less(x@, y@) == bytes_less_from(x@, y@, i as int),
        decreases x@.len() - i,
    {
        if x[i] != y[i] {
            return x[i] < y[i];
        }
        i = i + 1;
    }
    i < y.len() && i >= x.len()
}

proof fn lemma_bytes_less_from_asymmetric(a: Seq<u8>, b: Seq<u8>, i: int)
    requires
        0 <= i,
    ensures
        !(bytes_less_from(a, b, i) && bytes_less_from(b, a, i)),
    decreases a.len() - i,
{
    if i < a.len() && i < b.len() && a[i] == b[i] {
        lemma_bytes_less_from_asymmetric(a, b, i + 1);
    }
}

proof fn lemma_bytes_less_from_total(a: Seq<u8>, b: Seq<u8>, i: int)
    requires
        0 <= i <= a.len(),
        i <= b.len(),
        !bytes_less_from(a, b, i),
        !bytes_less_from(b, a, i),
    ensures
        a.len() == b.len(),
        forall|k: int| i <= k < a.len() ==> a[k] == b[k],
    decreases a.len() - i,
{
    if i < a.len() && i < b.len() {
        lemma_bytes_less_from_total(a, b, i + 1);
    }
}

proof fn lemma_bytes_less_from_transitive(a: Seq<u8>, b: Seq<u8>, c: Seq<u8>, i: int)
    requires
        0 <= i,
        bytes_less_from(a, b, i),
        bytes_less_from(b, c, i),
    ensures
        bytes_less_from(a, c, i),
    decreases a.len() - i,
{
    if i < a.len() && i < b.len() && i < c.len() && a[i] == b[i] && b[i] == c[i] {
        lemma_bytes_less_from_transitive(a, b, c, i + 1);
    }
}

/// No id sorts before itself, and no two ids sort before each other.
pub proof fn lemma_id_less_asymmetric(a: Seq<char>, b: Seq<char>)
    ensures
        !(id_less(a, b) && id_less(b, a)),
{
    lemma_bytes_less_from_asymmetric(id_key(a), id_key(b), 0);
}

/// Of two distinct ids, one sorts before the other.
pub proof fn lemma_id_less_total(a: Seq<char>, b: Seq<char>)
    requires
        a != b,
    ensures
        id_less(a, b) || id_less(b, a),
{
    if !id_less(a, b) && !id_less(b, a) {
        lemma_bytes_less_from_total(id_key(a), id_key(b), 0);
        assert(id_key(a) =~= id_key(b));
        vstd::utf8::encode_utf8_decode_utf8(a);
        vstd::utf8::encode_utf8_decode_utf8(b);
    }
}

/// The order on ids is transitive.
pub proof fn lemma_id_less_transitive(a: Seq<char>, b: Seq<char>, c: Seq<char>)
    requires
        id_less(a, b),
        id_less(b, c),
    ensures
        id_less(a, c),
{
    lemma_bytes_less_from_transitive(id_key(a), id_key(b), id_key(c), 0);
}

} // verus!
