//! Byte strings: lexicographic order and copying.
use vstd::prelude::*;

verus! {

/// `a` and `b` agree on their first `i` bytes (and both are at least that long).
pub open spec fn agree_upto(a: Seq<u8>, b: Seq<u8>, i: int) -> bool {
    &&& 0 <= i <= a.len()
    &&& i <= b.len()
    &&& forall|j: int| 0 <= j < i ==> a[j] == b[j]
}

/// `i` is where `a` and `b` first part: a common prefix ends there, and either
/// one of them ends or the bytes differ.
pub open spec fn first_split(a: Seq<u8>, b: Seq<u8>, i: int) -> bool {
    &&& agree_upto(a, b, i)
    &&& (i == a.len() || i == b.len() || a[i] != b[i])
}

/// Byte-lexicographic strict order: `a` is a proper prefix of `b`, or at the
/// first differing position `a` has the smaller byte.
pub open spec fn bytes_lt(a: Seq<u8>, b: Seq<u8>) -> bool {
    exists|i: int|
        #![trigger agree_upto(a, b, i)]
        agree_upto(a, b, i) && (if i == a.len() {
            i < b.len()
        } else {
            i < b.len() && a[i] < b[i]
        })
}

/// Outcome of comparing two byte strings.
#[derive(Clone, Copy, Debug, PartialEq, Eq, Structural)]
pub enum KeyOrder {
    Less,
    Equal,
    Greater,
}

pub proof fn lemma_first_split_unique(a: Seq<u8>, b: Seq<u8>, i: int, k: int)
    requires
        first_split(a, b, i),
        agree_upto(a, b, k),
    ensures
        k <= i,
{
    if k > i {
        assert(a[i] == b[i]);
    }
}

/// A witness of `bytes_lt` is the first split point.
pub proof fn lemma_lt_witness(a: Seq<u8>, b: Seq<u8>, i: int)
    requires
        agree_upto(a, b, i),
        if i == a.len() {
            i < b.len()
        } else {
            i < b.len() && a[i] < b[i]
        },
    ensures
        first_split(a, b, i),
{
}

pub proof fn lemma_lt_irreflexive(a: Seq<u8>)
    ensures
        !bytes_lt(a, a),
{
}

pub proof fn lemma_lt_asymmetric(a: Seq<u8>, b: Seq<u8>)
    requires
        bytes_lt(a, b),
    ensures
        !bytes_lt(b, a),
{
    let i = choose|i: int|
        #![trigger agree_upto(a, b, i)]
        agree_upto(a, b, i) && (if i == a.len() {
            i < b.len()
        } else {
            i < b.len() && a[i] < b[i]
        });
    if bytes_lt(b, a) {
        let k = choose|k: int|
            #![trigger agree_upto(b, a, k)]
            agree_upto(b, a, k) && (if k == b.len() {
                k < a.len()
            } else {
                k < a.len() && b[k] < a[k]
            });
        assert(agree_upto(a, b, k));
        assert(agree_upto(b, a, i));
        lemma_lt_witness(a, b, i);
        lemma_lt_witness(b, a, k);
        lemma_first_split_unique(a, b, i, k);
        lemma_first_split_unique(b, a, k, i);
    }
}

pub proof fn lemma_lt_transitive(a: Seq<u8>, b: Seq<u8>, c: Seq<u8>)
    requires
        bytes_lt(a, b),
        bytes_lt(b, c),
    ensures
        bytes_lt(a, c),
{
    let i = choose|i: int|
        #![trigger agree_upto(a, b, i)]
        agree_upto(a, b, i) && (if i == a.len() {
            i < b.len()
        } else {
            i < b.len() && a[i] < b[i]
        });
    let j = choose|j: int|
        #![trigger agree_upto(b, c, j)]
        agree_upto(b, c, j) && (if j == b.len() {
            j < c.len()
        } else {
            j < c.len() && b[j] < c[j]
        });
    let k = if i < j {
        i
    } else {
        j
    };
    assert(agree_upto(a, c, k));
}

/// Compares two byte strings lexicographically.
pub fn compare_bytes(a: &[u8], b: &[u8]) -> (r: KeyOrder)
    ensures
        (r == KeyOrder::Less) <==> bytes_lt(a@, b@),
        (r == KeyOrder::Equal) <==> a@ == b@,
        (r == KeyOrder::Greater) <==> bytes_lt(b@, a@),
{
    let mut i: usize = 0;
    while i < a.len() && i < b.len() && a[i] == b[i]
        invariant
            agree_upto(a@, b@, i as int),
        decreases a.len() - i,
    {
        i = i + 1;
    }
    proof {
        assert(first_split(a@, b@, i as int));
        assert(agree_upto(b@, a@, i as int));
    }
    if i < a.len() && i < b.len() {
        if a[i] < b[i] {
            proof {
                lemma_lt_asymmetric(a@, b@);
            }
            KeyOrder::Less
        } else {
            proof {
                lemma_lt_asymmetric(b@, a@);
            }
            KeyOrder::Greater
        }
    } else if i < b.len() {
        proof {
            lemma_lt_asymmetric(a@, b@);
        }
        KeyOrder::Less
    } else if i < a.len() {
        proof {
            lemma_lt_asymmetric(b@, a@);
        }
        KeyOrder::Greater
    } else {
        proof {
            assert(a@ =~= b@);
            lemma_lt_irreflexive(a@);
        }
        KeyOrder::Equal
    }
}

/// Copies a byte slice into a fresh vector.
pub fn copy_bytes(s: &[u8]) -> (r: Vec<u8>)
    ensures
        r@ == s@,
{
    let mut r: Vec<u8> = Vec::with_capacity(s.len());
    let mut i: usize = 0;
    while i < s.len()
        invariant
            i <= s.len(),
            r@ == s@.take(i as int),
        decreases s.len() - i,
    {
        r.push(s[i]);
        i = i + 1;
        proof {
            assert(r@ =~= s@.take(i as int));
        }
    }
    proof {
        assert(s@.take(s.len() as int) =~= s@);
    }
    r
}

/// Appends the bytes of `s` to `out`.
pub fn append_bytes(out: &mut Vec<u8>, s: &[u8])
    ensures
        final(out)@ == old(out)@ + s@,
{
    let mut i: usize = 0;
    while i < s.len()
        invariant
            i <= s.len(),
            out@ == old(out)@ + s@.take(i as int),
        decreases s.len() - i,
    {
        out.push(s[i]);
        i = i + 1;
        proof {
            assert(out@ =~= old(out)@ + s@.take(i as int));
        }
    }
    proof {
        assert(s@.take(s.len() as int) =~= s@);
    }
}

/// Copies `s[start..end]` into a fresh vector.
pub fn copy_range(s: &[u8], start: usize, end: usize) -> (r: Vec<u8>)
    requires
        start <= end <= s.len(),
    ensures
        r@ == s@.subrange(start as int, end as int),
{
    let mut r: Vec<u8> = Vec::with_capacity(end - start);
    let mut i: usize = start;
    while i < end
        invariant
            start <= i <= end <= s.len(),
            r@ == s@.subrange(start as int, i as int),
        decreases end - i,
    {
        r.push(s[i]);
        i = i + 1;
        proof {
            assert(r@ =~= s@.subrange(start as int, i as int));
        }
    }
    r
}

} // verus!
