//! Byte-sequence utilities: first occurrence of a byte, byte-lexicographic
//! order, prefix tests, and slice extraction.
use vstd::prelude::*;

verus! {

/// Index of the first occurrence of `b` in `s`, or `-1` when absent.
pub open spec fn find_byte(s: Seq<u8>, b: u8) -> int
    decreases s.len(),
{
    if s.len() == 0 {
        -1
    } else if s[0] == b {
        0
    } else {
        let r = find_byte(s.drop_first(), b);
        if r == -1 {
            -1
        } else {
            r + 1
        }
    }
}

/// A position that holds `b`, with no earlier one, is what `find_byte` finds.
pub proof fn lemma_find_byte_is(s: Seq<u8>, b: u8, k: int)
    requires
        0 <= k < s.len(),
        s[k] == b,
        forall|j: int| 0 <= j < k ==> s[j] != b,
    ensures
        find_byte(s, b) == k,
    decreases s.len(),
{
    if k > 0 {
        assert(forall|j: int| 0 <= j < s.len() - 1 ==> s.drop_first()[j] == #[trigger] s[j + 1]);
        lemma_find_byte_is(s.drop_first(), b, k - 1);
    }
}

/// When `b` is nowhere in `s`, `find_byte` reports so.
pub proof fn lemma_find_byte_absent(s: Seq<u8>, b: u8)
    requires
        forall|j: int| 0 <= j < s.len() ==> s[j] != b,
    ensures
        find_byte(s, b) == -1,
    decreases s.len(),
{
    if s.len() > 0 {
        assert(forall|j: int| 0 <= j < s.len() - 1 ==> s.drop_first()[j] == #[trigger] s[j + 1]);
        lemma_find_byte_absent(s.drop_first(), b);
    }
}

/// Finds the first occurrence of `b` in `v` at or after `from`.
pub fn find_byte_from(v: &Vec<u8>, from: usize, b: u8) -> (r: Option<usize>)
    requires
        from <= v@.len(),
    ensures
        match r {
            Some(k) => from <= k < v@.len() && v@[k as int] == b && (forall|j: int|
                from <= j < k ==> v@[j] != b) && find_byte(v@.skip(from as int), b) == k - from,
            None => (forall|j: int| from <= j < v@.len() ==> v@[j] != b) && find_byte(
                v@.skip(from as int),
                b,
            ) == -1,
        },
{
    let n: usize = v.len();
    let mut i: usize = from;
    while i < n
        invariant
            from <= i <= n == v@.len(),
            forall|j: int| from <= j < i ==> v@[j] != b,
        decreases n - i,
    {
        if v[i] == b {
            proof {
                let t = v@.skip(from as int);
                assert(forall|j: int| 0 <= j < t.len() ==> t[j] == #[trigger] v@[j + from]);
                lemma_find_byte_is(t, b, i - from);
            }
            return Some(i);
        }
        i = i + 1;
    }
    proof {
        let t = v@.skip(from as int);
        assert(forall|j: int| 0 <= j < t.len() ==> t[j] == #[trigger] v@[j + from]);
        lemma_find_byte_absent(t, b);
    }
    None
}

/// Byte-lexicographic order: `a` at or before `b`.
pub open spec fn lex_le(a: Seq<u8>, b: Seq<u8>) -> bool
    decreases a.len(),
{
    if a.len() == 0 {
        true
    } else if b.len() == 0 {
        false
    } else if a[0] < b[0] {
        true
    } else if a[0] > b[0] {
        false
    } else {
        lex_le(a.drop_first(), b.drop_first())
    }
}

/// The order relates every pair, one way or the other.
pub proof fn lemma_lex_le_total(a: Seq<u8>, b: Seq<u8>)
    ensures
        lex_le(a, b) || lex_le(b, a),
    decreases a.len(),
{
    if a.len() > 0 && b.len() > 0 && a[0] == b[0] {
        lemma_lex_le_total(a.drop_first(), b.drop_first());
    }
}

/// Two sequences each at or before the other are equal.
pub proof fn lemma_lex_le_antisym(a: Seq<u8>, b: Seq<u8>)
    requires
        lex_le(a, b),
        lex_le(b, a),
    ensures
        a =~= b,
    decreases a.len(),
{
    if a.len() > 0 {
        lemma_lex_le_antisym(a.drop_first(), b.drop_first());
        assert(a =~= seq![a[0]] + a.drop_first());
        assert(b =~= seq![b[0]] + b.drop_first());
    }
}

/// The order is transitive.
pub proof fn lemma_lex_le_trans(a: Seq<u8>, b: Seq<u8>, c: Seq<u8>)
    requires
        lex_le(a, b),
        lex_le(b, c),
    ensures
        lex_le(a, c),
    decreases a.len(),
{
    if a.len() > 0 && b.len() > 0 && c.len() > 0 {
        if a[0] == b[0] && b[0] == c[0] {
            lemma_lex_le_trans(a.drop_first(), b.drop_first(), c.drop_first());
        }
    }
}

/// Compares two byte strings in byte-lexicographic order.
pub fn lex_le_bytes(a: &[u8], b: &[u8]) -> (r: bool)
    ensures
        r == lex_le(a@, b@),
    decreases a@.len(),
{
    if a.len() == 0 {
        true
    } else if b.len() == 0 {
        false
    } else {
        let x: u8 = *vstd::slice::slice_index_get(a, 0);
        let y: u8 = *vstd::slice::slice_index_get(b, 0);
        if x < y {
            true
        } else if x > y {
            false
        } else {
            let at = vstd::slice::slice_subrange(a, 1, a.len());
            let bt = vstd::slice::slice_subrange(b, 1, b.len());
            proof {
                assert(at@ =~= a@.drop_first());
                assert(bt@ =~= b@.drop_first());
            }
            lex_le_bytes(at, bt)
        }
    }
}

/// Reports whether two byte strings hold the same bytes.
pub fn bytes_eq(a: &[u8], b: &[u8]) -> (r: bool)
    ensures
        r == (a@ =~= b@),
{
    if a.len() != b.len() {
        return false;
    }
    let n: usize = a.len();
    let mut i: usize = 0;
    while i < n
        invariant
            0 <= i <= n,
            n == a@.len() == b@.len(),
            forall|j: int| 0 <= j < i ==> a@[j] == b@[j],
        decreases n - i,
    {
        if *vstd::slice::slice_index_get(a, i) != *vstd::slice::slice_index_get(b, i) {
            return false;
        }
        i = i + 1;
    }
    true
}

/// Reports whether `p` is a prefix of `s`.
pub fn bytes_prefix(p: &[u8], s: &[u8]) -> (r: bool)
    ensures
        r == p@.is_prefix_of(s@),
{
    if p.len() > s.len() {
        assert(!p@.is_prefix_of(s@));
        return false;
    }
    let head = vstd::slice::slice_subrange(s, 0, p.len());
    let r = bytes_eq(p, head);
    proof {
        assert(head@ =~= s@.subrange(0, p@.len() as int));
        if r {
            assert(p@.is_prefix_of(s@));
        } else {
            assert(!p@.is_prefix_of(s@));
        }
    }
    r
}

/// Reports whether `b` occurs in `s`.
pub fn contains_byte(s: &[u8], b: u8) -> (r: bool)
    ensures
        r == s@.contains(b),
{
    let n: usize = s.len();
    let mut i: usize = 0;
    while i < n
        invariant
            0 <= i <= n == s@.len(),
            forall|j: int| 0 <= j < i ==> s@[j] != b,
        decreases n - i,
    {
        if *vstd::slice::slice_index_get(s, i) == b {
            return true;
        }
        i = i + 1;
    }
    false
}

/// Copies the bytes of `v` between `i` and `j` into a fresh vector.
pub fn subvec(v: &Vec<u8>, i: usize, j: usize) -> (r: Vec<u8>)
    requires
        0 <= i <= j <= v@.len(),
    ensures
        r@ =~= v@.subrange(i as int, j as int),
{
    let s = vstd::slice::slice_subrange(v.as_slice(), i, j);
    vstd::slice::slice_to_vec(s)
}

} // verus!
