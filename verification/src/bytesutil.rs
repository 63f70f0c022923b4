use vstd::prelude::*;

verus! {

/// ASCII whitespace accepted around a directive reference.
pub open spec fn is_ws(b: u8) -> bool {
    b == 9 || b == 10 || b == 11 || b == 12 || b == 13 || b == 32
}

/// The sequence with its leading whitespace removed.
pub open spec fn trim_front(s: Seq<u8>) -> Seq<u8>
    decreases s.len(),
{
    if s.len() > 0 && is_ws(s[0]) {
        trim_front(s.drop_first())
    } else {
        s
    }
}

/// The sequence with its trailing whitespace removed.
pub open spec fn trim_back(s: Seq<u8>) -> Seq<u8>
    decreases s.len(),
{
    if s.len() > 0 && is_ws(s[s.len() - 1]) {
        trim_back(s.drop_last())
    } else {
        s
    }
}

/// The sequence with whitespace removed from both ends.
pub open spec fn trim_ws(s: Seq<u8>) -> Seq<u8> {
    trim_back(trim_front(s))
}

/// Strict lexicographic order on byte sequences.
pub open spec fn lex_lt(a: Seq<u8>, b: Seq<u8>) -> bool
    decreases a.len(),
{
    if b.len() == 0 {
        false
    } else if a.len() == 0 {
        true
    } else if a[0] < b[0] {
        true
    } else if a[0] > b[0] {
        false
    } else {
        lex_lt(a.drop_first(), b.drop_first())
    }
}

pub proof fn lemma_lex_irrefl(a: Seq<u8>)
    ensures
        !lex_lt(a, a),
    decreases a.len(),
{
    if a.len() > 0 {
        lemma_lex_irrefl(a.drop_first());
    }
}

pub proof fn lemma_lex_trans(a: Seq<u8>, b: Seq<u8>, c: Seq<u8>)
    requires
        lex_lt(a, b),
        lex_lt(b, c),
    ensures
        lex_lt(a, c),
    decreases a.len(),
{
    if a.len() > 0 && b.len() > 0 && c.len() > 0 && a[0] == b[0] && b[0] == c[0] {
        lemma_lex_trans(a.drop_first(), b.drop_first(), c.drop_first());
    }
}

/// Three-way lexicographic comparison; -1, 0, 1 for less, equal, greater.
pub fn cmp_bytes(a: &Vec<u8>, b: &Vec<u8>) -> (r: i8)
    ensures
        -1i8 <= r <= 1i8,
        r == -1i8 <==> lex_lt(a@, b@),
        r == 0i8 <==> a@ == b@,
        r == 1i8 <==> lex_lt(b@, a@),
{
    let alen = a.len();
    let blen = b.len();
    let n = if alen < blen { alen } else { blen };
    let mut i: usize = 0;
    proof {
        assert(a@.skip(0) =~= a@);
        assert(b@.skip(0) =~= b@);
        assert(a@.subrange(0, 0) =~= b@.subrange(0, 0));
    }
    while i < n
        invariant
            i <= n,
            n <= alen,
            n <= blen,
            alen == a@.len(),
            blen == b@.len(),
            n == if alen < blen { alen } else { blen },
            lex_lt(a@, b@) <==> lex_lt(a@.skip(i as int), b@.skip(i as int)),
            lex_lt(b@, a@) <==> lex_lt(b@.skip(i as int), a@.skip(i as int)),
            a@.subrange(0, i as int) =~= b@.subrange(0, i as int),
        decreases n - i,
    {
        let x = a[i];
        let y = b[i];
        if x < y {
            proof {
                assert(lex_lt(a@.skip(i as int), b@.skip(i as int)));
                lemma_lex_irrefl_pairwise(a@, b@, i as int);
            }
            return -1;
        }
        if x > y {
            proof {
                assert(lex_lt(b@.skip(i as int), a@.skip(i as int)));
                lemma_lex_irrefl_pairwise(b@, a@, i as int);
            }
            return 1;
        }
        proof {
            assert(a@.skip(i as int).drop_first() =~= a@.skip(i + 1));
            assert(b@.skip(i as int).drop_first() =~= b@.skip(i + 1));
            assert(a@.subrange(0, i + 1) =~= b@.subrange(0, i + 1));
        }
        i = i + 1;
    }
    if alen < blen {
        proof {
            assert(a@.skip(i as int).len() == 0);
            assert(b@.skip(i as int).len() > 0);
            assert(lex_lt(a@.skip(i as int), b@.skip(i as int)));
            assert(!lex_lt(b@.skip(i as int), a@.skip(i as int)));
            assert(a@ != b@) by {
                assert(a@.len() != b@.len());
            }
        }
        -1
    } else if alen > blen {
        proof {
            assert(lex_lt(b@.skip(i as int), a@.skip(i as int)));
            assert(!lex_lt(a@.skip(i as int), b@.skip(i as int)));
            assert(a@.len() != b@.len());
        }
        1
    } else {
        proof {
            assert(a@ =~= b@) by {
                assert(a@.subrange(0, i as int) =~= a@);
                assert(b@.subrange(0, i as int) =~= b@);
            }
            assert(!lex_lt(a@.skip(i as int), b@.skip(i as int)));
            assert(!lex_lt(b@.skip(i as int), a@.skip(i as int)));
        }
        0
    }
}

/// A strictly smaller sequence under lexicographic order is not equal to the larger.
proof fn lemma_lex_irrefl_pairwise(a: Seq<u8>, b: Seq<u8>, i: int)
    requires
        lex_lt(a.skip(i), b.skip(i)),
        0 <= i <= a.len(),
        i <= b.len(),
        a.subrange(0, i) =~= b.subrange(0, i),
    ensures
        lex_lt(a, b),
        !lex_lt(b, a),
        a != b,
    decreases i,
{
    if i == 0 {
        assert(a.skip(0) =~= a);
        assert(b.skip(0) =~= b);
        lemma_lex_irrefl(a);
        if a == b {
            assert(lex_lt(a, a));
        }
        if lex_lt(b, a) {
            lemma_lex_trans(a, b, a);
            lemma_lex_irrefl(a);
        }
    } else {
        assert(a[0] == b[0]) by {
            assert(a.subrange(0, i)[0] == b.subrange(0, i)[0]);
        }
        assert(a.drop_first().skip(i - 1) =~= a.skip(i));
        assert(b.drop_first().skip(i - 1) =~= b.skip(i));
        assert(a.drop_first().subrange(0, i - 1) =~= b.drop_first().subrange(0, i - 1)) by {
            assert forall|k: int| 0 <= k < i - 1 implies a.drop_first()[k] == b.drop_first()[k] by {
                assert(a.subrange(0, i)[k + 1] == b.subrange(0, i)[k + 1]);
            }
        }
        lemma_lex_irrefl_pairwise(a.drop_first(), b.drop_first(), i - 1);
        assert(a =~= seq![a[0]] + a.drop_first());
        assert(b =~= seq![b[0]] + b.drop_first());
        if a == b {
            lemma_lex_irrefl(a);
        }
    }
}

/// Byte-for-byte equality of two vectors.
pub fn eq_bytes(a: &Vec<u8>, b: &Vec<u8>) -> (r: bool)
    ensures
        r <==> a@ == b@,
{
    if a.len() != b.len() {
        return false;
    }
    let n = a.len();
    let mut i: usize = 0;
    while i < n
        invariant
            i <= n,
            n == a@.len(),
            n == b@.len(),
            forall|j: int| 0 <= j < i ==> a@[j] == b@[j],
        decreases n - i,
    {
        if a[i] != b[i] {
            return false;
        }
        i = i + 1;
    }
    proof {
        assert(a@ =~= b@);
    }
    true
}

/// Appends `t[lo..hi]` to `out`.
pub fn append_range(out: &mut Vec<u8>, t: &Vec<u8>, lo: usize, hi: usize)
    requires
        lo <= hi,
        hi <= t@.len(),
    ensures
        final(out)@ == old(out)@ + t@.subrange(lo as int, hi as int),
{
    let mut i: usize = lo;
    while i < hi
        invariant
            lo <= i <= hi,
            hi <= t@.len(),
            out@ == old(out)@ + t@.subrange(lo as int, i as int),
        decreases hi - i,
    {
        out.push(t[i]);
        proof {
            assert(t@.subrange(lo as int, i as int).push(t@[i as int]) =~= t@.subrange(
                lo as int,
                i + 1,
            ));
        }
        i = i + 1;
    }
}

/// Copies `t[lo..hi]` with surrounding whitespace removed.
pub fn trimmed_copy(t: &Vec<u8>, lo: usize, hi: usize) -> (r: Vec<u8>)
    requires
        lo <= hi,
        hi <= t@.len(),
    ensures
        r@ == trim_ws(t@.subrange(lo as int, hi as int)),
{
    let mut a: usize = lo;
    while a < hi && is_ws_byte(t[a])
        invariant
            lo <= a <= hi,
            hi <= t@.len(),
            trim_front(t@.subrange(lo as int, hi as int)) == trim_front(
                t@.subrange(a as int, hi as int),
            ),
        decreases hi - a,
    {
        proof {
            assert(t@.subrange(a as int, hi as int).drop_first() =~= t@.subrange(a + 1, hi as int));
        }
        a = a + 1;
    }
    proof {
        assert(trim_front(t@.subrange(lo as int, hi as int)) == t@.subrange(a as int, hi as int));
    }
    let mut b: usize = hi;
    while b > a && is_ws_byte(t[b - 1])
        invariant
            a <= b <= hi,
            hi <= t@.len(),
            trim_back(t@.subrange(a as int, hi as int)) == trim_back(
                t@.subrange(a as int, b as int),
            ),
        decreases b,
    {
        proof {
            assert(t@.subrange(a as int, b as int).drop_last() =~= t@.subrange(a as int, b - 1));
        }
        b = b - 1;
    }
    proof {
        assert(trim_back(t@.subrange(a as int, b as int)) == t@.subrange(a as int, b as int));
    }
    let mut r: Vec<u8> = Vec::new();
    append_range(&mut r, t, a, b);
    r
}

/// Whether a byte sequence is valid UTF-8. The predicate is named but not
/// defined here: validity is decided by an outside implementation and
/// depends on the bytes alone.
pub uninterp spec fn utf8_valid(b: Seq<u8>) -> bool;

/// Relies on core::str::from_utf8: acceptance means the bytes are valid
/// UTF-8, and depends on the bytes alone.
#[verifier::external_body]
pub(crate) fn is_utf8(b: &Vec<u8>) -> (r: bool)
    ensures
        r == utf8_valid(b@),
{
    core::str::from_utf8(b.as_slice()).is_ok()
}

/// A fresh copy of a byte vector.
pub fn clone_bytes(v: &Vec<u8>) -> (r: Vec<u8>)
    ensures
        r@ == v@,
{
    let mut r: Vec<u8> = Vec::new();
    append_range(&mut r, v, 0, v.len());
    proof {
        assert(v@.subrange(0, v@.len() as int) =~= v@);
    }
    r
}

/// Whether a byte is ASCII whitespace.
pub fn is_ws_byte(b: u8) -> (r: bool)
    ensures
        r == is_ws(b),
{
    b == 9 || b == 10 || b == 11 || b == 12 || b == 13 || b == 32
}

} // verus!
