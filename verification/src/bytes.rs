//! Byte-vector helpers: equality, prefix and suffix tests, copying, and a
//! UTF-8 validity check.

use vstd::prelude::*;

verus! {

/// The deep view of a byte vector is its ordinary view.
pub broadcast proof fn lemma_bytes_deep_view(v: Vec<u8>)
    ensures
        #[trigger] v.deep_view() == v@,
{
    assert(v.deep_view() =~= v@);
}

/// True exactly when the two byte vectors hold the same bytes.
pub fn bytes_eq(a: &Vec<u8>, b: &Vec<u8>) -> (r: bool)
    ensures
        r == (a@ == b@),
{
    if a.len() != b.len() {
        proof {
            assert(a@ != b@) by {
                if a@ == b@ {
                    assert(a@.len() == b@.len());
                }
            }
        }
        return false;
    }
    let mut i: usize = 0;
    while i < a.len()
        invariant
            i <= a.len(),
            a@.len() == b@.len(),
            forall|j: int| 0 <= j < i ==> a@[j] == b@[j],
        decreases a.len() - i,
    {
        if a[i] != b[i] {
            proof {
                assert(a@ != b@) by {
                    if a@ == b@ {
                        assert(a@[i as int] == b@[i as int]);
                    }
                }
            }
            return false;
        }
        i += 1;
    }
    proof {
        assert(a@ =~= b@);
    }
    true
}

/// True exactly when `p` is a prefix of `a`.
pub fn starts_with_bytes(a: &Vec<u8>, p: &Vec<u8>) -> (r: bool)
    ensures
        r == p@.is_prefix_of(a@),
{
    if p.len() > a.len() {
        return false;
    }
    let mut i: usize = 0;
    while i < p.len()
        invariant
            i <= p.len(),
            p@.len() <= a@.len(),
            forall|j: int| 0 <= j < i ==> p@[j] == a@[j],
        decreases p.len() - i,
    {
        if p[i] != a[i] {
            proof {
                assert(!p@.is_prefix_of(a@)) by {
                    if p@ =~= a@.subrange(0, p@.len() as int) {
                        assert(p@[i as int] == a@[i as int]);
                    }
                }
            }
            return false;
        }
        i += 1;
    }
    proof {
        assert(p@ =~= a@.subrange(0, p@.len() as int));
    }
    true
}

/// Copies the byte range `i..j` of `a` into a fresh vector.
pub fn subvec(a: &Vec<u8>, i: usize, j: usize) -> (r: Vec<u8>)
    requires
        i <= j <= a@.len(),
    ensures
        r@ == a@.subrange(i as int, j as int),
{
    let mut r: Vec<u8> = Vec::new();
    let mut k: usize = i;
    while k < j
        invariant
            i <= k <= j <= a@.len(),
            r@ == a@.subrange(i as int, k as int),
        decreases j - k,
    {
        r.push(a[k]);
        k += 1;
        proof {
            assert(r@ =~= a@.subrange(i as int, k as int));
        }
    }
    r
}

/// Copies a byte vector.
pub fn dup_bytes(a: &Vec<u8>) -> (r: Vec<u8>)
    ensures
        r@ == a@,
{
    let r = subvec(a, 0, a.len());
    proof {
        assert(a@.subrange(0, a@.len() as int) =~= a@);
    }
    r
}

/// Copies a vector of byte vectors.
pub fn dup_segs(a: &Vec<Vec<u8>>) -> (r: Vec<Vec<u8>>)
    ensures
        r.deep_view() == a.deep_view(),
{
    broadcast use lemma_bytes_deep_view;

    let mut r: Vec<Vec<u8>> = Vec::new();
    let mut i: usize = 0;
    while i < a.len()
        invariant
            i <= a@.len(),
            r@.len() == i,
            forall|j: int| 0 <= j < i ==> r.deep_view()[j] == a.deep_view()[j],
        decreases a.len() - i,
    {
        r.push(dup_bytes(&a[i]));
        i += 1;
    }
    proof {
        assert(r.deep_view() =~= a.deep_view());
    }
    r
}

/// True exactly when the two vectors hold the same segment sequences.
pub fn segs_eq(a: &Vec<Vec<u8>>, b: &Vec<Vec<u8>>) -> (r: bool)
    ensures
        r == (a.deep_view() == b.deep_view()),
{
    if a.len() != b.len() {
        proof {
            assert(a.deep_view() != b.deep_view()) by {
                if a.deep_view() == b.deep_view() {
                    assert(a.deep_view().len() == b.deep_view().len());
                }
            }
        }
        return false;
    }
    let mut i: usize = 0;
    while i < a.len()
        invariant
            i <= a.len(),
            a@.len() == b@.len(),
            forall|j: int| 0 <= j < i ==> a.deep_view()[j] == b.deep_view()[j],
        decreases a.len() - i,
    {
        if !bytes_eq(&a[i], &b[i]) {
            proof {
                broadcast use lemma_bytes_deep_view;

                assert(a.deep_view()[i as int] == a@[i as int]@);
                assert(b.deep_view()[i as int] == b@[i as int]@);
                assert(a.deep_view() != b.deep_view()) by {
                    if a.deep_view() == b.deep_view() {
                        assert(a.deep_view()[i as int] == b.deep_view()[i as int]);
                    }
                }
            }
            return false;
        }
        proof {
            broadcast use lemma_bytes_deep_view;

            assert(a.deep_view()[i as int] == a@[i as int]@);
            assert(b.deep_view()[i as int] == b@[i as int]@);
        }
        i += 1;
    }
    proof {
        assert(a.deep_view() =~= b.deep_view());
    }
    true
}

/// True exactly when `p`'s segments are a prefix of `a`'s segments.
pub fn segs_prefix(p: &Vec<Vec<u8>>, a: &Vec<Vec<u8>>) -> (r: bool)
    ensures
        r == p.deep_view().is_prefix_of(a.deep_view()),
{
    broadcast use lemma_bytes_deep_view;

    if p.len() > a.len() {
        return false;
    }
    let mut i: usize = 0;
    while i < p.len()
        invariant
            i <= p.len(),
            p@.len() <= a@.len(),
            p.deep_view().len() == p@.len(),
            a.deep_view().len() == a@.len(),
            forall|j: int| 0 <= j < i ==> p.deep_view()[j] == a.deep_view()[j],
        decreases p.len() - i,
    {
        if !bytes_eq(&p[i], &a[i]) {
            proof {
                assert(p.deep_view()[i as int] == p@[i as int]@);
                assert(a.deep_view()[i as int] == a@[i as int]@);
                assert(!p.deep_view().is_prefix_of(a.deep_view())) by {
                    let pd = p.deep_view();
                    let ad = a.deep_view();
                    if pd =~= ad.subrange(0, pd.len() as int) {
                        assert(pd[i as int] == ad[i as int]);
                    }
                }
            }
            return false;
        }
        proof {
            assert(p.deep_view()[i as int] == p@[i as int]@);
            assert(a.deep_view()[i as int] == a@[i as int]@);
        }
        i += 1;
    }
    proof {
        assert(p.deep_view() =~= a.deep_view().subrange(0, p.deep_view().len() as int));
    }
    true
}

/// True exactly when `p`'s segments are a suffix of `a`'s segments.
pub fn segs_suffix(p: &Vec<Vec<u8>>, a: &Vec<Vec<u8>>) -> (r: bool)
    ensures
        r == p.deep_view().is_suffix_of(a.deep_view()),
{
    broadcast use lemma_bytes_deep_view;

    if p.len() > a.len() {
        return false;
    }
    let off: usize = a.len() - p.len();
    let mut i: usize = 0;
    while i < p.len()
        invariant
            i <= p.len(),
            p@.len() <= a@.len(),
            a@.len() <= usize::MAX,
            off + p@.len() == a@.len(),
            p.deep_view().len() == p@.len(),
            a.deep_view().len() == a@.len(),
            forall|j: int| 0 <= j < i ==> p.deep_view()[j] == a.deep_view()[off + j],
        decreases p.len() - i,
    {
        if !bytes_eq(&p[i], &a[off + i]) {
            proof {
                assert(p.deep_view()[i as int] == p@[i as int]@);
                assert(a.deep_view()[off + i] == a@[off + i]@);
                assert(!p.deep_view().is_suffix_of(a.deep_view())) by {
                    let pd = p.deep_view();
                    let ad = a.deep_view();
                    if pd =~= ad.subrange(off as int, ad.len() as int) {
                        assert(pd[i as int] == ad[off + i]);
                    }
                }
            }
            return false;
        }
        proof {
            assert(p.deep_view()[i as int] == p@[i as int]@);
            assert(a.deep_view()[off + i] == a@[off + i]@);
        }
        i += 1;
    }
    proof {
        let pd = p.deep_view();
        let ad = a.deep_view();
        assert(pd =~= ad.subrange(off as int, ad.len() as int));
    }
    true
}

/// Relies on core::str::from_utf8: it returns Ok exactly when the bytes are
/// valid UTF-8, the notion vstd's valid_utf8 defines.
#[verifier::external_body]
pub fn check_utf8(v: &Vec<u8>) -> (r: bool)
    ensures
        r == vstd::utf8::valid_utf8(v@),
{
    core::str::from_utf8(v.as_slice()).is_ok()
}

} // verus!

verus! {

/// Index of the first occurrence of `b` in `s`, or -1 when there is none.
pub open spec fn find_byte(s: Seq<u8>, b: u8) -> int
    decreases s.len(),
{
    if s.len() == 0 {
        -1
    } else if s[0] == b {
        0
    } else {
        let r = find_byte(s.drop_first(), b);
        if r < 0 {
            -1
        } else {
            r + 1
        }
    }
}

/// `find_byte` returns the first occurrence of `b`, or -1 when `b` is absent.
pub proof fn lemma_find_byte(s: Seq<u8>, b: u8)
    ensures
        find_byte(s, b) < s.len(),
        find_byte(s, b) >= 0 ==> s[find_byte(s, b)] == b && forall|j: int|
            0 <= j < find_byte(s, b) ==> s[j] != b,
        find_byte(s, b) < 0 ==> forall|j: int| 0 <= j < s.len() ==> s[j] != b,
    decreases s.len(),
{
    if s.len() == 0 {
    } else if s[0] == b {
    } else {
        lemma_find_byte(s.drop_first(), b);
        let r = find_byte(s.drop_first(), b);
        if r >= 0 {
            assert(s[r + 1] == s.drop_first()[r]);
            assert forall|j: int| 0 <= j < r + 1 implies s[j] != b by {
                if j > 0 {
                    assert(s.drop_first()[j - 1] == s[j]);
                }
            }
        } else {
            assert forall|j: int| 0 <= j < s.len() implies s[j] != b by {
                if j > 0 {
                    assert(s.drop_first()[j - 1] == s[j]);
                }
            }
        }
    }
}

/// Finds the first occurrence of `b` in `v` at or after `from`, reported
/// against the spec-level search in the suffix starting at `from`.
pub fn find_byte_from(v: &Vec<u8>, from: usize, b: u8) -> (r: Option<usize>)
    requires
        from <= v@.len(),
    ensures
        ({
            let f = find_byte(v@.skip(from as int), b);
            match r {
                Some(i) => from <= i < v@.len() && v@[i as int] == b && f == i - from,
                None => f < 0,
            }
        }),
{
    let ghost s = v@.skip(from as int);
    let mut i: usize = from;
    while i < v.len()
        invariant
            from <= i <= v@.len(),
            s == v@.skip(from as int),
            forall|j: int| from <= j < i ==> v@[j] != b,
        decreases v.len() - i,
    {
        if v[i] == b {
            proof {
                lemma_find_byte(s, b);
                let ii = i - from;
                assert(s[ii] == v@[i as int]);
                assert(forall|j: int| 0 <= j < ii ==> s[j] == v@[j + from] && s[j] != b);
                let f = find_byte(s, b);
                if f < 0 {
                } else if f < ii {
                    assert(s[f] == b);
                } else if f > ii {
                    assert(s[ii] != b);
                }
                assert(f == ii);
            }
            return Some(i);
        }
        i += 1;
    }
    proof {
        lemma_find_byte(s, b);
        let f = find_byte(s, b);
        if f >= 0 {
            assert(s[f] == v@[f + from]);
            assert(s[f] != b);
        }
    }
    None
}

/// Index of the first occurrence of `pat` as a subsequence of `s`, or -1.
pub open spec fn find_pat(s: Seq<u8>, pat: Seq<u8>) -> int
    decreases s.len(),
{
    if s.len() < pat.len() {
        -1
    } else if s.take(pat.len() as int) == pat {
        0
    } else if s.len() == 0 {
        -1
    } else {
        let r = find_pat(s.drop_first(), pat);
        if r < 0 {
            -1
        } else {
            r + 1
        }
    }
}

/// `find_pat` returns the first place where `pat` occurs, or -1 when absent.
pub proof fn lemma_find_pat(s: Seq<u8>, pat: Seq<u8>)
    ensures
        find_pat(s, pat) >= 0 ==> find_pat(s, pat) + pat.len() <= s.len() && s.subrange(
            find_pat(s, pat),
            find_pat(s, pat) + pat.len(),
        ) == pat && forall|j: int|
            0 <= j < find_pat(s, pat) ==> #[trigger] s.subrange(j, j + pat.len()) != pat,
        find_pat(s, pat) < 0 ==> forall|j: int|
            0 <= j && j + pat.len() <= s.len() ==> #[trigger] s.subrange(j, j + pat.len()) != pat,
    decreases s.len(),
{
    if s.len() < pat.len() {
        assert forall|j: int| 0 <= j && j + pat.len() <= s.len() implies #[trigger] s.subrange(
            j,
            j + pat.len(),
        ) != pat by {}
    } else if s.take(pat.len() as int) == pat {
        assert(s.subrange(0, pat.len() as int) == s.take(pat.len() as int));
    } else if s.len() == 0 {
    } else {
        lemma_find_pat(s.drop_first(), pat);
        let d = s.drop_first();
        let r = find_pat(d, pat);
        assert forall|j: int| 1 <= j && j + pat.len() <= s.len() implies #[trigger] s.subrange(
            j,
            j + pat.len(),
        ) == d.subrange(j - 1, j - 1 + pat.len()) by {
            assert(s.subrange(j, j + pat.len()) =~= d.subrange(j - 1, j - 1 + pat.len()));
        }
        if r >= 0 {
            assert(s.subrange(r + 1, r + 1 + pat.len()) == pat);
            assert forall|j: int| 0 <= j < r + 1 implies #[trigger] s.subrange(j, j + pat.len()) != pat by {
                if j == 0 {
                    assert(s.subrange(0, pat.len() as int) =~= s.take(pat.len() as int));
                } else {
                    assert(d.subrange(j - 1, j - 1 + pat.len()) != pat);
                }
            }
        } else {
            assert forall|j: int| 0 <= j && j + pat.len() <= s.len() implies #[trigger] s.subrange(
                j,
                j + pat.len(),
            ) != pat by {
                if j == 0 {
                    assert(s.subrange(0, pat.len() as int) =~= s.take(pat.len() as int));
                } else {
                    assert(d.subrange(j - 1, j - 1 + pat.len()) != pat);
                }
            }
        }
    }
}

/// Finds the first occurrence of `pat` as a contiguous run of `v`'s bytes.
pub fn find_pat_vec(v: &Vec<u8>, pat: &Vec<u8>) -> (r: Option<usize>)
    ensures
        ({
            let f = find_pat(v@, pat@);
            match r {
                Some(i) => f == i && i + pat@.len() <= v@.len(),
                None => f < 0,
            }
        }),
{
    if pat.len() > v.len() {
        proof {
            lemma_find_pat(v@, pat@);
        }
        return None;
    }
    if pat.len() == 0 {
        proof {
            assert(v@.take(0) =~= pat@);
        }
        return Some(0);
    }
    let last: usize = v.len() - pat.len();
    let mut i: usize = 0;
    while i <= last
        invariant
            0 <= i <= last + 1,
            last + pat@.len() == v@.len(),
            pat@.len() >= 1,
            v@.len() <= usize::MAX,
            forall|j: int| 0 <= j < i ==> #[trigger] v@.subrange(j, j + pat@.len()) != pat@,
        decreases last + 1 - i,
    {
        let piece = subvec(v, i, i + pat.len());
        if bytes_eq(&piece, pat) {
            proof {
                lemma_find_pat(v@, pat@);
                let f = find_pat(v@, pat@);
                if f < 0 {
                } else if f > i {
                    assert(v@.subrange(i as int, i + pat@.len()) != pat@);
                }
                assert(f == i);
            }
            return Some(i);
        }
        i += 1;
    }
    proof {
        lemma_find_pat(v@, pat@);
        let f = find_pat(v@, pat@);
        if f >= 0 {
            assert(v@.subrange(f, f + pat@.len()) == pat@);
        }
    }
    None
}

} // verus!
