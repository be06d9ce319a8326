use vstd::prelude::*;

verus! {

/// Skipping one more element of an already-skipped sequence.
pub proof fn lemma_skip_succ(s: Seq<char>, i: int)
    requires
        0 <= i < s.len(),
    ensures
        s.skip(i).skip(1) =~= s.skip(i + 1),
{
}

/// Skips compose additively.
pub proof fn lemma_skip_add(s: Seq<char>, i: int, k: int)
    requires
        0 <= i,
        0 <= k,
        i + k <= s.len(),
    ensures
        s.skip(i).skip(k) =~= s.skip(i + k),
{
}

/// Character-wise equality of two string slices.
pub fn str_eq(a: &str, b: &str) -> (r: bool)
    ensures
        r == (a@ == b@),
{
    let na = a.unicode_len();
    let nb = b.unicode_len();
    if na != nb {
        proof {
            assert(a@ != b@);
        }
        return false;
    }
    let mut i: usize = 0;
    while i < na
        invariant
            na == a@.len(),
            na == b@.len(),
            i <= na,
            forall|j: int| 0 <= j < i ==> a@[j] == b@[j],
        decreases na - i,
    {
        if a.get_char(i) != b.get_char(i) {
            return false;
        }
        i += 1;
    }
    proof {
        assert(a@ =~= b@);
    }
    true
}

/// The first `k` characters of a string, as an owned string.
pub fn str_take(s: &str, k: usize) -> (r: String)
    requires
        k <= s@.len(),
    ensures
        r@ == s@.take(k as int),
{
    let r = s.substring_char(0, k).to_owned();
    proof {
        assert(s@.subrange(0, k as int) =~= s@.take(k as int));
    }
    r
}

/// The characters of a string from position `k` on, as an owned string.
pub fn str_skip(s: &str, k: usize) -> (r: String)
    requires
        k <= s@.len(),
    ensures
        r@ == s@.skip(k as int),
{
    let n = s.unicode_len();
    let r = s.substring_char(k, n).to_owned();
    proof {
        assert(s@.subrange(k as int, n as int) =~= s@.skip(k as int));
    }
    r
}

/// Append the single character at position `i` of `src` to `dst`.
pub fn push_char_at(dst: &mut String, src: &str, i: usize)
    requires
        i < src@.len(),
        src@.len() <= usize::MAX,
    ensures
        final(dst)@ == old(dst)@.push(src@[i as int]),
{
    let piece = src.substring_char(i, i + 1);
    dst.append(piece);
    proof {
        assert(old(dst)@ + src@.subrange(i as int, i + 1) =~= old(dst)@.push(src@[i as int]));
    }
}

} // verus!
