//! Byte strings that end at their first zero byte, if they have one.

use vstd::prelude::*;

verus! {

/// Length of the text in `s`: the number of bytes before the first zero byte,
/// or all of them if there is none.
pub open spec fn c_len(s: Seq<u8>) -> nat
    decreases s.len(),
{
    if s.len() == 0 || s[0] == 0 {
        0
    } else {
        1 + c_len(s.skip(1))
    }
}

/// The text in `s`: its bytes before the first zero byte.
pub open spec fn c_str(s: Seq<u8>) -> Seq<u8> {
    s.take(c_len(s) as int)
}

/// The characters that stand for `bytes`, one for each byte.
pub open spec fn bytes_text(bytes: Seq<u8>) -> Seq<char> {
    Seq::new(bytes.len(), |i: int| bytes[i] as char)
}

/// What [`str_copy`] leaves in a destination that held `dest`: the text of
/// `src`, cut to `max_len - 1` bytes, then a zero byte, then what was there.
pub open spec fn copied(dest: Seq<u8>, src: Seq<u8>, max_len: int) -> Seq<u8> {
    let n = if c_len(src) < max_len - 1 {
        c_len(src) as int
    } else {
        max_len - 1
    };
    src.take(n) + seq![0u8] + dest.skip(n + 1)
}

/// The length of a text is the one position that has no zero byte before it
/// and is either the end or a zero byte.
pub proof fn lemma_c_len(s: Seq<u8>, n: int)
    requires
        0 <= n <= s.len(),
        forall|i: int| 0 <= i < n ==> s[i] != 0,
        n == s.len() || s[n] == 0,
    ensures
        c_len(s) == n,
    decreases n,
{
    if n > 0 {
        lemma_c_len(s.skip(1), n - 1);
    }
}

/// The length of a text is in the sequence, no byte of the text is zero, and
/// the text ends at the end or at a zero byte.
pub proof fn lemma_c_len_bounds(s: Seq<u8>)
    ensures
        c_len(s) <= s.len(),
        forall|i: int| 0 <= i < c_len(s) ==> s[i] != 0,
        c_len(s) == s.len() || s[c_len(s) as int] == 0,
    decreases s.len(),
{
    if s.len() == 0 || s[0] == 0 {
    } else {
        lemma_c_len_bounds(s.skip(1));
        assert forall|i: int| 0 <= i < c_len(s) implies s[i] != 0 by {
            if i > 0 {
                assert(s.skip(1)[i - 1] == s[i]);
            }
        }
    }
}

/// The text of a text is the text itself, and copying a sequence is copying
/// its text.
pub proof fn lemma_c_str_idempotent(s: Seq<u8>, dest: Seq<u8>, max_len: int)
    requires
        max_len >= 1,
    ensures
        c_len(c_str(s)) == c_len(s),
        c_str(c_str(s)) == c_str(s),
        copied(dest, c_str(s), max_len) == copied(dest, s, max_len),
{
    lemma_c_len_bounds(s);
    lemma_c_len(c_str(s), c_len(s) as int);
    assert(c_str(c_str(s)) =~= c_str(s));
    let n = if c_len(s) < max_len - 1 {
        c_len(s) as int
    } else {
        max_len - 1
    };
    assert(c_str(s).take(n) =~= s.take(n));
}

/// Copies the text of `src` to `dest` and ends it with a zero byte, writing
/// at most `max_len` bytes; a longer text is cut.
pub fn str_copy(dest: &mut [u8], src: &[u8], max_len: usize)
    requires
        max_len >= 1,
        src.len() < old(dest).len() || max_len <= old(dest).len(),
    ensures
        final(dest)@ == copied(old(dest)@, src@, max_len as int),
        final(dest)@.len() == old(dest)@.len(),
{
    let copy_len = if src.len() < max_len - 1 {
        src.len()
    } else {
        max_len - 1
    };
    let mut i: usize = 0;
    while i < copy_len
        invariant
            i <= copy_len,
            copy_len <= src.len(),
            copy_len <= max_len - 1,
            copy_len < dest@.len(),
            dest@.len() == old(dest)@.len(),
            forall|k: int| 0 <= k < i ==> src@[k] != 0,
            dest@ == src@.take(i as int) + old(dest)@.skip(i as int),
        decreases copy_len - i,
    {
        if src[i] == 0 {
            dest[i] = 0;
            proof {
                lemma_c_len(src@, i as int);
                assert(dest@ =~= copied(old(dest)@, src@, max_len as int));
            }
            return ;
        }
        dest[i] = src[i];
        i += 1;
        proof {
            assert(dest@ =~= src@.take(i as int) + old(dest)@.skip(i as int));
        }
    }
    dest[copy_len] = 0;
    proof {
        lemma_c_len_bounds(src@);
        if copy_len == src.len() {
            lemma_c_len(src@, copy_len as int);
        }
        assert(dest@ =~= copied(old(dest)@, src@, max_len as int));
    }
}

/// Length of the text in `s`.
pub fn str_len(s: &[u8]) -> (n: usize)
    ensures
        n == c_len(s@),
{
    let mut i: usize = 0;
    while i < s.len()
        invariant
            i <= s.len(),
            forall|k: int| 0 <= k < i ==> s@[k] != 0,
        decreases s.len() - i,
    {
        if s[i] == 0 {
            proof {
                lemma_c_len(s@, i as int);
            }
            return i;
        }
        i += 1;
    }
    proof {
        lemma_c_len(s@, i as int);
    }
    s.len()
}

/// Whether `s1` and `s2` hold the same text.
pub fn str_equals(s1: &[u8], s2: &[u8]) -> (same: bool)
    ensures
        same == (c_str(s1@) == c_str(s2@)),
{
    let len1 = str_len(s1);
    let len2 = str_len(s2);
    proof {
        lemma_c_len_bounds(s1@);
        lemma_c_len_bounds(s2@);
    }
    if len1 != len2 {
        proof {
            assert(c_str(s1@).len() != c_str(s2@).len());
        }
        return false;
    }
    let mut i: usize = 0;
    while i < len1
        invariant
            i <= len1,
            len1 == c_len(s1@),
            len1 == c_len(s2@),
            len1 <= s1.len(),
            len1 <= s2.len(),
            forall|k: int| 0 <= k < i ==> s1@[k] == s2@[k],
        decreases len1 - i,
    {
        if s1[i] != s2[i] {
            proof {
                assert(c_str(s1@)[i as int] != c_str(s2@)[i as int]);
            }
            return false;
        }
        i += 1;
    }
    proof {
        assert(c_str(s1@) =~= c_str(s2@));
    }
    true
}

} // verus!
