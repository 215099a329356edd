use vstd::prelude::*;
use vstd::string::*;

verus! {

/// Whether the characters `from..to` of `s` spell `word`.
pub fn spells(s: &str, from: usize, to: usize, word: &str) -> (r: bool)
    requires
        from <= to <= s@.len(),
    ensures
        r == (s@.subrange(from as int, to as int) == word@),
{
    let n = word.unicode_len();
    if to - from != n {
        return false;
    }
    let mut k: usize = 0;
    while k < n
        invariant
            from <= to <= s@.len(),
            n == word@.len(),
            to - from == n,
            k <= n,
            forall|m: int| 0 <= m < k ==> s@[from + m] == word@[m],
        decreases n - k,
    {
        if s.get_char(from + k) != word.get_char(k) {
            assert(s@.subrange(from as int, to as int)[k as int] != word@[k as int]);
            return false;
        }
        k = k + 1;
    }
    assert(s@.subrange(from as int, to as int) =~= word@);
    true
}

/// Whether `s` and `word` are the same text.
pub fn same_text(s: &str, word: &str) -> (r: bool)
    ensures
        r == (s@ == word@),
{
    let len = s.unicode_len();
    assert(s@.subrange(0, len as int) =~= s@);
    spells(s, 0, len, word)
}

} // verus!
