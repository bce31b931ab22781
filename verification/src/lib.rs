pub mod de;
pub mod error;

use vstd::prelude::*;
use vstd::string::StrSliceExecFns;

verus! {

/// Number of characters before the first space in `s` (all of `s` if no
/// space occurs).
pub open spec fn first_word_len(s: Seq<char>) -> nat
    decreases s.len(),
{
    if s.len() == 0 || s[0] == ' ' {
        0
    } else {
        1 + first_word_len(s.skip(1))
    }
}

pub proof fn lemma_first_word_len_le(s: Seq<char>)
    ensures
        first_word_len(s) <= s.len(),
    decreases s.len(),
{
    if s.len() > 0 && s[0] != ' ' {
        lemma_first_word_len_le(s.skip(1));
    }
}

/// Returns the prefix of `s` up to but not including its first space, or
/// all of `s` when it contains no space.
pub fn first_word(s: &String) -> (r: &str)
    ensures
        r@ == s@.take(first_word_len(s@) as int),
{
    let n: usize = s.as_str().unicode_len();
    let mut i: usize = 0;
    proof {
        lemma_first_word_len_le(s@);
        assert(s@.skip(0) =~= s@);
    }
    while i < n
        invariant
            0 <= i <= n,
            n == s@.len(),
            first_word_len(s@) == i + first_word_len(s@.skip(i as int)),
        decreases n - i,
    {
        let c = s.as_str().get_char(i);
        if c == ' ' {
            proof {
                assert(first_word_len(s@.skip(i as int)) == 0);
            }
            return s.as_str().substring_char(0, i);
        }
        proof {
            assert(s@.skip(i as int).skip(1) =~= s@.skip(i + 1));
            assert(first_word_len(s@.skip(i as int)) == 1 + first_word_len(s@.skip(i + 1)));
        }
        i = i + 1;
    }
    proof {
        assert(s@.skip(n as int).len() == 0);
        assert(first_word_len(s@) == n);
        assert(s@.take(n as int) =~= s@.subrange(0, n as int));
    }
    s.as_str().substring_char(0, n)
}

} // verus!
