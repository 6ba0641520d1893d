//! Character-level string helpers: equality and splitting a tokenized
//! sentence on single spaces.

use vstd::prelude::*;

verus! {

/// Splitting a character sequence on every space, as the corpus tokenizer's
/// textual output is split into tokens. Splitting the empty sequence gives
/// one empty token, and adjacent spaces give empty tokens in between.
pub open spec fn split_spec(s: Seq<char>) -> Seq<Seq<char>>
    decreases s.len(),
{
    if s.len() == 0 {
        seq![Seq::<char>::empty()]
    } else if s[0] == ' ' {
        seq![Seq::<char>::empty()] + split_spec(s.skip(1))
    } else {
        let rest = split_spec(s.skip(1));
        seq![seq![s[0]] + rest[0]] + rest.skip(1)
    }
}

pub proof fn lemma_split_spec_len(s: Seq<char>)
    ensures
        split_spec(s).len() >= 1,
    decreases s.len(),
{
    if s.len() == 0 {
    } else if s[0] == ' ' {
        lemma_split_spec_len(s.skip(1));
    } else {
        lemma_split_spec_len(s.skip(1));
    }
}

/// True exactly when the two strings hold the same characters.
pub fn str_eq(a: &str, b: &str) -> (r: bool)
    ensures
        r == (a@ == b@),
{
    let na = a.unicode_len();
    let nb = b.unicode_len();
    if na != nb {
        return false;
    }
    let mut i: usize = 0;
    while i < na
        invariant
            na == a@.len(),
            na == b@.len(),
            i <= na,
            forall|k: int| 0 <= k < i ==> a@[k] == b@[k],
        decreases na - i,
    {
        if a.get_char(i) != b.get_char(i) {
            return false;
        }
        i = i + 1;
    }
    proof {
        assert(a@ =~= b@);
    }
    true
}

/// Splits a string on single spaces, in the way the tokenizer's textual
/// output is turned into an ordered token list.
pub fn split_tokens(s: &str) -> (r: Vec<String>)
    ensures
        r.deep_view() == split_spec(s@),
        r.len() >= 1,
{
    let n = s.unicode_len();
    let mut out: Vec<String> = Vec::new();
    out.push(String::new());
    let mut i: usize = n;
    proof {
        assert(s@.skip(n as int) =~= Seq::<char>::empty());
        assert(out.deep_view() =~= split_spec(s@.skip(n as int)));
    }
    while i > 0
        invariant
            n == s@.len(),
            i <= n,
            out.len() >= 1,
            out.deep_view() == split_spec(s@.skip(i as int)),
        decreases i,
    {
        let c_str = s.substring_char(i - 1, i);
        let i2 = i - 1;
        proof {
            assert(s@.skip(i2 as int).len() > 0);
            assert(s@.skip(i2 as int)[0] == s@[i2 as int]);
            assert(s@.skip(i2 as int).skip(1) =~= s@.skip(i as int));
        }
        if c_str.unicode_len() == 1 && c_str.get_char(0) == ' ' {
            out.insert(0, String::new());
            proof {
                assert(out.deep_view() =~= split_spec(s@.skip(i2 as int)));
            }
        } else {
            proof {
                assert(c_str@ =~= seq![s@[i2 as int]]);
                assert(s@[i2 as int] != ' ');
                lemma_split_spec_len(s@.skip(i as int));
            }
            let head = out.remove(0);
            let new_head = c_str.to_owned().concat(head.as_str());
            out.insert(0, new_head);
            proof {
                assert(out.deep_view() =~= split_spec(s@.skip(i2 as int)));
            }
        }
        i = i2;
    }
    proof {
        assert(s@.skip(0) =~= s@);
        lemma_split_spec_len(s@);
    }
    out
}

} // verus!
