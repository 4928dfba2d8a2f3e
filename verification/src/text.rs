//! Character classification and string helpers shared by the lexer:
//! the whitespace predicate, whitespace trimming, and appending a
//! character to an owned string.

use vstd::prelude::*;

verus! {

/// The Unicode `White_Space` code points, the set that
/// `char::is_whitespace` recognizes.
pub open spec fn is_ws(c: char) -> bool {
    let u = c as u32;
    (9 <= u && u <= 13) || u == 32 || u == 0x85 || u == 0xa0 || u == 0x1680 || (0x2000 <= u
        && u <= 0x200a) || u == 0x2028 || u == 0x2029 || u == 0x202f || u == 0x205f || u == 0x3000
}

/// Executable counterpart of `is_ws`.
pub fn is_whitespace_char(c: char) -> (b: bool)
    ensures
        b == is_ws(c),
{
    let u: u32 = c as u32;
    (9 <= u && u <= 13) || u == 32 || u == 0x85 || u == 0xa0 || u == 0x1680 || (0x2000 <= u
        && u <= 0x200a) || u == 0x2028 || u == 0x2029 || u == 0x202f || u == 0x205f || u == 0x3000
}

/// `s` with its leading whitespace removed.
pub open spec fn trim_front(s: Seq<char>) -> Seq<char>
    decreases s.len(),
{
    if s.len() > 0 && is_ws(s[0]) {
        trim_front(s.drop_first())
    } else {
        s
    }
}

/// `s` with its trailing whitespace removed.
pub open spec fn trim_back(s: Seq<char>) -> Seq<char>
    decreases s.len(),
{
    if s.len() > 0 && is_ws(s.last()) {
        trim_back(s.drop_last())
    } else {
        s
    }
}

/// `s` with surrounding whitespace removed, as `str::trim` computes it.
pub open spec fn trim_spec(s: Seq<char>) -> Seq<char> {
    trim_back(trim_front(s))
}

/// Relies on `alloc::string::String::push`: appends the character to the
/// end of the string.
pub assume_specification[ std::string::String::push ](s: &mut std::string::String, c: char)
    ensures
        final(s)@ == old(s)@.push(c),
;

proof fn lemma_trim_front_skip(s: Seq<char>, lo: int)
    requires
        0 <= lo <= s.len(),
        forall|k: int| 0 <= k < lo ==> is_ws(s[k]),
    ensures
        trim_front(s) == trim_front(s.subrange(lo, s.len() as int)),
    decreases lo,
{
    if lo == 0 {
        assert(s.subrange(0, s.len() as int) =~= s);
    } else {
        lemma_trim_front_skip(s, lo - 1);
        let t = s.subrange(lo - 1, s.len() as int);
        assert(t.len() > 0 && is_ws(t[0]));
        assert(t.drop_first() =~= s.subrange(lo, s.len() as int));
    }
}

proof fn lemma_trim_back_cut(s: Seq<char>, hi: int)
    requires
        0 <= hi <= s.len(),
        forall|k: int| hi <= k < s.len() ==> is_ws(s[k]),
    ensures
        trim_back(s) == trim_back(s.subrange(0, hi)),
    decreases s.len() - hi,
{
    if hi == s.len() {
        assert(s.subrange(0, s.len() as int) =~= s);
    } else {
        let t = s.subrange(0, hi + 1);
        lemma_trim_back_cut(s, hi + 1);
        assert(t.len() > 0 && is_ws(t.last()));
        assert(t.drop_last() =~= s.subrange(0, hi));
    }
}

/// Remove surrounding whitespace, as the lexer does before a comment
/// token is emitted.
pub fn trim_string(s: &str) -> (r: String)
    ensures
        r@ == trim_spec(s@),
{
    let n = s.unicode_len();
    let mut lo: usize = 0;
    while lo < n && is_whitespace_char(s.get_char(lo))
        invariant
            0 <= lo <= n,
            n == s@.len(),
            forall|k: int| 0 <= k < lo ==> is_ws(s@[k]),
        decreases n - lo,
    {
        lo = lo + 1;
    }
    proof {
        lemma_trim_front_skip(s@, lo as int);
    }
    let mut hi: usize = n;
    while hi > lo && is_whitespace_char(s.get_char(hi - 1))
        invariant
            lo <= hi <= n,
            n == s@.len(),
            forall|k: int| hi <= k < n ==> is_ws(s@[k]),
        decreases hi,
    {
        hi = hi - 1;
    }
    proof {
        let mid = s@.subrange(lo as int, n as int);
        let cut = s@.subrange(lo as int, hi as int);
        if lo < n {
            assert(mid[0] == s@[lo as int]);
            assert(trim_front(mid) == mid);
        }
        assert(trim_front(s@) == mid);
        assert forall|k: int| hi - lo <= k < mid.len() implies is_ws(mid[k]) by {
            assert(mid[k] == s@[k + lo]);
        }
        lemma_trim_back_cut(mid, hi - lo);
        assert(mid.subrange(0, hi - lo) =~= cut);
        if cut.len() > 0 {
            assert(cut.last() == s@[hi - 1]);
        }
        assert(trim_back(cut) == cut);
        assert(trim_spec(s@) == cut);
    }
    let piece = s.substring_char(lo, hi);
    piece.to_owned()
}

} // verus!
